//! Node data model.
//!
//! A [`NodeRecord`] is one validated input record: layout coordinates in
//! micro-units, ancestry links, and sparse attributes as ordered
//! (key, value) string pairs. A [`Node`] is the stored form, with the sparse
//! attributes replaced by dictionary codes (`-1` meaning "absent"). A
//! [`ResponseNode`] is the rehydrated form a query returns.

use vstd::prelude::*;

verus! {

/// One validated input record, before dictionary encoding.
pub struct NodeRecord {
    pub name: String,
    /// Horizontal layout coordinate, in micro-units.
    pub x_micro: i64,
    /// Vertical layout coordinate, in micro-units.
    pub y_micro: i64,
    /// Ids into the global mutation catalog.
    pub mutations: Vec<i64>,
    pub parent_id: i64,
    pub node_id: i64,
    /// Count of descendant leaves; a node is a leaf iff this is 1.
    pub num_tips: i64,
    /// Clade-scheme name to clade label, stored uncompressed.
    pub clades: Vec<(String, String)>,
    /// Sparse attributes: ordered (field name, encoded value) pairs.
    pub meta: Vec<(String, String)>,
}

/// One stored node; `meta` holds one dictionary code per interned field,
/// `-1` where the field is absent.
pub struct Node {
    pub name: String,
    pub x_micro: i64,
    pub y_micro: i64,
    pub mutations: Vec<i64>,
    pub parent_id: i64,
    pub node_id: i64,
    pub num_tips: i64,
    pub clades: Vec<(String, String)>,
    pub meta: Vec<i64>,
}

/// One rehydrated node of a query response; `meta` holds the decoded
/// (field name, value) pairs of the fields present on the node.
pub struct ResponseNode {
    pub name: String,
    pub x_micro: i64,
    pub y_micro: i64,
    pub mutations: Vec<i64>,
    pub parent_id: i64,
    pub node_id: i64,
    pub num_tips: i64,
    pub clades: Vec<(String, String)>,
    pub meta: Vec<(String, String)>,
}

/// View of a vector of string pairs as a sequence of pairs of character
/// sequences.
pub open spec fn pairs_view(s: Seq<(String, String)>) -> Seq<(Seq<char>, Seq<char>)> {
    s.map_values(|p: (String, String)| (p.0@, p.1@))
}

/// First-match lookup of `key` among ordered (key, value) pairs.
pub open spec fn meta_lookup(pairs: Seq<(Seq<char>, Seq<char>)>, key: Seq<char>) -> Option<
    Seq<char>,
>
    decreases pairs.len(),
{
    if pairs.len() == 0 {
        None
    } else if pairs[0].0 == key {
        Some(pairs[0].1)
    } else {
        meta_lookup(pairs.drop_first(), key)
    }
}

impl NodeRecord {
    /// A record describes the root iff its parent is itself.
    pub open spec fn is_root(&self) -> bool {
        self.parent_id == self.node_id
    }

    /// The value this record carries for an interned field, if any.
    pub open spec fn meta_value(&self, key: Seq<char>) -> Option<Seq<char>> {
        meta_lookup(pairs_view(self.meta@), key)
    }
}

impl Node {
    /// A node is the root iff its parent is itself.
    pub open spec fn is_root(&self) -> bool {
        self.parent_id == self.node_id
    }

    /// A node is a leaf (tip) iff it has exactly one descendant leaf:
    /// itself.
    pub open spec fn is_leaf(&self) -> bool {
        self.num_tips == 1
    }
}

/// Finds the value of the first pair whose key equals `key`, as
/// [`meta_lookup`] does.
pub fn meta_get<'a>(pairs: &'a Vec<(String, String)>, key: &String) -> (r: Option<&'a String>)
    ensures
        match r {
            Some(v) => meta_lookup(pairs_view(pairs@), key@) == Some(v@),
            None => meta_lookup(pairs_view(pairs@), key@) is None,
        },
{
    let n: usize = pairs.len();
    let mut i: usize = 0;
    proof {
        assert(pairs_view(pairs@).skip(0) =~= pairs_view(pairs@));
    }
    while i < n
        invariant
            0 <= i <= n == pairs@.len(),
            meta_lookup(pairs_view(pairs@), key@) == meta_lookup(
                pairs_view(pairs@).skip(i as int),
                key@,
            ),
            forall|j: int| 0 <= j < i ==> pairs_view(pairs@)[j].0 != key@,
        decreases n - i,
    {
        if pairs[i].0 == *key {
            proof {
                assert(pairs_view(pairs@).skip(i as int)[0] == pairs_view(pairs@)[i as int]);
            }
            return Some(&pairs[i].1);
        }
        proof {
            assert(pairs_view(pairs@).skip(i as int).drop_first() =~= pairs_view(pairs@).skip(
                i as int + 1,
            ));
        }
        i += 1;
    }
    None
}

} // verus!
