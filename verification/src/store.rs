//! The node store: immutable, dictionary-encoded node storage built once
//! from a stream of validated records.
//!
//! The first record fixes the interned-field column slate; every record is
//! then encoded against it. The record whose parent is itself is the root:
//! its mutation list is captured separately and cleared, and it gets no
//! child-to-parent entry. Load is all-or-nothing: an empty stream, a
//! duplicated node id, a root count other than one, or a coordinate too
//! large for the fixed-point range refuses the whole input.

use crate::dict::Dictionary;
use crate::node::{meta_get, pairs_view, Node, NodeRecord};
use crate::num::{round_div, rounded_div, COORD_LIMIT};
use vstd::prelude::*;

verus! {

/// Why a load was refused.
#[derive(Clone, Copy, Debug, PartialEq, Eq, Structural)]
pub enum LoadError {
    /// The record stream held no records at all.
    EmptyInput,
    /// Two records carried the same `node_id`.
    DuplicateNodeId,
    /// No record had `parent_id == node_id`.
    NoRoot,
    /// More than one record had `parent_id == node_id`.
    MultipleRoots,
    /// A vertical coordinate fell outside the fixed-point input range.
    CoordinateOutOfRange,
}

/// The immutable tree store and its derived lookup structures.
pub struct NodeStore {
    pub nodes: Vec<Node>,
    /// `(child id, parent id)` for every non-root node, in input order.
    pub child_to_parent: Vec<(i64, i64)>,
    pub root_id: i64,
    /// The mutation list the root record carried, moved out of the node.
    pub root_mutations: Vec<i64>,
    /// The interned-field column slate, fixed by the first record.
    pub meta_keys: Vec<String>,
    /// One dictionary per slate column.
    pub dicts: Vec<Dictionary>,
}

/// The column slate of a record stream: the field names of the first
/// record, in order.
pub open spec fn slate_of(rs: Seq<NodeRecord>) -> Seq<Seq<char>>
    recommends
        rs.len() > 0,
{
    pairs_view(rs[0].meta@).map_values(|p: (Seq<char>, Seq<char>)| p.0)
}

/// Dictionary contents for field `key` after the first `upto` records:
/// the distinct values seen for that field, in first-occurrence order.
pub open spec fn spec_dict(rs: Seq<NodeRecord>, key: Seq<char>, upto: int) -> Seq<Seq<char>>
    recommends
        upto <= rs.len(),
    decreases upto,
{
    if upto <= 0 {
        Seq::empty()
    } else {
        let d = spec_dict(rs, key, upto - 1);
        match rs[upto - 1].meta_value(key) {
            None => d,
            Some(v) => if d.contains(v) {
                d
            } else {
                d.push(v)
            },
        }
    }
}

/// Child-to-parent pairs of the non-root records, in input order.
pub open spec fn spec_c2p(rs: Seq<NodeRecord>) -> Seq<(i64, i64)>
    decreases rs.len(),
{
    if rs.len() == 0 {
        Seq::empty()
    } else {
        let p = spec_c2p(rs.drop_last());
        let r = rs.last();
        if r.is_root() {
            p
        } else {
            p.push((r.node_id, r.parent_id))
        }
    }
}

/// Child-to-parent pairs of the non-root stored nodes, in storage order.
pub open spec fn spec_c2p_nodes(ns: Seq<Node>) -> Seq<(i64, i64)>
    decreases ns.len(),
{
    if ns.len() == 0 {
        Seq::empty()
    } else {
        let p = spec_c2p_nodes(ns.drop_last());
        let n = ns.last();
        if n.is_root() {
            p
        } else {
            p.push((n.node_id, n.parent_id))
        }
    }
}

/// No two records share a node id.
pub open spec fn ids_distinct(rs: Seq<NodeRecord>) -> bool {
    forall|i: int, j: int| 0 <= i < j < rs.len() ==> rs[i].node_id != rs[j].node_id
}

/// Number of records that describe a root.
pub open spec fn root_count(rs: Seq<NodeRecord>) -> int
    decreases rs.len(),
{
    if rs.len() == 0 {
        0
    } else {
        root_count(rs.drop_last()) + if rs.last().is_root() {
            1int
        } else {
            0int
        }
    }
}

/// Every vertical coordinate fits the fixed-point input range.
pub open spec fn ys_in_range(rs: Seq<NodeRecord>) -> bool {
    forall|i: int| 0 <= i < rs.len() ==> -COORD_LIMIT <= #[trigger] rs[i].y_micro <= COORD_LIMIT
}

/// A record stream the store accepts: non-empty, distinct ids, exactly one
/// root, coordinates in range.
pub open spec fn records_valid(rs: Seq<NodeRecord>) -> bool {
    &&& rs.len() > 0
    &&& ids_distinct(rs)
    &&& root_count(rs) == 1
    &&& ys_in_range(rs)
}

/// The error an invalid record stream is refused with, in check order.
pub open spec fn expected_load_error(rs: Seq<NodeRecord>) -> LoadError {
    if rs.len() == 0 {
        LoadError::EmptyInput
    } else if !ids_distinct(rs) {
        LoadError::DuplicateNodeId
    } else if !ys_in_range(rs) {
        LoadError::CoordinateOutOfRange
    } else if root_count(rs) == 0 {
        LoadError::NoRoot
    } else {
        LoadError::MultipleRoots
    }
}

/// The meta code a stored node carries for field `key` is `-1` when record
/// `i` lacks the field, and otherwise decodes through the dictionary state
/// after record `i` to exactly the record's value.
pub open spec fn meta_code_ok(code: i64, rs: Seq<NodeRecord>, i: int, key: Seq<char>) -> bool {
    match rs[i].meta_value(key) {
        None => code == -1,
        Some(v) => {
            let d = spec_dict(rs, key, i + 1);
            &&& 0 <= code < d.len()
            &&& d[code as int] == v
        },
    }
}

/// Stored node `n` is record `rs[i]` dictionary-encoded against the stream
/// `rs`: plain fields copied, the root's mutation list cleared, and meta
/// codes per [`meta_code_ok`].
pub open spec fn node_encodes_record(n: Node, rs: Seq<NodeRecord>, i: int) -> bool
    recommends
        0 <= i < rs.len(),
{
    let r = rs[i];
    let slate = slate_of(rs);
    &&& n.name@ == r.name@
    &&& n.x_micro == r.x_micro
    &&& n.y_micro == r.y_micro
    &&& n.parent_id == r.parent_id
    &&& n.node_id == r.node_id
    &&& n.num_tips == r.num_tips
    &&& pairs_view(n.clades@) == pairs_view(r.clades@)
    &&& (if r.is_root() {
        n.mutations@ == Seq::<i64>::empty()
    } else {
        n.mutations@ == r.mutations@
    })
    &&& n.meta@.len() == slate.len()
    &&& forall|k: int| 0 <= k < slate.len() ==> meta_code_ok(#[trigger] n.meta@[k], rs, i, slate[k])
}

/// The store is exactly the dictionary-encoded form of the record stream.
pub open spec fn built_from(store: NodeStore, rs: Seq<NodeRecord>) -> bool {
    let slate = slate_of(rs);
    &&& rs.len() > 0
    &&& store.nodes@.len() == rs.len()
    &&& forall|i: int| 0 <= i < rs.len() ==> node_encodes_record(#[trigger] store.nodes@[i], rs, i)
    &&& store.meta_keys@.map_values(|s: String| s@) == slate
    &&& store.dicts@.len() == slate.len()
    &&& forall|k: int|
        0 <= k < slate.len() ==> (#[trigger] store.dicts@[k]).wf() && store.dicts@[k].model()
            == spec_dict(rs, slate[k], rs.len() as int)
    &&& store.child_to_parent@ == spec_c2p(rs)
    &&& forall|i: int|
        0 <= i < rs.len() && (#[trigger] rs[i]).is_root() ==> store.root_id == rs[i].node_id
            && store.root_mutations@ == rs[i].mutations@
}

impl NodeStore {
    /// Dictionary-related well-formedness: one dictionary per slate column,
    /// every stored code in range.
    pub open spec fn meta_wf(&self) -> bool {
        &&& self.dicts@.len() == self.meta_keys@.len()
        &&& forall|k: int| 0 <= k < self.dicts@.len() ==> (#[trigger] self.dicts@[k]).wf()
        &&& forall|i: int|
            0 <= i < self.nodes@.len() ==> (#[trigger] self.nodes@[i]).meta@.len()
                == self.dicts@.len()
        &&& forall|i: int, k: int|
            0 <= i < self.nodes@.len() && 0 <= k < self.dicts@.len() ==> (
            #[trigger] self.nodes@[i].meta@[k]) == -1 || (0 <= self.nodes@[i].meta@[k]
                < self.dicts@[k].model().len())
    }

    /// Tree-related well-formedness: non-empty, distinct ids, exactly one
    /// root carrying `root_id`, and the parent table exactly mirrors the
    /// non-root nodes.
    pub open spec fn tree_wf(&self) -> bool {
        &&& self.nodes@.len() > 0
        &&& forall|i: int, j: int|
            0 <= i < j < self.nodes@.len() ==> self.nodes@[i].node_id != self.nodes@[j].node_id
        &&& exists|i: int| 0 <= i < self.nodes@.len() && (#[trigger] self.nodes@[i]).is_root()
        &&& forall|i: int, j: int|
            0 <= i < self.nodes@.len() && 0 <= j < self.nodes@.len() && (
            #[trigger] self.nodes@[i]).is_root() && (#[trigger] self.nodes@[j]).is_root() ==> i == j
        &&& forall|i: int|
            0 <= i < self.nodes@.len() && (#[trigger] self.nodes@[i]).is_root()
                ==> self.nodes@[i].node_id == self.root_id
        &&& self.child_to_parent@ == spec_c2p_nodes(self.nodes@)
    }

    /// Full well-formedness of a store.
    pub open spec fn wf(&self) -> bool {
        self.meta_wf() && self.tree_wf()
    }

    /// Every parent id the table records is itself a stored node's id: the
    /// resolvability invariant of the source tree, assumed of the data and
    /// not re-verified at load.
    pub open spec fn ids_resolve(&self) -> bool {
        forall|j: int|
            0 <= j < self.child_to_parent@.len() ==> exists|i: int|
                0 <= i < self.nodes@.len() && (#[trigger] self.nodes@[i]).node_id == (
                #[trigger] self.child_to_parent@[j]).1
    }
}

/// Dictionary round-trip: for every interned field and every record that
/// carried that field, decoding the stored code through the final
/// dictionary yields exactly the original input value.
pub proof fn lemma_dictionary_round_trip(store: NodeStore, rs: Seq<NodeRecord>, i: int, k: int)
    requires
        built_from(store, rs),
        records_valid(rs),
        0 <= i < rs.len(),
        0 <= k < slate_of(rs).len(),
    ensures
        rs[i].meta_value(slate_of(rs)[k]) matches Some(v) ==> {
            let code = store.nodes@[i].meta@[k];
            &&& 0 <= code < store.dicts@[k].model().len()
            &&& store.dicts@[k].model()[code as int] == v
        },
{
    let slate = slate_of(rs);
    assert(node_encodes_record(store.nodes@[i], rs, i));
    assert(meta_code_ok(store.nodes@[i].meta@[k], rs, i, slate[k]));
    if rs[i].meta_value(slate[k]) is Some {
        lemma_spec_dict_prefix(rs, slate[k], i + 1, rs.len() as int);
    }
}

/// A dictionary never holds more values than the records that fed it.
pub proof fn lemma_spec_dict_len(rs: Seq<NodeRecord>, key: Seq<char>, upto: int)
    ensures
        spec_dict(rs, key, upto).len() <= if upto <= 0 {
            0
        } else {
            upto
        },
    decreases upto,
{
    if upto > 0 {
        lemma_spec_dict_len(rs, key, upto - 1);
    }
}

/// Dictionary states grow by extension only: an earlier state is a prefix
/// of every later one.
pub proof fn lemma_spec_dict_prefix(rs: Seq<NodeRecord>, key: Seq<char>, a: int, b: int)
    requires
        a <= b,
    ensures
        spec_dict(rs, key, a).is_prefix_of(spec_dict(rs, key, b)),
    decreases b - a,
{
    if a < b {
        lemma_spec_dict_prefix(rs, key, a, b - 1);
    }
}

/// A record stream with no root record has root count zero, and conversely.
pub proof fn lemma_root_count_zero(rs: Seq<NodeRecord>)
    ensures
        root_count(rs) == 0 <==> (forall|i: int| 0 <= i < rs.len() ==> !(#[trigger] rs[i]).is_root()),
        root_count(rs) >= 0,
    decreases rs.len(),
{
    if rs.len() > 0 {
        lemma_root_count_zero(rs.drop_last());
        if root_count(rs) == 0 {
            assert forall|i: int| 0 <= i < rs.len() implies !(#[trigger] rs[i]).is_root() by {
                if i < rs.len() - 1 {
                    assert(rs.drop_last()[i] == rs[i]);
                }
            }
        }
        if forall|i: int| 0 <= i < rs.len() ==> !(#[trigger] rs[i]).is_root() {
            assert(forall|i: int|
                0 <= i < rs.drop_last().len() ==> !(#[trigger] rs.drop_last()[i]).is_root());
        }
    }
}

/// A record stream with root count one has exactly one root record.
pub proof fn lemma_root_count_one(rs: Seq<NodeRecord>)
    requires
        root_count(rs) == 1,
    ensures
        exists|i: int| 0 <= i < rs.len() && (#[trigger] rs[i]).is_root(),
        forall|i: int, j: int|
            0 <= i < rs.len() && 0 <= j < rs.len() && (#[trigger] rs[i]).is_root() && (
            #[trigger] rs[j]).is_root() ==> i == j,
    decreases rs.len(),
{
    lemma_root_count_zero(rs.drop_last());
    if rs.last().is_root() {
        assert(root_count(rs.drop_last()) == 0);
        assert forall|i: int, j: int|
            0 <= i < rs.len() && 0 <= j < rs.len() && (#[trigger] rs[i]).is_root() && (
            #[trigger] rs[j]).is_root() implies i == j by {
            if i < rs.len() - 1 {
                assert(rs.drop_last()[i] == rs[i]);
            }
            if j < rs.len() - 1 {
                assert(rs.drop_last()[j] == rs[j]);
            }
        }
    } else {
        lemma_root_count_one(rs.drop_last());
        let w = choose|i: int|
            0 <= i < rs.drop_last().len() && (#[trigger] rs.drop_last()[i]).is_root();
        assert(rs[w].is_root());
        assert forall|i: int, j: int|
            0 <= i < rs.len() && 0 <= j < rs.len() && (#[trigger] rs[i]).is_root() && (
            #[trigger] rs[j]).is_root() implies i == j by {
            assert(rs.drop_last()[i] == rs[i]);
            assert(rs.drop_last()[j] == rs[j]);
        }
    }
}

/// A store built from a valid record stream is well-formed.
pub proof fn lemma_built_from_wf(store: NodeStore, rs: Seq<NodeRecord>)
    requires
        built_from(store, rs),
        records_valid(rs),
    ensures
        store.wf(),
{
    let slate = slate_of(rs);
    let ns = store.nodes@;
    assert(store.meta_keys@.map_values(|s: String| s@).len() == store.meta_keys@.len());
    assert forall|i: int| 0 <= i < ns.len() implies (#[trigger] ns[i]).meta@.len()
        == store.dicts@.len() by {
        assert(node_encodes_record(ns[i], rs, i));
    }
    assert forall|i: int, k: int|
        0 <= i < ns.len() && 0 <= k < store.dicts@.len() implies (#[trigger] ns[i].meta@[k]) == -1
        || (0 <= ns[i].meta@[k] < store.dicts@[k].model().len()) by {
        assert(node_encodes_record(ns[i], rs, i));
        assert(meta_code_ok(ns[i].meta@[k], rs, i, slate[k]));
        if rs[i].meta_value(slate[k]) is Some {
            lemma_spec_dict_prefix(rs, slate[k], i + 1, rs.len() as int);
        }
    }
    lemma_root_count_one(rs);
    let w = choose|i: int| 0 <= i < rs.len() && (#[trigger] rs[i]).is_root();
    assert(node_encodes_record(ns[w], rs, w));
    assert(ns[w].is_root());
    assert forall|i: int, j: int| 0 <= i < j < ns.len() implies ns[i].node_id != ns[j].node_id by {
        assert(node_encodes_record(ns[i], rs, i));
        assert(node_encodes_record(ns[j], rs, j));
    }
    assert forall|i: int, j: int|
        0 <= i < ns.len() && 0 <= j < ns.len() && (#[trigger] ns[i]).is_root() && (
        #[trigger] ns[j]).is_root() implies i == j by {
        assert(node_encodes_record(ns[i], rs, i));
        assert(node_encodes_record(ns[j], rs, j));
        assert(rs[i].is_root() && rs[j].is_root());
    }
    assert forall|i: int|
        0 <= i < ns.len() && (#[trigger] ns[i]).is_root() implies ns[i].node_id
        == store.root_id by {
        assert(node_encodes_record(ns[i], rs, i));
        assert(rs[i].is_root());
    }
    assert forall|i: int|
        0 <= i < ns.len() implies (#[trigger] ns[i]).node_id == rs[i].node_id && ns[i].parent_id
        == rs[i].parent_id by {
        assert(node_encodes_record(ns[i], rs, i));
    }
    lemma_c2p_agree(ns, rs);
}

/// Nodes that agree with records on ids and parents yield the same
/// child-to-parent table.
pub proof fn lemma_c2p_agree(ns: Seq<Node>, rs: Seq<NodeRecord>)
    requires
        ns.len() == rs.len(),
        forall|i: int|
            0 <= i < ns.len() ==> (#[trigger] ns[i]).node_id == rs[i].node_id && ns[i].parent_id
                == rs[i].parent_id,
    ensures
        spec_c2p_nodes(ns) == spec_c2p(rs),
    decreases ns.len(),
{
    if ns.len() > 0 {
        assert(forall|i: int|
            0 <= i < ns.drop_last().len() ==> (#[trigger] ns.drop_last()[i]).node_id
                == rs.drop_last()[i].node_id && ns.drop_last()[i].parent_id
                == rs.drop_last()[i].parent_id);
        lemma_c2p_agree(ns.drop_last(), rs.drop_last());
    }
}

/// Checks that no two records share a node id.
fn check_ids_distinct(records: &Vec<NodeRecord>) -> (ok: bool)
    ensures
        ok == ids_distinct(records@),
{
    let n: usize = records.len();
    let mut i: usize = 0;
    while i < n
        invariant
            0 <= i <= n == records@.len(),
            forall|a: int, b: int|
                0 <= a < b < n && a < i ==> records@[a].node_id != records@[b].node_id,
        decreases n - i,
    {
        let mut j: usize = i + 1;
        while j < n
            invariant
                0 <= i < j <= n == records@.len(),
                forall|b: int| i < b < j ==> records@[i as int].node_id != records@[b].node_id,
            decreases n - j,
        {
            if records[i].node_id == records[j].node_id {
                assert(!ids_distinct(records@));
                return false;
            }
            j += 1;
        }
        i += 1;
    }
    true
}

/// Checks that every vertical coordinate fits the fixed-point input range.
fn check_ys_in_range(records: &Vec<NodeRecord>) -> (ok: bool)
    ensures
        ok == ys_in_range(records@),
{
    let n: usize = records.len();
    let mut i: usize = 0;
    while i < n
        invariant
            0 <= i <= n == records@.len(),
            forall|j: int| 0 <= j < i ==> -COORD_LIMIT <= #[trigger] records@[j].y_micro
                <= COORD_LIMIT,
        decreases n - i,
    {
        let y: i64 = records[i].y_micro;
        if y < -COORD_LIMIT || y > COORD_LIMIT {
            assert(!ys_in_range(records@));
            return false;
        }
        i += 1;
    }
    true
}

/// Counts the root records, returning the count and the position of the
/// first one.
fn scan_roots(records: &Vec<NodeRecord>) -> (r: (usize, usize))
    ensures
        r.0 as int == root_count(records@),
        r.0 > 0 ==> r.1 < records@.len() && records@[r.1 as int].is_root(),
{
    let n: usize = records.len();
    let mut count: usize = 0;
    let mut first: usize = 0;
    let mut i: usize = 0;
    proof {
        assert(records@.take(0) =~= Seq::<NodeRecord>::empty());
    }
    while i < n
        invariant
            0 <= i <= n == records@.len(),
            count as int == root_count(records@.take(i as int)),
            count <= i,
            count > 0 ==> first < i && records@[first as int].is_root(),
        decreases n - i,
    {
        proof {
            assert(records@.take(i as int + 1).drop_last() =~= records@.take(i as int));
            assert(records@.take(i as int + 1).last() == records@[i as int]);
        }
        if records[i].parent_id == records[i].node_id {
            if count == 0 {
                first = i;
            }
            count += 1;
        }
        i += 1;
    }
    proof {
        assert(records@.take(n as int) =~= records@);
    }
    (count, first)
}

impl NodeStore {
    /// Builds the store from an ordered stream of validated records, all or
    /// nothing.
    ///
    /// The first record fixes the column slate; every slated field present
    /// on a record is interned into that column's dictionary, absent fields
    /// code to `-1`. The record whose parent is itself becomes the root:
    /// its id and mutation list are captured and its stored mutation list
    /// cleared; every other record contributes a child-to-parent entry.
    #[verifier::loop_isolation(false)]
    pub fn build(mut records: Vec<NodeRecord>) -> (r: Result<NodeStore, LoadError>)
        requires
            records@.len() <= i64::MAX,
        ensures
            match r {
                Ok(store) => records_valid(records@) && built_from(store, records@)
                    && store.wf(),
                Err(e) => !records_valid(records@) && e == expected_load_error(records@),
            },
    {
        let ghost rs = records@;
        let n: usize = records.len();
        if n == 0 {
            return Err(LoadError::EmptyInput);
        }
        if !check_ids_distinct(&records) {
            return Err(LoadError::DuplicateNodeId);
        }
        if !check_ys_in_range(&records) {
            return Err(LoadError::CoordinateOutOfRange);
        }
        let counted = scan_roots(&records);
        if counted.0 == 0 {
            return Err(LoadError::NoRoot);
        }
        if counted.0 >= 2 {
            return Err(LoadError::MultipleRoots);
        }
        proof {
            lemma_root_count_one(rs);
        }
        let ghost slate = slate_of(rs);

        let mut meta_keys: Vec<String> = Vec::new();
        let mut dicts: Vec<Dictionary> = Vec::new();
        let mut nodes: Vec<Node> = Vec::new();
        let mut c2p: Vec<(i64, i64)> = Vec::new();
        let mut root_id: i64 = 0;
        let mut root_muts: Vec<i64> = Vec::new();
        let mut i: usize = 0;
        proof {
            assert(rs.skip(0) =~= rs);
            assert(rs.take(0) =~= Seq::<NodeRecord>::empty());
        }
        while i < n
            invariant
                0 <= i <= n,
                records@ == rs.skip(i as int),
                i > 0 ==> meta_keys@.map_values(|s: String| s@) == slate,
                i == 0 ==> meta_keys@.len() == 0,
                dicts@.len() == meta_keys@.len(),
                forall|k: int|
                    0 <= k < dicts@.len() ==> (#[trigger] dicts@[k]).wf() && dicts@[k].model()
                        == spec_dict(rs, slate[k], i as int),
                nodes@.len() == i,
                forall|j: int| 0 <= j < i ==> node_encodes_record(#[trigger] nodes@[j], rs, j),
                c2p@ == spec_c2p(rs.take(i as int)),
                forall|j: int|
                    0 <= j < i && (#[trigger] rs[j]).is_root() ==> root_id == rs[j].node_id
                        && root_muts@ == rs[j].mutations@,
            decreases n - i,
        {
            let mut rec = records.remove(0);
            proof {
                assert(rec == rs[i as int]);
                assert(records@ =~= rs.skip(i as int + 1));
            }
            if i == 0 {
                let m: usize = rec.meta.len();
                let mut k: usize = 0;
                while k < m
                    invariant
                        0 <= k <= m,
                        meta_keys@.len() == k,
                        dicts@.len() == k,
                        forall|k2: int| 0 <= k2 < k ==> #[trigger] meta_keys@[k2]@ == slate[k2],
                        forall|k2: int|
                            0 <= k2 < k ==> (#[trigger] dicts@[k2]).wf() && dicts@[k2].model()
                                =~= Seq::<Seq<char>>::empty(),
                    decreases m - k,
                {
                    meta_keys.push(rec.meta[k].0.clone());
                    dicts.push(Dictionary::new());
                    k += 1;
                }
                proof {
                    assert(meta_keys@.map_values(|s: String| s@) =~= slate);
                    assert(forall|k2: int|
                        0 <= k2 < dicts@.len() ==> #[trigger] dicts@[k2].model() =~= spec_dict(
                            rs,
                            slate[k2],
                            0,
                        ));
                }
            }
            let nk: usize = meta_keys.len();
            let mut meta: Vec<i64> = Vec::new();
            let mut k: usize = 0;
            while k < nk
                invariant
                    0 <= k <= nk,
                    meta@.len() == k,
                    dicts@.len() == nk,
                    forall|k2: int|
                        k <= k2 < nk ==> (#[trigger] dicts@[k2]).wf() && dicts@[k2].model()
                            == spec_dict(rs, slate[k2], i as int),
                    forall|k2: int|
                        0 <= k2 < k ==> (#[trigger] dicts@[k2]).wf() && dicts@[k2].model()
                            == spec_dict(rs, slate[k2], i as int + 1),
                    forall|k2: int|
                        0 <= k2 < k ==> meta_code_ok(#[trigger] meta@[k2], rs, i as int, slate[k2]),
                decreases nk - k,
            {
                proof {
                    lemma_spec_dict_len(rs, slate[k as int], i as int);
                    lemma_spec_dict_len(rs, slate[k as int], i as int + 1);
                }
                let looked = meta_get(&rec.meta, &meta_keys[k]);
                match looked {
                    Some(v) => {
                        let code: usize = dicts[k].encode(v);
                        meta.push(code as i64);
                    },
                    None => {
                        meta.push(-1);
                    },
                }
                k += 1;
            }
            proof {
                assert(rs.take(i as int + 1).drop_last() =~= rs.take(i as int));
                assert(rs.take(i as int + 1).last() == rs[i as int]);
            }
            if rec.parent_id == rec.node_id {
                root_id = rec.node_id;
                let muts = rec.mutations;
                rec.mutations = Vec::new();
                root_muts = muts;
            } else {
                c2p.push((rec.node_id, rec.parent_id));
            }
            let node = Node {
                name: rec.name,
                x_micro: rec.x_micro,
                y_micro: rec.y_micro,
                mutations: rec.mutations,
                parent_id: rec.parent_id,
                node_id: rec.node_id,
                num_tips: rec.num_tips,
                clades: rec.clades,
                meta,
            };
            nodes.push(node);
            i += 1;
        }
        proof {
            assert(rs.take(n as int) =~= rs);
        }
        let store = NodeStore { nodes, child_to_parent: c2p, root_id, root_mutations: root_muts, meta_keys, dicts };
        proof {
            lemma_built_from_wf(store, rs);
        }
        Ok(store)
    }
}

/// The rescaled vertical coordinate for a store of `count` nodes:
/// `y * 2400 / count` when the store is large, `y * 2400 / (count * 0.6666)`
/// (as the exact rational `y * 24000000 / (6666 * count)`) when it is
/// small, each rounded to the nearest micro-unit.
pub open spec fn scaled_y(y: int, count: int) -> int
    recommends
        count >= 1,
{
    if count > 10000 {
        round_div(y * 2400, count)
    } else {
        round_div(y * 24000000, 6666 * count)
    }
}

/// `n_new` is `n_old` with only the vertical coordinate replaced by its
/// rescaled value.
pub open spec fn node_rescaled(n_old: Node, n_new: Node, count: int) -> bool {
    &&& n_new.y_micro == scaled_y(n_old.y_micro as int, count)
    &&& n_new.name == n_old.name
    &&& n_new.x_micro == n_old.x_micro
    &&& n_new.mutations == n_old.mutations
    &&& n_new.parent_id == n_old.parent_id
    &&& n_new.node_id == n_old.node_id
    &&& n_new.num_tips == n_old.num_tips
    &&& n_new.clades == n_old.clades
    &&& n_new.meta == n_old.meta
}

/// Rescales every vertical coordinate so that small trees are stretched and
/// large trees fit a nominal 2400-unit canvas height.
#[verifier::loop_isolation(false)]
pub fn scale_y_coordinates(nodes: &mut Vec<Node>)
    requires
        forall|i: int|
            0 <= i < old(nodes)@.len() ==> -COORD_LIMIT <= (#[trigger] old(nodes)@[i]).y_micro
                <= COORD_LIMIT,
    ensures
        final(nodes)@.len() == old(nodes)@.len(),
        forall|i: int|
            0 <= i < old(nodes)@.len() ==> node_rescaled(
                old(nodes)@[i],
                #[trigger] final(nodes)@[i],
                old(nodes)@.len() as int,
            ),
{
    let n: usize = nodes.len();
    let mut i: usize = 0;
    while i < n
        invariant
            0 <= i <= n,
            nodes@.len() == n,
            forall|j: int| i <= j < n ==> nodes@[j] == old(nodes)@[j],
            forall|j: int|
                0 <= j < i ==> node_rescaled(old(nodes)@[j], #[trigger] nodes@[j], n as int),
        decreases n - i,
    {
        let y: i64 = nodes[i].y_micro;
        let scaled: i128 = if n > 10000 {
            proof {
                assert(3_700_000_000_000_000_000int * (n as int) >= 3_700_000_000_000_000_000int
                    * 10000) by (nonlinear_arith)
                    requires
                        n > 10000,
                ;
                crate::num::lemma_round_div_magnitude(
                    (y as int) * 2400,
                    n as int,
                    3_700_000_000_000_000_000int,
                );
            }
            rounded_div((y as i128) * 2400, n as i128)
        } else {
            proof {
                assert(3_700_000_000_000_000_000int * (6666 * (n as int))
                    >= 3_700_000_000_000_000_000int * 6666) by (nonlinear_arith)
                    requires
                        n >= 1,
                ;
                crate::num::lemma_round_div_magnitude(
                    (y as int) * 24000000,
                    6666 * (n as int),
                    3_700_000_000_000_000_000int,
                );
            }
            rounded_div((y as i128) * 24000000, 6666 * (n as i128))
        };
        nodes[i].y_micro = scaled as i64;
        i += 1;
    }
}

} // verus!
