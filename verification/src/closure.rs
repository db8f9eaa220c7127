//! Ancestor closure: expands a reduced node set to include every ancestor
//! up to the root, so that no retained node's lineage path is ever broken.
//!
//! The parent relation is the child-to-parent table, which excludes the
//! root. A work-list walk adds each missing parent exactly once; the walk
//! terminates because the selected set only grows inside a fixed finite
//! universe of ids.

use crate::node::Node;
use crate::query::{idxs_in_range, idxs_view};
use crate::store::spec_c2p_nodes;
use vstd::prelude::*;
use vstd::seq_lib::seq_to_set_is_finite;
use vstd::set_lib::lemma_len_subset;

verus! {

/// The table has an entry for child `id`.
pub open spec fn has_parent(c2p: Seq<(i64, i64)>, id: int) -> bool {
    exists|j: int| 0 <= j < c2p.len() && (#[trigger] c2p[j]).0 as int == id
}

/// The parent recorded for child `id` (unique when keys are distinct).
pub open spec fn parent_of(c2p: Seq<(i64, i64)>, id: int) -> int
    recommends
        has_parent(c2p, id),
{
    let j = choose|j: int| 0 <= j < c2p.len() && (#[trigger] c2p[j]).0 as int == id;
    c2p[j].1 as int
}

/// The table's child ids are pairwise distinct.
pub open spec fn keys_distinct(c2p: Seq<(i64, i64)>) -> bool {
    forall|a: int, b: int|
        0 <= a < b < c2p.len() ==> (#[trigger] c2p[a]).0 != (#[trigger] c2p[b]).0
}

/// Looks a child id up in the table. `None` means the id is the root or
/// untracked.
#[verifier::loop_isolation(false)]
pub fn lookup_parent(c2p: &Vec<(i64, i64)>, id: i64) -> (r: Option<i64>)
    requires
        keys_distinct(c2p@),
    ensures
        match r {
            Some(p) => has_parent(c2p@, id as int) && p as int == parent_of(c2p@, id as int),
            None => !has_parent(c2p@, id as int),
        },
{
    let n: usize = c2p.len();
    let mut i: usize = 0;
    while i < n
        invariant
            0 <= i <= n,
            forall|j: int| 0 <= j < i ==> (#[trigger] c2p@[j]).0 != id,
        decreases n - i,
    {
        let entry = c2p[i];
        if entry.0 == id {
            proof {
                assert(has_parent(c2p@, id as int));
                let w = choose|j: int|
                    0 <= j < c2p@.len() && (#[trigger] c2p@[j]).0 as int == id as int;
                assert(w == i as int);
            }
            return Some(entry.1);
        }
        i += 1;
    }
    None
}

/// `anc` is the ancestor reached from `start` after exactly `k` parent
/// steps through the table.
pub open spec fn ancestor_at(c2p: Seq<(i64, i64)>, start: int, k: nat, anc: int) -> bool
    decreases k,
{
    if k == 0 {
        anc == start
    } else {
        has_parent(c2p, start) && ancestor_at(c2p, parent_of(c2p, start), (k - 1) as nat, anc)
    }
}

/// Some chain of parent steps leads from `start` to `anc` (including the
/// empty chain).
pub open spec fn reaches(c2p: Seq<(i64, i64)>, start: int, anc: int) -> bool {
    exists|k: nat| ancestor_at(c2p, start, k, anc)
}

/// The ancestor closure of a seed id set: every id some seed reaches.
pub open spec fn closure_set(c2p: Seq<(i64, i64)>, seeds: Set<int>) -> Set<int> {
    Set::new(|id: int| exists|s0: int| seeds.contains(s0) && #[trigger] reaches(c2p, s0, id))
}

/// A chain to `id` extends by one step to `id`'s parent.
proof fn lemma_ancestor_extend(c2p: Seq<(i64, i64)>, start: int, k: nat, id: int)
    requires
        ancestor_at(c2p, start, k, id),
        has_parent(c2p, id),
    ensures
        ancestor_at(c2p, start, (k + 1) as nat, parent_of(c2p, id)),
    decreases k,
{
    if k == 0 {
        assert(ancestor_at(c2p, parent_of(c2p, id), 0, parent_of(c2p, id)));
        assert(ancestor_at(c2p, id, 1, parent_of(c2p, id)));
    } else {
        lemma_ancestor_extend(c2p, parent_of(c2p, start), (k - 1) as nat, id);
        assert(ancestor_at(c2p, start, (k + 1) as nat, parent_of(c2p, id)));
    }
}

/// Closure completeness: the ancestor closure is closed under the parent
/// relation. Every member the table tracks has its parent in the closure
/// as well, so no lineage path is ever broken.
pub proof fn lemma_closure_parent_closed(c2p: Seq<(i64, i64)>, seeds: Set<int>, id: int)
    requires
        closure_set(c2p, seeds).contains(id),
        has_parent(c2p, id),
    ensures
        closure_set(c2p, seeds).contains(parent_of(c2p, id)),
{
    let s0 = choose|s0: int| seeds.contains(s0) && #[trigger] reaches(c2p, s0, id);
    let k = choose|k: nat| ancestor_at(c2p, s0, k, id);
    lemma_ancestor_extend(c2p, s0, k, id);
    assert(reaches(c2p, s0, parent_of(c2p, id)));
}

/// Every seed belongs to its own closure, by the empty chain.
pub proof fn lemma_closure_contains_seed(c2p: Seq<(i64, i64)>, seeds: Set<int>, s0: int)
    requires
        seeds.contains(s0),
    ensures
        closure_set(c2p, seeds).contains(s0),
{
    assert(ancestor_at(c2p, s0, 0, s0));
    assert(reaches(c2p, s0, s0));
}

/// A set closed under the parent relation contains every ancestor of each
/// of its members.
proof fn lemma_closed_contains_chain(
    c2p: Seq<(i64, i64)>,
    sel: Seq<int>,
    start: int,
    k: nat,
    id: int,
)
    requires
        sel.contains(start),
        ancestor_at(c2p, start, k, id),
        forall|x: int|
            #[trigger] sel.contains(x) && has_parent(c2p, x) ==> sel.contains(parent_of(c2p, x)),
    ensures
        sel.contains(id),
    decreases k,
{
    if k != 0 {
        assert(sel.contains(parent_of(c2p, start)));
        lemma_closed_contains_chain(c2p, sel, parent_of(c2p, start), (k - 1) as nat, id);
    }
}

/// View of an id vector as mathematical integers.
pub open spec fn ids_seq(s: Seq<i64>) -> Seq<int> {
    s.map_values(|x: i64| x as int)
}

/// The node ids a seed index sequence selects.
pub open spec fn seed_id_seq(ns: Seq<Node>, idxs: Seq<int>) -> Seq<int>
    recommends
        idxs_in_range(idxs, ns.len() as int),
{
    idxs.map_values(|i: int| ns[i].node_id as int)
}

/// Indices, in ascending storage order, of the nodes whose id belongs to
/// `ids`.
pub open spec fn select_indices(ns: Seq<Node>, ids: Set<int>) -> Seq<int>
    decreases ns.len(),
{
    if ns.len() == 0 {
        Seq::empty()
    } else {
        let p = select_indices(ns.drop_last(), ids);
        if ids.contains(ns.last().node_id as int) {
            p.push(ns.len() - 1)
        } else {
            p
        }
    }
}

/// Linear membership scan over an id vector.
#[verifier::loop_isolation(false)]
fn contains_id(v: &Vec<i64>, id: i64) -> (b: bool)
    ensures
        b == ids_seq(v@).contains(id as int),
{
    let n: usize = v.len();
    let mut i: usize = 0;
    while i < n
        invariant
            0 <= i <= n,
            forall|j: int| 0 <= j < i ==> #[trigger] ids_seq(v@)[j] != id as int,
        decreases n - i,
    {
        if v[i] == id {
            proof {
                assert(ids_seq(v@)[i as int] == id as int);
            }
            return true;
        }
        i += 1;
    }
    false
}

/// Ancestor closure: seeds a work-list with the reduced index set, walks
/// each id's parent chain, adds every parent not yet selected (each id is
/// pushed at most once), and returns the indices of all selected nodes in
/// storage order.
#[verifier::loop_isolation(false)]
pub fn add_parents(nodes: &Vec<Node>, c2p: &Vec<(i64, i64)>, seeds: Vec<usize>) -> (r: Vec<usize>)
    requires
        keys_distinct(c2p@),
        idxs_in_range(idxs_view(seeds@), nodes@.len() as int),
    ensures
        idxs_view(r@) == select_indices(
            nodes@,
            closure_set(c2p@, seed_id_seq(nodes@, idxs_view(seeds@)).to_set()),
        ),
        idxs_in_range(idxs_view(r@), nodes@.len() as int),
{
    broadcast use seq_to_set_is_finite;

    let ghost ss = seed_id_seq(nodes@, idxs_view(seeds@));
    let ghost sset = ss.to_set();
    let ghost closure = closure_set(c2p@, sset);
    let ghost vals = c2p@.map_values(|p: (i64, i64)| p.1 as int);
    let ghost universe = sset.union(vals.to_set());
    proof {
        lemma_len_subset(sset, universe);
        lemma_len_subset(vals.to_set(), universe);
    }

    let sn: usize = seeds.len();
    let mut selected: Vec<i64> = Vec::new();
    let mut work: Vec<i64> = Vec::new();
    let mut i: usize = 0;
    while i < sn
        invariant
            0 <= i <= sn,
            work@ == selected@,
            ids_seq(selected@).no_duplicates(),
            forall|j: int|
                0 <= j < selected@.len() ==> sset.contains(#[trigger] ids_seq(selected@)[j]),
            forall|j: int| 0 <= j < i ==> ids_seq(selected@).contains(#[trigger] ss[j]),
            selected@.len() <= universe.len(),
        decreases sn - i,
    {
        proof {
            assert(idxs_view(seeds@)[i as int] == seeds@[i as int] as int);
        }
        let idx: usize = seeds[i];
        let id: i64 = nodes[idx].node_id;
        proof {
            assert(ss[i as int] == id as int);
        }
        if !contains_id(&selected, id) {
            let ghost old_sel = selected@;
            selected.push(id);
            work.push(id);
            proof {
                assert(ids_seq(selected@) =~= ids_seq(old_sel).push(id as int));
                assert forall|x: int| ids_seq(old_sel).contains(x) implies ids_seq(
                    selected@,
                ).contains(x) by {
                    let j = choose|j: int|
                        0 <= j < ids_seq(old_sel).len() && ids_seq(old_sel)[j] == x;
                    assert(ids_seq(selected@)[j] == x);
                }
                assert(ids_seq(selected@)[ids_seq(selected@).len() - 1] == id as int);
                assert(ids_seq(selected@).contains(id as int));
                assert(sset.contains(id as int)) by {
                    assert(ss.contains(id as int));
                }
                assert(ids_seq(selected@).no_duplicates());
                ids_seq(selected@).unique_seq_to_set();
                assert(ids_seq(selected@).to_set().subset_of(universe));
                lemma_len_subset(ids_seq(selected@).to_set(), universe);
            }
        }
        i += 1;
    }
    proof {
        assert forall|j: int| 0 <= j < selected@.len() implies closure.contains(
            #[trigger] ids_seq(selected@)[j],
        ) by {
            lemma_closure_contains_seed(c2p@, sset, ids_seq(selected@)[j]);
        }
    }
    while work.len() > 0
        invariant
            ids_seq(selected@).no_duplicates(),
            forall|j: int|
                0 <= j < selected@.len() ==> universe.contains(#[trigger] ids_seq(selected@)[j]),
            forall|j: int|
                0 <= j < selected@.len() ==> closure.contains(#[trigger] ids_seq(selected@)[j]),
            forall|x: int| sset.contains(x) ==> ids_seq(selected@).contains(x),
            forall|j: int|
                0 <= j < work@.len() ==> ids_seq(selected@).contains(#[trigger] ids_seq(work@)[j]),
            forall|x: int|
                #[trigger] ids_seq(selected@).contains(x) && !ids_seq(work@).contains(x)
                    && has_parent(c2p@, x) ==> ids_seq(selected@).contains(parent_of(c2p@, x)),
            selected@.len() <= universe.len(),
        decreases universe.len() - selected@.len(), work@.len(),
    {
        let ghost old_work = work@;
        let popped = work.pop();
        let id: i64 = match popped {
            Some(v) => v,
            None => 0,
        };
        proof {
            assert(ids_seq(work@) =~= ids_seq(old_work).drop_last());
            assert(ids_seq(old_work)[old_work.len() - 1] == id as int);
            assert(ids_seq(selected@).contains(id as int));
        }
        let parent = lookup_parent(c2p, id);
        match parent {
            Some(p) => {
                proof {
                    lemma_closure_parent_closed(c2p@, sset, id as int);
                    let w = choose|j: int|
                        0 <= j < c2p@.len() && (#[trigger] c2p@[j]).0 as int == id as int;
                    assert(vals[w] == p as int);
                    assert(vals.contains(p as int));
                    assert(universe.contains(p as int));
                }
                if !contains_id(&selected, p) {
                    let ghost old_sel = selected@;
                    selected.push(p);
                    work.push(p);
                    proof {
                        assert(ids_seq(selected@) =~= ids_seq(old_sel).push(p as int));
                        assert(ids_seq(work@) =~= ids_seq(old_work).drop_last().push(p as int));
                        assert forall|x: int| ids_seq(old_sel).contains(x) implies ids_seq(
                            selected@,
                        ).contains(x) by {
                            let j = choose|j: int|
                                0 <= j < ids_seq(old_sel).len() && ids_seq(old_sel)[j] == x;
                            assert(ids_seq(selected@)[j] == x);
                        }
                        assert forall|x: int| sset.contains(x) implies ids_seq(
                            selected@,
                        ).contains(x) by {
                            assert(ids_seq(old_sel).contains(x));
                        }
                        assert forall|j: int| 0 <= j < work@.len() implies ids_seq(
                            selected@,
                        ).contains(#[trigger] ids_seq(work@)[j]) by {
                            if j == work@.len() - 1 {
                                assert(ids_seq(selected@)[ids_seq(selected@).len() - 1]
                                    == p as int);
                            } else {
                                assert(ids_seq(work@)[j] == ids_seq(old_work)[j]);
                                assert(ids_seq(old_sel).contains(ids_seq(old_work)[j]));
                            }
                        }
                        assert(ids_seq(selected@).no_duplicates());
                        ids_seq(selected@).unique_seq_to_set();
                        assert(ids_seq(selected@).to_set().subset_of(universe));
                        lemma_len_subset(ids_seq(selected@).to_set(), universe);
                        assert forall|x: int|
                            #[trigger] ids_seq(selected@).contains(x) && !ids_seq(
                                work@,
                            ).contains(x) && has_parent(c2p@, x) implies ids_seq(
                            selected@,
                        ).contains(parent_of(c2p@, x)) by {
                            if x == id as int {
                                assert(ids_seq(selected@)[ids_seq(selected@).len() - 1]
                                    == p as int);
                                assert(ids_seq(selected@).contains(p as int));
                            } else if x == p as int {
                                assert(ids_seq(work@)[ids_seq(work@).len() - 1] == p as int);
                                assert(ids_seq(work@).contains(p as int));
                            } else {
                                let j = choose|j: int|
                                    0 <= j < ids_seq(selected@).len() && ids_seq(selected@)[j]
                                        == x;
                                assert(ids_seq(old_sel)[j] == x);
                                assert(ids_seq(old_sel).contains(x));
                                if ids_seq(old_work).contains(x) {
                                    let j2 = choose|j2: int|
                                        0 <= j2 < ids_seq(old_work).len() && ids_seq(
                                            old_work,
                                        )[j2] == x;
                                    assert(j2 < ids_seq(old_work).len() - 1);
                                    assert(ids_seq(work@)[j2] == x);
                                    assert(ids_seq(work@).contains(x));
                                }
                                assert(ids_seq(old_sel).contains(parent_of(c2p@, x)));
                                let j3 = choose|j3: int|
                                    0 <= j3 < ids_seq(old_sel).len() && ids_seq(old_sel)[j3]
                                        == parent_of(c2p@, x);
                                assert(ids_seq(selected@)[j3] == parent_of(c2p@, x));
                                assert(ids_seq(selected@).contains(parent_of(c2p@, x)));
                            }
                        }
                    }
                } else {
                    proof {
                        assert forall|x: int|
                            #[trigger] ids_seq(selected@).contains(x) && !ids_seq(
                                work@,
                            ).contains(x) && has_parent(c2p@, x) implies ids_seq(
                            selected@,
                        ).contains(parent_of(c2p@, x)) by {
                            if x == id as int {
                                assert(ids_seq(selected@).contains(p as int));
                            } else {
                                if ids_seq(old_work).contains(x) {
                                    let j2 = choose|j2: int|
                                        0 <= j2 < ids_seq(old_work).len() && ids_seq(
                                            old_work,
                                        )[j2] == x;
                                    assert(j2 < ids_seq(old_work).len() - 1);
                                    assert(ids_seq(work@)[j2] == x);
                                    assert(ids_seq(work@).contains(x));
                                }
                            }
                        }
                    }
                }
            },
            None => {
                proof {
                    assert forall|x: int|
                        #[trigger] ids_seq(selected@).contains(x) && !ids_seq(work@).contains(x)
                            && has_parent(c2p@, x) implies ids_seq(selected@).contains(
                        parent_of(c2p@, x),
                    ) by {
                        assert(x != id as int);
                        if ids_seq(old_work).contains(x) {
                            let j2 = choose|j2: int|
                                0 <= j2 < ids_seq(old_work).len() && ids_seq(old_work)[j2] == x;
                            assert(j2 < ids_seq(old_work).len() - 1);
                            assert(ids_seq(work@)[j2] == x);
                            assert(ids_seq(work@).contains(x));
                        }
                    }
                }
            },
        }
    }
    proof {
        assert(work@.len() == 0);
        assert forall|x: int| closure.contains(x) implies ids_seq(selected@).contains(x) by {
            let s0 = choose|s0: int| sset.contains(s0) && #[trigger] reaches(c2p@, s0, x);
            let k = choose|k: nat| ancestor_at(c2p@, s0, k, x);
            assert(ids_seq(selected@).contains(s0));
            lemma_closed_contains_chain(c2p@, ids_seq(selected@), s0, k, x);
        }
        assert forall|x: int| ids_seq(selected@).contains(x) implies closure.contains(x) by {
            let j = choose|j: int|
                0 <= j < ids_seq(selected@).len() && ids_seq(selected@)[j] == x;
            assert(closure.contains(ids_seq(selected@)[j]));
        }
    }
    let nn: usize = nodes.len();
    let mut r: Vec<usize> = Vec::new();
    let mut out: usize = 0;
    proof {
        assert(idxs_view(r@) =~= select_indices(nodes@.take(0), closure));
    }
    while out < nn
        invariant
            0 <= out <= nn,
            idxs_view(r@) == select_indices(nodes@.take(out as int), closure),
            idxs_in_range(idxs_view(r@), nodes@.len() as int),
            forall|x: int| #[trigger] closure.contains(x) ==> ids_seq(selected@).contains(x),
            forall|x: int| #[trigger] ids_seq(selected@).contains(x) ==> closure.contains(x),
        decreases nn - out,
    {
        proof {
            assert(nodes@.take(out as int + 1).drop_last() =~= nodes@.take(out as int));
            assert(nodes@.take(out as int + 1).last() == nodes@[out as int]);
        }
        if contains_id(&selected, nodes[out].node_id) {
            r.push(out);
            proof {
                assert(idxs_view(r@) =~= select_indices(nodes@.take(out as int + 1), closure));
            }
        }
        out += 1;
    }
    proof {
        assert(nodes@.take(nn as int) =~= nodes@);
    }
    r
}

/// Every non-root node has its `(id, parent id)` entry in the derived
/// child-to-parent table.
pub proof fn lemma_c2p_nodes_complete(ns: Seq<Node>, i: int)
    requires
        0 <= i < ns.len(),
        !ns[i].is_root(),
    ensures
        exists|j: int|
            0 <= j < spec_c2p_nodes(ns).len() && (#[trigger] spec_c2p_nodes(ns)[j]) == (
            ns[i].node_id,
            ns[i].parent_id,
            ),
    decreases ns.len(),
{
    let t = spec_c2p_nodes(ns);
    if i == ns.len() - 1 {
        assert(t[t.len() - 1] == (ns[i].node_id, ns[i].parent_id));
    } else {
        assert(ns.drop_last()[i] == ns[i]);
        lemma_c2p_nodes_complete(ns.drop_last(), i);
        let p = spec_c2p_nodes(ns.drop_last());
        let j = choose|j: int|
            0 <= j < p.len() && (#[trigger] p[j]) == (ns[i].node_id, ns[i].parent_id);
        assert(t[j] == (ns[i].node_id, ns[i].parent_id));
    }
}

/// Every entry of the derived table comes from a non-root node.
pub proof fn lemma_c2p_nodes_sound(ns: Seq<Node>, j: int)
    requires
        0 <= j < spec_c2p_nodes(ns).len(),
    ensures
        exists|i: int|
            0 <= i < ns.len() && !(#[trigger] ns[i]).is_root() && ns[i].node_id
                == spec_c2p_nodes(ns)[j].0 && ns[i].parent_id == spec_c2p_nodes(ns)[j].1,
    decreases ns.len(),
{
    let t = spec_c2p_nodes(ns);
    let p = spec_c2p_nodes(ns.drop_last());
    if j < p.len() {
        lemma_c2p_nodes_sound(ns.drop_last(), j);
        let i = choose|i: int|
            0 <= i < ns.drop_last().len() && !(#[trigger] ns.drop_last()[i]).is_root()
                && ns.drop_last()[i].node_id == p[j].0 && ns.drop_last()[i].parent_id == p[j].1;
        assert(ns[i] == ns.drop_last()[i]);
        assert(t[j] == p[j]);
    } else {
        assert(!ns.last().is_root());
        assert(ns[ns.len() - 1] == ns.last());
        assert(t[j] == (ns.last().node_id, ns.last().parent_id));
    }
}

/// Distinct node ids give a derived table with distinct child keys.
pub proof fn lemma_c2p_nodes_keys_distinct(ns: Seq<Node>)
    requires
        forall|a: int, b: int| 0 <= a < b < ns.len() ==> ns[a].node_id != ns[b].node_id,
    ensures
        keys_distinct(spec_c2p_nodes(ns)),
    decreases ns.len(),
{
    if ns.len() > 0 {
        assert(forall|a: int, b: int|
            0 <= a < b < ns.drop_last().len() ==> ns.drop_last()[a].node_id
                != ns.drop_last()[b].node_id);
        lemma_c2p_nodes_keys_distinct(ns.drop_last());
        let t = spec_c2p_nodes(ns);
        let p = spec_c2p_nodes(ns.drop_last());
        assert forall|a: int, b: int| 0 <= a < b < t.len() implies (#[trigger] t[a]).0 != (
        #[trigger] t[b]).0 by {
            if b < p.len() {
                assert(t[a] == p[a] && t[b] == p[b]);
            } else {
                assert(!ns.last().is_root());
                assert(t[b] == (ns.last().node_id, ns.last().parent_id));
                assert(t[a] == p[a]);
                lemma_c2p_nodes_sound(ns.drop_last(), a);
                let i = choose|i: int|
                    0 <= i < ns.drop_last().len() && !(#[trigger] ns.drop_last()[i]).is_root()
                        && ns.drop_last()[i].node_id == p[a].0 && ns.drop_last()[i].parent_id
                        == p[a].1;
                assert(ns[i].node_id != ns[ns.len() - 1].node_id);
            }
        }
    }
}

/// Every tracked child's parent chain reaches the root id. The store
/// assumes (and does not re-verify) that its source tree is acyclic; this
/// predicate captures that assumption for the lemmas that need it.
pub open spec fn ancestry_resolves(c2p: Seq<(i64, i64)>, root_id: int) -> bool {
    forall|j: int| 0 <= j < c2p.len() ==> reaches(c2p, (#[trigger] c2p[j]).0 as int, root_id)
}

/// Root presence: as soon as one node id seeds the closure, the root id
/// belongs to the closure. A seed is either the root itself or a tracked
/// child whose chain reaches the root.
pub proof fn lemma_root_in_closure(
    ns: Seq<Node>,
    c2p: Seq<(i64, i64)>,
    seeds: Set<int>,
    root_id: int,
    s0: int,
)
    requires
        c2p == spec_c2p_nodes(ns),
        ancestry_resolves(c2p, root_id),
        seeds.contains(s0),
        exists|i: int| 0 <= i < ns.len() && (#[trigger] ns[i]).node_id as int == s0,
        forall|i: int|
            0 <= i < ns.len() && (#[trigger] ns[i]).is_root() ==> ns[i].node_id as int == root_id,
    ensures
        closure_set(c2p, seeds).contains(root_id),
{
    let i = choose|i: int| 0 <= i < ns.len() && (#[trigger] ns[i]).node_id as int == s0;
    if ns[i].is_root() {
        lemma_closure_contains_seed(c2p, seeds, s0);
    } else {
        lemma_c2p_nodes_complete(ns, i);
        let j = choose|j: int|
            0 <= j < c2p.len() && (#[trigger] c2p[j]) == (ns[i].node_id, ns[i].parent_id);
        assert(reaches(c2p, s0, root_id));
        assert(closure_set(c2p, seeds).contains(root_id));
    }
}

/// An id is selected iff it is a node index whose id the set holds.
pub proof fn lemma_select_indices_iff(ns: Seq<Node>, ids: Set<int>)
    ensures
        forall|i: int|
            #[trigger] select_indices(ns, ids).contains(i) <==> (0 <= i < ns.len()
                && ids.contains(ns[i].node_id as int)),
    decreases ns.len(),
{
    let t = select_indices(ns, ids);
    if ns.len() == 0 {
        assert(forall|i: int| !t.contains(i)) by {
            assert(t.len() == 0);
        }
    } else {
        lemma_select_indices_iff(ns.drop_last(), ids);
        let p = select_indices(ns.drop_last(), ids);
        assert(forall|i: int| 0 <= i < ns.len() - 1 ==> ns.drop_last()[i] == ns[i]);
        assert forall|i: int| #[trigger] t.contains(i) implies (0 <= i < ns.len() && ids.contains(
            ns[i].node_id as int,
        )) by {
            let j = choose|j: int| 0 <= j < t.len() && t[j] == i;
            if j < p.len() {
                assert(t[j] == p[j]);
                assert(p.contains(i));
            } else {
                assert(i == ns.len() - 1);
            }
        }
        assert forall|i: int|
            0 <= i < ns.len() && ids.contains(ns[i].node_id as int) implies #[trigger] t.contains(
            i,
        ) by {
            if i < ns.len() - 1 {
                assert(p.contains(i));
                let j = choose|j: int| 0 <= j < p.len() && p[j] == i;
                assert(t[j] == i);
            } else {
                assert(t[t.len() - 1] == i);
            }
        }
    }
}

} // verus!
