//! The query pipeline's filtering stages.
//!
//! A query runs four stages against the read-only store: the viewport
//! filter selects the vertical band, the overplotting reducer keeps one
//! leaf per grid cell, the ancestor closure completes every lineage path,
//! and the response assembler rehydrates dictionary codes.

use crate::closure::{
    add_parents, ancestry_resolves, closure_set, has_parent, keys_distinct,
    lemma_c2p_nodes_complete, lemma_c2p_nodes_keys_distinct, lemma_closure_parent_closed,
    lemma_root_in_closure, lemma_select_indices_iff, parent_of, reaches, seed_id_seq,
    select_indices,
};
use crate::config::{calculate_extremes, max_of, min_of, xs_of, ys_of};
use crate::node::{pairs_view, Node, ResponseNode};
use crate::num::{round_div, rounded_div, DIV_OPERAND_LIMIT};
use crate::store::NodeStore;
use vstd::prelude::*;

verus! {

/// Viewport bounds of a query, each axis end optional; micro-units.
/// Omitted ends default to the dataset's own extremes.
pub struct QueryBounds {
    pub min_y: Option<i64>,
    pub max_y: Option<i64>,
    pub min_x: Option<i64>,
    pub max_x: Option<i64>,
}

/// View of an index vector as a sequence of mathematical integers.
pub open spec fn idxs_view(v: Seq<usize>) -> Seq<int> {
    v.map_values(|u: usize| u as int)
}

/// Every index falls inside a sequence of length `n`.
pub open spec fn idxs_in_range(idxs: Seq<int>, n: int) -> bool {
    forall|i: int| 0 <= i < idxs.len() ==> 0 <= #[trigger] idxs[i] < n
}

/// Effective width of a requested axis: its span, clamped to at least one
/// micro-unit so that a degenerate viewport divides by a small positive
/// epsilon (every point then falls in its own cell) instead of by zero.
pub open spec fn eff_span(lo: int, hi: int) -> int {
    if hi - lo >= 1 {
        hi - lo
    } else {
        1
    }
}

/// Computes the effective axis width.
pub fn effective_span(lo: i64, hi: i64) -> (s: i128)
    ensures
        s == eff_span(lo as int, hi as int),
        1 <= s <= DIV_OPERAND_LIMIT,
{
    let wide: i128 = (hi as i128) - (lo as i128);
    if wide >= 1 {
        wide
    } else {
        1
    }
}

/// The grid cell a node falls in, at the density the requested viewport
/// implies: 2000 cells per vertical span, divided by a further 5 in x
/// (cells are five times wider than tall, compensating for typical aspect
/// ratio), with first-occurrence rounding to the nearest cell center.
pub open spec fn cell_of(n: Node, span_x: int, span_y: int) -> (int, int)
    recommends
        span_x >= 1,
        span_y >= 1,
{
    (round_div(400 * n.x_micro, span_x), round_div(2000 * n.y_micro, span_y))
}

/// Computes a node's grid cell.
fn cell_key(node: &Node, span_x: i128, span_y: i128) -> (c: (i128, i128))
    requires
        1 <= span_x <= DIV_OPERAND_LIMIT,
        1 <= span_y <= DIV_OPERAND_LIMIT,
    ensures
        (c.0 as int, c.1 as int) == cell_of(*node, span_x as int, span_y as int),
{
    let cx: i128 = rounded_div(400 * (node.x_micro as i128), span_x);
    let cy: i128 = rounded_div(2000 * (node.y_micro as i128), span_y);
    (cx, cy)
}

/// Indices, in storage order, of the nodes whose vertical coordinate lies
/// in the inclusive band `[lo, hi]`.
pub open spec fn band_indices(ns: Seq<Node>, lo: int, hi: int) -> Seq<int>
    decreases ns.len(),
{
    if ns.len() == 0 {
        Seq::empty()
    } else {
        let p = band_indices(ns.drop_last(), lo, hi);
        if lo <= ns.last().y_micro <= hi {
            p.push(ns.len() - 1)
        } else {
            p
        }
    }
}

/// Viewport filter: selects the nodes with `min_y <= y <= max_y`,
/// inclusive on both ends. No horizontal filtering happens here; the
/// horizontal bounds only calibrate the reducer's density.
#[verifier::loop_isolation(false)]
pub fn filter_nodes(nodes: &Vec<Node>, min_y: i64, max_y: i64) -> (r: Vec<usize>)
    ensures
        idxs_view(r@) == band_indices(nodes@, min_y as int, max_y as int),
        idxs_in_range(idxs_view(r@), nodes@.len() as int),
{
    let n: usize = nodes.len();
    let mut r: Vec<usize> = Vec::new();
    let mut i: usize = 0;
    proof {
        assert(idxs_view(r@) =~= band_indices(nodes@.take(0), min_y as int, max_y as int));
    }
    while i < n
        invariant
            0 <= i <= n,
            idxs_view(r@) == band_indices(nodes@.take(i as int), min_y as int, max_y as int),
            idxs_in_range(idxs_view(r@), nodes@.len() as int),
        decreases n - i,
    {
        proof {
            assert(nodes@.take(i as int + 1).drop_last() =~= nodes@.take(i as int));
            assert(nodes@.take(i as int + 1).last() == nodes@[i as int]);
        }
        let y: i64 = nodes[i].y_micro;
        if min_y <= y && y <= max_y {
            r.push(i);
            proof {
                assert(idxs_view(r@) =~= band_indices(
                    nodes@.take(i as int + 1),
                    min_y as int,
                    max_y as int,
                ));
            }
        }
        i += 1;
    }
    proof {
        assert(nodes@.take(n as int) =~= nodes@);
    }
    r
}

/// The subsequence of `idxs` pointing at leaf nodes.
pub open spec fn leaf_indices(ns: Seq<Node>, idxs: Seq<int>) -> Seq<int>
    recommends
        idxs_in_range(idxs, ns.len() as int),
    decreases idxs.len(),
{
    if idxs.len() == 0 {
        Seq::empty()
    } else {
        let p = leaf_indices(ns, idxs.drop_last());
        if ns[idxs.last()].is_leaf() {
            p.push(idxs.last())
        } else {
            p
        }
    }
}

/// Keeps the candidates that are leaves (`num_tips == 1`).
#[verifier::loop_isolation(false)]
pub fn filter_leaves(nodes: &Vec<Node>, idxs: Vec<usize>) -> (r: Vec<usize>)
    requires
        idxs_in_range(idxs_view(idxs@), nodes@.len() as int),
    ensures
        idxs_view(r@) == leaf_indices(nodes@, idxs_view(idxs@)),
        idxs_in_range(idxs_view(r@), nodes@.len() as int),
{
    let n: usize = idxs.len();
    let mut r: Vec<usize> = Vec::new();
    let mut i: usize = 0;
    proof {
        assert(idxs_view(idxs@).take(0) =~= idxs_view(idxs@.take(0)));
        assert(idxs_view(r@) =~= leaf_indices(nodes@, idxs_view(idxs@).take(0)));
    }
    while i < n
        invariant
            0 <= i <= n == idxs@.len(),
            idxs_view(r@) == leaf_indices(nodes@, idxs_view(idxs@).take(i as int)),
            idxs_in_range(idxs_view(r@), nodes@.len() as int),
        decreases n - i,
    {
        proof {
            assert(idxs_view(idxs@).take(i as int + 1).drop_last() =~= idxs_view(idxs@).take(
                i as int,
            ));
            assert(idxs_view(idxs@).take(i as int + 1).last() == idxs@[i as int] as int);
        }
        let idx: usize = idxs[i];
        if nodes[idx].num_tips == 1 {
            r.push(idx);
            proof {
                assert(idxs_view(r@) =~= leaf_indices(
                    nodes@,
                    idxs_view(idxs@).take(i as int + 1),
                ));
            }
        }
        i += 1;
    }
    proof {
        assert(idxs_view(idxs@).take(n as int) =~= idxs_view(idxs@));
    }
    r
}

/// The grid cells of a picked index sequence.
pub open spec fn cells_of(ns: Seq<Node>, picked: Seq<int>, span_x: int, span_y: int) -> Seq<
    (int, int),
> {
    picked.map_values(|i: int| cell_of(ns[i], span_x, span_y))
}

/// First-occurrence-wins grid deduplication: a candidate is retained iff
/// no earlier retained candidate occupies the same grid cell. The
/// tie-break is storage order, not spatial centrality.
pub open spec fn reduce_filter(ns: Seq<Node>, cands: Seq<int>, span_x: int, span_y: int) -> Seq<
    int,
>
    decreases cands.len(),
{
    if cands.len() == 0 {
        Seq::empty()
    } else {
        let p = reduce_filter(ns, cands.drop_last(), span_x, span_y);
        let c = cell_of(ns[cands.last()], span_x, span_y);
        if cells_of(ns, p, span_x, span_y).contains(c) {
            p
        } else {
            p.push(cands.last())
        }
    }
}

/// No two of the picked nodes share a grid cell.
pub open spec fn cells_exclusive(ns: Seq<Node>, picked: Seq<int>, span_x: int, span_y: int) -> bool {
    forall|a: int, b: int|
        0 <= a < b < picked.len() ==> cell_of(ns[#[trigger] picked[a]], span_x, span_y) != cell_of(
            ns[#[trigger] picked[b]],
            span_x,
            span_y,
        )
}

/// Cell exclusivity: the reducer never retains two nodes in one grid cell.
pub proof fn lemma_reduce_cells_exclusive(ns: Seq<Node>, cands: Seq<int>, span_x: int, span_y: int)
    ensures
        cells_exclusive(ns, reduce_filter(ns, cands, span_x, span_y), span_x, span_y),
    decreases cands.len(),
{
    if cands.len() > 0 {
        lemma_reduce_cells_exclusive(ns, cands.drop_last(), span_x, span_y);
        let p = reduce_filter(ns, cands.drop_last(), span_x, span_y);
        let c = cell_of(ns[cands.last()], span_x, span_y);
        if !cells_of(ns, p, span_x, span_y).contains(c) {
            let q = p.push(cands.last());
            assert forall|a: int, b: int| 0 <= a < b < q.len() implies cell_of(
                ns[q[a]],
                span_x,
                span_y,
            ) != cell_of(ns[q[b]], span_x, span_y) by {
                if b == q.len() - 1 {
                    assert(cells_of(ns, p, span_x, span_y)[a] == cell_of(ns[p[a]], span_x, span_y));
                    assert(q[a] == p[a]);
                }
            }
        }
    }
}

/// The reducer's output is a subsequence of its candidates, so it stays in
/// range.
pub proof fn lemma_reduce_in_range(ns: Seq<Node>, cands: Seq<int>, span_x: int, span_y: int)
    requires
        idxs_in_range(cands, ns.len() as int),
    ensures
        idxs_in_range(reduce_filter(ns, cands, span_x, span_y), ns.len() as int),
    decreases cands.len(),
{
    if cands.len() > 0 {
        assert(forall|i: int|
            0 <= i < cands.drop_last().len() ==> 0 <= #[trigger] cands.drop_last()[i]
                < ns.len() as int);
        lemma_reduce_in_range(ns, cands.drop_last(), span_x, span_y);
    }
}

/// Dedup determinism: on identical inputs (the same candidate sequence in
/// the same storage order, the same spans) the reducer retains the
/// identical sequence, hence an identical count.
pub proof fn lemma_reduce_deterministic(
    ns1: Seq<Node>,
    cands1: Seq<int>,
    span_x1: int,
    span_y1: int,
    ns2: Seq<Node>,
    cands2: Seq<int>,
    span_x2: int,
    span_y2: int,
)
    requires
        ns1 == ns2,
        cands1 == cands2,
        span_x1 == span_x2,
        span_y1 == span_y2,
    ensures
        reduce_filter(ns1, cands1, span_x1, span_y1) == reduce_filter(
            ns2,
            cands2,
            span_x2,
            span_y2,
        ),
        reduce_filter(ns1, cands1, span_x1, span_y1).len() == reduce_filter(
            ns2,
            cands2,
            span_x2,
            span_y2,
        ).len(),
{
}

/// Scans the cells retained so far for an exact key match.
fn seen_contains(seen: &Vec<(i128, i128)>, cx: i128, cy: i128) -> (b: bool)
    ensures
        b == exists|j: int| 0 <= j < seen@.len() && #[trigger] seen@[j] == (cx, cy),
{
    let n: usize = seen.len();
    let mut i: usize = 0;
    while i < n
        invariant
            0 <= i <= n == seen@.len(),
            forall|j: int| 0 <= j < i ==> #[trigger] seen@[j] != (cx, cy),
        decreases n - i,
    {
        let probe = seen[i];
        if probe.0 == cx && probe.1 == cy {
            assert(seen@[i as int] == (cx, cy));
            return true;
        }
        i += 1;
    }
    false
}

/// Overplotting reducer: walks the candidates in storage order and retains
/// a node only when it is the first to land in its grid cell for this
/// request.
#[verifier::loop_isolation(false)]
pub fn reduce_overplotting(
    nodes: &Vec<Node>,
    cands: Vec<usize>,
    span_x: i128,
    span_y: i128,
) -> (r: Vec<usize>)
    requires
        1 <= span_x <= DIV_OPERAND_LIMIT,
        1 <= span_y <= DIV_OPERAND_LIMIT,
        idxs_in_range(idxs_view(cands@), nodes@.len() as int),
    ensures
        idxs_view(r@) == reduce_filter(
            nodes@,
            idxs_view(cands@),
            span_x as int,
            span_y as int,
        ),
        idxs_in_range(idxs_view(r@), nodes@.len() as int),
        cells_exclusive(nodes@, idxs_view(r@), span_x as int, span_y as int),
{
    let ghost sx = span_x as int;
    let ghost sy = span_y as int;
    let n: usize = cands.len();
    let mut seen: Vec<(i128, i128)> = Vec::new();
    let mut r: Vec<usize> = Vec::new();
    let mut i: usize = 0;
    proof {
        assert(idxs_view(r@) =~= reduce_filter(nodes@, idxs_view(cands@).take(0), sx, sy));
        assert(cells_of(nodes@, idxs_view(r@), sx, sy) =~= Seq::<(int, int)>::empty());
    }
    while i < n
        invariant
            0 <= i <= n == cands@.len(),
            idxs_view(r@) == reduce_filter(nodes@, idxs_view(cands@).take(i as int), sx, sy),
            idxs_in_range(idxs_view(r@), nodes@.len() as int),
            seen@.len() == r@.len(),
            forall|j: int|
                0 <= j < r@.len() ==> ((#[trigger] seen@[j]).0 as int, seen@[j].1 as int)
                    == cell_of(nodes@[r@[j] as int], sx, sy),
        decreases n - i,
    {
        proof {
            assert(idxs_view(cands@).take(i as int + 1).drop_last() =~= idxs_view(cands@).take(
                i as int,
            ));
            assert(idxs_view(cands@).take(i as int + 1).last() == cands@[i as int] as int);
        }
        let idx: usize = cands[i];
        let ck = cell_key(&nodes[idx], span_x, span_y);
        let ghost p = idxs_view(r@);
        let dup = seen_contains(&seen, ck.0, ck.1);
        proof {
            let c = cell_of(nodes@[idx as int], sx, sy);
            if dup {
                let w = choose|j: int| 0 <= j < seen@.len() && #[trigger] seen@[j] == (ck.0, ck.1);
                assert(cells_of(nodes@, p, sx, sy)[w] == cell_of(nodes@[p[w]], sx, sy));
                assert(cells_of(nodes@, p, sx, sy).contains(c));
            } else {
                if cells_of(nodes@, p, sx, sy).contains(c) {
                    let w = choose|j: int|
                        0 <= j < cells_of(nodes@, p, sx, sy).len() && #[trigger] cells_of(
                            nodes@,
                            p,
                            sx,
                            sy,
                        )[j] == c;
                    assert(cells_of(nodes@, p, sx, sy)[w] == cell_of(nodes@[p[w]], sx, sy));
                    assert(seen@[w] == (ck.0, ck.1));
                }
            }
        }
        if !dup {
            r.push(idx);
            seen.push(ck);
            proof {
                assert(idxs_view(r@) =~= reduce_filter(
                    nodes@,
                    idxs_view(cands@).take(i as int + 1),
                    sx,
                    sy,
                ));
            }
        }
        i += 1;
    }
    proof {
        assert(idxs_view(cands@).take(n as int) =~= idxs_view(cands@));
        lemma_reduce_cells_exclusive(nodes@, idxs_view(cands@), sx, sy);
    }
    r
}

/// Both stages of index production stay inside the store.
proof fn lemma_band_in_range(ns: Seq<Node>, lo: int, hi: int)
    ensures
        idxs_in_range(band_indices(ns, lo, hi), ns.len() as int),
    decreases ns.len(),
{
    if ns.len() > 0 {
        lemma_band_in_range(ns.drop_last(), lo, hi);
        let p = band_indices(ns.drop_last(), lo, hi);
        assert(forall|i: int| 0 <= i < p.len() ==> 0 <= #[trigger] p[i] < ns.len() as int);
    }
}

/// The leaf filter keeps its indices inside the store.
proof fn lemma_leaf_in_range(ns: Seq<Node>, idxs: Seq<int>)
    requires
        idxs_in_range(idxs, ns.len() as int),
    ensures
        idxs_in_range(leaf_indices(ns, idxs), ns.len() as int),
    decreases idxs.len(),
{
    if idxs.len() > 0 {
        assert(forall|i: int|
            0 <= i < idxs.drop_last().len() ==> 0 <= #[trigger] idxs.drop_last()[i]
                < ns.len() as int);
        lemma_leaf_in_range(ns, idxs.drop_last());
    }
}

/// Copies a plain integer vector.
fn copy_ids(v: &Vec<i64>) -> (r: Vec<i64>)
    ensures
        r@ == v@,
{
    let n: usize = v.len();
    let mut r: Vec<i64> = Vec::new();
    let mut i: usize = 0;
    while i < n
        invariant
            0 <= i <= n == v@.len(),
            r@ == v@.take(i as int),
        decreases n - i,
    {
        r.push(v[i]);
        proof {
            assert(v@.take(i as int).push(v@[i as int]) =~= v@.take(i as int + 1));
        }
        i += 1;
    }
    proof {
        assert(v@.take(n as int) =~= v@);
    }
    r
}

/// Copies a vector of string pairs, value for value.
fn copy_pairs(v: &Vec<(String, String)>) -> (r: Vec<(String, String)>)
    ensures
        r@ == v@,
{
    let n: usize = v.len();
    let mut r: Vec<(String, String)> = Vec::new();
    let mut i: usize = 0;
    while i < n
        invariant
            0 <= i <= n == v@.len(),
            r@ == v@.take(i as int),
        decreases n - i,
    {
        let entry = &v[i];
        r.push((entry.0.clone(), entry.1.clone()));
        proof {
            assert(v@.take(i as int).push(v@[i as int]) =~= v@.take(i as int + 1));
        }
        i += 1;
    }
    proof {
        assert(v@.take(n as int) =~= v@);
    }
    r
}

/// The rehydrated (key, value) pairs of the first `k` slate columns for a
/// node's code row: fields coded `-1` are skipped, every other code is
/// decoded through its column's dictionary.
pub open spec fn decoded_meta_upto(store: NodeStore, codes: Seq<i64>, k: int) -> Seq<
    (Seq<char>, Seq<char>),
>
    decreases k,
{
    if k <= 0 {
        Seq::empty()
    } else {
        let p = decoded_meta_upto(store, codes, k - 1);
        if codes[k - 1] == -1 {
            p
        } else {
            p.push((store.meta_keys@[k - 1]@, store.dicts@[k - 1].model()[codes[k - 1] as int]))
        }
    }
}

/// The fully rehydrated meta of a code row.
pub open spec fn decoded_meta(store: NodeStore, codes: Seq<i64>) -> Seq<(Seq<char>, Seq<char>)> {
    decoded_meta_upto(store, codes, store.meta_keys@.len() as int)
}

/// A response entry is node `i` with its meta codes rehydrated.
pub open spec fn response_matches(store: NodeStore, rn: ResponseNode, i: int) -> bool
    recommends
        0 <= i < store.nodes@.len(),
{
    let n = store.nodes@[i];
    &&& rn.name == n.name
    &&& rn.x_micro == n.x_micro
    &&& rn.y_micro == n.y_micro
    &&& rn.mutations@ == n.mutations@
    &&& rn.parent_id == n.parent_id
    &&& rn.node_id == n.node_id
    &&& rn.num_tips == n.num_tips
    &&& rn.clades@ == n.clades@
    &&& pairs_view(rn.meta@) == decoded_meta(store, n.meta@)
}

/// Response assembler: rehydrates the dictionary codes of each selected
/// node back into attribute values, preserving storage order.
#[verifier::loop_isolation(false)]
pub fn assemble_response(store: &NodeStore, idxs: &Vec<usize>) -> (r: Vec<ResponseNode>)
    requires
        store.meta_wf(),
        idxs_in_range(idxs_view(idxs@), store.nodes@.len() as int),
    ensures
        r@.len() == idxs@.len(),
        forall|j: int|
            0 <= j < r@.len() ==> response_matches(*store, #[trigger] r@[j], idxs@[j] as int),
{
    let n: usize = idxs.len();
    let mut r: Vec<ResponseNode> = Vec::new();
    let mut j: usize = 0;
    while j < n
        invariant
            0 <= j <= n,
            r@.len() == j,
            forall|t: int|
                0 <= t < j ==> response_matches(*store, #[trigger] r@[t], idxs@[t] as int),
        decreases n - j,
    {
        proof {
            assert(idxs_view(idxs@)[j as int] == idxs@[j as int] as int);
        }
        let idx: usize = idxs[j];
        let nk: usize = store.meta_keys.len();
        let mut meta: Vec<(String, String)> = Vec::new();
        proof {
            assert(pairs_view(meta@) =~= decoded_meta_upto(
                *store,
                store.nodes@[idx as int].meta@,
                0,
            ));
        }
        let mut k: usize = 0;
        while k < nk
            invariant
                0 <= k <= nk,
                j < n,
                idx == idxs@[j as int],
                pairs_view(meta@) == decoded_meta_upto(
                    *store,
                    store.nodes@[idx as int].meta@,
                    k as int,
                ),
            decreases nk - k,
        {
            let code: i64 = store.nodes[idx].meta[k];
            if code != -1 {
                proof {
                    store.dicts@[k as int].lemma_model_len_bounded();
                }
                let key: String = store.meta_keys[k].clone();
                let val: String = store.dicts[k].decode(code as usize).clone();
                meta.push((key, val));
                proof {
                    assert(pairs_view(meta@) =~= decoded_meta_upto(
                        *store,
                        store.nodes@[idx as int].meta@,
                        k as int + 1,
                    ));
                }
            }
            k += 1;
        }
        let node = &store.nodes[idx];
        let rn = ResponseNode {
            name: node.name.clone(),
            x_micro: node.x_micro,
            y_micro: node.y_micro,
            mutations: copy_ids(&node.mutations),
            parent_id: node.parent_id,
            node_id: node.node_id,
            num_tips: node.num_tips,
            clades: copy_pairs(&node.clades),
            meta,
        };
        r.push(rn);
        j += 1;
    }
    r
}

/// The effective vertical lower bound: the requested one, or the dataset
/// minimum when omitted.
pub open spec fn eff_min_y(store: NodeStore, q: QueryBounds) -> int {
    match q.min_y {
        Some(v) => v as int,
        None => min_of(ys_of(store.nodes@)),
    }
}

/// The effective vertical upper bound.
pub open spec fn eff_max_y(store: NodeStore, q: QueryBounds) -> int {
    match q.max_y {
        Some(v) => v as int,
        None => max_of(ys_of(store.nodes@)),
    }
}

/// The effective horizontal lower bound.
pub open spec fn eff_min_x(store: NodeStore, q: QueryBounds) -> int {
    match q.min_x {
        Some(v) => v as int,
        None => min_of(xs_of(store.nodes@)),
    }
}

/// The effective horizontal upper bound.
pub open spec fn eff_max_x(store: NodeStore, q: QueryBounds) -> int {
    match q.max_x {
        Some(v) => v as int,
        None => max_of(xs_of(store.nodes@)),
    }
}

/// The indices a query returns, in storage order: the vertical band's
/// leaves, grid-reduced, expanded to their full ancestor closure.
pub open spec fn query_indices(store: NodeStore, q: QueryBounds) -> Seq<int> {
    let min_y = eff_min_y(store, q);
    let max_y = eff_max_y(store, q);
    let span_x = eff_span(eff_min_x(store, q), eff_max_x(store, q));
    let span_y = eff_span(min_y, max_y);
    let band = band_indices(store.nodes@, min_y, max_y);
    let leaves = leaf_indices(store.nodes@, band);
    let reduced = reduce_filter(store.nodes@, leaves, span_x, span_y);
    let cl = closure_set(store.child_to_parent@, seed_id_seq(store.nodes@, reduced).to_set());
    select_indices(store.nodes@, cl)
}

/// The response consists of exactly the query's indices, each rehydrated.
pub open spec fn query_response_ok(store: NodeStore, q: QueryBounds, rns: Seq<ResponseNode>) -> bool {
    let idxs = query_indices(store, q);
    &&& rns.len() == idxs.len()
    &&& forall|t: int|
        0 <= t < idxs.len() ==> response_matches(store, #[trigger] rns[t], idxs[t])
}

/// Runs the full query pipeline: viewport filter, overplotting reducer,
/// ancestor closure, response assembler. Omitted bounds default to the
/// dataset extremes; the horizontal bounds only calibrate the reduction
/// density.
pub fn get_nodes(store: &NodeStore, q: &QueryBounds) -> (r: Vec<ResponseNode>)
    requires
        store.wf(),
    ensures
        query_response_ok(*store, *q, r@),
{
    let e = calculate_extremes(&store.nodes);
    let min_y: i64 = match q.min_y {
        Some(v) => v,
        None => e.min_y,
    };
    let max_y: i64 = match q.max_y {
        Some(v) => v,
        None => e.max_y,
    };
    let min_x: i64 = match q.min_x {
        Some(v) => v,
        None => e.min_x,
    };
    let max_x: i64 = match q.max_x {
        Some(v) => v,
        None => e.max_x,
    };
    let span_x = effective_span(min_x, max_x);
    let span_y = effective_span(min_y, max_y);
    let band = filter_nodes(&store.nodes, min_y, max_y);
    let leaves = filter_leaves(&store.nodes, band);
    let reduced = reduce_overplotting(&store.nodes, leaves, span_x, span_y);
    proof {
        lemma_c2p_nodes_keys_distinct(store.nodes@);
    }
    let closed = add_parents(&store.nodes, &store.child_to_parent, reduced);
    assemble_response(store, &closed)
}

/// Closure completeness at the response level: every returned node that
/// is not the root has its parent also among the returned nodes, so the
/// whole path to the root is present inductively.
pub proof fn lemma_response_parents_present(
    store: NodeStore,
    q: QueryBounds,
    rns: Seq<ResponseNode>,
    j: int,
)
    requires
        store.wf(),
        store.ids_resolve(),
        query_response_ok(store, q, rns),
        0 <= j < rns.len(),
        rns[j].parent_id != rns[j].node_id,
    ensures
        exists|j2: int| 0 <= j2 < rns.len() && (#[trigger] rns[j2]).node_id == rns[j].parent_id,
{
    let ns = store.nodes@;
    let c2p = store.child_to_parent@;
    let min_y = eff_min_y(store, q);
    let max_y = eff_max_y(store, q);
    let span_x = eff_span(eff_min_x(store, q), eff_max_x(store, q));
    let span_y = eff_span(min_y, max_y);
    let band = band_indices(ns, min_y, max_y);
    let leaves = leaf_indices(ns, band);
    let reduced = reduce_filter(ns, leaves, span_x, span_y);
    let sset = seed_id_seq(ns, reduced).to_set();
    let cl = closure_set(c2p, sset);
    let idxs = query_indices(store, q);
    assert(idxs == select_indices(ns, cl));
    assert(response_matches(store, rns[j], idxs[j]));
    let i = idxs[j];
    lemma_select_indices_iff(ns, cl);
    assert(select_indices(ns, cl).contains(i)) by {
        assert(select_indices(ns, cl)[j] == i);
    }
    assert(0 <= i < ns.len() && cl.contains(ns[i].node_id as int));
    assert(ns[i].parent_id == rns[j].parent_id && ns[i].node_id == rns[j].node_id);
    assert(!ns[i].is_root());
    lemma_c2p_nodes_complete(ns, i);
    let j0 = choose|j0: int|
        0 <= j0 < c2p.len() && (#[trigger] c2p[j0]) == (ns[i].node_id, ns[i].parent_id);
    assert(has_parent(c2p, ns[i].node_id as int)) by {
        assert((c2p[j0]).0 as int == ns[i].node_id as int);
    }
    lemma_c2p_nodes_keys_distinct(ns);
    let w = choose|w: int| 0 <= w < c2p.len() && (#[trigger] c2p[w]).0 as int == ns[i].node_id as int;
    assert(w == j0);
    assert(parent_of(c2p, ns[i].node_id as int) == ns[i].parent_id as int);
    lemma_closure_parent_closed(c2p, sset, ns[i].node_id as int);
    assert(cl.contains(ns[i].parent_id as int));
    let i2 = choose|i2: int| 0 <= i2 < ns.len() && (#[trigger] ns[i2]).node_id == c2p[j0].1;
    assert(select_indices(ns, cl).contains(i2));
    let j2 = choose|j2: int| 0 <= j2 < idxs.len() && idxs[j2] == i2;
    assert(response_matches(store, rns[j2], i2));
    assert(rns[j2].node_id == rns[j].parent_id);
}

/// Root presence: whenever a query response is non-empty, the root is
/// among the returned nodes.
pub proof fn lemma_response_root_present(store: NodeStore, q: QueryBounds, rns: Seq<ResponseNode>)
    requires
        store.wf(),
        ancestry_resolves(store.child_to_parent@, store.root_id as int),
        query_response_ok(store, q, rns),
        rns.len() > 0,
    ensures
        exists|j: int| 0 <= j < rns.len() && (#[trigger] rns[j]).node_id == store.root_id,
{
    let ns = store.nodes@;
    let c2p = store.child_to_parent@;
    let min_y = eff_min_y(store, q);
    let max_y = eff_max_y(store, q);
    let span_x = eff_span(eff_min_x(store, q), eff_max_x(store, q));
    let span_y = eff_span(min_y, max_y);
    let band = band_indices(ns, min_y, max_y);
    let leaves = leaf_indices(ns, band);
    let reduced = reduce_filter(ns, leaves, span_x, span_y);
    let sset = seed_id_seq(ns, reduced).to_set();
    let cl = closure_set(c2p, sset);
    let idxs = query_indices(store, q);
    assert(idxs == select_indices(ns, cl));
    lemma_select_indices_iff(ns, cl);
    let i0 = idxs[0];
    assert(select_indices(ns, cl).contains(i0)) by {
        assert(select_indices(ns, cl)[0] == i0);
    }
    assert(cl.contains(ns[i0].node_id as int));
    let s0 = choose|s0: int|
        sset.contains(s0) && #[trigger] reaches(c2p, s0, ns[i0].node_id as int);
    lemma_band_in_range(ns, min_y, max_y);
    lemma_leaf_in_range(ns, band);
    lemma_reduce_in_range(ns, leaves, span_x, span_y);
    assert(seed_id_seq(ns, reduced).contains(s0));
    let t = choose|t: int|
        0 <= t < seed_id_seq(ns, reduced).len() && seed_id_seq(ns, reduced)[t] == s0;
    assert(ns[reduced[t]].node_id as int == s0);
    assert(exists|i: int| 0 <= i < ns.len() && (#[trigger] ns[i]).node_id as int == s0) by {
        assert(0 <= reduced[t] < ns.len());
    }
    lemma_root_in_closure(ns, c2p, sset, store.root_id as int, s0);
    assert(cl.contains(store.root_id as int));
    let ir = choose|ir: int| 0 <= ir < ns.len() && (#[trigger] ns[ir]).is_root();
    assert(ns[ir].node_id == store.root_id);
    assert(select_indices(ns, cl).contains(ir));
    let j2 = choose|j2: int| 0 <= j2 < idxs.len() && idxs[j2] == ir;
    assert(response_matches(store, rns[j2], ir));
    assert(rns[j2].node_id == store.root_id);
}

} // verus!
