//! Load-derived configuration summary: dataset extremes, a default
//! viewport center and zoom, node counts, root identity, and the attribute
//! keys recommended for display. Computed once after load and immutable
//! thereafter.

use crate::node::Node;
use crate::num::{round_div, rounded_div, lemma_round_div_half_exact, lemma_round_div_ordered};
use vstd::prelude::*;
use vstd::string::StringExecFns;

verus! {

/// Dataset coordinate extremes, in micro-units.
#[derive(Clone, Copy, Debug, PartialEq, Eq, Structural)]
pub struct Extremes {
    pub min_y: i64,
    pub max_y: i64,
    pub min_x: i64,
    pub max_x: i64,
}

/// The core configuration summary served to clients.
pub struct TreeConfig {
    /// Leaf count announced by the input header.
    pub num_tips: i64,
    /// Default viewport center, in micro-units.
    pub initial_x_micro: Option<i64>,
    pub initial_y_micro: Option<i64>,
    /// Default zoom, in micro-units (1,000,000 is a zoom of one).
    pub initial_zoom_micro: Option<i64>,
    /// Attribute keys recommended for client display.
    pub keys_to_display: Option<Vec<String>>,
    pub num_nodes: Option<usize>,
    pub root_mutations: Option<Vec<i64>>,
    pub root_id: Option<i64>,
}

/// The vertical coordinates of a node sequence.
pub open spec fn ys_of(ns: Seq<Node>) -> Seq<int> {
    ns.map_values(|n: Node| n.y_micro as int)
}

/// The horizontal coordinates of a node sequence.
pub open spec fn xs_of(ns: Seq<Node>) -> Seq<int> {
    ns.map_values(|n: Node| n.x_micro as int)
}

/// Least element of a non-empty integer sequence.
pub open spec fn min_of(s: Seq<int>) -> int
    recommends
        s.len() > 0,
    decreases s.len(),
{
    if s.len() <= 1 {
        s[0]
    } else {
        let m = min_of(s.drop_last());
        if s.last() < m {
            s.last()
        } else {
            m
        }
    }
}

/// Greatest element of a non-empty integer sequence.
pub open spec fn max_of(s: Seq<int>) -> int
    recommends
        s.len() > 0,
    decreases s.len(),
{
    if s.len() <= 1 {
        s[0]
    } else {
        let m = max_of(s.drop_last());
        if s.last() > m {
            s.last()
        } else {
            m
        }
    }
}

/// The least element bounds the whole sequence and occurs in it.
pub proof fn lemma_min_of(s: Seq<int>)
    requires
        s.len() > 0,
    ensures
        forall|i: int| 0 <= i < s.len() ==> min_of(s) <= #[trigger] s[i],
        exists|i: int| 0 <= i < s.len() && min_of(s) == #[trigger] s[i],
    decreases s.len(),
{
    if s.len() <= 1 {
        assert(min_of(s) == s[0]);
    } else {
        lemma_min_of(s.drop_last());
        assert(forall|i: int| 0 <= i < s.len() - 1 ==> s.drop_last()[i] == #[trigger] s[i]);
        let w = choose|i: int|
            0 <= i < s.drop_last().len() && min_of(s.drop_last()) == #[trigger] s.drop_last()[i];
        if s.last() < min_of(s.drop_last()) {
            assert(min_of(s) == s[s.len() - 1]);
        } else {
            assert(min_of(s) == s[w]);
        }
    }
}

/// The greatest element bounds the whole sequence and occurs in it.
pub proof fn lemma_max_of(s: Seq<int>)
    requires
        s.len() > 0,
    ensures
        forall|i: int| 0 <= i < s.len() ==> #[trigger] s[i] <= max_of(s),
        exists|i: int| 0 <= i < s.len() && max_of(s) == #[trigger] s[i],
    decreases s.len(),
{
    if s.len() <= 1 {
        assert(max_of(s) == s[0]);
    } else {
        lemma_max_of(s.drop_last());
        assert(forall|i: int| 0 <= i < s.len() - 1 ==> s.drop_last()[i] == #[trigger] s[i]);
        let w = choose|i: int|
            0 <= i < s.drop_last().len() && max_of(s.drop_last()) == #[trigger] s.drop_last()[i];
        if s.last() > max_of(s.drop_last()) {
            assert(max_of(s) == s[s.len() - 1]);
        } else {
            assert(max_of(s) == s[w]);
        }
    }
}

/// Scans the store for its coordinate extremes. A pure function of the
/// node sequence, safe to precompute once and reuse.
#[verifier::loop_isolation(false)]
pub fn calculate_extremes(nodes: &Vec<Node>) -> (e: Extremes)
    requires
        nodes@.len() > 0,
    ensures
        e.min_y == min_of(ys_of(nodes@)),
        e.max_y == max_of(ys_of(nodes@)),
        e.min_x == min_of(xs_of(nodes@)),
        e.max_x == max_of(xs_of(nodes@)),
{
    let n: usize = nodes.len();
    let mut min_y: i64 = nodes[0].y_micro;
    let mut max_y: i64 = nodes[0].y_micro;
    let mut min_x: i64 = nodes[0].x_micro;
    let mut max_x: i64 = nodes[0].x_micro;
    let mut i: usize = 1;
    proof {
        assert(ys_of(nodes@).take(1) =~= seq![nodes@[0].y_micro as int]);
        assert(xs_of(nodes@).take(1) =~= seq![nodes@[0].x_micro as int]);
    }
    while i < n
        invariant
            1 <= i <= n,
            min_y == min_of(ys_of(nodes@).take(i as int)),
            max_y == max_of(ys_of(nodes@).take(i as int)),
            min_x == min_of(xs_of(nodes@).take(i as int)),
            max_x == max_of(xs_of(nodes@).take(i as int)),
        decreases n - i,
    {
        proof {
            assert(ys_of(nodes@).take(i as int + 1).drop_last() =~= ys_of(nodes@).take(i as int));
            assert(xs_of(nodes@).take(i as int + 1).drop_last() =~= xs_of(nodes@).take(i as int));
            assert(ys_of(nodes@).take(i as int + 1).last() == nodes@[i as int].y_micro as int);
            assert(xs_of(nodes@).take(i as int + 1).last() == nodes@[i as int].x_micro as int);
        }
        let y: i64 = nodes[i].y_micro;
        let x: i64 = nodes[i].x_micro;
        if y < min_y {
            min_y = y;
        }
        if y > max_y {
            max_y = y;
        }
        if x < min_x {
            min_x = x;
        }
        if x > max_x {
            max_x = x;
        }
        i += 1;
    }
    proof {
        assert(ys_of(nodes@).take(n as int) =~= ys_of(nodes@));
        assert(xs_of(nodes@).take(n as int) =~= xs_of(nodes@));
    }
    Extremes { min_y, max_y, min_x, max_x }
}

/// Midpoint of two coordinates, rounded to the nearest micro-unit.
pub open spec fn midpoint(lo: int, hi: int) -> int {
    round_div(lo + hi, 2)
}

/// Computes a midpoint without overflowing, staying within the bounds of
/// its two operands.
fn midpoint_i64(lo: i64, hi: i64) -> (m: i64)
    requires
        lo <= hi,
    ensures
        m == midpoint(lo as int, hi as int),
        lo <= m <= hi,
{
    proof {
        lemma_round_div_half_exact(lo as int);
        lemma_round_div_half_exact(hi as int);
        lemma_round_div_ordered(2 * (lo as int), lo as int + hi as int, 2);
        lemma_round_div_ordered(lo as int + hi as int, 2 * (hi as int), 2);
    }
    let m: i128 = rounded_div(lo as i128 + hi as i128, 2);
    m as i64
}

/// Copies a plain integer vector.
fn copy_i64s(v: &Vec<i64>) -> (r: Vec<i64>)
    ensures
        r@ == v@,
{
    let n: usize = v.len();
    let mut r: Vec<i64> = Vec::new();
    let mut i: usize = 0;
    while i < n
        invariant
            0 <= i <= n == v@.len(),
            r@ == v@.take(i as int),
        decreases n - i,
    {
        r.push(v[i]);
        proof {
            assert(v@.take(i as int).push(v@[i as int]) =~= v@.take(i as int + 1));
        }
        i += 1;
    }
    proof {
        assert(v@.take(n as int) =~= v@);
    }
    r
}

/// Fills the load-derived fields of the configuration: viewport center at
/// the dataset midpoint, the given zoom kept (or a default of minus two
/// units), node count, root identity and mutations, and the recommended
/// display keys.
pub fn update_config(
    config: &mut TreeConfig,
    nodes: &Vec<Node>,
    root_mutations: &Vec<i64>,
    root_id: i64,
)
    requires
        nodes@.len() > 0,
    ensures
        final(config).initial_x_micro matches Some(v) && v == midpoint(
            min_of(xs_of(nodes@)),
            max_of(xs_of(nodes@)),
        ),
        final(config).initial_y_micro matches Some(v) && v == midpoint(
            min_of(ys_of(nodes@)),
            max_of(ys_of(nodes@)),
        ),
        final(config).initial_zoom_micro == if old(config).initial_zoom_micro is Some {
            old(config).initial_zoom_micro
        } else {
            Some(-2_000_000i64)
        },
        final(config).num_nodes == Some(nodes@.len() as usize),
        final(config).root_mutations matches Some(m) && m@ == root_mutations@,
        final(config).root_id == Some(root_id),
        final(config).keys_to_display matches Some(ks) && ks@.len() == 2 && ks@[0]@ == "name"@
            && ks@[1]@ == "num_tips"@,
        final(config).num_tips == old(config).num_tips,
{
    let e = calculate_extremes(nodes);
    proof {
        lemma_min_of(xs_of(nodes@));
        lemma_max_of(xs_of(nodes@));
        lemma_min_of(ys_of(nodes@));
        lemma_max_of(ys_of(nodes@));
    }
    config.initial_x_micro = Some(midpoint_i64(e.min_x, e.max_x));
    config.initial_y_micro = Some(midpoint_i64(e.min_y, e.max_y));
    config.initial_zoom_micro = match config.initial_zoom_micro {
        Some(z) => Some(z),
        None => Some(-2_000_000),
    };
    config.num_nodes = Some(nodes.len());
    config.root_mutations = Some(copy_i64s(root_mutations));
    config.root_id = Some(root_id);
    let mut keys: Vec<String> = Vec::new();
    keys.push(String::from_str("name"));
    keys.push(String::from_str("num_tips"));
    config.keys_to_display = Some(keys);
}

} // verus!
