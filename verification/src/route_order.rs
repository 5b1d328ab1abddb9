//! The order of the route tree: by path depth, then by the bytes of the
//! pattern, then by position among the definitions.

use vstd::prelude::*;
use crate::entrypoints::RouteDefinition;

verus! {

/// Whether a path segment starts at byte `i` of `p`.
pub open spec fn is_segment_start(p: Seq<u8>, i: int) -> bool {
    p[i] != 0x2f && (i == 0 || p[i - 1] == 0x2f)
}

/// The number of segments that start in the first `n` bytes of `p`.
pub open spec fn depth_upto(p: Seq<u8>, n: nat) -> nat
    decreases n,
{
    if n == 0 {
        0
    } else {
        depth_upto(p, (n - 1) as nat) + if is_segment_start(p, n - 1) {
            1nat
        } else {
            0nat
        }
    }
}

/// The depth of a pattern: the number of its segments.
pub open spec fn depth_spec(p: Seq<u8>) -> nat {
    depth_upto(p, p.len())
}

/// Whether `a` comes before `b` byte by byte, given that they agree on the
/// first `k` bytes: at the first byte that differs the smaller one decides,
/// and a proper prefix comes first.
pub open spec fn lex_less_from(a: Seq<u8>, b: Seq<u8>, k: int) -> bool
    decreases a.len() - k,
{
    if k < 0 || k >= b.len() {
        false
    } else if k >= a.len() {
        true
    } else if a[k] != b[k] {
        a[k] < b[k]
    } else {
        lex_less_from(a, b, k + 1)
    }
}

/// Whether `a` comes before `b` in lexical order.
pub open spec fn lex_less(a: Seq<u8>, b: Seq<u8>) -> bool {
    lex_less_from(a, b, 0)
}

/// Whether definition `x` comes before definition `y` in the route tree.
/// Two definitions with one pattern are no conflict here: both stay in the
/// tree, in the order in which they were given.
pub open spec fn precedes(defs: Seq<RouteDefinition>, x: usize, y: usize) -> bool {
    let px = defs[x as int].pattern@;
    let py = defs[y as int].pattern@;
    ||| depth_spec(px) < depth_spec(py)
    ||| depth_spec(px) == depth_spec(py) && lex_less(px, py)
    ||| depth_spec(px) == depth_spec(py) && px == py && x < y
}

/// Whether `order` lists every definition once, each before those that it precedes.
pub open spec fn is_route_order(defs: Seq<RouteDefinition>, order: Seq<usize>) -> bool {
    &&& order.len() == defs.len()
    &&& forall|k: int| 0 <= k < order.len() ==> #[trigger] order[k] < defs.len()
    &&& forall|a: int, b: int| 0 <= a < b < order.len() ==> precedes(defs, order[a], order[b])
    &&& forall|d: usize| d < defs.len() ==> order.contains(d)
}

/// Lexical order is transitive.
pub proof fn lemma_lex_transitive(a: Seq<u8>, b: Seq<u8>, c: Seq<u8>, k: int)
    requires
        0 <= k,
        lex_less_from(a, b, k),
        lex_less_from(b, c, k),
    ensures
        lex_less_from(a, c, k),
    decreases a.len() - k,
{
    if k < a.len() && k < b.len() && k < c.len() && a[k] == b[k] && b[k] == c[k] {
        lemma_lex_transitive(a, b, c, k + 1);
    }
}

/// Of two byte strings that agree on the first `k` bytes, one comes before
/// the other or they are the same.
pub proof fn lemma_lex_total(a: Seq<u8>, b: Seq<u8>, k: int)
    requires
        0 <= k <= a.len(),
        k <= b.len(),
        forall|i: int| 0 <= i < k ==> a[i] == b[i],
        !lex_less_from(a, b, k),
        !lex_less_from(b, a, k),
    ensures
        a == b,
    decreases a.len() - k,
{
    if k < a.len() && k < b.len() {
        lemma_lex_total(a, b, k + 1);
    } else {
        assert(a =~= b);
    }
}

/// No byte string comes before itself.
pub proof fn lemma_lex_irreflexive(a: Seq<u8>, k: int)
    requires
        0 <= k,
    ensures
        !lex_less_from(a, a, k),
    decreases a.len() - k,
{
    if k < a.len() {
        lemma_lex_irreflexive(a, k + 1);
    }
}

/// The order of the route tree is transitive.
pub proof fn lemma_precedes_transitive(defs: Seq<RouteDefinition>, x: usize, y: usize, z: usize)
    requires
        precedes(defs, x, y),
        precedes(defs, y, z),
    ensures
        precedes(defs, x, z),
{
    let px = defs[x as int].pattern@;
    let py = defs[y as int].pattern@;
    let pz = defs[z as int].pattern@;
    if depth_spec(px) == depth_spec(py) && depth_spec(py) == depth_spec(pz) {
        if lex_less(px, py) && lex_less(py, pz) {
            lemma_lex_transitive(px, py, pz, 0);
        }
    }
}

/// Of two different definitions one precedes the other.
pub proof fn lemma_precedes_total(defs: Seq<RouteDefinition>, x: usize, y: usize)
    requires
        x != y,
    ensures
        precedes(defs, x, y) || precedes(defs, y, x),
{
    let px = defs[x as int].pattern@;
    let py = defs[y as int].pattern@;
    if depth_spec(px) == depth_spec(py) && !lex_less(px, py) && !lex_less(py, px) {
        lemma_lex_total(px, py, 0);
    }
}

/// The depth of a pattern: the number of its segments between slashes.
pub fn depth(p: &[u8]) -> (d: usize)
    ensures
        d == depth_spec(p@),
{
    let mut d: usize = 0;
    let mut i: usize = 0;
    while i < p.len()
        invariant
            i <= p@.len(),
            d <= i,
            d == depth_upto(p@, i as nat),
        decreases p@.len() - i,
    {
        if p[i] != 0x2f && (i == 0 || p[i - 1] == 0x2f) {
            d += 1;
        }
        i += 1;
    }
    d
}

/// Whether `a` comes before `b` in lexical order.
pub fn lex_before(a: &[u8], b: &[u8]) -> (r: bool)
    ensures
        r == lex_less(a@, b@),
{
    let mut k: usize = 0;
    while k < a.len() && k < b.len()
        invariant
            k <= a@.len(),
            k <= b@.len(),
            lex_less(a@, b@) == lex_less_from(a@, b@, k as int),
        decreases a@.len() - k,
    {
        if a[k] != b[k] {
            return a[k] < b[k];
        }
        k += 1;
    }
    k < b.len()
}

/// Whether definition `x` comes before definition `y` in the route tree.
pub fn comes_before(defs: &Vec<RouteDefinition>, x: usize, y: usize) -> (r: bool)
    requires
        x < defs@.len(),
        y < defs@.len(),
    ensures
        r == precedes(defs@, x, y),
{
    let px = defs[x].pattern.as_slice();
    let py = defs[y].pattern.as_slice();
    let dx = depth(px);
    let dy = depth(py);
    if dx != dy {
        return dx < dy;
    }
    if lex_before(px, py) {
        return true;
    }
    if lex_before(py, px) {
        proof {
            if px@ == py@ {
                lemma_lex_irreflexive(px@, 0);
            }
        }
        return false;
    }
    proof {
        lemma_lex_total(px@, py@, 0);
    }
    x < y
}

/// Putting the next definition where it belongs keeps the order of those before it.
proof fn lemma_order_insert(defs: Seq<RouteDefinition>, order: Seq<usize>, d: usize, p: int)
    requires
        d < defs.len(),
        forall|k: int| 0 <= k < order.len() ==> #[trigger] order[k] < d,
        forall|a: int, b: int| 0 <= a < b < order.len() ==> precedes(defs, order[a], order[b]),
        forall|x: usize| x < d ==> order.contains(x),
        0 <= p <= order.len(),
        forall|q: int| 0 <= q < p ==> precedes(defs, order[q], d),
        p < order.len() ==> !precedes(defs, order[p], d),
    ensures
        forall|k: int| 0 <= k < order.insert(p, d).len() ==> #[trigger] order.insert(p, d)[k] < d + 1,
        forall|a: int, b: int|
            0 <= a < b < order.insert(p, d).len() ==> precedes(defs, order.insert(p, d)[a], order.insert(p, d)[b]),
        forall|x: usize| x < d + 1 ==> order.insert(p, d).contains(x),
{
    let after = order.insert(p, d);
    assert(after.len() == order.len() + 1);
    assert(after[p] == d);
    assert forall|k: int| 0 <= k < after.len() implies #[trigger] after[k] < d + 1 by {
        if k < p {
            assert(after[k] == order[k]);
        } else if k > p {
            assert(after[k] == order[k - 1]);
        }
    }
    assert forall|a: int, b: int| 0 <= a < b < after.len() implies precedes(defs, after[a], after[b]) by {
        let a0 = if a < p {
            a
        } else {
            a - 1
        };
        let b0 = if b < p {
            b
        } else {
            b - 1
        };
        if a != p && b != p {
            assert(after[a] == order[a0]);
            assert(after[b] == order[b0]);
        } else if a == p {
            assert(after[b] == order[b0]);
            assert(order[p] < d);
            lemma_precedes_total(defs, order[p], d);
            if b0 > p {
                lemma_precedes_transitive(defs, d, order[p], order[b0]);
            }
        } else {
            assert(after[a] == order[a0]);
        }
    }
    assert forall|x: usize| x < d + 1 implies after.contains(x) by {
        if x == d {
            assert(after[p] == x);
        } else {
            assert(order.contains(x));
            let w = choose|w: int| 0 <= w < order.len() && order[w] == x;
            let w1 = if w < p {
                w
            } else {
                w + 1
            };
            assert(after[w1] == x);
        }
    }
}

/// The definitions in the order of the route tree: by depth, then in lexical
/// order of the pattern; definitions with one pattern stay in the order in
/// which they were given.
pub fn route_order(defs: &Vec<RouteDefinition>) -> (order: Vec<usize>)
    ensures
        is_route_order(defs@, order@),
{
    let mut order: Vec<usize> = Vec::new();
    let mut d: usize = 0;
    while d < defs.len()
        invariant
            d <= defs@.len(),
            order@.len() == d,
            forall|k: int| 0 <= k < order@.len() ==> #[trigger] order@[k] < d,
            forall|a: int, b: int| 0 <= a < b < order@.len() ==> precedes(defs@, order@[a], order@[b]),
            forall|x: usize| x < d ==> order@.contains(x),
        decreases defs@.len() - d,
    {
        let mut p: usize = 0;
        while p < order.len() && comes_before(defs, order[p], d)
            invariant
                d < defs@.len(),
                p <= order@.len(),
                forall|k: int| 0 <= k < order@.len() ==> #[trigger] order@[k] < d,
                forall|q: int| 0 <= q < p ==> precedes(defs@, order@[q], d),
            decreases order@.len() - p,
        {
            p += 1;
        }
        proof {
            lemma_order_insert(defs@, order@, d, p as int);
        }
        order.insert(p, d);
        d += 1;
    }
    order
}

} // verus!
