//! Split points: the graph of every module that a graph defers, and the
//! closure of all that those defer in turn, each module built once as the
//! root of its own graph.

use vstd::prelude::*;
use crate::environment::{classify_spec, Environment};
use crate::graph::{build, graph_of, lemma_boundary, lemma_distinct_bounded, Link, ModuleGraph};
use crate::source::Project;
use crate::tables::{graph_table, row_table, EdgeRef, Table};

verus! {

/// Whether `g` has a deferred load of module `t`.
pub open spec fn defers(g: ModuleGraph, t: usize) -> bool {
    exists|n: int, j: int|
        0 <= n < g.edges@.len() && 0 <= j < g.edges@[n]@.len() && #[trigger] g.edges@[n]@[j] == Link::Deferred(t)
}

/// Whether `g` or one of the first `upto` graphs of `subs` defers module `t`.
pub open spec fn deferred_by(g: ModuleGraph, subs: Seq<ModuleGraph>, upto: int, t: usize) -> bool {
    defers(g, t) || exists|k: int| 0 <= k < upto && defers(#[trigger] subs[k], t)
}

/// Whether every deferred load among the first `n` rows of `g`, and the
/// first `j` links of row `n`, is of a module in `roots`.
pub open spec fn covered(g: ModuleGraph, n: int, j: int, roots: Seq<usize>) -> bool {
    forall|n2: int, j2: int|
        0 <= n2 < g.edges@.len() && 0 <= j2 < g.edges@[n2]@.len() && (n2 < n || (n2 == n && j2 < j)) ==> (
        #[trigger] g.edges@[n2]@[j2] matches Link::Deferred(t) ==> roots.contains(t))
}

/// Whether `roots` are modules of the project, each once, and `seen` marks them.
pub open spec fn roots_ok(project: Project, roots: Seq<usize>, seen: Seq<bool>) -> bool {
    &&& seen.len() == project.modules@.len()
    &&& forall|k: int| 0 <= k < roots.len() ==> #[trigger] roots[k] < project.modules@.len()
    &&& forall|a: int, b: int| 0 <= a < b < roots.len() ==> roots[a] != roots[b]
    &&& forall|m: usize| m < seen.len() ==> (seen[m as int] <==> roots.contains(m))
}

/// Whether `subs` is the split point closure of `g`: each is the graph of
/// its own root for the environment of `g`, no root occurs twice, every
/// module that `g` or one of them defers is the root of one of them, and
/// every root is deferred by `g` or by one of them.
pub open spec fn split_closure_of(project: Project, g: ModuleGraph, subs: Seq<ModuleGraph>) -> bool {
    &&& forall|k: int|
        0 <= k < subs.len() ==> (#[trigger] subs[k]).nodes@.len() > 0 && graph_of(
            project,
            subs[k].nodes@[0],
            g.environment,
            subs[k],
        )
    &&& forall|a: int, b: int| 0 <= a < b < subs.len() ==> subs[a].nodes@[0] != subs[b].nodes@[0]
    &&& forall|t: usize|
        deferred_by(g, subs, subs.len() as int, t) ==> exists|k: int|
            0 <= k < subs.len() && (#[trigger] subs[k]).nodes@[0] == t
    &&& forall|k: int|
        0 <= k < subs.len() ==> deferred_by(g, subs, subs.len() as int, (#[trigger] subs[k]).nodes@[0])
}

/// Makes sure that module `t` is among the roots.
fn enqueue(project: &Project, roots: &mut Vec<usize>, seen: &mut Vec<bool>, t: usize)
    requires
        roots_ok(*project, old(roots)@, old(seen)@),
        t < project.modules@.len(),
    ensures
        roots_ok(*project, final(roots)@, final(seen)@),
        final(roots)@.contains(t),
        final(roots)@.len() <= project.modules@.len(),
        final(roots)@ == old(roots)@ || final(roots)@ == old(roots)@.push(t),
{
    if !seen[t] {
        let ghost before = roots@;
        seen.set(t, true);
        roots.push(t);
        proof {
            let after = roots@;
            assert(after[before.len() as int] == t);
            assert forall|a: int, b: int| 0 <= a < b < after.len() implies after[a] != after[b] by {
                if b == before.len() && after[a] == t {
                    assert(before[a] == t);
                    assert(before.contains(t));
                }
            }
            assert forall|m: usize| m < seen@.len() implies (seen@[m as int] <==> after.contains(m)) by {
                if m != t {
                    if before.contains(m) {
                        let k = choose|k: int| 0 <= k < before.len() && before[k] == m;
                        assert(after[k] == m);
                    }
                    if after.contains(m) {
                        let k = choose|k: int| 0 <= k < after.len() && after[k] == m;
                        assert(before[k] == m);
                    }
                }
            }
        }
    } else {
        proof {
            assert(roots@.contains(t));
        }
    }
    proof {
        lemma_distinct_bounded(roots@, project.modules@.len());
    }
}

/// What is among the roots stays among them when one more is added.
proof fn lemma_covered_grows(g: ModuleGraph, n: int, j: int, before: Seq<usize>, after: Seq<usize>, t: usize)
    requires
        covered(g, n, j, before),
        after == before || after == before.push(t),
    ensures
        covered(g, n, j, after),
{
    assert forall|n2: int, j2: int|
        0 <= n2 < g.edges@.len() && 0 <= j2 < g.edges@[n2]@.len() && (n2 < n || (n2 == n && j2 < j)) implies (
    #[trigger] g.edges@[n2]@[j2] matches Link::Deferred(u) ==> after.contains(u)) by {
        if let Link::Deferred(u) = g.edges@[n2]@[j2] {
            assert(before.contains(u));
            let k = choose|k: int| 0 <= k < before.len() && before[k] == u;
            assert(after[k] == u);
        }
    }
}

/// A deferred load of a graph names a module of the project.
proof fn lemma_deferred_in_range(project: Project, root: usize, env: Environment, g: ModuleGraph, n: int, j: int)
    requires
        graph_of(project, root, env, g),
        0 <= n < g.edges@.len(),
        0 <= j < g.edges@[n]@.len(),
    ensures
        g.edges@[n]@[j] matches Link::Deferred(t) ==> t < project.modules@.len(),
{
    lemma_boundary(project, root, env, g, n, j);
}

/// Puts every module that `g` defers among the roots, and nothing else.
fn enqueue_deferred(project: &Project, g: &ModuleGraph, roots: &mut Vec<usize>, seen: &mut Vec<bool>)
    requires
        roots_ok(*project, old(roots)@, old(seen)@),
        g.nodes@.len() > 0,
        graph_of(*project, g.nodes@[0], g.environment, *g),
    ensures
        roots_ok(*project, final(roots)@, final(seen)@),
        final(roots)@.len() <= project.modules@.len() || final(roots)@ == old(roots)@,
        old(roots)@.len() <= final(roots)@.len(),
        forall|k: int| 0 <= k < old(roots)@.len() ==> final(roots)@[k] == old(roots)@[k],
        forall|k: int| old(roots)@.len() <= k < final(roots)@.len() ==> defers(*g, #[trigger] final(roots)@[k]),
        forall|t: usize| defers(*g, t) ==> final(roots)@.contains(t),
{
    let ghost start = roots@;
    let mut n: usize = 0;
    while n < g.edges.len()
        invariant
            roots_ok(*project, roots@, seen@),
            g.nodes@.len() > 0,
            graph_of(*project, g.nodes@[0], g.environment, *g),
            n <= g.edges@.len(),
            roots@.len() <= project.modules@.len() || roots@ == start,
            start.len() <= roots@.len(),
            forall|k: int| 0 <= k < start.len() ==> roots@[k] == start[k],
            forall|k: int| start.len() <= k < roots@.len() ==> defers(*g, #[trigger] roots@[k]),
            covered(*g, n as int, 0, roots@),
        decreases g.edges@.len() - n,
    {
        let row = &g.edges[n];
        let mut j: usize = 0;
        while j < row.len()
            invariant
                roots_ok(*project, roots@, seen@),
                g.nodes@.len() > 0,
                graph_of(*project, g.nodes@[0], g.environment, *g),
                n < g.edges@.len(),
                row@ == g.edges@[n as int]@,
                j <= row@.len(),
                roots@.len() <= project.modules@.len() || roots@ == start,
                start.len() <= roots@.len(),
                forall|k: int| 0 <= k < start.len() ==> roots@[k] == start[k],
                forall|k: int| start.len() <= k < roots@.len() ==> defers(*g, #[trigger] roots@[k]),
                covered(*g, n as int, j as int, roots@),
            decreases row@.len() - j,
        {
            let ghost before = roots@;
            match row[j] {
                Link::Deferred(t) => {
                    proof {
                        lemma_deferred_in_range(*project, g.nodes@[0], g.environment, *g, n as int, j as int);
                    }
                    enqueue(project, roots, seen, t);
                    proof {
                        lemma_covered_grows(*g, n as int, j as int, before, roots@, t);
                        assert(g.edges@[n as int]@[j as int] == Link::Deferred(t));
                        assert(defers(*g, t));
                        assert forall|k: int| start.len() <= k < roots@.len() implies defers(
                            *g,
                            #[trigger] roots@[k],
                        ) by {
                            if k < before.len() {
                                assert(roots@[k] == before[k]);
                            }
                        }
                    }
                },
                _ => {},
            }
            proof {
                assert(covered(*g, n as int, j + 1, roots@));
            }
            j += 1;
        }
        proof {
            assert(covered(*g, n + 1, 0, roots@));
        }
        n += 1;
    }
    proof {
        assert forall|t: usize| defers(*g, t) implies roots@.contains(t) by {
            let (n2, j2) = choose|n2: int, j2: int|
                0 <= n2 < g.edges@.len() && 0 <= j2 < g.edges@[n2]@.len() && #[trigger] g.edges@[n2]@[j2]
                    == Link::Deferred(t);
            assert(g.edges@[n2]@[j2] matches Link::Deferred(u) ==> roots@.contains(u));
        }
    }
}

/// The module that a split point defers.
pub open spec fn deferred_module(e: EdgeRef) -> usize {
    match e.link {
        Link::Deferred(t) => t,
        _ => 0,
    }
}

/// Builds the graph of every split point of `g`, in the order of the split
/// point table: each deferred module is the root of a traversal of its own,
/// for the environment of the graph that defers it.
pub fn build_split_points(project: &Project, g: &ModuleGraph) -> (r: Vec<ModuleGraph>)
    requires
        g.nodes@.len() > 0,
        graph_of(*project, g.nodes@[0], g.environment, *g),
    ensures
        r@.len() == graph_table(Table::SplitPoints, g.edges@, g.edges@.len()).len(),
        forall|k: int|
            0 <= k < r@.len() ==> graph_of(
                *project,
                deferred_module(graph_table(Table::SplitPoints, g.edges@, g.edges@.len())[k]),
                g.environment,
                #[trigger] r@[k],
            ),
{
    let env = g.environment;
    let mut out: Vec<ModuleGraph> = Vec::new();
    let mut n: usize = 0;
    while n < g.edges.len()
        invariant
            g.nodes@.len() > 0,
            graph_of(*project, g.nodes@[0], g.environment, *g),
            env == g.environment,
            n <= g.edges@.len(),
            out@.len() == graph_table(Table::SplitPoints, g.edges@, n as nat).len(),
            forall|k: int|
                0 <= k < out@.len() ==> graph_of(
                    *project,
                    deferred_module(graph_table(Table::SplitPoints, g.edges@, n as nat)[k]),
                    env,
                    #[trigger] out@[k],
                ),
        decreases g.edges@.len() - n,
    {
        let row = &g.edges[n];
        let ghost base = graph_table(Table::SplitPoints, g.edges@, n as nat);
        let mut j: usize = 0;
        while j < row.len()
            invariant
                g.nodes@.len() > 0,
                graph_of(*project, g.nodes@[0], g.environment, *g),
                env == g.environment,
                n < g.edges@.len(),
                row@ == g.edges@[n as int]@,
                j <= row@.len(),
                base == graph_table(Table::SplitPoints, g.edges@, n as nat),
                out@.len() == (base + row_table(Table::SplitPoints, n, row@, j as nat)).len(),
                forall|k: int|
                    0 <= k < out@.len() ==> graph_of(
                        *project,
                        deferred_module((base + row_table(Table::SplitPoints, n, row@, j as nat))[k]),
                        env,
                        #[trigger] out@[k],
                    ),
            decreases row@.len() - j,
        {
            let link = row[j];
            let ghost before = out@;
            let ghost listed = base + row_table(Table::SplitPoints, n, row@, j as nat);
            match link {
                Link::Deferred(t) => {
                    proof {
                        lemma_deferred_in_range(*project, g.nodes@[0], env, *g, n as int, j as int);
                    }
                    out.push(build(project, t, env));
                    proof {
                        let now = base + row_table(Table::SplitPoints, n, row@, (j + 1) as nat);
                        assert(now =~= listed.push(EdgeRef { node: n, import: j, link }));
                        assert forall|k: int| 0 <= k < out@.len() implies graph_of(
                            *project,
                            deferred_module(now[k]),
                            env,
                            #[trigger] out@[k],
                        ) by {
                            if k < before.len() {
                                assert(out@[k] == before[k]);
                                assert(now[k] == listed[k]);
                            }
                        }
                    }
                },
                _ => {},
            }
            j += 1;
        }
        n += 1;
    }
    out
}

/// Every root of the split point closure is a module that the classifier
/// puts in the environment of the graph: no deferred load carries a module
/// of another environment into a graph of this one.
pub proof fn lemma_split_roots_stay_in_environment(project: Project, g: ModuleGraph, subs: Seq<ModuleGraph>, k: int)
    requires
        g.nodes@.len() > 0,
        graph_of(project, g.nodes@[0], g.environment, g),
        split_closure_of(project, g, subs),
        0 <= k < subs.len(),
    ensures
        subs[k].nodes@[0] < project.modules@.len(),
        classify_spec(project.modules@[subs[k].nodes@[0] as int].directives@, Some(g.environment))
            == g.environment,
{
    let t = subs[k].nodes@[0];
    assert(deferred_by(g, subs, subs.len() as int, subs[k].nodes@[0]));
    if defers(g, t) {
        let (n, j) = choose|n: int, j: int|
            0 <= n < g.edges@.len() && 0 <= j < g.edges@[n]@.len() && #[trigger] g.edges@[n]@[j] == Link::Deferred(
                t,
            );
        lemma_boundary(project, g.nodes@[0], g.environment, g, n, j);
    } else {
        let q = choose|q: int| 0 <= q < subs.len() && defers(#[trigger] subs[q], t);
        let h = subs[q];
        let (n, j) = choose|n: int, j: int|
            0 <= n < h.edges@.len() && 0 <= j < h.edges@[n]@.len() && #[trigger] h.edges@[n]@[j] == Link::Deferred(
                t,
            );
        lemma_boundary(project, h.nodes@[0], g.environment, h, n, j);
    }
}

/// Builds the split point closure of `g`: the graph of every module that
/// `g` defers and of every module that one of those graphs defers in turn,
/// each once, in the order in which the deferred loads are met. None of
/// these modules is inlined into the graph that defers it.
pub fn build_split_closure(project: &Project, g: &ModuleGraph) -> (subs: Vec<ModuleGraph>)
    requires
        g.nodes@.len() > 0,
        graph_of(*project, g.nodes@[0], g.environment, *g),
    ensures
        split_closure_of(*project, *g, subs@),
{
    let env = g.environment;
    let count = project.modules.len();
    let mut seen: Vec<bool> = Vec::new();
    let mut c: usize = 0;
    while c < count
        invariant
            c <= count,
            seen@.len() == c,
            forall|k: int| 0 <= k < c ==> !seen@[k],
        decreases count - c,
    {
        seen.push(false);
        c += 1;
    }
    let mut roots: Vec<usize> = Vec::new();
    proof {
        assert forall|m: usize| m < seen@.len() implies (seen@[m as int] <==> roots@.contains(m)) by {}
    }
    enqueue_deferred(project, g, &mut roots, &mut seen);
    let mut out: Vec<ModuleGraph> = Vec::new();
    let mut i: usize = 0;
    while i < roots.len()
        invariant
            count == project.modules@.len(),
            env == g.environment,
            roots_ok(*project, roots@, seen@),
            roots@.len() <= count,
            i <= roots@.len(),
            out@.len() == i,
            forall|k: int|
                0 <= k < i ==> (#[trigger] out@[k]).nodes@.len() > 0 && out@[k].nodes@[0] == roots@[k] && graph_of(
                    *project,
                    roots@[k],
                    env,
                    out@[k],
                ),
            forall|t: usize| defers(*g, t) ==> roots@.contains(t),
            forall|k: int, t: usize| 0 <= k < i && #[trigger] defers(out@[k], t) ==> roots@.contains(t),
            forall|q: int| 0 <= q < roots@.len() ==> deferred_by(*g, out@, i as int, #[trigger] roots@[q]),
        decreases count - i,
    {
        let ghost roots_before = roots@;
        let ghost out_before = out@;
        let sub = build(project, roots[i], env);
        enqueue_deferred(project, &sub, &mut roots, &mut seen);
        out.push(sub);
        proof {
            let now = out@;
            assert(now[i as int] == sub);
            assert forall|k: int| 0 <= k < i implies now[k] == out_before[k] by {}
            assert forall|x: usize| roots_before.contains(x) implies roots@.contains(x) by {
                let w = choose|w: int| 0 <= w < roots_before.len() && roots_before[w] == x;
                assert(roots@[w] == x);
            }
            assert forall|k: int|
                0 <= k < i + 1 implies (#[trigger] now[k]).nodes@.len() > 0 && now[k].nodes@[0] == roots@[k]
                && graph_of(*project, roots@[k], env, now[k]) by {
                if k < i {
                    assert(now[k] == out_before[k]);
                    assert(roots@[k] == roots_before[k]);
                }
            }
            assert forall|t: usize| defers(*g, t) implies roots@.contains(t) by {
                assert(roots_before.contains(t));
            }
            assert forall|k: int, t: usize| 0 <= k < i + 1 && #[trigger] defers(now[k], t) implies roots@.contains(
                t,
            ) by {
                if k < i {
                    assert(now[k] == out_before[k]);
                    assert(defers(out_before[k], t));
                    assert(roots_before.contains(t));
                }
            }
            assert forall|q: int| 0 <= q < roots@.len() implies deferred_by(*g, now, i + 1, #[trigger] roots@[q]) by {
                if q < roots_before.len() {
                    assert(roots@[q] == roots_before[q]);
                    assert(deferred_by(*g, out_before, i as int, roots_before[q]));
                    if !defers(*g, roots@[q]) {
                        let k = choose|k: int| 0 <= k < i && defers(#[trigger] out_before[k], roots_before[q]);
                        assert(now[k] == out_before[k]);
                        assert(defers(now[k], roots@[q]));
                    }
                } else {
                    assert(defers(sub, roots@[q]));
                    assert(defers(now[i as int], roots@[q]));
                }
            }
        }
        i += 1;
    }
    proof {
        let subs = out@;
        assert forall|t: usize| deferred_by(*g, subs, subs.len() as int, t) implies exists|k: int|
            0 <= k < subs.len() && (#[trigger] subs[k]).nodes@[0] == t by {
            if !defers(*g, t) {
                let k = choose|k: int| 0 <= k < subs.len() && defers(#[trigger] subs[k], t);
                assert(roots@.contains(t));
            }
            assert(roots@.contains(t));
            let w = choose|w: int| 0 <= w < roots@.len() && roots@[w] == t;
            assert(subs[w].nodes@[0] == t);
        }
        assert forall|k: int| 0 <= k < subs.len() implies deferred_by(
            *g,
            subs,
            subs.len() as int,
            (#[trigger] subs[k]).nodes@[0],
        ) by {
            assert(subs[k].nodes@[0] == roots@[k]);
        }
        assert forall|a: int, b: int| 0 <= a < b < subs.len() implies subs[a].nodes@[0] != subs[b].nodes@[0] by {
            assert(subs[a].nodes@[0] == roots@[a]);
            assert(subs[b].nodes@[0] == roots@[b]);
        }
    }
    out
}

} // verus!
