//! The client reference table of a graph: one entry for each module and
//! exported name that must ship to the browser, in ascending order of that
//! identity.

use vstd::prelude::*;
use crate::graph::{graph_of, lemma_boundary, Link, ModuleGraph};
use crate::route_order::{lemma_lex_irreflexive, lemma_lex_total, lemma_lex_transitive, lex_before, lex_less};
use crate::source::Project;
use crate::tables::{collect_edges, graph_table, row_table, wanted, EdgeRef, Table};

verus! {

/// Whether `r` names a boundary crossing of `g` into a module of the project.
pub open spec fn reference_ok(project: Project, g: ModuleGraph, r: EdgeRef) -> bool {
    &&& r.node < g.nodes@.len()
    &&& g.nodes@[r.node as int] < project.modules@.len()
    &&& r.import < project.modules@[g.nodes@[r.node as int] as int].imports@.len()
    &&& r.link is Proxy
    &&& r.link->module < project.modules@.len()
}

/// The location of the module that the reference stands for.
pub open spec fn reference_location(project: Project, r: EdgeRef) -> Seq<u8> {
    project.modules@[r.link->module as int].location@
}

/// The exported name that the reference asks for.
pub open spec fn reference_name(project: Project, g: ModuleGraph, r: EdgeRef) -> Seq<u8> {
    project.modules@[g.nodes@[r.node as int] as int].imports@[r.import as int].name@
}

/// Whether two edges refer to the same module and exported name.
pub open spec fn same_reference(project: Project, g: ModuleGraph, a: EdgeRef, b: EdgeRef) -> bool {
    reference_location(project, a) == reference_location(project, b) && reference_name(project, g, a)
        == reference_name(project, g, b)
}

/// Whether the identity of `a` comes before that of `b`: by location, then by name.
pub open spec fn reference_less(project: Project, g: ModuleGraph, a: EdgeRef, b: EdgeRef) -> bool {
    ||| lex_less(reference_location(project, a), reference_location(project, b))
    ||| reference_location(project, a) == reference_location(project, b) && lex_less(
        reference_name(project, g, a),
        reference_name(project, g, b),
    )
}

/// Whether `t` holds an entry with the identity of `e`.
pub open spec fn holds_reference(project: Project, g: ModuleGraph, t: Seq<EdgeRef>, e: EdgeRef) -> bool {
    exists|p: int| 0 <= p < t.len() && same_reference(project, g, #[trigger] t[p], e)
}

/// Whether `t` is the table of the first `upto` edges of `all`: identities
/// strictly ascending, nothing that is not among the edges, and every edge
/// represented.
pub open spec fn reference_table_of(
    project: Project,
    g: ModuleGraph,
    t: Seq<EdgeRef>,
    all: Seq<EdgeRef>,
    upto: int,
) -> bool {
    &&& forall|a: int, b: int| 0 <= a < b < t.len() ==> reference_less(project, g, t[a], t[b])
    &&& forall|p: int| 0 <= p < t.len() ==> all.subrange(0, upto).contains(#[trigger] t[p])
    &&& forall|i: int| 0 <= i < upto ==> holds_reference(project, g, t, #[trigger] all[i])
}

proof fn lemma_reference_less_transitive(project: Project, g: ModuleGraph, a: EdgeRef, b: EdgeRef, c: EdgeRef)
    requires
        reference_less(project, g, a, b),
        reference_less(project, g, b, c),
    ensures
        reference_less(project, g, a, c),
{
    let la = reference_location(project, a);
    let lb = reference_location(project, b);
    let lc = reference_location(project, c);
    if lex_less(la, lb) && lex_less(lb, lc) {
        lemma_lex_transitive(la, lb, lc, 0);
    }
    if la == lb && lb == lc {
        lemma_lex_irreflexive(la, 0);
        lemma_lex_transitive(
            reference_name(project, g, a),
            reference_name(project, g, b),
            reference_name(project, g, c),
            0,
        );
    }
}

proof fn lemma_reference_total(project: Project, g: ModuleGraph, a: EdgeRef, b: EdgeRef)
    ensures
        reference_less(project, g, a, b) || reference_less(project, g, b, a) || same_reference(project, g, a, b),
{
    let la = reference_location(project, a);
    let lb = reference_location(project, b);
    if !lex_less(la, lb) && !lex_less(lb, la) {
        lemma_lex_total(la, lb, 0);
        let na = reference_name(project, g, a);
        let nb = reference_name(project, g, b);
        if !lex_less(na, nb) && !lex_less(nb, na) {
            lemma_lex_total(na, nb, 0);
        }
    }
}

/// The edges that a table lists are edges of the graph, and wanted.
pub proof fn lemma_row_table_entries(table: Table, n: usize, row: Seq<Link>, j: nat)
    requires
        j <= row.len() <= usize::MAX,
    ensures
        forall|k: int|
            0 <= k < row_table(table, n, row, j).len() ==> {
                let e = #[trigger] row_table(table, n, row, j)[k];
                e.node == n && e.import < j && e.link == row[e.import as int] && wanted(table, e.link)
            },
    decreases j,
{
    if j > 0 {
        lemma_row_table_entries(table, n, row, (j - 1) as nat);
    }
}

/// The edges that a table lists are edges of the graph, and wanted.
pub proof fn lemma_graph_table_entries(table: Table, edges: Seq<Vec<Link>>, n: nat)
    requires
        n <= edges.len() <= usize::MAX,
    ensures
        forall|k: int|
            0 <= k < graph_table(table, edges, n).len() ==> {
                let e = #[trigger] graph_table(table, edges, n)[k];
                e.node < n && e.import < edges[e.node as int]@.len() && e.link == edges[e.node as int]@[e.import as int]
                    && wanted(table, e.link)
            },
    decreases n,
{
    if n > 0 {
        lemma_graph_table_entries(table, edges, (n - 1) as nat);
        let row = edges[n - 1];
        assert(row@.len() == row.len());
        lemma_row_table_entries(table, (n - 1) as usize, row@, row@.len());
    }
}

fn reference_before(project: &Project, g: &ModuleGraph, a: &EdgeRef, b: &EdgeRef) -> (r: bool)
    requires
        reference_ok(*project, *g, *a),
        reference_ok(*project, *g, *b),
    ensures
        r == reference_less(*project, *g, *a, *b),
{
    match (a.link, b.link) {
        (Link::Proxy { module: ma, environment: _ }, Link::Proxy { module: mb, environment: _ }) => {
            let la = project.modules[ma].location.as_slice();
            let lb = project.modules[mb].location.as_slice();
            if lex_before(la, lb) {
                return true;
            }
            if lex_before(lb, la) {
                proof {
                    if la@ == lb@ {
                        lemma_lex_irreflexive(la@, 0);
                    }
                }
                return false;
            }
            proof {
                lemma_lex_total(la@, lb@, 0);
            }
            let na = project.modules[g.nodes[a.node]].imports[a.import].name.as_slice();
            let nb = project.modules[g.nodes[b.node]].imports[b.import].name.as_slice();
            lex_before(na, nb)
        },
        _ => false,
    }
}

proof fn lemma_reference_keep(project: Project, g: ModuleGraph, t: Seq<EdgeRef>, all: Seq<EdgeRef>, i: int, p: int)
    requires
        0 <= i < all.len(),
        reference_table_of(project, g, t, all, i),
        0 <= p < t.len(),
        same_reference(project, g, t[p], all[i]),
    ensures
        reference_table_of(project, g, t, all, i + 1),
{
    assert forall|q: int| 0 <= q < t.len() implies all.subrange(0, i + 1).contains(#[trigger] t[q]) by {
        assert(all.subrange(0, i).contains(t[q]));
        let w = choose|w: int| 0 <= w < i && all.subrange(0, i)[w] == t[q];
        assert(all.subrange(0, i + 1)[w] == t[q]);
    }
    assert forall|q: int| 0 <= q < i + 1 implies holds_reference(project, g, t, #[trigger] all[q]) by {
        if q == i {
            assert(same_reference(project, g, t[p], all[i]));
        }
    }
}

proof fn lemma_reference_insert(project: Project, g: ModuleGraph, t: Seq<EdgeRef>, all: Seq<EdgeRef>, i: int, p: int)
    requires
        0 <= i < all.len(),
        reference_table_of(project, g, t, all, i),
        0 <= p <= t.len(),
        forall|q: int| 0 <= q < p ==> reference_less(project, g, t[q], all[i]),
        p < t.len() ==> reference_less(project, g, all[i], t[p]),
    ensures
        reference_table_of(project, g, t.insert(p, all[i]), all, i + 1),
{
    let e = all[i];
    let after = t.insert(p, e);
    assert(after.len() == t.len() + 1);
    assert(after[p] == e);
    assert forall|a: int, b: int| 0 <= a < b < after.len() implies reference_less(
        project,
        g,
        after[a],
        after[b],
    ) by {
        let a0 = if a < p {
            a
        } else {
            a - 1
        };
        let b0 = if b < p {
            b
        } else {
            b - 1
        };
        if a != p && b != p {
            assert(after[a] == t[a0]);
            assert(after[b] == t[b0]);
        } else if a == p {
            assert(after[b] == t[b0]);
            if b0 > p {
                lemma_reference_less_transitive(project, g, e, t[p], t[b0]);
            }
        } else {
            assert(after[a] == t[a0]);
        }
    }
    assert forall|q: int| 0 <= q < after.len() implies all.subrange(0, i + 1).contains(#[trigger] after[q]) by {
        if q == p {
            assert(all.subrange(0, i + 1)[i] == e);
        } else {
            let q0 = if q < p {
                q
            } else {
                q - 1
            };
            assert(after[q] == t[q0]);
            assert(all.subrange(0, i).contains(t[q0]));
            let w = choose|w: int| 0 <= w < i && all.subrange(0, i)[w] == t[q0];
            assert(all.subrange(0, i + 1)[w] == after[q]);
        }
    }
    assert forall|q: int| 0 <= q < i + 1 implies holds_reference(project, g, after, #[trigger] all[q]) by {
        if q == i {
            assert(same_reference(project, g, after[p], e));
        } else {
            assert(holds_reference(project, g, t, all[q]));
            let w = choose|w: int| 0 <= w < t.len() && same_reference(project, g, #[trigger] t[w], all[q]);
            let w1 = if w < p {
                w
            } else {
                w + 1
            };
            assert(after[w1] == t[w]);
        }
    }
}

/// Orders boundary crossings by the identity they refer to, location first
/// and exported name second, and keeps one edge for each identity.
pub fn sort_references(project: &Project, g: &ModuleGraph, all: &Vec<EdgeRef>) -> (t: Vec<EdgeRef>)
    requires
        forall|i: int| 0 <= i < all@.len() ==> reference_ok(*project, *g, #[trigger] all@[i]),
    ensures
        reference_table_of(*project, *g, t@, all@, all@.len() as int),
{
    let mut t: Vec<EdgeRef> = Vec::new();
    let mut i: usize = 0;
    while i < all.len()
        invariant
            i <= all@.len(),
            forall|i: int| 0 <= i < all@.len() ==> reference_ok(*project, *g, #[trigger] all@[i]),
            reference_table_of(*project, *g, t@, all@, i as int),
        decreases all@.len() - i,
    {
        let e = all[i];
        proof {
            assert forall|q: int| 0 <= q < t@.len() implies reference_ok(*project, *g, #[trigger] t@[q]) by {
                assert(all@.subrange(0, i as int).contains(t@[q]));
            }
        }
        let mut p: usize = 0;
        while p < t.len() && reference_before(project, g, &t[p], &e)
            invariant
                p <= t@.len(),
                reference_ok(*project, *g, e),
                forall|q: int| 0 <= q < t@.len() ==> reference_ok(*project, *g, #[trigger] t@[q]),
                forall|q: int| 0 <= q < p ==> reference_less(*project, *g, t@[q], e),
            decreases t@.len() - p,
        {
            p += 1;
        }
        if p < t.len() && !reference_before(project, g, &e, &t[p]) {
            proof {
                lemma_reference_total(*project, *g, t@[p as int], e);
                lemma_reference_keep(*project, *g, t@, all@, i as int, p as int);
            }
        } else {
            proof {
                lemma_reference_insert(*project, *g, t@, all@, i as int, p as int);
            }
            t.insert(p, e);
        }
        i += 1;
    }
    t
}

/// The client reference table of a graph: its boundary crossings into the
/// client environment, one for each module and exported name, in ascending
/// order of location and name.
pub fn client_reference_table(project: &Project, g: &ModuleGraph) -> (t: Vec<EdgeRef>)
    requires
        g.nodes@.len() > 0,
        graph_of(*project, g.nodes@[0], g.environment, *g),
    ensures
        reference_table_of(
            *project,
            *g,
            t@,
            graph_table(Table::ClientReferences, g.edges@, g.edges@.len()),
            graph_table(Table::ClientReferences, g.edges@, g.edges@.len()).len() as int,
        ),
{
    let all = collect_edges(g, Table::ClientReferences);
    proof {
        assert(g.edges@.len() == g.edges.len());
        lemma_graph_table_entries(Table::ClientReferences, g.edges@, g.edges@.len());
        assert forall|i: int| 0 <= i < all@.len() implies reference_ok(*project, *g, #[trigger] all@[i]) by {
            let e = all@[i];
            lemma_boundary(*project, g.nodes@[0], g.environment, *g, e.node as int, e.import as int);
        }
    }
    sort_references(project, g, &all)
}

} // verus!
