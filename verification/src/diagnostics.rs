//! Diagnostics of a graph, each attached to the node or edge that caused it,
//! and the analysis of one root: its graph with all its side tables.

use vstd::prelude::*;
use crate::actions::{
    action_table,
    graph_entries,
    has_collision,
    is_collision_of,
    table_of,
    ActionEntry,
    ActionIdCollision,
};
use crate::client_references::{client_reference_table, reference_table_of};
use crate::environment::{classify, directives_conflict, Environment};
use crate::graph::{build, graph_of, is_path, lemma_boundary, lemma_path_ends_in_graph, reachable, Link, ModuleGraph};
use crate::source::Project;
use crate::tables::{collect_edges, graph_table, EdgeRef, Table};

verus! {

/// A condition that does not stop the build. The graph is built around it.
#[derive(Clone, Copy, Debug, PartialEq, Eq, Structural)]
pub enum Diagnostic {
    /// The module of this node carries directives that contradict each
    /// other. A followed target is a node, and its conflict is reported here.
    ClassificationConflict { node: usize },
    /// The specifier of this edge resolved to nothing.
    ResolutionError { node: usize, import: usize },
    /// The specifier of this edge is computed at run time.
    DynamicSpecifierUnanalyzable { node: usize, import: usize },
    /// The target of this edge, a module that is no node of this graph but
    /// was classified for the edge, carries directives that contradict each
    /// other.
    TargetClassificationConflict { node: usize, import: usize },
    /// This edge closes a cycle: its target leads back to its source. For
    /// information only.
    CycleNotice { node: usize, import: usize },
}

/// Whether an edge from module `from` that leads to `link` closes a cycle:
/// the edge is followed, and followed references lead from its target back
/// to `from`.
pub open spec fn closes_cycle(project: Project, env: Environment, from: usize, link: Link) -> bool {
    link matches Link::Follow(t) && reachable(project, env, t, from)
}

/// The diagnostics of the first `j` links of the row of node `n`, whose
/// module is `from`.
pub open spec fn row_diagnostics(
    project: Project,
    env: Environment,
    from: usize,
    n: usize,
    row: Seq<Link>,
    j: nat,
) -> Seq<Diagnostic>
    decreases j,
{
    if j == 0 {
        Seq::empty()
    } else {
        let rest = row_diagnostics(project, env, from, n, row, (j - 1) as nat);
        match row[j - 1] {
            Link::Unresolved => rest.push(Diagnostic::ResolutionError { node: n, import: (j - 1) as usize }),
            Link::Unanalyzable => rest.push(
                Diagnostic::DynamicSpecifierUnanalyzable { node: n, import: (j - 1) as usize },
            ),
            Link::Follow(_) => if closes_cycle(project, env, from, row[j - 1]) {
                rest.push(Diagnostic::CycleNotice { node: n, import: (j - 1) as usize })
            } else {
                rest
            },
            Link::Proxy { module, .. } => if directives_conflict(project.modules@[module as int].directives@) {
                rest.push(Diagnostic::TargetClassificationConflict { node: n, import: (j - 1) as usize })
            } else {
                rest
            },
            Link::Deferred(t) => if directives_conflict(project.modules@[t as int].directives@) {
                rest.push(Diagnostic::TargetClassificationConflict { node: n, import: (j - 1) as usize })
            } else {
                rest
            },
        }
    }
}

/// The diagnostics of node `n`: a conflict of its directives first, then
/// those of its edges in source order.
pub open spec fn node_diagnostics(project: Project, g: ModuleGraph, n: int) -> Seq<Diagnostic> {
    let head = if directives_conflict(project.modules@[g.nodes@[n] as int].directives@) {
        seq![Diagnostic::ClassificationConflict { node: n as usize }]
    } else {
        Seq::empty()
    };
    head + row_diagnostics(project, g.environment, g.nodes@[n], n as usize, g.edges@[n]@, g.edges@[n]@.len())
}

/// The diagnostics of the first `n` nodes, node by node.
pub open spec fn graph_diagnostics(project: Project, g: ModuleGraph, n: nat) -> Seq<Diagnostic>
    decreases n,
{
    if n == 0 {
        Seq::empty()
    } else {
        graph_diagnostics(project, g, (n - 1) as nat) + node_diagnostics(project, g, n - 1)
    }
}

/// Whether followed references lead from module `t` to module `from`.
fn leads_back(project: &Project, env: Environment, t: usize, from: usize) -> (r: bool)
    requires
        t < project.modules@.len(),
    ensures
        r == reachable(*project, env, t, from),
{
    let h = build(project, t, env);
    let mut k: usize = 0;
    while k < h.nodes.len()
        invariant
            k <= h.nodes@.len(),
            graph_of(*project, t, env, h),
            forall|q: int| 0 <= q < k ==> h.nodes@[q] != from,
        decreases h.nodes@.len() - k,
    {
        if h.nodes[k] == from {
            proof {
                assert(reachable(*project, env, t, h.nodes@[k as int]));
            }
            return true;
        }
        k += 1;
    }
    proof {
        if reachable(*project, env, t, from) {
            let p = choose|p: Seq<usize>| #[trigger] is_path(*project, env, t, p) && p.last() == from;
            lemma_path_ends_in_graph(*project, t, env, h, p);
            let q = choose|q: int| 0 <= q < h.nodes@.len() && h.nodes@[q] == from;
            assert(h.nodes@[q] != from);
        }
    }
    false
}

/// Every diagnostic of `g`, in the order of its nodes and edges.
pub fn diagnostics(project: &Project, g: &ModuleGraph) -> (r: Vec<Diagnostic>)
    requires
        g.nodes@.len() > 0,
        graph_of(*project, g.nodes@[0], g.environment, *g),
    ensures
        r@ == graph_diagnostics(*project, *g, g.nodes@.len()),
{
    let env = g.environment;
    let mut out: Vec<Diagnostic> = Vec::new();
    let mut n: usize = 0;
    while n < g.nodes.len()
        invariant
            n <= g.nodes@.len(),
            g.nodes@.len() > 0,
            graph_of(*project, g.nodes@[0], g.environment, *g),
            env == g.environment,
            out@ == graph_diagnostics(*project, *g, n as nat),
        decreases g.nodes@.len() - n,
    {
        let ghost before = out@;
        let from = g.nodes[n];
        let verdict = classify(project.modules[from].directives.as_slice(), None);
        if verdict.conflict {
            out.push(Diagnostic::ClassificationConflict { node: n });
        }
        let ghost base = out@;
        let row = &g.edges[n];
        let mut j: usize = 0;
        while j < row.len()
            invariant
                n < g.nodes@.len(),
                g.nodes@.len() > 0,
                graph_of(*project, g.nodes@[0], g.environment, *g),
                env == g.environment,
                from == g.nodes@[n as int],
                row@ == g.edges@[n as int]@,
                j <= row@.len(),
                out@ == base + row_diagnostics(*project, env, from, n, row@, j as nat),
            decreases row@.len() - j,
        {
            let ghost next = base + row_diagnostics(*project, env, from, n, row@, (j + 1) as nat);
            match row[j] {
                Link::Unresolved => {
                    out.push(Diagnostic::ResolutionError { node: n, import: j });
                    proof {
                        assert(out@ =~= next);
                    }
                },
                Link::Unanalyzable => {
                    out.push(Diagnostic::DynamicSpecifierUnanalyzable { node: n, import: j });
                    proof {
                        assert(out@ =~= next);
                    }
                },
                Link::Follow(t) => {
                    proof {
                        lemma_boundary(*project, g.nodes@[0], g.environment, *g, n as int, j as int);
                    }
                    if leads_back(project, env, t, from) {
                        out.push(Diagnostic::CycleNotice { node: n, import: j });
                        proof {
                            assert(out@ =~= next);
                        }
                    }
                },
                Link::Proxy { module, environment: _ } => {
                    proof {
                        lemma_boundary(*project, g.nodes@[0], g.environment, *g, n as int, j as int);
                    }
                    if classify(project.modules[module].directives.as_slice(), None).conflict {
                        out.push(Diagnostic::TargetClassificationConflict { node: n, import: j });
                        proof {
                            assert(out@ =~= next);
                        }
                    }
                },
                Link::Deferred(t) => {
                    proof {
                        lemma_boundary(*project, g.nodes@[0], g.environment, *g, n as int, j as int);
                    }
                    if classify(project.modules[t].directives.as_slice(), None).conflict {
                        out.push(Diagnostic::TargetClassificationConflict { node: n, import: j });
                        proof {
                            assert(out@ =~= next);
                        }
                    }
                },
            }
            j += 1;
        }
        proof {
            assert(base =~= before + (if directives_conflict(
                project.modules@[g.nodes@[n as int] as int].directives@,
            ) {
                seq![Diagnostic::ClassificationConflict { node: n }]
            } else {
                Seq::empty()
            }));
            assert(out@ =~= before + node_diagnostics(*project, *g, n as int));
        }
        n += 1;
    }
    out
}

/// What is handed on for one root: the graph, its split points in graph
/// order, its client references and server actions in order of their ids,
/// and its diagnostics. A collision of action ids stands in place of the
/// action table, and is fatal for the entrypoint that owns the root.
pub struct Analysis {
    pub graph: ModuleGraph,
    pub split_points: Vec<EdgeRef>,
    pub client_references: Vec<EdgeRef>,
    pub actions: Result<Vec<ActionEntry>, ActionIdCollision>,
    pub diagnostics: Vec<Diagnostic>,
}

/// Whether `a` is the analysis of `root` in `env`.
pub open spec fn analysis_of(project: Project, root: usize, env: Environment, a: Analysis) -> bool {
    let g = a.graph;
    let entries = graph_entries(project, g.environment, g.nodes@, g.nodes@.len());
    &&& graph_of(project, root, env, g)
    &&& a.split_points@ == graph_table(Table::SplitPoints, g.edges@, g.edges@.len())
    &&& reference_table_of(
        project,
        g,
        a.client_references@,
        graph_table(Table::ClientReferences, g.edges@, g.edges@.len()),
        graph_table(Table::ClientReferences, g.edges@, g.edges@.len()).len() as int,
    )
    &&& (a.actions.is_err() <==> has_collision(project, entries, entries.len() as int))
    &&& (a.actions matches Ok(t) ==> table_of(project, t@, entries, entries.len() as int))
    &&& (a.actions matches Err(c) ==> is_collision_of(project, entries, c))
    &&& a.diagnostics@ == graph_diagnostics(project, g, g.nodes@.len())
}

/// Analyses one root: builds its graph and assembles every side table.
/// Diagnostics never stop the analysis; a collision of action ids is
/// reported in place of the action table.
pub fn analyze(project: &Project, root: usize, env: Environment) -> (a: Analysis)
    requires
        root < project.modules@.len(),
    ensures
        analysis_of(*project, root, env, a),
{
    let graph = build(project, root, env);
    let split_points = collect_edges(&graph, Table::SplitPoints);
    let client_references = client_reference_table(project, &graph);
    let actions = action_table(project, &graph);
    let diagnostics = diagnostics(project, &graph);
    Analysis { graph, split_points, client_references, actions, diagnostics }
}

} // verus!
