//! Tables of the edges of a built graph, each in graph order: split points,
//! boundary crossings, and the edges that resolved to nothing.

use vstd::prelude::*;
use crate::bytes::copy_bytes;
use crate::environment::Environment;
use crate::graph::{Link, ModuleGraph};
use crate::source::Project;

verus! {

/// Which edges a table lists.
#[derive(Clone, Copy, Debug, PartialEq, Eq, Structural)]
pub enum Table {
    /// Deferred loads, each the root of a traversal of its own.
    SplitPoints,
    /// Boundary crossings into the client environment: code that must ship to the browser.
    ClientReferences,
    /// Boundary crossings into any other environment.
    BoundaryCrossings,
    /// Edges whose specifier resolved to nothing.
    Unresolved,
    /// Edges whose specifier is computed at run time.
    Unanalyzable,
}

/// One edge of a graph: reference `import` of the module of node `node`, and
/// what it leads to.
#[derive(Clone, Copy, Debug, PartialEq, Eq, Structural)]
pub struct EdgeRef {
    pub node: usize,
    pub import: usize,
    pub link: Link,
}

/// Whether `table` lists an edge that leads to `link`.
pub open spec fn wanted(table: Table, link: Link) -> bool {
    match table {
        Table::SplitPoints => link is Deferred,
        Table::ClientReferences => link matches Link::Proxy { environment, .. } && environment == Environment::Client,
        Table::BoundaryCrossings => link is Proxy,
        Table::Unresolved => link is Unresolved,
        Table::Unanalyzable => link is Unanalyzable,
    }
}

/// The wanted edges among the first `j` of the row of node `n`.
pub open spec fn row_table(table: Table, n: usize, row: Seq<Link>, j: nat) -> Seq<EdgeRef>
    decreases j,
{
    if j == 0 {
        Seq::empty()
    } else {
        let rest = row_table(table, n, row, (j - 1) as nat);
        if wanted(table, row[j - 1]) {
            rest.push(EdgeRef { node: n, import: (j - 1) as usize, link: row[j - 1] })
        } else {
            rest
        }
    }
}

/// The wanted edges of the first `n` nodes, node by node.
pub open spec fn graph_table(table: Table, edges: Seq<Vec<Link>>, n: nat) -> Seq<EdgeRef>
    decreases n,
{
    if n == 0 {
        Seq::empty()
    } else {
        graph_table(table, edges, (n - 1) as nat) + row_table(
            table,
            (n - 1) as usize,
            edges[n - 1]@,
            edges[n - 1]@.len(),
        )
    }
}

fn is_wanted(table: Table, link: Link) -> (r: bool)
    ensures
        r == wanted(table, link),
{
    match table {
        Table::SplitPoints => match link {
            Link::Deferred(_) => true,
            _ => false,
        },
        Table::ClientReferences => match link {
            Link::Proxy { module: _, environment } => environment == Environment::Client,
            _ => false,
        },
        Table::BoundaryCrossings => match link {
            Link::Proxy { module: _, environment: _ } => true,
            _ => false,
        },
        Table::Unresolved => match link {
            Link::Unresolved => true,
            _ => false,
        },
        Table::Unanalyzable => match link {
            Link::Unanalyzable => true,
            _ => false,
        },
    }
}

/// The edges of `g` that `table` lists, in the order of the nodes and, for
/// one node, of its references.
pub fn collect_edges(g: &ModuleGraph, table: Table) -> (r: Vec<EdgeRef>)
    ensures
        r@ == graph_table(table, g.edges@, g.edges@.len()),
{
    let mut out: Vec<EdgeRef> = Vec::new();
    let mut n: usize = 0;
    while n < g.edges.len()
        invariant
            n <= g.edges@.len(),
            out@ == graph_table(table, g.edges@, n as nat),
        decreases g.edges@.len() - n,
    {
        let row = &g.edges[n];
        let ghost base = out@;
        let mut j: usize = 0;
        while j < row.len()
            invariant
                j <= row@.len(),
                out@ == base + row_table(table, n, row@, j as nat),
            decreases row@.len() - j,
        {
            let link = row[j];
            if is_wanted(table, link) {
                out.push(EdgeRef { node: n, import: j, link });
                proof {
                    assert(out@ =~= base + row_table(table, n, row@, (j + 1) as nat));
                }
            }
            j += 1;
        }
        n += 1;
    }
    out
}

/// The identity of a client reference: the location of the module that the
/// proxy stands in for, and the exported name that the edge asks for.
pub fn client_reference_id(project: &Project, g: &ModuleGraph, r: &EdgeRef) -> (id: Option<(Vec<u8>, Vec<u8>)>)
    ensures
        id.is_some() <==> {
            &&& r.link is Proxy
            &&& r.link->module < project.modules@.len()
            &&& r.node < g.nodes@.len()
            &&& g.nodes@[r.node as int] < project.modules@.len()
            &&& r.import < project.modules@[g.nodes@[r.node as int] as int].imports@.len()
        },
        id matches Some(pair) ==> {
            &&& pair.0@ == project.modules@[r.link->module as int].location@
            &&& pair.1@ == project.modules@[g.nodes@[r.node as int] as int].imports@[r.import as int].name@
        },
{
    match r.link {
        Link::Proxy { module, environment: _ } => {
            if module < project.modules.len() && r.node < g.nodes.len() {
                let from = g.nodes[r.node];
                if from < project.modules.len() && r.import < project.modules[from].imports.len() {
                    let location = copy_bytes(project.modules[module].location.as_slice());
                    let name = copy_bytes(project.modules[from].imports[r.import].name.as_slice());
                    return Some((location, name));
                }
            }
            None
        },
        _ => None,
    }
}

/// The hints of a split point: the group and the priority that the
/// deferred load gives, read from the reference that the edge stands for.
pub fn split_point_hints(project: &Project, g: &ModuleGraph, r: &EdgeRef) -> (hints: Option<(u32, u32)>)
    ensures
        hints.is_some() <==> {
            &&& r.link is Deferred
            &&& r.node < g.nodes@.len()
            &&& g.nodes@[r.node as int] < project.modules@.len()
            &&& r.import < project.modules@[g.nodes@[r.node as int] as int].imports@.len()
        },
        hints matches Some(pair) ==> {
            &&& pair.0 == project.modules@[g.nodes@[r.node as int] as int].imports@[r.import as int].group
            &&& pair.1 == project.modules@[g.nodes@[r.node as int] as int].imports@[r.import as int].priority
        },
{
    match r.link {
        Link::Deferred(_) => {
            if r.node < g.nodes.len() {
                let from = g.nodes[r.node];
                if from < project.modules.len() && r.import < project.modules[from].imports.len() {
                    let import = &project.modules[from].imports[r.import];
                    return Some((import.group, import.priority));
                }
            }
            None
        },
        _ => None,
    }
}

} // verus!
