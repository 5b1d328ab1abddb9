//! What a traversal depends on: a change to a module that it did not read
//! leaves its graph valid.

use vstd::prelude::*;
use crate::environment::Environment;
use crate::graph::{
    follows,
    graph_of,
    is_path,
    lemma_path_ends_in_graph,
    node_data_ok,
    reachable,
    row_ok,
    step_spec,
    Link,
    ModuleGraph,
};
use crate::resolver::{candidate, first_match, lemma_resolve_from, resolve_from, resolve_spec};
use crate::source::{Import, Project};

verus! {

/// Whether two snapshots hold the same files under the same conditions and
/// probe the same extensions: what resolution looks at.
pub open spec fn same_layout(p: Project, q: Project) -> bool {
    &&& p.extensions@.len() == q.extensions@.len()
    &&& forall|k: int| 0 <= k < p.extensions@.len() ==> (#[trigger] p.extensions@[k])@ == q.extensions@[k]@
    &&& p.modules@.len() == q.modules@.len()
    &&& forall|m: int|
        0 <= m < p.modules@.len() ==> (#[trigger] p.modules@[m]).location@ == q.modules@[m].location@
            && p.modules@[m].condition == q.modules@[m].condition
}

/// Whether two references say the same.
pub open spec fn same_import(a: Import, b: Import) -> bool {
    &&& a.kind == b.kind
    &&& match (a.specifier, b.specifier) {
        (Some(x), Some(y)) => x@ == y@,
        (None, None) => true,
        _ => false,
    }
}

/// Whether module `m` has the same content reference, directives and
/// references in both snapshots.
pub open spec fn same_content(p: Project, q: Project, m: int) -> bool {
    &&& p.modules@[m].content == q.modules@[m].content
    &&& p.modules@[m].directives@ == q.modules@[m].directives@
    &&& p.modules@[m].imports@.len() == q.modules@[m].imports@.len()
    &&& forall|j: int|
        0 <= j < p.modules@[m].imports@.len() ==> same_import(
            #[trigger] p.modules@[m].imports@[j],
            q.modules@[m].imports@[j],
        )
}

/// Whether the traversal that built `g` read the content of module `m`: `m`
/// is a node, or the target of a boundary crossing or of a deferred load,
/// whose directives were classified.
pub open spec fn depends_on(g: ModuleGraph, m: usize) -> bool {
    ||| g.nodes@.contains(m)
    ||| exists|n: int, j: int|
        0 <= n < g.edges@.len() && 0 <= j < g.edges@[n]@.len() && names_target(#[trigger] g.edges@[n]@[j], m)
}

/// Whether `link` is a proxy for module `m` or a deferred load of it.
pub open spec fn names_target(link: Link, m: usize) -> bool {
    match link {
        Link::Proxy { module, .. } => module == m,
        Link::Deferred(t) => t == m,
        _ => false,
    }
}

proof fn lemma_first_match_same(p: Project, q: Project, location: Seq<u8>, env: Environment, from: int)
    requires
        same_layout(p, q),
        0 <= from,
    ensures
        first_match(p.modules@, location, env, from) == first_match(q.modules@, location, env, from),
    decreases p.modules@.len() - from,
{
    if from < p.modules@.len() {
        assert(p.modules@[from].location@ == q.modules@[from].location@);
        lemma_first_match_same(p, q, location, env, from + 1);
    }
}

/// Resolution depends on the layout of the project alone.
pub proof fn lemma_resolve_same(p: Project, q: Project, specifier: Seq<u8>, env: Environment, k: int)
    requires
        same_layout(p, q),
        0 <= k,
    ensures
        resolve_from(p, specifier, env, k) == resolve_from(q, specifier, env, k),
    decreases p.extensions@.len() + 1 - k,
{
    if k <= p.extensions@.len() {
        if k > 0 {
            assert(p.extensions@[k - 1]@ == q.extensions@[k - 1]@);
        }
        assert(candidate(specifier, p.extensions@, k) == candidate(specifier, q.extensions@, k));
        lemma_first_match_same(p, q, candidate(specifier, p.extensions@, k), env, 0);
        lemma_resolve_same(p, q, specifier, env, k + 1);
    }
}

/// A reference of a node leads to the same in both snapshots.
proof fn lemma_step_same(p: Project, q: Project, root: usize, env: Environment, g: ModuleGraph, n: int, j: int)
    requires
        graph_of(p, root, env, g),
        same_layout(p, q),
        forall|m: usize| m < p.modules@.len() && #[trigger] depends_on(g, m) ==> same_content(p, q, m as int),
        0 <= n < g.nodes@.len(),
        0 <= j < p.modules@[g.nodes@[n] as int].imports@.len(),
    ensures
        step_spec(q, env, g.nodes@[n], j) == step_spec(p, env, g.nodes@[n], j),
{
    let m = g.nodes@[n];
    assert(g.nodes@.contains(m));
    assert(depends_on(g, m));
    assert(same_content(p, q, m as int));
    let a = p.modules@[m as int].imports@[j];
    let b = q.modules@[m as int].imports@[j];
    assert(same_import(a, b));
    assert(p.modules@.len() == p.modules.len());
    if let Some(specifier) = a.specifier {
        let other = b.specifier->0;
        lemma_resolve_same(p, q, specifier@, env, 0);
        lemma_resolve_from(p, specifier@, env, 0);
        assert(resolve_spec(q, other@, env) == resolve_spec(p, specifier@, env));
        if let Some(t) = resolve_spec(p, specifier@, env) {
            assert(g.edges@[n]@.len() == p.modules@[m as int].imports@.len());
            assert(g.edges@[n]@[j] == step_spec(p, env, m, j));
            assert((t as usize) as int == t);
            match g.edges@[n]@[j] {
                Link::Follow(f) => {
                    assert(g.nodes@.contains(f));
                },
                _ => {
                    assert(names_target(g.edges@[n]@[j], t as usize));
                },
            }
            assert(depends_on(g, t as usize));
            assert(same_content(p, q, t));
        }
    }
}

/// A path of the first snapshot from the root is a path of the second.
proof fn lemma_path_same(p: Project, q: Project, root: usize, env: Environment, g: ModuleGraph, path: Seq<usize>)
    requires
        graph_of(p, root, env, g),
        same_layout(p, q),
        forall|m: usize| m < p.modules@.len() && #[trigger] depends_on(g, m) ==> same_content(p, q, m as int),
        is_path(p, env, root, path),
    ensures
        is_path(q, env, root, path),
{
    assert forall|i: int| 0 < i < path.len() implies follows(q, env, path[i - 1], #[trigger] path[i]) by {
        let prefix = path.subrange(0, i);
        assert forall|k: int| 0 < k < prefix.len() implies follows(p, env, prefix[k - 1], #[trigger] prefix[k]) by {
            assert(follows(p, env, path[k - 1], path[k]));
        }
        lemma_path_ends_in_graph(p, root, env, g, prefix);
        let a = path[i - 1];
        assert(prefix.last() == a);
        let n = choose|n: int| 0 <= n < g.nodes@.len() && g.nodes@[n] == a;
        assert(follows(p, env, path[i - 1], path[i]));
        let j = choose|j: int|
            0 <= j < p.modules@[a as int].imports@.len() && #[trigger] step_spec(p, env, a, j) == Link::Follow(
                path[i],
            );
        lemma_step_same(p, q, root, env, g, n, j);
        assert(g.nodes@.contains(a));
        assert(depends_on(g, a));
        assert(same_content(p, q, a as int));
        assert(step_spec(q, env, a, j) == Link::Follow(path[i]));
    }
}

/// A change to the content of modules that the traversal of `g` did not
/// read leaves `g` the graph of its root: only a traversal whose dependency
/// set holds a changed module has to run again.
pub proof fn lemma_unread_change_keeps_graph(p: Project, q: Project, root: usize, env: Environment, g: ModuleGraph)
    requires
        graph_of(p, root, env, g),
        same_layout(p, q),
        forall|m: usize| m < p.modules@.len() && #[trigger] depends_on(g, m) ==> same_content(p, q, m as int),
    ensures
        graph_of(q, root, env, g),
{
    let nodes = g.nodes@;
    assert forall|k: int| 0 <= k < nodes.len() implies #[trigger] nodes[k] < q.modules@.len() by {}
    assert forall|k: int| 0 <= k < nodes.len() implies same_content(p, q, (#[trigger] nodes[k]) as int) by {
        assert(nodes.contains(nodes[k]));
        assert(depends_on(g, nodes[k]));
    }
    assert forall|k: int| 0 <= k < nodes.len() implies reachable(q, env, root, #[trigger] nodes[k]) by {
        assert(reachable(p, env, root, nodes[k]));
        let path = choose|path: Seq<usize>| #[trigger] is_path(p, env, root, path) && path.last() == nodes[k];
        lemma_path_same(p, q, root, env, g, path);
    }
    assert forall|n: int| 0 <= n < nodes.len() implies {
        &&& (#[trigger] g.edges@[n])@.len() == q.modules@[nodes[n] as int].imports@.len()
        &&& row_ok(q, env, nodes, nodes[n], g.edges@[n]@, g.edges@[n]@.len() as int)
    } by {
        let row = g.edges@[n]@;
        assert(same_content(p, q, nodes[n] as int));
        assert(row_ok(p, env, nodes, nodes[n], row, row.len() as int));
        assert forall|j: int| 0 <= j < row.len() implies {
            &&& #[trigger] row[j] == step_spec(q, env, nodes[n], j)
            &&& (row[j] matches Link::Follow(t) ==> nodes.contains(t))
        } by {
            lemma_step_same(p, q, root, env, g, n, j);
        }
    }
    assert forall|n: int| 0 <= n < nodes.len() implies node_data_ok(q, nodes, g.contents@, g.kinds@, n) by {
        assert(node_data_ok(p, nodes, g.contents@, g.kinds@, n));
        assert(same_content(p, q, nodes[n] as int));
        let a = p.modules@[nodes[n] as int];
        let b = q.modules@[nodes[n] as int];
        assert forall|j: int| 0 <= j < b.imports@.len() implies #[trigger] g.kinds@[n]@[j] == b.imports@[j].kind by {
            assert(same_import(a.imports@[j], b.imports@[j]));
        }
    }
}

} // verus!
