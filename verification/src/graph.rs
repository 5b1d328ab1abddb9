//! Module graph builder: the modules that one root reaches eagerly within its
//! own execution environment, and what every reference of each of them
//! leads to.

use vstd::prelude::*;
use vstd::set_lib::{lemma_int_range, lemma_len_subset, set_int_range};
use crate::environment::{classify, classify_spec, Environment};
use crate::resolver::{lemma_resolve_from, resolve, resolve_spec};
use crate::source::{ImportKind, Project};

verus! {

/// What one reference of a module leads to. Modules are named by their
/// position in the project.
#[derive(Clone, Copy, Debug, PartialEq, Eq, Structural)]
pub enum Link {
    /// The target runs where the importer runs and belongs to the same graph.
    Follow(usize),
    /// The target runs elsewhere: the edge crosses a boundary and ends in a
    /// proxy that stands in for the target.
    Proxy { module: usize, environment: Environment },
    /// A deferred load within the environment: the target is the root of a
    /// traversal of its own.
    Deferred(usize),
    /// Nothing was found for the specifier.
    Unresolved,
    /// The specifier is computed at run time; the target is left out.
    Unanalyzable,
}

/// The graph of one root at one snapshot of the project. `nodes` holds each
/// reached module once, the root first, all instantiated for `environment`;
/// `edges[n][j]` is what reference `j` of the module of node `n` leads to
/// and `kinds[n][j]` its resolution kind; `contents[n]` is the content
/// reference of that module.
/// A cycle shows as a `Follow` back to a module already among the nodes.
pub struct ModuleGraph {
    pub environment: Environment,
    pub nodes: Vec<usize>,
    pub contents: Vec<u64>,
    pub edges: Vec<Vec<Link>>,
    pub kinds: Vec<Vec<ImportKind>>,
}

/// Whether node `r` carries the content reference of its module and the
/// resolution kind of each of its references.
pub open spec fn node_data_ok(
    project: Project,
    nodes: Seq<usize>,
    contents: Seq<u64>,
    kinds: Seq<Vec<ImportKind>>,
    r: int,
) -> bool {
    let module = project.modules@[nodes[r] as int];
    &&& contents[r] == module.content
    &&& kinds[r]@.len() == module.imports@.len()
    &&& forall|j: int| 0 <= j < module.imports@.len() ==> #[trigger] kinds[r]@[j] == module.imports@[j].kind
}

/// What reference `j` of module `m` leads to for an importer in `env`.
pub open spec fn step_spec(project: Project, env: Environment, m: usize, j: int) -> Link {
    let import = project.modules@[m as int].imports@[j];
    match import.specifier {
        None => Link::Unanalyzable,
        Some(specifier) => match resolve_spec(project, specifier@, env) {
            None => Link::Unresolved,
            Some(t) => {
                let verdict = classify_spec(project.modules@[t].directives@, Some(env));
                if verdict != env {
                    Link::Proxy { module: t as usize, environment: verdict }
                } else if import.kind == ImportKind::Dynamic {
                    Link::Deferred(t as usize)
                } else {
                    Link::Follow(t as usize)
                }
            },
        },
    }
}

/// Whether module `a` has a reference that is followed to module `b`.
pub open spec fn follows(project: Project, env: Environment, a: usize, b: usize) -> bool {
    &&& a < project.modules@.len()
    &&& exists|j: int|
        0 <= j < project.modules@[a as int].imports@.len() && #[trigger] step_spec(project, env, a, j)
            == Link::Follow(b)
}

/// Whether `p` leads from `root` along followed references.
pub open spec fn is_path(project: Project, env: Environment, root: usize, p: Seq<usize>) -> bool {
    &&& p.len() > 0
    &&& p[0] == root
    &&& forall|i: int| 0 < i < p.len() ==> follows(project, env, p[i - 1], #[trigger] p[i])
}

/// Whether followed references lead from `root` to module `m`.
pub open spec fn reachable(project: Project, env: Environment, root: usize, m: usize) -> bool {
    exists|p: Seq<usize>| #[trigger] is_path(project, env, root, p) && p.last() == m
}

/// Whether the first `upto` links of `row` are those of module `m`, and every
/// module they follow to is among `nodes`.
pub open spec fn row_ok(project: Project, env: Environment, nodes: Seq<usize>, m: usize, row: Seq<Link>, upto: int) -> bool {
    forall|j: int|
        0 <= j < upto ==> {
            &&& #[trigger] row[j] == step_spec(project, env, m, j)
            &&& (row[j] matches Link::Follow(t) ==> nodes.contains(t))
        }
}

/// Whether `nodes` are modules of the project, each once, the root first,
/// each reached from the root, and none but the root asks by a directive for
/// another environment than `env`.
pub open spec fn nodes_ok(project: Project, root: usize, env: Environment, nodes: Seq<usize>) -> bool {
    &&& nodes.len() > 0
    &&& nodes[0] == root
    &&& forall|k: int| 0 <= k < nodes.len() ==> #[trigger] nodes[k] < project.modules@.len()
    &&& forall|a: int, b: int| 0 <= a < b < nodes.len() ==> nodes[a] != nodes[b]
    &&& forall|k: int|
        0 < k < nodes.len() ==> classify_spec(project.modules@[(#[trigger] nodes[k]) as int].directives@, Some(env))
            == env
    &&& forall|k: int| 0 <= k < nodes.len() ==> reachable(project, env, root, #[trigger] nodes[k])
}

/// Whether `g` is the graph of `root` in `env`: well-formed nodes, one row of
/// links for each node, each link what the project says of that reference,
/// and every followed target among the nodes.
pub open spec fn graph_of(project: Project, root: usize, env: Environment, g: ModuleGraph) -> bool {
    &&& g.environment == env
    &&& nodes_ok(project, root, env, g.nodes@)
    &&& g.edges@.len() == g.nodes@.len()
    &&& forall|n: int|
        0 <= n < g.nodes@.len() ==> {
            &&& (#[trigger] g.edges@[n])@.len() == project.modules@[g.nodes@[n] as int].imports@.len()
            &&& row_ok(project, env, g.nodes@, g.nodes@[n], g.edges@[n]@, g.edges@[n]@.len() as int)
        }
    &&& g.contents@.len() == g.nodes@.len()
    &&& g.kinds@.len() == g.nodes@.len()
    &&& forall|n: int| 0 <= n < g.nodes@.len() ==> node_data_ok(project, g.nodes@, g.contents@, g.kinds@, n)
}

/// Modules that are pairwise different are no more than the project has.
pub proof fn lemma_distinct_bounded(nodes: Seq<usize>, n: nat)
    requires
        forall|k: int| 0 <= k < nodes.len() ==> #[trigger] nodes[k] < n,
        forall|a: int, b: int| 0 <= a < b < nodes.len() ==> nodes[a] != nodes[b],
    ensures
        nodes.len() <= n,
{
    let ints = Seq::new(nodes.len(), |k: int| nodes[k] as int);
    assert(ints.no_duplicates()) by {
        assert forall|i: int, j: int| 0 <= i < ints.len() && 0 <= j < ints.len() && i != j implies ints[i]
            != ints[j] by {
            if i < j {
                assert(nodes[i] != nodes[j]);
            } else {
                assert(nodes[j] != nodes[i]);
            }
        }
    }
    ints.unique_seq_to_set();
    lemma_int_range(0, n as int);
    assert(ints.to_set().subset_of(set_int_range(0, n as int))) by {
        assert forall|x: int| ints.to_set().contains(x) implies set_int_range(0, n as int).contains(x) by {
            let k = choose|k: int| 0 <= k < ints.len() && ints[k] == x;
            assert(nodes[k] < n);
        }
    }
    lemma_len_subset(ints.to_set(), set_int_range(0, n as int));
}

/// What reference `j` of module `m` leads to for an importer in `env`:
/// unanalyzable without a readable specifier, unresolved where resolution
/// finds nothing, a proxy where the classifier puts the target in another
/// environment, whatever the kind of the reference, and within the
/// environment deferred for a dynamic import and followed otherwise.
pub fn step(project: &Project, env: Environment, m: usize, j: usize) -> (link: Link)
    requires
        m < project.modules@.len(),
        j < project.modules@[m as int].imports@.len(),
    ensures
        link == step_spec(*project, env, m, j as int),
        link matches Link::Follow(t) ==> t < project.modules@.len() && classify_spec(
            project.modules@[t as int].directives@,
            Some(env),
        ) == env,
        link matches Link::Deferred(t) ==> t < project.modules@.len() && classify_spec(
            project.modules@[t as int].directives@,
            Some(env),
        ) == env,
        link matches Link::Proxy { module, environment } ==> module < project.modules@.len() && environment != env,
{
    let import = &project.modules[m].imports[j];
    match &import.specifier {
        None => Link::Unanalyzable,
        Some(specifier) => {
            match resolve(project, specifier.as_slice(), env) {
                None => Link::Unresolved,
                Some(t) => {
                    let verdict = classify(project.modules[t].directives.as_slice(), Some(env));
                    if verdict.environment != env {
                        Link::Proxy { module: t, environment: verdict.environment }
                    } else if import.kind == ImportKind::Dynamic {
                        Link::Deferred(t)
                    } else {
                        Link::Follow(t)
                    }
                },
            }
        },
    }
}

/// Makes sure that module `t`, followed to from node `from`, is a node.
fn visit(
    project: &Project,
    root: usize,
    env: Environment,
    nodes: &mut Vec<usize>,
    visited: &mut Vec<bool>,
    from: usize,
    j: usize,
    t: usize,
)
    requires
        nodes_ok(*project, root, env, old(nodes)@),
        old(visited)@.len() == project.modules@.len(),
        forall|m: usize| m < old(visited)@.len() ==> (old(visited)@[m as int] <==> old(nodes)@.contains(m)),
        from < old(nodes)@.len(),
        j < project.modules@[old(nodes)@[from as int] as int].imports@.len(),
        step_spec(*project, env, old(nodes)@[from as int], j as int) == Link::Follow(t),
        t < project.modules@.len(),
        classify_spec(project.modules@[t as int].directives@, Some(env)) == env,
    ensures
        nodes_ok(*project, root, env, final(nodes)@),
        final(visited)@.len() == project.modules@.len(),
        forall|m: usize| m < final(visited)@.len() ==> (final(visited)@[m as int] <==> final(nodes)@.contains(m)),
        final(nodes)@.contains(t),
        final(nodes)@.len() <= project.modules@.len(),
        old(nodes)@.len() <= final(nodes)@.len(),
        forall|k: int| 0 <= k < old(nodes)@.len() ==> final(nodes)@[k] == old(nodes)@[k],
{
    if !visited[t] {
        let ghost before = nodes@;
        let ghost source = nodes@[from as int];
        visited.set(t, true);
        nodes.push(t);
        proof {
            let after = nodes@;
            let last = before.len() as int;
            assert(after[last] == t);
            assert forall|k: int| 0 <= k < before.len() implies after[k] == before[k] by {}
            assert forall|a: int, b: int| 0 <= a < b < after.len() implies after[a] != after[b] by {
                if b == last {
                    assert(before[a] == after[a]);
                    if before[a] == t {
                        assert(before.contains(t));
                    }
                }
            }
            assert(reachable(*project, env, root, t)) by {
                assert(reachable(*project, env, root, before[from as int]));
                let p = choose|p: Seq<usize>| #[trigger] is_path(*project, env, root, p) && p.last() == source;
                let q = p.push(t);
                assert forall|i: int| 0 < i < q.len() implies follows(*project, env, q[i - 1], #[trigger] q[i]) by {
                    if i < p.len() {
                        assert(follows(*project, env, p[i - 1], p[i]));
                    } else {
                        assert(q[i - 1] == source);
                        assert(step_spec(*project, env, source, j as int) == Link::Follow(t));
                    }
                }
                assert(is_path(*project, env, root, q));
                assert(q.last() == t);
            }
            assert forall|k: int| 0 <= k < after.len() implies reachable(*project, env, root, #[trigger] after[k]) by {
                if k < last {
                    assert(after[k] == before[k]);
                }
            }
            assert forall|k: int| 0 < k < after.len() implies classify_spec(
                project.modules@[(#[trigger] after[k]) as int].directives@,
                Some(env),
            ) == env by {
                if k < last {
                    assert(after[k] == before[k]);
                }
            }
            assert forall|m: usize| m < visited@.len() implies (visited@[m as int] <==> after.contains(m)) by {
                if m == t {
                } else {
                    if before.contains(m) {
                        let k = choose|k: int| 0 <= k < before.len() && before[k] == m;
                        assert(after[k] == m);
                    }
                    if after.contains(m) {
                        let k = choose|k: int| 0 <= k < after.len() && after[k] == m;
                        assert(k < last);
                        assert(before[k] == m);
                    }
                }
            }
            assert(nodes_ok(*project, root, env, after));
        }
    } else {
        proof {
            assert(nodes@.contains(t));
        }
    }
    proof {
        lemma_distinct_bounded(nodes@, project.modules@.len());
    }
}

/// A row that was in order stays so when nodes are added behind the others.
proof fn lemma_row_grows(
    project: Project,
    env: Environment,
    before: Seq<usize>,
    after: Seq<usize>,
    m: usize,
    row: Seq<Link>,
    upto: int,
)
    requires
        row_ok(project, env, before, m, row, upto),
        before.len() <= after.len(),
        forall|k: int| 0 <= k < before.len() ==> after[k] == before[k],
    ensures
        row_ok(project, env, after, m, row, upto),
{
    assert forall|j: int| 0 <= j < upto implies {
        &&& #[trigger] row[j] == step_spec(project, env, m, j)
        &&& (row[j] matches Link::Follow(t) ==> after.contains(t))
    } by {
        if let Link::Follow(t) = row[j] {
            assert(before.contains(t));
            let k = choose|k: int| 0 <= k < before.len() && before[k] == t;
            assert(after[k] == t);
        }
    }
}

/// Builds the graph of `root` for the environment `env`. Every module that
/// followed references reach from the root is visited once, cycles included;
/// a reference that crosses into another environment ends in a proxy and a
/// deferred load in a split point, and neither is followed.
pub fn build(project: &Project, root: usize, env: Environment) -> (g: ModuleGraph)
    requires
        root < project.modules@.len(),
    ensures
        graph_of(*project, root, env, g),
{
    let n = project.modules.len();
    let mut visited: Vec<bool> = Vec::new();
    let mut c: usize = 0;
    while c < n
        invariant
            c <= n,
            visited@.len() == c,
            forall|k: int| 0 <= k < c ==> !visited@[k],
        decreases n - c,
    {
        visited.push(false);
        c += 1;
    }
    visited.set(root, true);
    let mut nodes: Vec<usize> = Vec::new();
    nodes.push(root);
    let mut edges: Vec<Vec<Link>> = Vec::new();
    let mut contents: Vec<u64> = Vec::new();
    let mut kinds: Vec<Vec<ImportKind>> = Vec::new();
    proof {
        let p = seq![root];
        assert(is_path(*project, env, root, p));
        assert(p.last() == root);
        assert(nodes@[0] == root);
        assert forall|m: usize| m < visited@.len() implies (visited@[m as int] <==> nodes@.contains(m)) by {}
    }
    let mut i: usize = 0;
    while i < nodes.len()
        invariant
            n == project.modules@.len(),
            nodes_ok(*project, root, env, nodes@),
            visited@.len() == n,
            forall|m: usize| m < visited@.len() ==> (visited@[m as int] <==> nodes@.contains(m)),
            nodes@.len() <= n,
            i <= nodes@.len(),
            edges@.len() == i,
            forall|r: int|
                0 <= r < i ==> {
                    &&& (#[trigger] edges@[r])@.len() == project.modules@[nodes@[r] as int].imports@.len()
                    &&& row_ok(*project, env, nodes@, nodes@[r], edges@[r]@, edges@[r]@.len() as int)
                },
            contents@.len() == i,
            kinds@.len() == i,
            forall|r: int| 0 <= r < i ==> node_data_ok(*project, nodes@, contents@, kinds@, r),
        decreases n - i,
    {
        let m = nodes[i];
        let count = project.modules[m].imports.len();
        let mut row: Vec<Link> = Vec::new();
        let mut row_kinds: Vec<ImportKind> = Vec::new();
        let mut j: usize = 0;
        while j < count
            invariant
                n == project.modules@.len(),
                nodes_ok(*project, root, env, nodes@),
                visited@.len() == n,
                forall|m: usize| m < visited@.len() ==> (visited@[m as int] <==> nodes@.contains(m)),
                nodes@.len() <= n,
                i < nodes@.len(),
                nodes@[i as int] == m,
                m < n,
                count == project.modules@[m as int].imports@.len(),
                edges@.len() == i,
                forall|r: int|
                    0 <= r < i ==> {
                        &&& (#[trigger] edges@[r])@.len() == project.modules@[nodes@[r] as int].imports@.len()
                        &&& row_ok(*project, env, nodes@, nodes@[r], edges@[r]@, edges@[r]@.len() as int)
                    },
                j <= count,
                row@.len() == j,
                row_ok(*project, env, nodes@, m, row@, j as int),
                contents@.len() == i,
                kinds@.len() == i,
                forall|r: int| 0 <= r < i ==> node_data_ok(*project, nodes@, contents@, kinds@, r),
                row_kinds@.len() == j,
                forall|q: int| 0 <= q < j ==> #[trigger] row_kinds@[q] == project.modules@[m as int].imports@[q].kind,
            decreases count - j,
        {
            let ghost before = nodes@;
            let ghost row_before = row@;
            let link = step(project, env, m, j);
            match link {
                Link::Follow(t) => {
                    visit(project, root, env, &mut nodes, &mut visited, i, j, t);
                },
                _ => {},
            }
            row.push(link);
            row_kinds.push(project.modules[m].imports[j].kind);
            proof {
                assert forall|r: int| 0 <= r < i implies node_data_ok(*project, nodes@, contents@, kinds@, r) by {
                    assert(nodes@[r] == before[r]);
                    assert(node_data_ok(*project, before, contents@, kinds@, r));
                }
                assert forall|r: int| 0 <= r < i implies {
                    &&& (#[trigger] edges@[r])@.len() == project.modules@[nodes@[r] as int].imports@.len()
                    &&& row_ok(*project, env, nodes@, nodes@[r], edges@[r]@, edges@[r]@.len() as int)
                } by {
                    assert(nodes@[r] == before[r]);
                    lemma_row_grows(*project, env, before, nodes@, before[r], edges@[r]@, edges@[r]@.len() as int);
                }
                lemma_row_grows(*project, env, before, nodes@, m, row_before, j as int);
                assert forall|jj: int| 0 <= jj < j + 1 implies {
                    &&& #[trigger] row@[jj] == step_spec(*project, env, m, jj)
                    &&& (row@[jj] matches Link::Follow(t) ==> nodes@.contains(t))
                } by {
                    if jj < j {
                        assert(row@[jj] == row_before[jj]);
                    }
                }
            }
            j += 1;
        }
        edges.push(row);
        let ghost contents_before = contents@;
        let ghost kinds_before = kinds@;
        contents.push(project.modules[m].content);
        kinds.push(row_kinds);
        proof {
            assert forall|r: int| 0 <= r < i + 1 implies node_data_ok(*project, nodes@, contents@, kinds@, r) by {
                if r < i {
                    assert(node_data_ok(*project, nodes@, contents_before, kinds_before, r));
                    assert(contents@[r] == contents_before[r]);
                    assert(kinds@[r] == kinds_before[r]);
                }
            }
            assert forall|r: int| 0 <= r < i + 1 implies {
                &&& (#[trigger] edges@[r])@.len() == project.modules@[nodes@[r] as int].imports@.len()
                &&& row_ok(*project, env, nodes@, nodes@[r], edges@[r]@, edges@[r]@.len() as int)
            } by {}
        }
        i += 1;
    }
    ModuleGraph { environment: env, nodes, contents, edges, kinds }
}

/// Every module on a path of followed references from the root is a node.
pub proof fn lemma_path_ends_in_graph(project: Project, root: usize, env: Environment, g: ModuleGraph, p: Seq<usize>)
    requires
        graph_of(project, root, env, g),
        is_path(project, env, root, p),
    ensures
        g.nodes@.contains(p.last()),
    decreases p.len(),
{
    if p.len() == 1 {
        assert(g.nodes@[0] == root);
    } else {
        let q = p.drop_last();
        assert forall|i: int| 0 < i < q.len() implies follows(project, env, q[i - 1], #[trigger] q[i]) by {
            assert(follows(project, env, p[i - 1], p[i]));
        }
        lemma_path_ends_in_graph(project, root, env, g, q);
        let a = q.last();
        let b = p.last();
        assert(follows(project, env, p[p.len() - 2], p[p.len() - 1]));
        let n = choose|n: int| 0 <= n < g.nodes@.len() && g.nodes@[n] == a;
        let j = choose|j: int|
            0 <= j < project.modules@[a as int].imports@.len() && #[trigger] step_spec(project, env, a, j)
                == Link::Follow(b);
        assert(g.edges@[n]@.len() == project.modules@[a as int].imports@.len());
        assert(g.edges@[n]@[j] == step_spec(project, env, a, j));
    }
}

/// Two graphs of the same root over the same project hold the same modules,
/// and the same links out of each of them, whatever the order in which the
/// modules were reached.
pub proof fn lemma_same_members(project: Project, root: usize, env: Environment, g: ModuleGraph, h: ModuleGraph)
    requires
        graph_of(project, root, env, g),
        graph_of(project, root, env, h),
    ensures
        forall|m: usize| g.nodes@.contains(m) <==> h.nodes@.contains(m),
        forall|a: int, b: int|
            0 <= a < g.nodes@.len() && 0 <= b < h.nodes@.len() && g.nodes@[a] == h.nodes@[b] ==> (
            #[trigger] g.edges@[a])@ == (#[trigger] h.edges@[b])@,
{
    assert forall|m: usize| g.nodes@.contains(m) <==> h.nodes@.contains(m) by {
        if g.nodes@.contains(m) {
            let k = choose|k: int| 0 <= k < g.nodes@.len() && g.nodes@[k] == m;
            assert(reachable(project, env, root, g.nodes@[k]));
            let p = choose|p: Seq<usize>| #[trigger] is_path(project, env, root, p) && p.last() == m;
            lemma_path_ends_in_graph(project, root, env, h, p);
        }
        if h.nodes@.contains(m) {
            let k = choose|k: int| 0 <= k < h.nodes@.len() && h.nodes@[k] == m;
            assert(reachable(project, env, root, h.nodes@[k]));
            let p = choose|p: Seq<usize>| #[trigger] is_path(project, env, root, p) && p.last() == m;
            lemma_path_ends_in_graph(project, root, env, g, p);
        }
    }
    assert forall|a: int, b: int|
        0 <= a < g.nodes@.len() && 0 <= b < h.nodes@.len() && g.nodes@[a] == h.nodes@[b] implies (
        #[trigger] g.edges@[a])@ == (#[trigger] h.edges@[b])@ by {
        let x = g.edges@[a]@;
        let y = h.edges@[b]@;
        assert(x.len() == y.len());
        assert forall|j: int| 0 <= j < x.len() implies x[j] == y[j] by {
            assert(x[j] == step_spec(project, env, g.nodes@[a], j));
            assert(y[j] == step_spec(project, env, h.nodes@[b], j));
        }
        assert(x =~= y);
    }
}

/// No link leads across an environment boundary into a module itself: a
/// followed target is a node of the graph that the classifier puts in the
/// graph's own environment, a deferred target is one that it puts there too,
/// and a target that it puts elsewhere is only ever named by a proxy.
pub proof fn lemma_boundary(project: Project, root: usize, env: Environment, g: ModuleGraph, n: int, j: int)
    requires
        graph_of(project, root, env, g),
        0 <= n < g.nodes@.len(),
        0 <= j < g.edges@[n]@.len(),
    ensures
        g.edges@[n]@[j] matches Link::Follow(t) ==> g.nodes@.contains(t) && t < project.modules@.len()
            && classify_spec(project.modules@[t as int].directives@, Some(env)) == env,
        g.edges@[n]@[j] matches Link::Deferred(t) ==> t < project.modules@.len() && classify_spec(
            project.modules@[t as int].directives@,
            Some(env),
        ) == env,
        g.edges@[n]@[j] matches Link::Proxy { module, environment } ==> environment != env && module
            < project.modules@.len() && classify_spec(project.modules@[module as int].directives@, Some(env))
            == environment,
        forall|k: int|
            0 < k < g.nodes@.len() ==> classify_spec(
                project.modules@[(#[trigger] g.nodes@[k]) as int].directives@,
                Some(env),
            ) == env,
{
    let m = g.nodes@[n];
    assert(g.edges@[n]@[j] == step_spec(project, env, m, j));
    let import = project.modules@[m as int].imports@[j];
    assert(project.modules@.len() == project.modules.len());
    if let Some(specifier) = import.specifier {
        lemma_resolve_from(project, specifier@, env, 0);
        if let Some(t) = resolve_spec(project, specifier@, env) {
            assert((t as usize) as int == t);
        }
    }
}

} // verus!
