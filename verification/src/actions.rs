//! The server action table of a graph: one entry for each action id, in
//! ascending order of id. Two different actions under one id are fatal.

use vstd::prelude::*;
use crate::action_id::action_id_spec;
use crate::bytes::bytes_eq;
use crate::environment::Environment;
use crate::extract::{action_of, actions_spec, lemma_actions_are_marked_exports, scan, ServerAction};
use crate::graph::ModuleGraph;
use crate::source::Project;

verus! {

/// One server action of a graph: its id, the module that exports it, the
/// position of the export in that module, its closure arguments, and the
/// layer that owns it: the environment of the graph that holds the module.
#[derive(Clone, Copy, Debug, PartialEq, Eq, Structural)]
pub struct ActionEntry {
    pub id: u64,
    pub module: usize,
    pub export: usize,
    pub closure_args: u32,
    pub layer: Environment,
}

/// Two different actions were given the same id.
#[derive(Clone, Copy, Debug, PartialEq, Eq, Structural)]
pub struct ActionIdCollision {
    pub id: u64,
    pub first: ActionEntry,
    pub second: ActionEntry,
}

/// Whether `e` names a marked export of the project and carries its id.
pub open spec fn entry_ok(project: Project, e: ActionEntry) -> bool {
    &&& e.module < project.modules@.len()
    &&& e.export < project.modules@[e.module as int].exports@.len()
    &&& project.modules@[e.module as int].exports@[e.export as int].action
    &&& e.id == action_id_spec(
        project.modules@[e.module as int].location@,
        project.modules@[e.module as int].exports@[e.export as int].name@,
    )
    &&& e.closure_args == project.modules@[e.module as int].exports@[e.export as int].closure_args
}

/// Whether two entries stand for the same action: the same location and the
/// same exported name.
pub open spec fn same_action(project: Project, a: ActionEntry, b: ActionEntry) -> bool {
    &&& project.modules@[a.module as int].location@ == project.modules@[b.module as int].location@
    &&& project.modules@[a.module as int].exports@[a.export as int].name@ == project.modules@[b.module as int].exports@[b.export as int].name@
}

/// Whether two entries are different actions under one id.
pub open spec fn collide(project: Project, a: ActionEntry, b: ActionEntry) -> bool {
    a.id == b.id && !same_action(project, a, b)
}

/// Whether any two of the first `upto` entries collide.
pub open spec fn has_collision(project: Project, all: Seq<ActionEntry>, upto: int) -> bool {
    exists|i: int, j: int| 0 <= i < upto && 0 <= j < upto && collide(project, #[trigger] all[i], #[trigger] all[j])
}

/// Whether `c` reports two of the entries `all` that collide, under their id.
pub open spec fn is_collision_of(project: Project, all: Seq<ActionEntry>, c: ActionIdCollision) -> bool {
    &&& c.id == c.first.id
    &&& all.contains(c.first)
    &&& all.contains(c.second)
    &&& collide(project, c.first, c.second)
}

/// Whether the ids of `t` strictly ascend.
pub open spec fn sorted_by_id(t: Seq<ActionEntry>) -> bool {
    forall|i: int, j: int| 0 <= i < j < t.len() ==> t[i].id < t[j].id
}

/// Whether `t` holds an entry for the action of `e` under the id of `e`.
pub open spec fn represents(project: Project, t: Seq<ActionEntry>, e: ActionEntry) -> bool {
    exists|p: int| 0 <= p < t.len() && (#[trigger] t[p]).id == e.id && same_action(project, t[p], e)
}

/// Whether `t` is the table of the first `upto` entries of `all`: ascending
/// ids, nothing that is not among them, and every one of them represented.
pub open spec fn table_of(project: Project, t: Seq<ActionEntry>, all: Seq<ActionEntry>, upto: int) -> bool {
    &&& sorted_by_id(t)
    &&& forall|p: int| 0 <= p < t.len() ==> all.subrange(0, upto).contains(#[trigger] t[p])
    &&& forall|i: int| 0 <= i < upto ==> represents(project, t, #[trigger] all[i])
}

/// The entry of action `a` of module `m` in a graph for `layer`.
pub open spec fn entry_of(layer: Environment, m: usize, a: ServerAction) -> ActionEntry {
    ActionEntry { id: a.id, module: m, export: a.export, closure_args: a.closure_args, layer }
}

/// The entries of the marked exports of module `m`, in export order.
pub open spec fn module_entries(project: Project, layer: Environment, m: usize) -> Seq<ActionEntry> {
    let module = project.modules@[m as int];
    actions_spec(module.location@, module.exports@, module.exports@.len()).map_values(
        |a: ServerAction| entry_of(layer, m, a),
    )
}

/// The entries of the first `n` nodes, node by node.
pub open spec fn graph_entries(project: Project, layer: Environment, nodes: Seq<usize>, n: nat) -> Seq<ActionEntry>
    decreases n,
{
    if n == 0 {
        Seq::empty()
    } else {
        graph_entries(project, layer, nodes, (n - 1) as nat) + module_entries(project, layer, nodes[n - 1])
    }
}

/// The marked exports of every node of `g`, node by node, each with its id.
pub fn collect_actions(project: &Project, g: &ModuleGraph) -> (all: Vec<ActionEntry>)
    requires
        forall|k: int| 0 <= k < g.nodes@.len() ==> #[trigger] g.nodes@[k] < project.modules@.len(),
    ensures
        all@ == graph_entries(*project, g.environment, g.nodes@, g.nodes@.len()),
        forall|i: int| 0 <= i < all@.len() ==> entry_ok(*project, #[trigger] all@[i]),
{
    let mut all: Vec<ActionEntry> = Vec::new();
    let mut n: usize = 0;
    while n < g.nodes.len()
        invariant
            n <= g.nodes@.len(),
            forall|k: int| 0 <= k < g.nodes@.len() ==> #[trigger] g.nodes@[k] < project.modules@.len(),
            all@ == graph_entries(*project, g.environment, g.nodes@, n as nat),
            forall|i: int| 0 <= i < all@.len() ==> entry_ok(*project, #[trigger] all@[i]),
        decreases g.nodes@.len() - n,
    {
        let m = g.nodes[n];
        let found = scan(&project.modules[m]);
        let ghost base = all@;
        let ghost module = project.modules@[m as int];
        proof {
            assert(module.exports@.len() == module.exports.len());
            lemma_actions_are_marked_exports(module.location@, module.exports@, module.exports@.len());
        }
        let mut k: usize = 0;
        while k < found.actions.len()
            invariant
                k <= found.actions@.len(),
                m < project.modules@.len(),
                module == project.modules@[m as int],
                found.actions@ == actions_spec(module.location@, module.exports@, module.exports@.len()),
                forall|j: int|
                    0 <= j < found.actions@.len() ==> {
                        let a = #[trigger] found.actions@[j];
                        0 <= a.export < module.exports@.len() && module.exports@[a.export as int].action && a
                            == action_of(module.location@, module.exports@, a.export as int)
                    },
                all@ == base + module_entries(*project, g.environment, m).subrange(0, k as int),
                forall|i: int| 0 <= i < base.len() ==> entry_ok(*project, #[trigger] base[i]),
                forall|i: int| 0 <= i < all@.len() ==> entry_ok(*project, #[trigger] all@[i]),
            decreases found.actions@.len() - k,
        {
            let a = found.actions[k];
            let ghost before = all@;
            all.push(
                ActionEntry {
                    id: a.id,
                    module: m,
                    export: a.export,
                    closure_args: a.closure_args,
                    layer: g.environment,
                },
            );
            proof {
                assert(module_entries(*project, g.environment, m)[k as int] == entry_of(g.environment, m, a));
                assert(all@ =~= base + module_entries(*project, g.environment, m).subrange(0, k + 1));
                assert forall|i: int| 0 <= i < all@.len() implies entry_ok(*project, #[trigger] all@[i]) by {
                    if i < before.len() {
                        assert(all@[i] == before[i]);
                    }
                }
            }
            k += 1;
        }
        proof {
            assert(module_entries(*project, g.environment, m).subrange(0, k as int) =~= module_entries(*project, g.environment, m));
        }
        n += 1;
    }
    all
}

fn same_action_exec(project: &Project, a: &ActionEntry, b: &ActionEntry) -> (r: bool)
    requires
        entry_ok(*project, *a),
        entry_ok(*project, *b),
    ensures
        r == same_action(*project, *a, *b),
{
    let ma = &project.modules[a.module];
    let mb = &project.modules[b.module];
    bytes_eq(ma.location.as_slice(), mb.location.as_slice()) && bytes_eq(
        ma.exports[a.export].name.as_slice(),
        mb.exports[b.export].name.as_slice(),
    )
}

/// A table stays one when the next entry is an action that it already holds.
proof fn lemma_table_keep(project: Project, t: Seq<ActionEntry>, all: Seq<ActionEntry>, i: int, p: int)
    requires
        0 <= i < all.len(),
        table_of(project, t, all, i),
        0 <= p < t.len(),
        t[p].id == all[i].id,
        same_action(project, t[p], all[i]),
    ensures
        table_of(project, t, all, i + 1),
{
    assert forall|q: int| 0 <= q < t.len() implies all.subrange(0, i + 1).contains(#[trigger] t[q]) by {
        assert(all.subrange(0, i).contains(t[q]));
        let w = choose|w: int| 0 <= w < i && all.subrange(0, i)[w] == t[q];
        assert(all.subrange(0, i + 1)[w] == t[q]);
    }
    assert forall|q: int| 0 <= q < i + 1 implies represents(project, t, #[trigger] all[q]) by {
        if q == i {
            assert(t[p].id == all[i].id);
        }
    }
}

/// Putting an entry where its id belongs keeps the ids ascending.
proof fn lemma_insert_sorted(t: Seq<ActionEntry>, e: ActionEntry, p: int)
    requires
        sorted_by_id(t),
        0 <= p <= t.len(),
        forall|q: int| 0 <= q < p ==> t[q].id < e.id,
        p < t.len() ==> t[p].id > e.id,
    ensures
        sorted_by_id(t.insert(p, e)),
{
    let after = t.insert(p, e);
    assert forall|a: int, b: int| 0 <= a < b < after.len() implies after[a].id < after[b].id by {
        if a < p && b < p {
            assert(after[a] == t[a] && after[b] == t[b]);
        } else if a < p && b == p {
            assert(after[a] == t[a]);
        } else if a < p && b > p {
            assert(after[a] == t[a] && after[b] == t[b - 1]);
            if a < b - 1 {
                assert(t[a].id < t[b - 1].id);
            }
        } else if a == p {
            assert(after[b] == t[b - 1]);
            if p < b - 1 {
                assert(t[p].id < t[b - 1].id);
            }
        } else {
            assert(after[a] == t[a - 1] && after[b] == t[b - 1]);
            assert(t[a - 1].id < t[b - 1].id);
        }
    }
}

/// Every entry of a table stays in it, one place on at most, when one is put in.
proof fn lemma_insert_keeps(t: Seq<ActionEntry>, e: ActionEntry, p: int, w: int)
    requires
        0 <= p <= t.len(),
        0 <= w < t.len(),
    ensures
        t.insert(p, e).len() == t.len() + 1,
        t.insert(p, e)[p] == e,
        t.insert(p, e)[if w < p { w } else { w + 1 }] == t[w],
{
}

/// A table stays one when the next entry, under an id that it does not hold
/// yet, is put where its id belongs.
proof fn lemma_table_insert(project: Project, t: Seq<ActionEntry>, all: Seq<ActionEntry>, i: int, p: int)
    requires
        0 <= i < all.len(),
        table_of(project, t, all, i),
        0 <= p <= t.len(),
        forall|q: int| 0 <= q < p ==> t[q].id < all[i].id,
        p < t.len() ==> t[p].id > all[i].id,
    ensures
        table_of(project, t.insert(p, all[i]), all, i + 1),
{
    let e = all[i];
    let after = t.insert(p, e);
    lemma_insert_sorted(t, e, p);
    assert(after.len() == t.len() + 1);
    assert(after[p] == e);
    assert forall|q: int| 0 <= q < after.len() implies all.subrange(0, i + 1).contains(#[trigger] after[q]) by {
        if q == p {
            assert(all.subrange(0, i + 1)[i] == e);
        } else {
            let q0 = if q < p {
                q
            } else {
                q - 1
            };
            lemma_insert_keeps(t, e, p, q0);
            assert(all.subrange(0, i).contains(t[q0]));
            let w = choose|w: int| 0 <= w < i && all.subrange(0, i)[w] == t[q0];
            assert(all.subrange(0, i + 1)[w] == after[q]);
        }
    }
    assert forall|q: int| 0 <= q < i + 1 implies represents(project, after, #[trigger] all[q]) by {
        if q == i {
            assert(after[p].id == e.id);
        } else {
            assert(represents(project, t, all[q]));
            let w = choose|w: int|
                0 <= w < t.len() && (#[trigger] t[w]).id == all[q].id && same_action(project, t[w], all[q]);
            let w1 = if w < p {
                w
            } else {
                w + 1
            };
            lemma_insert_keeps(t, e, p, w);
            assert(after[w1] == t[w]);
        }
    }
}

/// Entries that have a table do not collide: the ids of a table differ, so
/// two entries under one id are represented by the same entry of the table.
pub proof fn lemma_table_excludes_collision(
    project: Project,
    t: Seq<ActionEntry>,
    all: Seq<ActionEntry>,
    upto: int,
)
    requires
        0 <= upto <= all.len(),
        table_of(project, t, all, upto),
    ensures
        !has_collision(project, all, upto),
{
    assert forall|a: int, b: int| 0 <= a < upto && 0 <= b < upto implies !collide(
        project,
        #[trigger] all[a],
        #[trigger] all[b],
    ) by {
        assert(represents(project, t, all[a]));
        assert(represents(project, t, all[b]));
        if all[a].id == all[b].id {
            let wa = choose|w: int|
                0 <= w < t.len() && (#[trigger] t[w]).id == all[a].id && same_action(project, t[w], all[a]);
            let wb = choose|w: int|
                0 <= w < t.len() && (#[trigger] t[w]).id == all[b].id && same_action(project, t[w], all[b]);
            if wa < wb {
                assert(t[wa].id < t[wb].id);
            }
            if wb < wa {
                assert(t[wb].id < t[wa].id);
            }
        }
    }
}

/// Assembles the table from the collected entries: one entry for each id, in
/// ascending order of id. An action met again is kept once. Two different
/// actions under one id end the assembly with that pair.
pub fn assemble(project: &Project, all: &Vec<ActionEntry>) -> (r: Result<Vec<ActionEntry>, ActionIdCollision>)
    requires
        forall|i: int| 0 <= i < all@.len() ==> entry_ok(*project, #[trigger] all@[i]),
    ensures
        r.is_err() <==> has_collision(*project, all@, all@.len() as int),
        r matches Ok(t) ==> table_of(*project, t@, all@, all@.len() as int),
        r matches Err(c) ==> is_collision_of(*project, all@, c),
{
    let mut t: Vec<ActionEntry> = Vec::new();
    let mut i: usize = 0;
    while i < all.len()
        invariant
            i <= all@.len(),
            forall|i: int| 0 <= i < all@.len() ==> entry_ok(*project, #[trigger] all@[i]),
            table_of(*project, t@, all@, i as int),
        decreases all@.len() - i,
    {
        let e = all[i];
        let mut p: usize = 0;
        while p < t.len() && t[p].id < e.id
            invariant
                p <= t@.len(),
                forall|q: int| 0 <= q < p ==> t@[q].id < e.id,
            decreases t@.len() - p,
        {
            p += 1;
        }
        if p < t.len() && t[p].id == e.id {
            let kept = t[p];
            proof {
                assert(all@.subrange(0, i as int).contains(t@[p as int]));
            }
            let ghost q = choose|q: int| 0 <= q < i && all@.subrange(0, i as int)[q] == kept;
            proof {
                assert(all@[q] == kept);
            }
            if !same_action_exec(project, &kept, &e) {
                proof {
                    assert(collide(*project, all@[q], all@[i as int]));
                }
                return Err(ActionIdCollision { id: kept.id, first: kept, second: e });
            }
            proof {
                lemma_table_keep(*project, t@, all@, i as int, p as int);
            }
        } else {
            proof {
                lemma_table_insert(*project, t@, all@, i as int, p as int);
            }
            t.insert(p, e);
        }
        i += 1;
    }
    proof {
        lemma_table_excludes_collision(*project, t@, all@, all@.len() as int);
    }
    Ok(t)
}

/// The server action table of a graph, or the collision that makes the
/// build of this entrypoint fail.
pub fn action_table(project: &Project, g: &ModuleGraph) -> (r: Result<Vec<ActionEntry>, ActionIdCollision>)
    requires
        forall|k: int| 0 <= k < g.nodes@.len() ==> #[trigger] g.nodes@[k] < project.modules@.len(),
    ensures
        r.is_err() <==> has_collision(
            *project,
            graph_entries(*project, g.environment, g.nodes@, g.nodes@.len()),
            graph_entries(*project, g.environment, g.nodes@, g.nodes@.len()).len() as int,
        ),
        r matches Ok(t) ==> table_of(
            *project,
            t@,
            graph_entries(*project, g.environment, g.nodes@, g.nodes@.len()),
            graph_entries(*project, g.environment, g.nodes@, g.nodes@.len()).len() as int,
        ),
        r matches Err(c) ==> is_collision_of(*project, graph_entries(*project, g.environment, g.nodes@, g.nodes@.len()), c),
{
    let all = collect_actions(project, g);
    assemble(project, &all)
}

} // verus!
