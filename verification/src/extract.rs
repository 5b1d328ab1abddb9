//! Extractor of deferred loads and server actions from one module.

use vstd::prelude::*;
use crate::action_id::{action_id, action_id_spec};
use crate::source::{Export, Import, ImportKind, SourceModule};

verus! {

/// An export marked for remote invocation: its id, its position among the
/// exports of its module, and the number of closure arguments bound to it.
#[derive(Clone, Copy, Debug, PartialEq, Eq, Structural)]
pub struct ServerAction {
    pub id: u64,
    pub export: usize,
    pub closure_args: u32,
}

/// What a scan of one module finds. Imports are named by their position in
/// the module.
pub struct ScanResult {
    pub split_points: Vec<usize>,
    pub unanalyzable: Vec<usize>,
    pub actions: Vec<ServerAction>,
}

/// The positions, below `n`, of the deferred loads with a readable target.
pub open spec fn split_points_spec(imports: Seq<Import>, n: nat) -> Seq<usize>
    decreases n,
{
    if n == 0 {
        Seq::empty()
    } else {
        let rest = split_points_spec(imports, (n - 1) as nat);
        if imports[n - 1].is_split() {
            rest.push((n - 1) as usize)
        } else {
            rest
        }
    }
}

/// The positions, below `n`, of the references whose target is computed at run time.
pub open spec fn unanalyzable_spec(imports: Seq<Import>, n: nat) -> Seq<usize>
    decreases n,
{
    if n == 0 {
        Seq::empty()
    } else {
        let rest = unanalyzable_spec(imports, (n - 1) as nat);
        if imports[n - 1].is_unanalyzable() {
            rest.push((n - 1) as usize)
        } else {
            rest
        }
    }
}

/// The action that export `k` of the module at `location` stands for.
pub open spec fn action_of(location: Seq<u8>, exports: Seq<Export>, k: int) -> ServerAction {
    ServerAction {
        id: action_id_spec(location, exports[k].name@),
        export: k as usize,
        closure_args: exports[k].closure_args,
    }
}

/// The actions of the first `n` exports, in export order.
pub open spec fn actions_spec(location: Seq<u8>, exports: Seq<Export>, n: nat) -> Seq<ServerAction>
    decreases n,
{
    if n == 0 {
        Seq::empty()
    } else {
        let rest = actions_spec(location, exports, (n - 1) as nat);
        if exports[n - 1].action {
            rest.push(action_of(location, exports, n - 1))
        } else {
            rest
        }
    }
}

/// Every action of the table stands for a marked export that the module has
/// now: an export that was renamed or removed has left the table, and the
/// export under its new name is in it.
pub proof fn lemma_actions_are_marked_exports(location: Seq<u8>, exports: Seq<Export>, n: nat)
    requires
        n <= exports.len() <= usize::MAX,
    ensures
        forall|j: int|
            0 <= j < actions_spec(location, exports, n).len() ==> {
                let a = #[trigger] actions_spec(location, exports, n)[j];
                0 <= a.export < n && exports[a.export as int].action && a == action_of(
                    location,
                    exports,
                    a.export as int,
                )
            },
        forall|k: int|
            0 <= k < n && exports[k].action ==> actions_spec(location, exports, n).contains(
                #[trigger] action_of(location, exports, k),
            ),
    decreases n,
{
    if n > 0 {
        let rest = actions_spec(location, exports, (n - 1) as nat);
        let all = actions_spec(location, exports, n);
        lemma_actions_are_marked_exports(location, exports, (n - 1) as nat);
        assert forall|j: int| 0 <= j < all.len() implies {
            let a = #[trigger] all[j];
            0 <= a.export < n && exports[a.export as int].action && a == action_of(
                location,
                exports,
                a.export as int,
            )
        } by {
            if j < rest.len() {
                assert(all[j] == rest[j]);
            }
        }
        assert forall|k: int| 0 <= k < n && exports[k].action implies all.contains(
            #[trigger] action_of(location, exports, k),
        ) by {
            if k < n - 1 {
                assert(rest.contains(action_of(location, exports, k)));
                let j = choose|j: int| 0 <= j < rest.len() && rest[j] == action_of(location, exports, k);
                assert(all[j] == action_of(location, exports, k));
            } else {
                assert(all[all.len() - 1] == action_of(location, exports, k));
            }
        }
    }
}

/// An id is in the table only as long as a marked export hashes to it: once
/// no marked export of the module has the id, as after the one export that
/// had it was renamed to a name with another id, the table does not hold it.
pub proof fn lemma_id_leaves_with_its_export(location: Seq<u8>, exports: Seq<Export>, id: u64)
    requires
        exports.len() <= usize::MAX,
        forall|k: int|
            0 <= k < exports.len() && exports[k].action ==> action_id_spec(location, (#[trigger] exports[k]).name@)
                != id,
    ensures
        forall|j: int|
            0 <= j < actions_spec(location, exports, exports.len()).len() ==> (#[trigger] actions_spec(
                location,
                exports,
                exports.len(),
            )[j]).id != id,
{
    lemma_actions_are_marked_exports(location, exports, exports.len());
    let table = actions_spec(location, exports, exports.len());
    assert forall|j: int| 0 <= j < table.len() implies (#[trigger] table[j]).id != id by {
        let a = table[j];
        assert(exports[a.export as int].action);
        assert(a == action_of(location, exports, a.export as int));
    }
}

/// Scans one module: the deferred loads that become split points, the
/// references that cannot be analysed, and the marked exports with their ids,
/// each list in source order.
pub fn scan(module: &SourceModule) -> (r: ScanResult)
    ensures
        r.split_points@ == split_points_spec(module.imports@, module.imports@.len()),
        r.unanalyzable@ == unanalyzable_spec(module.imports@, module.imports@.len()),
        r.actions@ == actions_spec(module.location@, module.exports@, module.exports@.len()),
{
    let mut split_points: Vec<usize> = Vec::new();
    let mut unanalyzable: Vec<usize> = Vec::new();
    let mut i: usize = 0;
    while i < module.imports.len()
        invariant
            i <= module.imports@.len(),
            split_points@ == split_points_spec(module.imports@, i as nat),
            unanalyzable@ == unanalyzable_spec(module.imports@, i as nat),
        decreases module.imports@.len() - i,
    {
        let import = &module.imports[i];
        if import.specifier.is_none() {
            unanalyzable.push(i);
        } else if import.kind == ImportKind::Dynamic {
            split_points.push(i);
        }
        i += 1;
    }
    let mut actions: Vec<ServerAction> = Vec::new();
    let mut k: usize = 0;
    while k < module.exports.len()
        invariant
            k <= module.exports@.len(),
            actions@ == actions_spec(module.location@, module.exports@, k as nat),
        decreases module.exports@.len() - k,
    {
        let export = &module.exports[k];
        if export.action {
            let id = action_id(module.location.as_slice(), export.name.as_slice());
            actions.push(ServerAction { id, export: k, closure_args: export.closure_args });
        }
        k += 1;
    }
    ScanResult { split_points, unanalyzable, actions }
}

} // verus!
