//! Entrypoint synthesizer: from route definitions to the build roots of each
//! route, with the chain of layouts that a route inherits.

use vstd::prelude::*;
use crate::actions::{ActionEntry, ActionIdCollision};
use crate::bytes::copy_bytes;
use crate::diagnostics::{analysis_of, analyze, Analysis};
use crate::environment::Environment;
use crate::graph::{build, graph_of, ModuleGraph};
use crate::route_order::{depth, depth_spec, is_route_order, route_order};
use crate::source::Project;

verus! {

/// The kinds of build root. The set is closed.
#[derive(Clone, Copy, Debug, PartialEq, Eq, Structural)]
pub enum EntrypointKind {
    PageRoot,
    RouteHandlerRoot,
    LayoutRoot,
    MiddlewareRoot,
    InstrumentationRoot,
}

/// One definition handed in by the framework layer: its kind, its path
/// pattern and the module that implements it.
pub struct RouteDefinition {
    pub kind: EntrypointKind,
    pub pattern: Vec<u8>,
    pub module: usize,
}

/// One build root set: the definition it was made from, the environment its
/// graphs are built for, and its roots, the definition's own module first
/// and then the modules of the inherited layouts, outermost first.
pub struct Entrypoint {
    pub kind: EntrypointKind,
    pub environment: Environment,
    pub definition: usize,
    pub pattern: Vec<u8>,
    pub roots: Vec<usize>,
}

/// Whether a definition of this kind is also built for the client, to be hydrated there.
pub open spec fn has_client_root(kind: EntrypointKind) -> bool {
    kind == EntrypointKind::PageRoot || kind == EntrypointKind::LayoutRoot
}

/// Whether a definition of this kind stands in the route tree and inherits layouts.
pub open spec fn in_route_tree(kind: EntrypointKind) -> bool {
    kind == EntrypointKind::PageRoot || kind == EntrypointKind::LayoutRoot || kind
        == EntrypointKind::RouteHandlerRoot
}

/// Whether the first `len` bytes of `pattern` end at a segment boundary, so
/// that they name the path itself or one of its ancestors.
pub open spec fn at_boundary(pattern: Seq<u8>, len: int) -> bool {
    &&& 0 <= len <= pattern.len()
    &&& (len == pattern.len() || pattern[len] == 0x2f || (len > 0 && pattern[len - 1] == 0x2f))
}

/// Whether definition `i` is a layout, other than `d`, whose pattern is the
/// first `len` bytes of the pattern of `d`.
pub open spec fn is_layout_at(defs: Seq<RouteDefinition>, d: int, len: int, i: int) -> bool {
    &&& i != d
    &&& defs[i].kind == EntrypointKind::LayoutRoot
    &&& defs[i].pattern@ == defs[d].pattern@.subrange(0, len)
}

/// The first definition at or after `from` that is a layout at that prefix.
/// Of two layouts with one and the same pattern neither is more specific:
/// the one defined first is inherited.
pub open spec fn first_layout_at(defs: Seq<RouteDefinition>, d: int, len: int, from: int) -> Option<usize>
    decreases defs.len() - from,
{
    if from < 0 || from >= defs.len() {
        None
    } else if is_layout_at(defs, d, len, from) {
        Some(from as usize)
    } else {
        first_layout_at(defs, d, len, from + 1)
    }
}

/// Whether two layouts are in conflict: their patterns have the same depth,
/// so in the chain of one route both would stand at the same level. This
/// happens where two patterns differ only in slashes, as `/a` and `/a/`.
pub open spec fn layouts_conflict(defs: Seq<RouteDefinition>, a: usize, b: usize) -> bool {
    depth_spec(defs[a as int].pattern@) == depth_spec(defs[b as int].pattern@)
}

/// The chain after layout `i` is met, the layouts being met from the
/// shortest pattern to the longest. On a conflict with the innermost layout
/// of the chain the more path-specific definition wins: `i`, whose pattern
/// names more bytes of the path, takes the place of the other. Without a
/// conflict `i` becomes the innermost layout.
pub open spec fn inherit(defs: Seq<RouteDefinition>, chain: Seq<usize>, i: usize) -> Seq<usize> {
    if chain.len() > 0 && layouts_conflict(defs, chain.last(), i) {
        chain.drop_last().push(i)
    } else {
        chain.push(i)
    }
}

/// The layouts that definition `d` inherits from prefixes shorter than
/// `upto` bytes, by path depth: the outermost first, one for each depth.
pub open spec fn chain_spec(defs: Seq<RouteDefinition>, d: int, upto: nat) -> Seq<usize>
    decreases upto,
{
    if upto == 0 {
        Seq::empty()
    } else {
        let rest = chain_spec(defs, d, (upto - 1) as nat);
        let len = upto - 1;
        if at_boundary(defs[d].pattern@, len) {
            match first_layout_at(defs, d, len, 0) {
                Some(i) => inherit(defs, rest, i),
                None => rest,
            }
        } else {
            rest
        }
    }
}

/// What `first_layout_at` finds is a layout whose pattern is that prefix.
pub proof fn lemma_first_layout_at(defs: Seq<RouteDefinition>, d: int, len: int, from: int)
    requires
        0 <= from,
        defs.len() <= usize::MAX,
    ensures
        first_layout_at(defs, d, len, from) matches Some(i) ==> i < defs.len() && is_layout_at(
            defs,
            d,
            len,
            i as int,
        ),
    decreases defs.len() - from,
{
    if from < defs.len() && !is_layout_at(defs, d, len, from) {
        lemma_first_layout_at(defs, d, len, from + 1);
    }
}

/// The winner of a conflict is the more path-specific definition: every
/// layout of the chain built from the prefixes shorter than `upto` has a
/// pattern shorter than `upto`, so a layout met at a prefix of `upto` bytes
/// or more, which takes the place of the innermost on a conflict, has the
/// longer pattern.
pub proof fn lemma_chain_patterns_are_shorter(defs: Seq<RouteDefinition>, d: int, upto: nat)
    requires
        0 <= d < defs.len(),
        defs.len() <= usize::MAX,
        upto <= defs[d].pattern@.len() + 1,
    ensures
        forall|k: int|
            0 <= k < chain_spec(defs, d, upto).len() ==> {
                let i = #[trigger] chain_spec(defs, d, upto)[k];
                i < defs.len() && defs[i as int].kind == EntrypointKind::LayoutRoot && defs[i as int].pattern@.len()
                    < upto
            },
    decreases upto,
{
    if upto > 0 {
        let rest = chain_spec(defs, d, (upto - 1) as nat);
        let len = upto - 1;
        lemma_chain_patterns_are_shorter(defs, d, (upto - 1) as nat);
        lemma_first_layout_at(defs, d, len, 0);
        let all = chain_spec(defs, d, upto);
        assert forall|k: int| 0 <= k < all.len() implies {
            let i = #[trigger] all[k];
            i < defs.len() && defs[i as int].kind == EntrypointKind::LayoutRoot && defs[i as int].pattern@.len()
                < upto
        } by {
            if k < rest.len() && all[k] == rest[k] {
            } else {
                assert(at_boundary(defs[d].pattern@, len));
                let i = first_layout_at(defs, d, len, 0)->0;
                assert(all[k] == i);
                assert(defs[i as int].pattern@ == defs[d].pattern@.subrange(0, len));
            }
        }
    }
}

/// How many prefix lengths of its pattern definition `d` inherits layouts
/// from: a layout from the prefixes shorter than its pattern, any other
/// definition also from a layout at its own pattern.
pub open spec fn chain_reach(defs: Seq<RouteDefinition>, d: int) -> nat {
    if defs[d].kind == EntrypointKind::LayoutRoot {
        defs[d].pattern@.len()
    } else {
        defs[d].pattern@.len() + 1
    }
}

/// The roots of definition `d`: its own module, then, for a definition of
/// the route tree, the modules of its chain of layouts.
pub open spec fn roots_spec(defs: Seq<RouteDefinition>, d: int) -> Seq<usize> {
    let own = seq![defs[d].module];
    if in_route_tree(defs[d].kind) {
        own + chain_spec(defs, d, chain_reach(defs, d)).map_values(|i: usize| defs[i as int].module)
    } else {
        own
    }
}

/// Which definition and environment each entrypoint of the first `n`
/// definitions of `order` stands for: the server root of each definition
/// before its client root.
pub open spec fn slots_spec(defs: Seq<RouteDefinition>, order: Seq<usize>, n: nat) -> Seq<(usize, Environment)>
    decreases n,
{
    if n == 0 {
        Seq::empty()
    } else {
        let d = order[n - 1];
        let rest = slots_spec(defs, order, (n - 1) as nat).push((d, Environment::Server));
        if has_client_root(defs[d as int].kind) {
            rest.push((d, Environment::Client))
        } else {
            rest
        }
    }
}

/// The route tree of a set of definitions: the definitions in the order of
/// the tree, and their entrypoints in that order.
pub struct RouteTree {
    pub order: Vec<usize>,
    pub entrypoints: Vec<Entrypoint>,
}

/// Whether `e` is the entrypoint of definition `d` for `env`.
pub open spec fn entrypoint_of(defs: Seq<RouteDefinition>, e: Entrypoint, d: usize, env: Environment) -> bool {
    &&& e.kind == defs[d as int].kind
    &&& e.environment == env
    &&& e.definition == d
    &&& e.pattern@ == defs[d as int].pattern@
    &&& e.roots@ == roots_spec(defs, d as int)
}

fn kind_has_client_root(kind: EntrypointKind) -> (r: bool)
    ensures
        r == has_client_root(kind),
{
    match kind {
        EntrypointKind::PageRoot => true,
        EntrypointKind::LayoutRoot => true,
        _ => false,
    }
}

fn kind_in_route_tree(kind: EntrypointKind) -> (r: bool)
    ensures
        r == in_route_tree(kind),
{
    match kind {
        EntrypointKind::PageRoot => true,
        EntrypointKind::LayoutRoot => true,
        EntrypointKind::RouteHandlerRoot => true,
        _ => false,
    }
}

/// Takes layout `f` into the chain: in place of the innermost layout where
/// the two are in conflict, behind it otherwise.
fn inherit_layout(defs: &Vec<RouteDefinition>, chain: &mut Vec<usize>, f: usize)
    requires
        f < defs@.len(),
        forall|k: int| 0 <= k < old(chain)@.len() ==> #[trigger] old(chain)@[k] < defs@.len(),
    ensures
        final(chain)@ == inherit(defs@, old(chain)@, f),
        forall|k: int| 0 <= k < final(chain)@.len() ==> #[trigger] final(chain)@[k] < defs@.len(),
{
    let n = chain.len();
    if n > 0 {
        let innermost = chain[n - 1];
        if depth(defs[innermost].pattern.as_slice()) == depth(defs[f].pattern.as_slice()) {
            chain.pop();
        }
    }
    chain.push(f);
    proof {
        assert(chain@ =~= inherit(defs@, old(chain)@, f));
    }
}

/// Whether `candidate` is exactly the first `len` bytes of `pattern`.
fn is_prefix_of_len(candidate: &[u8], pattern: &[u8], len: usize) -> (r: bool)
    requires
        len <= pattern@.len(),
    ensures
        r == (candidate@ == pattern@.subrange(0, len as int)),
{
    if candidate.len() != len {
        return false;
    }
    let mut k: usize = 0;
    while k < len
        invariant
            k <= len <= pattern@.len(),
            candidate@.len() == len,
            forall|q: int| 0 <= q < k ==> candidate@[q] == pattern@[q],
        decreases len - k,
    {
        if candidate[k] != pattern[k] {
            proof {
                assert(pattern@.subrange(0, len as int)[k as int] == pattern@[k as int]);
            }
            return false;
        }
        k += 1;
    }
    proof {
        assert(candidate@ =~= pattern@.subrange(0, len as int));
    }
    true
}

/// The first layout, other than `d`, whose pattern is the first `len` bytes
/// of the pattern of `d`.
fn find_layout_at(defs: &Vec<RouteDefinition>, d: usize, len: usize) -> (found: Option<usize>)
    requires
        d < defs@.len(),
        len <= defs@[d as int].pattern@.len(),
    ensures
        found == first_layout_at(defs@, d as int, len as int, 0),
        found matches Some(f) ==> f < defs@.len(),
{
    let pattern = defs[d].pattern.as_slice();
    let mut i: usize = 0;
    while i < defs.len()
        invariant
            d < defs@.len(),
            pattern@ == defs@[d as int].pattern@,
            len <= pattern@.len(),
            i <= defs@.len(),
            first_layout_at(defs@, d as int, len as int, 0) == first_layout_at(
                defs@,
                d as int,
                len as int,
                i as int,
            ),
        decreases defs@.len() - i,
    {
        if i != d && defs[i].kind == EntrypointKind::LayoutRoot && is_prefix_of_len(
            defs[i].pattern.as_slice(),
            pattern,
            len,
        ) {
            return Some(i);
        }
        i += 1;
    }
    None
}

/// Whether the first `len` bytes of `pattern` end at a segment boundary.
fn is_at_boundary(pattern: &[u8], len: usize) -> (r: bool)
    requires
        len <= pattern@.len(),
    ensures
        r == at_boundary(pattern@, len as int),
{
    len == pattern.len() || pattern[len] == 0x2f || (len > 0 && pattern[len - 1] == 0x2f)
}

/// The layouts that definition `d` inherits, outermost first: for each
/// prefix of its pattern that ends at a segment boundary, the first layout
/// defined with that prefix as its pattern. Where two of them stand at the
/// same depth, the one with the longer pattern wins and the other is left
/// out. A layout inherits from the prefixes shorter than its own pattern
/// only.
pub fn layout_chain(defs: &Vec<RouteDefinition>, d: usize) -> (chain: Vec<usize>)
    requires
        d < defs@.len(),
    ensures
        chain@ == chain_spec(defs@, d as int, chain_reach(defs@, d as int)),
        forall|k: int| 0 <= k < chain@.len() ==> #[trigger] chain@[k] < defs@.len(),
{
    let pattern = defs[d].pattern.as_slice();
    let mut chain: Vec<usize> = Vec::new();
    let mut len: usize = 0;
    while len < pattern.len()
        invariant
            d < defs@.len(),
            pattern@ == defs@[d as int].pattern@,
            len <= pattern@.len(),
            chain@ == chain_spec(defs@, d as int, len as nat),
            forall|k: int| 0 <= k < chain@.len() ==> #[trigger] chain@[k] < defs@.len(),
        decreases pattern@.len() - len,
    {
        if is_at_boundary(pattern, len) {
            match find_layout_at(defs, d, len) {
                Some(f) => {
                    inherit_layout(defs, &mut chain, f);
                },
                None => {},
            }
        }
        len += 1;
    }
    if defs[d].kind != EntrypointKind::LayoutRoot {
        match find_layout_at(defs, d, len) {
            Some(f) => {
                inherit_layout(defs, &mut chain, f);
            },
            None => {},
        }
    }
    chain
}

/// The entrypoint of definition `d` for `env`.
fn entrypoint(defs: &Vec<RouteDefinition>, d: usize, env: Environment) -> (e: Entrypoint)
    requires
        d < defs@.len(),
    ensures
        entrypoint_of(defs@, e, d, env),
{
    let def = &defs[d];
    let mut roots: Vec<usize> = Vec::new();
    roots.push(def.module);
    if kind_in_route_tree(def.kind) {
        let chain = layout_chain(defs, d);
        let mut k: usize = 0;
        while k < chain.len()
            invariant
                k <= chain@.len(),
                forall|q: int| 0 <= q < chain@.len() ==> #[trigger] chain@[q] < defs@.len(),
                roots@ == seq![defs@[d as int].module] + chain@.subrange(0, k as int).map_values(
                    |i: usize| defs@[i as int].module,
                ),
            decreases chain@.len() - k,
        {
            roots.push(defs[chain[k]].module);
            k += 1;
            proof {
                assert(roots@ =~= seq![defs@[d as int].module] + chain@.subrange(0, k as int).map_values(
                    |i: usize| defs@[i as int].module,
                ));
            }
        }
        proof {
            assert(chain@.subrange(0, k as int) =~= chain@);
        }
    } else {
        proof {
            assert(roots@ =~= seq![defs@[d as int].module]);
        }
    }
    Entrypoint { kind: def.kind, environment: env, definition: d, pattern: copy_bytes(def.pattern.as_slice()), roots }
}

/// Synthesizes the entrypoints of the route definitions. The definitions are
/// taken in the order of the route tree: by path depth, then in lexical
/// order. Every definition yields a server entrypoint; a page or a layout
/// also yields a client entrypoint, so that the two graphs are built and
/// classified independently.
pub fn synthesize(defs: &Vec<RouteDefinition>) -> (tree: RouteTree)
    ensures
        is_route_order(defs@, tree.order@),
        tree.entrypoints@.len() == slots_spec(defs@, tree.order@, tree.order@.len()).len(),
        forall|k: int|
            0 <= k < tree.entrypoints@.len() ==> entrypoint_of(
                defs@,
                #[trigger] tree.entrypoints@[k],
                slots_spec(defs@, tree.order@, tree.order@.len())[k].0,
                slots_spec(defs@, tree.order@, tree.order@.len())[k].1,
            ),
{
    let order = route_order(defs);
    let mut out: Vec<Entrypoint> = Vec::new();
    let mut n: usize = 0;
    while n < order.len()
        invariant
            n <= order@.len(),
            is_route_order(defs@, order@),
            out@.len() == slots_spec(defs@, order@, n as nat).len(),
            forall|k: int|
                0 <= k < out@.len() ==> entrypoint_of(
                    defs@,
                    #[trigger] out@[k],
                    slots_spec(defs@, order@, n as nat)[k].0,
                    slots_spec(defs@, order@, n as nat)[k].1,
                ),
        decreases order@.len() - n,
    {
        let ghost before = out@;
        let ghost slots_before = slots_spec(defs@, order@, n as nat);
        let d = order[n];
        out.push(entrypoint(defs, d, Environment::Server));
        if kind_has_client_root(defs[d].kind) {
            out.push(entrypoint(defs, d, Environment::Client));
        }
        proof {
            let slots = slots_spec(defs@, order@, (n + 1) as nat);
            assert forall|k: int| 0 <= k < out@.len() implies entrypoint_of(
                defs@,
                #[trigger] out@[k],
                slots[k].0,
                slots[k].1,
            ) by {
                if k < before.len() {
                    assert(out@[k] == before[k]);
                    assert(slots[k] == slots_before[k]);
                }
            }
        }
        n += 1;
    }
    RouteTree { order, entrypoints: out }
}

/// Whether every root of `e` is a module of `project`: what the builds of
/// an entrypoint ask of it.
pub fn roots_in_project(project: &Project, e: &Entrypoint) -> (ok: bool)
    ensures
        ok == forall|k: int| 0 <= k < e.roots@.len() ==> #[trigger] e.roots@[k] < project.modules@.len(),
{
    let mut k: usize = 0;
    while k < e.roots.len()
        invariant
            k <= e.roots@.len(),
            forall|q: int| 0 <= q < k ==> #[trigger] e.roots@[q] < project.modules@.len(),
        decreases e.roots@.len() - k,
    {
        if e.roots[k] >= project.modules.len() {
            return false;
        }
        k += 1;
    }
    true
}

/// Builds the graphs of an entrypoint: one for each of its roots, in order,
/// all for the environment of the entrypoint.
pub fn build_entrypoint(project: &Project, e: &Entrypoint) -> (r: Vec<ModuleGraph>)
    requires
        forall|k: int| 0 <= k < e.roots@.len() ==> #[trigger] e.roots@[k] < project.modules@.len(),
    ensures
        r@.len() == e.roots@.len(),
        forall|k: int| 0 <= k < r@.len() ==> graph_of(*project, e.roots@[k], e.environment, #[trigger] r@[k]),
{
    let mut out: Vec<ModuleGraph> = Vec::new();
    let mut k: usize = 0;
    while k < e.roots.len()
        invariant
            k <= e.roots@.len(),
            forall|k: int| 0 <= k < e.roots@.len() ==> #[trigger] e.roots@[k] < project.modules@.len(),
            out@.len() == k,
            forall|q: int| 0 <= q < out@.len() ==> graph_of(*project, e.roots@[q], e.environment, #[trigger] out@[q]),
        decreases e.roots@.len() - k,
    {
        let ghost before = out@;
        out.push(build(project, e.roots[k], e.environment));
        proof {
            assert forall|q: int| 0 <= q < out@.len() implies graph_of(
                *project,
                e.roots@[q],
                e.environment,
                #[trigger] out@[q],
            ) by {
                if q < before.len() {
                    assert(out@[q] == before[q]);
                }
            }
        }
        k += 1;
    }
    out
}

/// Analyses an entrypoint: one analysis for each of its roots, in order. A
/// collision of action ids in one of them is fatal for this entrypoint, and
/// for no other: the first root with a collision ends the work.
pub fn analyze_entrypoint(project: &Project, e: &Entrypoint) -> (r: Result<Vec<Analysis>, ActionIdCollision>)
    requires
        forall|k: int| 0 <= k < e.roots@.len() ==> #[trigger] e.roots@[k] < project.modules@.len(),
    ensures
        r matches Ok(v) ==> {
            &&& v@.len() == e.roots@.len()
            &&& forall|k: int|
                0 <= k < v@.len() ==> analysis_of(*project, e.roots@[k], e.environment, #[trigger] v@[k])
                    && v@[k].actions.is_ok()
        },
        r matches Err(c) ==> exists|k: int, a: Analysis|
            0 <= k < e.roots@.len() && #[trigger] analysis_of(*project, e.roots@[k], e.environment, a) && a.actions
                == Err::<Vec<ActionEntry>, ActionIdCollision>(c),
{
    let mut out: Vec<Analysis> = Vec::new();
    let mut k: usize = 0;
    while k < e.roots.len()
        invariant
            k <= e.roots@.len(),
            forall|k: int| 0 <= k < e.roots@.len() ==> #[trigger] e.roots@[k] < project.modules@.len(),
            out@.len() == k,
            forall|q: int|
                0 <= q < out@.len() ==> analysis_of(*project, e.roots@[q], e.environment, #[trigger] out@[q])
                    && out@[q].actions.is_ok(),
        decreases e.roots@.len() - k,
    {
        let ghost before = out@;
        let a = analyze(project, e.roots[k], e.environment);
        match &a.actions {
            Err(c) => {
                let collision = *c;
                proof {
                    assert(analysis_of(*project, e.roots@[k as int], e.environment, a));
                    assert(a.actions == Err::<Vec<ActionEntry>, ActionIdCollision>(collision));
                }
                return Err(collision);
            },
            Ok(_) => {},
        }
        out.push(a);
        proof {
            assert forall|q: int| 0 <= q < out@.len() implies analysis_of(
                *project,
                e.roots@[q],
                e.environment,
                #[trigger] out@[q],
            ) && out@[q].actions.is_ok() by {
                if q < before.len() {
                    assert(out@[q] == before[q]);
                }
            }
        }
        k += 1;
    }
    Ok(out)
}

} // verus!
