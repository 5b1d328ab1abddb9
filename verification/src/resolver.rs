//! Reference resolver: from a specifier and the importer's environment to a
//! module of the project, or to nothing.

use vstd::prelude::*;
use crate::bytes::{bytes_eq, concat_bytes};
use crate::environment::Environment;
use crate::source::{Project, SourceModule};

verus! {

/// The `k`-th location that resolution probes: the specifier as written,
/// then the specifier followed by each extension in turn.
pub open spec fn candidate(specifier: Seq<u8>, extensions: Seq<Vec<u8>>, k: int) -> Seq<u8> {
    if k == 0 {
        specifier
    } else {
        specifier + extensions[k - 1]@
    }
}

/// Whether a file with resolution condition `condition` may be picked for an
/// importer that runs in `env`.
pub open spec fn admits(condition: Environment, env: Environment) -> bool {
    condition == Environment::Shared || condition == env
}

/// Whether module `m` is the file at `location` for an importer in `env`.
pub open spec fn is_match(m: SourceModule, location: Seq<u8>, env: Environment) -> bool {
    m.location@ == location && admits(m.condition, env)
}

/// The first module at or after position `from` that matches.
pub open spec fn first_match(modules: Seq<SourceModule>, location: Seq<u8>, env: Environment, from: int) -> Option<
    int,
>
    decreases modules.len() - from,
{
    if from < 0 || from >= modules.len() {
        None
    } else if is_match(modules[from], location, env) {
        Some(from)
    } else {
        first_match(modules, location, env, from + 1)
    }
}

/// The module found by the first candidate, from the `k`-th on, that finds one.
pub open spec fn resolve_from(project: Project, specifier: Seq<u8>, env: Environment, k: int) -> Option<int>
    decreases project.extensions@.len() + 1 - k,
{
    if k < 0 || k > project.extensions@.len() {
        None
    } else {
        match first_match(project.modules@, candidate(specifier, project.extensions@, k), env, 0) {
            Some(i) => Some(i),
            None => resolve_from(project, specifier, env, k + 1),
        }
    }
}

/// The module that `specifier` resolves to for an importer in `env`.
pub open spec fn resolve_spec(project: Project, specifier: Seq<u8>, env: Environment) -> Option<int> {
    resolve_from(project, specifier, env, 0)
}

/// What `first_match` finds is a module of the sequence, and it matches.
pub proof fn lemma_first_match(modules: Seq<SourceModule>, location: Seq<u8>, env: Environment, from: int)
    requires
        0 <= from,
    ensures
        first_match(modules, location, env, from) matches Some(i) ==> from <= i < modules.len() && is_match(
            modules[i],
            location,
            env,
        ),
    decreases modules.len() - from,
{
    if from < modules.len() && !is_match(modules[from], location, env) {
        lemma_first_match(modules, location, env, from + 1);
    }
}

/// What resolution finds is a module of the project whose condition admits
/// the importer's environment.
pub proof fn lemma_resolve_from(project: Project, specifier: Seq<u8>, env: Environment, k: int)
    requires
        0 <= k,
    ensures
        resolve_from(project, specifier, env, k) matches Some(i) ==> 0 <= i < project.modules@.len() && admits(
            project.modules@[i].condition,
            env,
        ),
    decreases project.extensions@.len() + 1 - k,
{
    if k <= project.extensions@.len() {
        lemma_first_match(project.modules@, candidate(specifier, project.extensions@, k), env, 0);
        lemma_resolve_from(project, specifier, env, k + 1);
    }
}

fn admits_env(condition: Environment, env: Environment) -> (r: bool)
    ensures
        r == admits(condition, env),
{
    condition == Environment::Shared || condition == env
}

/// The first module of the project at `location` for an importer in `env`.
pub fn find_module(project: &Project, location: &[u8], env: Environment) -> (r: Option<usize>)
    ensures
        r matches Some(i) ==> i < project.modules@.len(),
        r.is_some() == first_match(project.modules@, location@, env, 0).is_some(),
        r matches Some(i) ==> first_match(project.modules@, location@, env, 0) == Some(i as int),
{
    let mut i: usize = 0;
    while i < project.modules.len()
        invariant
            i <= project.modules@.len(),
            first_match(project.modules@, location@, env, 0) == first_match(
                project.modules@,
                location@,
                env,
                i as int,
            ),
        decreases project.modules@.len() - i,
    {
        let m = &project.modules[i];
        if admits_env(m.condition, env) && bytes_eq(m.location.as_slice(), location) {
            return Some(i);
        }
        i += 1;
    }
    None
}

/// Resolves `specifier` for an importer that runs in `env`: the specifier as
/// written is probed first, then with each extension of the project in order,
/// and the first probe that names a module whose condition admits `env` wins.
/// `None` means unresolved.
pub fn resolve(project: &Project, specifier: &[u8], env: Environment) -> (r: Option<usize>)
    ensures
        r matches Some(i) ==> i < project.modules@.len(),
        r.is_some() == resolve_spec(*project, specifier@, env).is_some(),
        r matches Some(i) ==> resolve_spec(*project, specifier@, env) == Some(i as int),
{
    match find_module(project, specifier, env) {
        Some(i) => {
            return Some(i);
        },
        None => {},
    }
    let mut k: usize = 0;
    while k < project.extensions.len()
        invariant
            k <= project.extensions@.len(),
            resolve_spec(*project, specifier@, env) == resolve_from(*project, specifier@, env, k + 1),
        decreases project.extensions@.len() - k,
    {
        let location = concat_bytes(specifier, project.extensions[k].as_slice());
        match find_module(project, location.as_slice(), env) {
            Some(i) => {
                return Some(i);
            },
            None => {},
        }
        k += 1;
    }
    None
}

} // verus!
