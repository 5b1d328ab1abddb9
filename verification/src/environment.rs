//! Execution environments and the boundary classifier.

use vstd::prelude::*;

verus! {

/// Where a module runs. `Shared` is environment-neutral: such a module is
/// instantiated once for each environment that reaches it.
#[derive(Clone, Copy, Debug, PartialEq, Eq, Structural)]
pub enum Environment {
    Server,
    Client,
    Shared,
}

/// What the classifier says of a module: its environment, and whether its
/// source carries directives that contradict each other.
#[derive(Clone, Copy, Debug, PartialEq, Eq, Structural)]
pub struct Verdict {
    pub environment: Environment,
    pub conflict: bool,
}

/// The environment of a module: the first directive of its source if it has
/// one, else the tag inherited from the importing edge, else `Shared`.
pub open spec fn classify_spec(directives: Seq<Environment>, inherited: Option<Environment>) -> Environment {
    if directives.len() > 0 {
        directives[0]
    } else {
        match inherited {
            Some(e) => e,
            None => Environment::Shared,
        }
    }
}

/// Whether two directives of one source name different environments.
pub open spec fn directives_conflict(directives: Seq<Environment>) -> bool {
    exists|i: int| 0 < i < directives.len() && #[trigger] directives[i] != directives[0]
}

/// Classifies a module from the directives at the top of its source, in
/// source order, and the tag inherited from the importing edge. A conflict
/// between directives is not fatal: the first directive wins and the conflict
/// is reported.
pub fn classify(directives: &[Environment], inherited: Option<Environment>) -> (v: Verdict)
    ensures
        v.environment == classify_spec(directives@, inherited),
        v.conflict == directives_conflict(directives@),
{
    if directives.len() == 0 {
        let environment = match inherited {
            Some(e) => e,
            None => Environment::Shared,
        };
        return Verdict { environment, conflict: false };
    }
    let first = directives[0];
    let mut conflict = false;
    let mut i: usize = 1;
    while i < directives.len()
        invariant
            1 <= i <= directives@.len(),
            first == directives@[0],
            conflict == exists|k: int| 0 < k < i && #[trigger] directives@[k] != directives@[0],
        decreases directives@.len() - i,
    {
        if directives[i] != first {
            conflict = true;
        }
        i += 1;
    }
    Verdict { environment: first, conflict }
}

} // verus!
