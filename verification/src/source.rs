//! What the analysis reads: one coherent snapshot of the project's modules
//! and of the resolution configuration.

use vstd::prelude::*;
use crate::environment::Environment;

verus! {

/// How an edge refers to its target.
#[derive(Clone, Copy, Debug, PartialEq, Eq, Structural)]
pub enum ImportKind {
    Static,
    Dynamic,
    ReExport,
    ActionBinding,
    Asset,
}

/// One reference found in a module. A specifier that is computed at run time
/// cannot be read from the source: it is `None`. `group` and `priority` are
/// the hints that a deferred load gives for its split point.
pub struct Import {
    pub kind: ImportKind,
    pub specifier: Option<Vec<u8>>,
    pub name: Vec<u8>,
    pub group: u32,
    pub priority: u32,
}

/// One export of a module; `action` is set where the export carries the
/// marker of a remotely invocable function.
pub struct Export {
    pub name: Vec<u8>,
    pub action: bool,
    pub closure_args: u32,
}

/// One source file. `condition` is the resolution condition under which the
/// file may be picked: `Shared` under any, `Server` or `Client` only for an
/// importer of that environment. `content` refers to the bytes of the file:
/// it changes when they do.
pub struct SourceModule {
    pub location: Vec<u8>,
    pub condition: Environment,
    pub content: u64,
    pub directives: Vec<Environment>,
    pub imports: Vec<Import>,
    pub exports: Vec<Export>,
}

/// The modules of a project, addressed by their position, and the extensions
/// that resolution probes, in order.
pub struct Project {
    pub modules: Vec<SourceModule>,
    pub extensions: Vec<Vec<u8>>,
}

impl Import {
    /// Whether this is a deferred load whose target can be read from the source.
    pub open spec fn is_split(&self) -> bool {
        self.kind == ImportKind::Dynamic && self.specifier.is_some()
    }

    /// Whether the target of this reference is only known at run time.
    pub open spec fn is_unanalyzable(&self) -> bool {
        self.specifier.is_none()
    }
}

} // verus!
