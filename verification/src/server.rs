//! The server state the language features read.
use vstd::prelude::*;
use crate::ast::CheckedModule;

verus! {

/// The compiled project: its modules, the module names that can be imported, and
/// the package the project itself is.
pub struct LspProject {
    pub modules: Vec<CheckedModule>,
    pub importable_modules: Vec<String>,
    pub own_package: String,
}

/// The modules of a project are keyed by name: no two share one.
pub open spec fn module_names_unique(ms: Seq<CheckedModule>) -> bool {
    forall|i: int, j: int| 0 <= i < j < ms.len() ==> (#[trigger] ms[i]).name@ != (#[trigger] ms[j]).name@
}

impl LspProject {
    /// A compiled project holds each module once under its name.
    pub open spec fn wf(&self) -> bool {
        module_names_unique(self.modules@)
    }
}

/// The language server, as far as the features read it: the last successful
/// compilation, if there is one.
pub struct Server {
    pub compiler: Option<LspProject>,
}

} // verus!
