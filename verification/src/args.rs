//! Command-line options of the compiler front end. The surrounding
//! program parses its arguments into this shape and acts on them; the
//! library only defines the data.

use vstd::prelude::*;

verus! {

/// The options the compiler accepts.
#[derive(Debug, Clone, Copy, PartialEq, Eq)]
pub struct Args {
    /// Bundle the VM executable with compiled bytecode.
    pub bundle: bool,
    /// Number of optimization steps.
    pub optimizations: Option<u8>,
    /// Show the compiler version.
    pub version: bool,
    /// Show newer versions if detected.
    pub check_updates: bool,
}

impl Default for Args {
    /// Every option off, no optimization level chosen.
    fn default() -> (r: Args)
        ensures
            !r.bundle,
            r.optimizations is None,
            !r.version,
            !r.check_updates,
    {
        Args { bundle: false, optimizations: None, version: false, check_updates: false }
    }
}

} // verus!
