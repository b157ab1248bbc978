use vstd::prelude::*;

verus! {

/// Options controlling a single compile run.
pub struct CompileOptions {
    /// When set, the emitter indents nested elements and inserts line breaks.
    /// It has no effect on tag, attribute or content semantics.
    pub pretty: bool,
}

} // verus!
