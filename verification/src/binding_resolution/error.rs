//! Name-resolution failures, reported as a batch.

use vstd::prelude::*;

use crate::span::SourceSpan;

verus! {

#[derive(Debug)]
pub enum BindingResolutionError {
    UnboundName { name: String, span: SourceSpan },
    DuplicateBinding { name: String, span: SourceSpan, original_span: SourceSpan },
    UnboundTypeName { name: String, span: SourceSpan },
}

} // verus!
