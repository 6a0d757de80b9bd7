//! What the playground shows of a checked program: the bindings the user declared, each
//! with the type inference settled on and where it is defined, and the type of the
//! program's value.

use vstd::prelude::*;

use crate::diagnostics::{LineIndex, spec_position};
use crate::dto::Binding;
use crate::prelude::prelude_span;
use crate::render::{format_type, type_text};
use crate::span::SourceSpan;
use crate::type_check::typed_ast::{TypeCheckedProgram, TypedBinding};

verus! {

/// The bindings the source declares, in order: builtins carry the empty span at offset 0
/// and are left out.
pub open spec fn user_bindings(bindings: Seq<TypedBinding>) -> Seq<TypedBinding>
    decreases bindings.len(),
{
    if bindings.len() == 0 {
        Seq::empty()
    } else {
        let rest = user_bindings(bindings.drop_last());
        if bindings.last().span == (SourceSpan { offset: 0, len: 0 }) {
            rest
        } else {
            rest.push(bindings.last())
        }
    }
}

/// Only the builtins are left out: every binding whose span is not the empty span at offset 0
/// is listed (a `let` at offset 0 among them), everything listed is such a binding of the
/// input, and the listed bindings keep their order.
pub proof fn lemma_user_bindings_are_the_declared_ones(bindings: Seq<TypedBinding>)
    ensures
        forall|i: int|
            0 <= i < bindings.len() && !(#[trigger] bindings[i].span.offset == 0
                && bindings[i].span.len == 0) ==> user_bindings(bindings).contains(bindings[i]),
        forall|k: int|
            0 <= k < user_bindings(bindings).len() ==> bindings.contains(
                #[trigger] user_bindings(bindings)[k],
            ) && !(user_bindings(bindings)[k].span.offset == 0 && user_bindings(
                bindings,
            )[k].span.len == 0),
        user_bindings(bindings).len() == bindings.filter(
            |b: TypedBinding| !(b.span.offset == 0 && b.span.len == 0),
        ).len(),
    decreases bindings.len(),
{
    if bindings.len() > 0 {
        let before = bindings.drop_last();
        lemma_user_bindings_are_the_declared_ones(before);
        let last = bindings.last();
        let rest = user_bindings(before);
        assert(bindings =~= before.push(last));
        let keep = |b: TypedBinding| !(b.span.offset == 0 && b.span.len == 0);
        before.lemma_filter_push(last, keep);
        assert(bindings.filter(keep) == bindings.filter(
            |b: TypedBinding| !(b.span.offset == 0 && b.span.len == 0),
        ));
        assert(user_bindings(bindings) == if keep(last) {
            rest.push(last)
        } else {
            rest
        });
        assert forall|i: int|
            0 <= i < bindings.len() && !(#[trigger] bindings[i].span.offset == 0
                && bindings[i].span.len == 0) implies user_bindings(bindings).contains(
            bindings[i],
        ) by {
            if i < before.len() {
                assert(before[i] == bindings[i]);
                assert(rest.contains(before[i]));
                let k = choose|k: int| 0 <= k < rest.len() && rest[k] == before[i];
                assert(user_bindings(bindings)[k] == rest[k]);
            } else {
                assert(user_bindings(bindings)[rest.len() as int] == last);
            }
        }
        assert forall|k: int| 0 <= k < user_bindings(bindings).len() implies bindings.contains(
            #[trigger] user_bindings(bindings)[k],
        ) && !(user_bindings(bindings)[k].span.offset == 0 && user_bindings(bindings)[k].span.len
            == 0) by {
            if k < rest.len() {
                assert(user_bindings(bindings)[k] == rest[k]);
                let i = choose|i: int| 0 <= i < before.len() && before[i] == rest[k];
                assert(bindings[i] == before[i]);
            } else {
                assert(bindings[bindings.len() - 1] == last);
            }
        }
    } else {
        assert(bindings.filter(|b: TypedBinding| !(b.span.offset == 0 && b.span.len == 0))
            =~= Seq::<TypedBinding>::empty());
    }
}

/// The width a binding's marker covers: its span, but at least one character.
pub open spec fn marker_len(span: SourceSpan) -> int {
    if span.len == 0 {
        1
    } else {
        span.len as int
    }
}

/// `shown` describes `binding` over the source `text`: its name, its type as it reads, and
/// where its marker starts and ends.
pub open spec fn describes(shown: Binding, binding: TypedBinding, text: Seq<char>) -> bool {
    &&& shown.name == binding.name
    &&& shown.ty@ == type_text(binding.ty@, false)
    &&& shown.start_line == spec_position(text, binding.span.offset as int).0
    &&& shown.start_column == spec_position(text, binding.span.offset as int).1
    &&& shown.end_line == spec_position(text, binding.span.offset + marker_len(binding.span)).0
    &&& shown.end_column == spec_position(text, binding.span.offset + marker_len(binding.span)).1
}

/// Spans that a marker can be measured from: their end, widened to one character, fits in
/// a `usize`.
pub open spec fn spans_fit(bindings: Seq<TypedBinding>) -> bool {
    forall|i: int|
        0 <= i < bindings.len() ==> (#[trigger] bindings[i]).span.offset + marker_len(
            bindings[i].span,
        ) <= usize::MAX
}

/// One binding as the playground shows it.
pub fn binding_of(binding: &TypedBinding, index: &LineIndex<'_>) -> (shown: Binding)
    requires
        index.byte_len() < u32::MAX,
        binding.span.offset + marker_len(binding.span) <= usize::MAX,
    ensures
        describes(shown, *binding, index.text()),
{
    let length = if binding.span.len == 0 {
        1
    } else {
        binding.span.len
    };
    let label = index.label(None, binding.span.offset, length);
    Binding {
        name: binding.name.clone(),
        ty: format_type(&binding.ty),
        start_line: label.start_line,
        start_column: label.start_column,
        end_line: label.end_line,
        end_column: label.end_column,
    }
}

/// The bindings the source declares, each as the playground shows it.
pub fn bindings_of(program: &TypeCheckedProgram, index: &LineIndex<'_>) -> (shown: Vec<Binding>)
    requires
        index.byte_len() < u32::MAX,
        spans_fit(program.bindings@),
    ensures
        shown@.len() == user_bindings(program.bindings@).len(),
        forall|k: int|
            0 <= k < shown@.len() ==> describes(
                #[trigger] shown@[k],
                user_bindings(program.bindings@)[k],
                index.text(),
            ),
{
    let bindings = &program.bindings;
    let builtin = prelude_span();
    let mut shown: Vec<Binding> = Vec::new();
    let mut i: usize = 0;
    while i < bindings.len()
        invariant
            i <= bindings.len(),
            index.byte_len() < u32::MAX,
            spans_fit(bindings@),
            builtin == (SourceSpan { offset: 0, len: 0 }),
            shown@.len() == user_bindings(bindings@.take(i as int)).len(),
            forall|k: int|
                0 <= k < shown@.len() ==> describes(
                    #[trigger] shown@[k],
                    user_bindings(bindings@.take(i as int))[k],
                    index.text(),
                ),
        decreases bindings.len() - i,
    {
        let ghost before = bindings@.take(i as int);
        let ghost after = bindings@.take(i + 1);
        assert(after.drop_last() =~= before);
        assert(after.last() == bindings@[i as int]);
        let span = bindings[i].span;
        if !(span.offset == builtin.offset && span.len == builtin.len) {
            let b = binding_of(&bindings[i], index);
            shown.push(b);
        }
        i = i + 1;
    }
    assert(bindings@.take(bindings.len() as int) =~= bindings@);
    shown
}

/// The type of a program's value, which is its last expression's: `Unit` for an empty
/// program.
pub fn program_value_type(program: &TypeCheckedProgram) -> (text: String)
    ensures
        text@ == if program.expressions@.len() == 0 {
            "Unit"@
        } else {
            type_text(program.expressions@.last().ty@, false)
        },
{
    let n = program.expressions.len();
    if n == 0 {
        String::from_str("Unit")
    } else {
        format_type(&program.expressions[n - 1].ty)
    }
}

} // verus!
