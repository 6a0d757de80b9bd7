//! Types written the way a reader expects: `Int -> Int`, `(Int -> Int) -> Int`, `() -> Int`,
//! `{ x: Int, y: Int }`, and `_3` for a type variable nothing settled.

use vstd::prelude::*;

use crate::text::{chars_of, decimal, decimal_string, string_from_chars};
use crate::type_check::typed_ast::{Literal, Type, TypeView};

verus! {

pub open spec fn literal_name(literal: Literal) -> Seq<char> {
    match literal {
        Literal::Int => "Int"@,
        Literal::Bool => "Bool"@,
        Literal::Float => "Float"@,
        Literal::String => "String"@,
        Literal::Unit => "Unit"@,
    }
}

/// How a type reads. `parenthesise_function` is set where a bare arrow would regroup: to the
/// left of another arrow, since `->` groups to the right.
pub open spec fn type_text(t: TypeView, parenthesise_function: bool) -> Seq<char>
    decreases t, record_len(t) + 1,
{
    match t {
        TypeView::Unit => "Unit"@,
        TypeView::Literal(literal) => literal_name(literal),
        TypeView::Var(n) => seq!['_'] + decimal(n),
        TypeView::Fn(parameter, result) => {
            let arrow = (match parameter {
                None => "()"@,
                Some(p) => type_text(*p, true),
            }) + " -> "@ + type_text(*result, false);
            if parenthesise_function {
                seq!['('] + arrow + seq![')']
            } else {
                arrow
            }
        },
        TypeView::Record(fields) => "{ "@ + fields_text(t, fields.len()) + " }"@,
    }
}

pub open spec fn record_len(t: TypeView) -> nat {
    match t {
        TypeView::Record(fields) => fields.len(),
        _ => 0,
    }
}

/// The first `n` fields of the record type `t`, each as `name: Type`, joined by `, `.
pub open spec fn fields_text(t: TypeView, n: nat) -> Seq<char>
    decreases t, n,
{
    match t {
        TypeView::Record(fields) => if n == 0 || n > fields.len() {
            Seq::empty()
        } else if n == 1 {
            fields[0].0 + ": "@ + type_text(fields[0].1, false)
        } else {
            fields_text(t, (n - 1) as nat) + ", "@ + fields[n - 1].0 + ": "@ + type_text(
                fields[n - 1].1,
                false,
            )
        },
        _ => Seq::empty(),
    }
}

/// The texts `items` in order, with `, ` between each two neighbours.
pub open spec fn comma_separated(items: Seq<Seq<char>>) -> Seq<char>
    decreases items.len(),
{
    if items.len() == 0 {
        Seq::empty()
    } else if items.len() == 1 {
        items[0]
    } else {
        items[0] + ", "@ + comma_separated(items.drop_first())
    }
}

/// Each field of a record as it reads on its own: `name: Type`.
pub open spec fn field_items(fields: Seq<(Seq<char>, TypeView)>) -> Seq<Seq<char>> {
    Seq::new(fields.len(), |i: int| fields[i].0 + ": "@ + type_text(fields[i].1, false))
}

proof fn lemma_comma_separated_push(items: Seq<Seq<char>>, item: Seq<char>)
    requires
        items.len() >= 1,
    ensures
        comma_separated(items.push(item)) == comma_separated(items) + ", "@ + item,
    decreases items.len(),
{
    let longer = items.push(item);
    if items.len() == 1 {
        assert(longer.drop_first() =~= seq![item]);
        assert(comma_separated(seq![item]) == item);
    } else {
        assert(longer.drop_first() =~= items.drop_first().push(item));
        lemma_comma_separated_push(items.drop_first(), item);
        assert(comma_separated(longer) =~= comma_separated(items) + ", "@ + item);
    }
}

proof fn lemma_fields_text_separated(fields: Seq<(Seq<char>, TypeView)>, n: nat)
    requires
        n <= fields.len(),
    ensures
        fields_text(TypeView::Record(fields), n) == comma_separated(field_items(fields).take(n as int)),
    decreases n,
{
    let items = field_items(fields);
    if n == 0 {
        assert(items.take(0) =~= Seq::<Seq<char>>::empty());
    } else if n == 1 {
        assert(items.take(1) =~= seq![items[0]]);
    } else {
        lemma_fields_text_separated(fields, (n - 1) as nat);
        assert(items.take(n as int) =~= items.take(n - 1).push(items[n - 1]));
        lemma_comma_separated_push(items.take(n - 1), items[n - 1]);
        assert(fields_text(TypeView::Record(fields), n) =~= comma_separated(items.take(n as int)));
    }
}

/// A record reads as `{ `, then each field as `name: Type`, each two neighbours separated by
/// exactly `, `, then ` }`, whatever the number of fields.
pub proof fn lemma_record_text(fields: Seq<(Seq<char>, TypeView)>, parenthesise_function: bool)
    ensures
        type_text(TypeView::Record(fields), parenthesise_function) == "{ "@ + comma_separated(
            field_items(fields),
        ) + " }"@,
{
    lemma_fields_text_separated(fields, fields.len());
    assert(field_items(fields).take(fields.len() as int) =~= field_items(fields));
}

/// A record with one more field reads as the shorter one, its closing ` }` replaced by `, `,
/// the new field as `name: Type`, and ` }`.
pub proof fn lemma_record_text_one_more_field(
    fields: Seq<(Seq<char>, TypeView)>,
    name: Seq<char>,
    ty: TypeView,
)
    requires
        fields.len() >= 1,
    ensures
        type_text(TypeView::Record(fields.push((name, ty))), false) == type_text(
            TypeView::Record(fields),
            false,
        ).drop_last().drop_last() + ", "@ + name + ": "@ + type_text(ty, false) + " }"@,
{
    let longer = fields.push((name, ty));
    lemma_record_text(fields, false);
    lemma_record_text(longer, false);
    let item = name + ": "@ + type_text(ty, false);
    assert(field_items(longer) =~= field_items(fields).push(item));
    lemma_comma_separated_push(field_items(fields), item);
    let shorter = type_text(TypeView::Record(fields), false);
    reveal_strlit(" }");
    assert(" }"@.len() == 2);
    assert(shorter.drop_last().drop_last() =~= "{ "@ + comma_separated(field_items(fields)));
    assert(type_text(TypeView::Record(longer), false) =~= shorter.drop_last().drop_last() + ", "@
        + name + ": "@ + type_text(ty, false) + " }"@);
}

/// An arrow without the parentheses its position may call for: `()` for no parameter.
pub open spec fn function_text(parameter: Option<Box<TypeView>>, result: Box<TypeView>) -> Seq<
    char,
> {
    type_text(TypeView::Fn(parameter, result), false)
}

fn push_str(out: &mut Vec<char>, s: &str)
    ensures
        final(out)@ == old(out)@ + s@,
{
    let chars = chars_of(s);
    let mut i: usize = 0;
    while i < chars.len()
        invariant
            i <= chars.len(),
            chars@ == s@,
            out@ == old(out)@ + chars@.take(i as int),
        decreases chars.len() - i,
    {
        out.push(chars[i]);
        i = i + 1;
        assert(out@ =~= old(out)@ + chars@.take(i as int));
    }
    assert(chars@.take(chars.len() as int) =~= chars@);
}

fn push_chars(out: &mut Vec<char>, s: &String)
    ensures
        final(out)@ == old(out)@ + s@,
{
    push_str(out, s.as_str());
}

fn literal_str(literal: Literal) -> (s: &'static str)
    ensures
        s@ == literal_name(literal),
{
    match literal {
        Literal::Int => "Int",
        Literal::Bool => "Bool",
        Literal::Float => "Float",
        Literal::String => "String",
        Literal::Unit => "Unit",
    }
}

fn write_type(out: &mut Vec<char>, ty: &Type, parenthesise_function: bool)
    ensures
        final(out)@ == old(out)@ + type_text(ty@, parenthesise_function),
    decreases ty, 1nat,
{
    match ty {
        Type::Unit => push_str(out, "Unit"),
        Type::Literal(literal) => push_str(out, literal_str(*literal)),
        Type::Var(var) => {
            out.push('_');
            let digits = decimal_string(var.0);
            push_chars(out, &digits);
            assert(out@ =~= old(out)@ + type_text(ty@, parenthesise_function));
        },
        Type::Fn(parameter, result) => {
            let ghost start = out@;
            if parenthesise_function {
                out.push('(');
            }
            let ghost mid = out@;
            match parameter {
                None => push_str(out, "()"),
                Some(p) => write_type(out, p, true),
            }
            push_str(out, " -> ");
            write_type(out, result, false);
            let ghost arrow = out@.skip(mid.len() as int);
            assert(out@ =~= mid + arrow);
            if parenthesise_function {
                out.push(')');
            }
            proof {
                let expected = (match parameter {
                    None => "()"@,
                    Some(p) => type_text((**p)@, true),
                }) + " -> "@ + type_text((**result)@, false);
                assert(arrow =~= expected);
                if parenthesise_function {
                    assert(out@ =~= start + (seq!['('] + expected + seq![')']));
                } else {
                    assert(out@ =~= start + expected);
                }
            }
        },
        Type::Record(_) => write_record(out, ty),
    }
}

#[verifier::loop_isolation(false)]
fn write_record(out: &mut Vec<char>, ty: &Type)
    requires
        ty is Record,
    ensures
        final(out)@ == old(out)@ + type_text(ty@, false),
    decreases ty, 0nat,
{
    let fields = match ty {
        Type::Record(fields) => fields,
        _ => {
            return;
        },
    };
    let ghost start = out@;
    let ghost view = crate::type_check::typed_ast::record_view(ty@);
    assert(ty@ == TypeView::Record(view));
    push_str(out, "{ ");
    let mut i: usize = 0;
    while i < fields.len()
        invariant
            i <= fields.len(),
            view.len() == fields@.len(),
            ty@ == TypeView::Record(view),
            forall|j: int|
                0 <= j < fields@.len() ==> #[trigger] view[j] == (fields@[j].0@, fields@[j].1@),
            out@ == start + "{ "@ + fields_text(ty@, i as nat),
        decreases fields.len() - i,
    {
        proof {
            assert(decreases_to!(*ty => fields@[i as int].1));
        }
        if i > 0 {
            push_str(out, ", ");
        }
        push_chars(out, &fields[i].0);
        push_str(out, ": ");
        write_type(out, &fields[i].1, false);
        assert(out@ =~= start + "{ "@ + fields_text(ty@, (i + 1) as nat));
        i = i + 1;
    }
    push_str(out, " }");
    assert(out@ =~= start + ("{ "@ + fields_text(ty@, fields.len() as nat) + " }"@));
}

fn write_function(out: &mut Vec<char>, parameter: &Option<Box<Type>>, result: &Box<Type>)
    ensures
        final(out)@ == old(out)@ + function_text(
            match *parameter {
                Some(p) => Some(Box::new((*p)@)),
                None => None,
            },
            Box::new((**result)@),
        ),
{
    let ghost start = out@;
    match parameter {
        None => push_str(out, "()"),
        Some(p) => write_type(out, p, true),
    }
    push_str(out, " -> ");
    write_type(out, result, false);
    assert(out@ =~= start + function_text(
        match *parameter {
            Some(p) => Some(Box::new((*p)@)),
            None => None,
        },
        Box::new((**result)@),
    ));
}

/// How `ty` reads.
pub fn format_type(ty: &Type) -> (text: String)
    ensures
        text@ == type_text(ty@, false),
{
    let mut out: Vec<char> = Vec::new();
    write_type(&mut out, ty, false);
    assert(out@ =~= type_text(ty@, false));
    string_from_chars(&out)
}

/// How a function from `parameter` (none for a function of no arguments) to `result` reads,
/// without enclosing parentheses.
pub fn format_function_type(parameter: &Option<Box<Type>>, result: &Box<Type>) -> (text: String)
    ensures
        text@ == function_text(
            match *parameter {
                Some(p) => Some(Box::new((*p)@)),
                None => None,
            },
            Box::new((**result)@),
        ),
{
    let mut out: Vec<char> = Vec::new();
    write_function(&mut out, parameter, result);
    string_from_chars(&out)
}

} // verus!
