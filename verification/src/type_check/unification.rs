//! Union–find over type variables with an occurs check.
//!
//! Every recursion over types here carries a step budget. The budget handed in from
//! outside is `u64::MAX`, which no execution can use up (each step is a nested call), so
//! the budget never changes an outcome; it is what lets every walk be shown to terminate.

use vstd::prelude::*;

use super::error::TypeCheckError;
use super::typed_ast::{
    Type, TypeVarId, TypeView, clone_type, record_view, type_view, types_equal,
};
use crate::span::SourceSpan;
use crate::text::{decimal, decimal_string};

verus! {

/// The budget handed to every walk over types.
pub const UNIFY_FUEL: u64 = 0xffff_ffff_ffff_ffff;

pub enum RootUnionNode {
    FreeTypeVariable,
    Concrete(Type),
}

pub enum UnionNode {
    Reference(TypeVarId),
    RootUnionNode(RootUnionNode),
}

/// The mathematical form of one slot of the map.
pub enum NodeView {
    Reference(nat),
    Free,
    Concrete(TypeView),
}

pub open spec fn node_view(n: UnionNode) -> NodeView {
    match n {
        UnionNode::Reference(id) => NodeView::Reference(id.0 as nat),
        UnionNode::RootUnionNode(RootUnionNode::FreeTypeVariable) => NodeView::Free,
        UnionNode::RootUnionNode(RootUnionNode::Concrete(t)) => NodeView::Concrete(type_view(t)),
    }
}

/// The root reached from `v` by following at most `fuel` references.
pub open spec fn root_within(nodes: Seq<NodeView>, v: int, fuel: nat) -> Option<int>
    decreases fuel,
{
    if v < 0 || v >= nodes.len() {
        None
    } else {
        match nodes[v] {
            NodeView::Reference(next) => if fuel == 0 {
                None
            } else {
                root_within(nodes, next as int, (fuel - 1) as nat)
            },
            _ => Some(v),
        }
    }
}

/// The root of `v`'s class: a chain of references never needs more steps than there are slots.
pub open spec fn spec_root(nodes: Seq<NodeView>, v: int) -> Option<int> {
    root_within(nodes, v, nodes.len())
}

/// A variable stands for its root's type when that root is solved, and for its root otherwise.
pub open spec fn spec_representative(nodes: Seq<NodeView>, t: TypeView) -> TypeView {
    match t {
        TypeView::Var(v) => match spec_root(nodes, v as int) {
            Some(r) => match nodes[r] {
                NodeView::Concrete(c) => c,
                _ => TypeView::Var(r as nat),
            },
            None => t,
        },
        _ => t,
    }
}

/// `t` with every variable replaced by what the map knows of it.
pub open spec fn spec_subst(nodes: Seq<NodeView>, t: TypeView, fuel: nat) -> TypeView
    decreases fuel, t,
{
    match t {
        TypeView::Var(v) => match spec_root(nodes, v as int) {
            Some(r) => match nodes[r] {
                NodeView::Concrete(c) => if fuel == 0 {
                    t
                } else {
                    spec_subst(nodes, c, (fuel - 1) as nat)
                },
                _ => TypeView::Var(r as nat),
            },
            None => t,
        },
        TypeView::Fn(p, r) => TypeView::Fn(
            match p {
                Some(p) => Some(Box::new(spec_subst(nodes, *p, fuel))),
                None => None,
            },
            Box::new(spec_subst(nodes, *r, fuel)),
        ),
        TypeView::Record(fields) => TypeView::Record(
            Seq::new(
                fields.len(),
                |i: int|
                    (
                        fields[i].0,
                        if 0 <= i < fields.len() {
                            spec_subst(nodes, fields[i].1, fuel)
                        } else {
                            TypeView::Unit
                        },
                    ),
            ),
        ),
        _ => t,
    }
}

/// Whether the class rooted at `root` occurs in `t`, looking through solved variables.
pub open spec fn spec_occurs(nodes: Seq<NodeView>, root: int, t: TypeView, fuel: nat) -> bool
    decreases fuel, t, 0nat,
{
    match t {
        TypeView::Var(v) => match spec_root(nodes, v as int) {
            Some(r) => match nodes[r] {
                NodeView::Concrete(c) => root == r || (fuel > 0 && spec_occurs(
                    nodes,
                    root,
                    c,
                    (fuel - 1) as nat,
                )),
                _ => root == r,
            },
            None => false,
        },
        TypeView::Fn(p, r) => (match p {
            Some(p) => spec_occurs(nodes, root, *p, fuel),
            None => false,
        }) || spec_occurs(nodes, root, *r, fuel),
        TypeView::Record(fields) => occurs_in_fields(nodes, root, fields, fields.len(), fuel),
        TypeView::Unit => false,
        TypeView::Literal(_) => false,
    }
}

/// Whether the class rooted at `root` occurs in one of the first `n` fields.
pub open spec fn occurs_in_fields(
    nodes: Seq<NodeView>,
    root: int,
    fields: Seq<(Seq<char>, TypeView)>,
    n: nat,
    fuel: nat,
) -> bool
    decreases fuel, fields, n,
{
    if n == 0 {
        false
    } else {
        occurs_in_fields(nodes, root, fields, (n - 1) as nat, fuel) || (n - 1 < fields.len()
            && spec_occurs(nodes, root, fields[n - 1].1, fuel))
    }
}

/// The mathematical form of a unification failure.
pub enum UnifyErrorView {
    ParameterNotProvided(TypeView, TypeView),
    ParameterNotNeeded(TypeView, TypeView),
    Mismatch(TypeView, TypeView),
    FieldMismatch(Seq<Seq<char>>, Seq<Seq<char>>),
    NotMinted(nat),
    Infinite(nat, TypeView),
}

pub open spec fn names_view(names: Seq<String>) -> Seq<Seq<char>> {
    Seq::new(names.len(), |i: int| names[i]@)
}

pub open spec fn unify_error_view(e: UnifyError) -> UnifyErrorView {
    match e {
        UnifyError::FunctionParameterNotProvided(m) => UnifyErrorView::ParameterNotProvided(
            type_view(m.expected),
            type_view(m.found),
        ),
        UnifyError::FunctionParameterNotNeeded(m) => UnifyErrorView::ParameterNotNeeded(
            type_view(m.expected),
            type_view(m.found),
        ),
        UnifyError::TypeMismatch(m) => UnifyErrorView::Mismatch(
            type_view(m.expected),
            type_view(m.found),
        ),
        UnifyError::RecordFieldMismatch(m) => UnifyErrorView::FieldMismatch(
            names_view(m.missing@),
            names_view(m.additional@),
        ),
        UnifyError::FreeTypeVariableNotFoundError(e) => UnifyErrorView::NotMinted(
            e.type_variable_id.0 as nat,
        ),
        UnifyError::InfiniteType(i) => UnifyErrorView::Infinite(i.var.0 as nat, type_view(i.ty)),
    }
}

/// `e` is how a failure `u` of unification is reported at `span`.
pub open spec fn reported(e: TypeCheckError, u: UnifyErrorView, span: SourceSpan) -> bool {
    match u {
        UnifyErrorView::ParameterNotProvided(exp, f) => e matches TypeCheckError::FunctionParameterMismatch {
            expected,
            found,
            span: s,
        } && expected@ == exp && found@ == f && s == span,
        UnifyErrorView::ParameterNotNeeded(exp, f) => e matches TypeCheckError::FunctionParameterMismatch {
            expected,
            found,
            span: s,
        } && expected@ == exp && found@ == f && s == span,
        UnifyErrorView::Mismatch(exp, f) => e matches TypeCheckError::TypeMismatch {
            expected,
            found,
            span: s,
        } && expected@ == exp && found@ == f && s == span,
        UnifyErrorView::FieldMismatch(missing, additional) => e matches TypeCheckError::RecordFieldMismatch {
            missing: m,
            additional: a,
            span: s,
        } && names_view(m@) == missing && names_view(a@) == additional && s == span,
        UnifyErrorView::NotMinted(v) => e matches TypeCheckError::InternalError { message, span: s }
            && s == span && message@ == "type variable "@ + decimal(v)
            + " was referenced during unification but never minted"@,
        UnifyErrorView::Infinite(v, t) => e matches TypeCheckError::InfiniteType { var, ty, span: s }
            && var.0 == v && ty@ == t && s == span,
    }
}

/// Whether a field named `name` is among the first `n` fields.
pub open spec fn has_field(fields: Seq<(Seq<char>, TypeView)>, name: Seq<char>) -> bool {
    exists|i: int| 0 <= i < fields.len() && #[trigger] fields[i].0 == name
}

/// The type of the first field named `name`.
pub open spec fn field_type_from(fields: Seq<(Seq<char>, TypeView)>, name: Seq<char>, k: nat) -> TypeView
    decreases fields.len() - k,
{
    if k >= fields.len() {
        TypeView::Unit
    } else if fields[k as int].0 == name {
        fields[k as int].1
    } else {
        field_type_from(fields, name, k + 1)
    }
}

/// Names of the first `n` fields of `these` that `those` lacks, in order.
pub open spec fn names_missing(
    these: Seq<(Seq<char>, TypeView)>,
    those: Seq<(Seq<char>, TypeView)>,
    n: nat,
) -> Seq<Seq<char>>
    decreases n,
{
    if n == 0 {
        Seq::empty()
    } else {
        let before = names_missing(these, those, (n - 1) as nat);
        if has_field(those, these[n - 1].0) {
            before
        } else {
            before.push(these[n - 1].0)
        }
    }
}

/// Linking the roots of two variables: the second root comes to refer to the first, unless
/// the first is free and the second solved.
pub open spec fn spec_union_vars(nodes: Seq<NodeView>, first: nat, second: nat) -> (
    Seq<NodeView>,
    Result<(), UnifyErrorView>,
) {
    if first == second {
        (nodes, Ok(()))
    } else {
        match (spec_root(nodes, first as int), spec_root(nodes, second as int)) {
            (None, _) => (nodes, Err(UnifyErrorView::NotMinted(first))),
            (_, None) => (nodes, Err(UnifyErrorView::NotMinted(second))),
            (Some(r1), Some(r2)) => match (nodes[r1], nodes[r2]) {
                (NodeView::Concrete(t1), NodeView::Concrete(t2)) => if t1 == t2 {
                    (nodes, Ok(()))
                } else {
                    (nodes, Err(UnifyErrorView::Mismatch(t1, t2)))
                },
                (NodeView::Concrete(_), _) => (
                    nodes.update(r2, NodeView::Reference(r1 as nat)),
                    Ok(()),
                ),
                (_, NodeView::Concrete(_)) => (
                    nodes.update(r1, NodeView::Reference(r2 as nat)),
                    Ok(()),
                ),
                _ => (nodes.update(r2, NodeView::Reference(r1 as nat)), Ok(())),
            },
        }
    }
}

/// Solving the variable `variable` to `concrete`.
pub open spec fn spec_union_concrete(
    nodes: Seq<NodeView>,
    variable: nat,
    concrete: TypeView,
    fuel: nat,
) -> (Seq<NodeView>, Result<(), UnifyErrorView>)
    decreases fuel, 1nat, 0nat,
{
    match spec_root(nodes, variable as int) {
        None => (nodes, Err(UnifyErrorView::NotMinted(variable))),
        Some(r) => match nodes[r] {
            NodeView::Concrete(rc) => spec_unify(nodes, concrete, rc, fuel),
            _ => if spec_occurs(nodes, r, concrete, UNIFY_FUEL as nat) {
                (
                    nodes,
                    Err(UnifyErrorView::Infinite(r as nat, spec_subst(nodes, concrete, UNIFY_FUEL as nat))),
                )
            } else {
                (nodes.update(r, NodeView::Concrete(concrete)), Ok(()))
            },
        },
    }
}

/// Unifying the first `n` fields of `expected` with the like-named fields of `found`,
/// stopping at the first failure.
pub open spec fn spec_unify_fields(
    nodes: Seq<NodeView>,
    found: Seq<(Seq<char>, TypeView)>,
    expected: Seq<(Seq<char>, TypeView)>,
    n: nat,
    fuel: nat,
) -> (Seq<NodeView>, Result<(), UnifyErrorView>)
    decreases fuel, 0nat, n,
{
    if n == 0 {
        (nodes, Ok(()))
    } else {
        let (before, result) = spec_unify_fields(nodes, found, expected, (n - 1) as nat, fuel);
        if result is Err {
            (before, result)
        } else {
            spec_unify(
                before,
                field_type_from(found, expected[n - 1].0, 0),
                expected[n - 1].1,
                fuel,
            )
        }
    }
}

/// Unifying `found` with `expected`: the map after the attempt, and whether it succeeded.
pub open spec fn spec_unify(
    nodes: Seq<NodeView>,
    found: TypeView,
    expected: TypeView,
    fuel: nat,
) -> (Seq<NodeView>, Result<(), UnifyErrorView>)
    decreases fuel, 0nat, 0nat,
{
    let e = spec_representative(nodes, expected);
    let f = spec_representative(nodes, found);
    if fuel == 0 {
        (nodes, Err(UnifyErrorView::Mismatch(e, f)))
    } else {
        match (e, f) {
            (TypeView::Var(v1), TypeView::Var(v2)) => spec_union_vars(nodes, v1, v2),
            (TypeView::Var(v), c) => spec_union_concrete(nodes, v, c, (fuel - 1) as nat),
            (c, TypeView::Var(v)) => spec_union_concrete(nodes, v, c, (fuel - 1) as nat),
            (TypeView::Unit, TypeView::Unit) => (nodes, Ok(())),
            (TypeView::Literal(a), TypeView::Literal(b)) => if a == b {
                (nodes, Ok(()))
            } else {
                (nodes, Err(UnifyErrorView::Mismatch(e, f)))
            },
            (TypeView::Fn(ep, eb), TypeView::Fn(fp, fb)) => {
                let (after_param, param_result) = match (ep, fp) {
                    (None, Some(_)) => (nodes, Err(UnifyErrorView::ParameterNotNeeded(e, f))),
                    (Some(_), None) => (nodes, Err(UnifyErrorView::ParameterNotProvided(e, f))),
                    (None, None) => (nodes, Ok(())),
                    (Some(x), Some(y)) => spec_unify(nodes, *y, *x, (fuel - 1) as nat),
                };
                if param_result is Err {
                    (after_param, param_result)
                } else {
                    spec_unify(after_param, *fb, *eb, (fuel - 1) as nat)
                }
            },
            (TypeView::Record(ef), TypeView::Record(ff)) => {
                let missing = names_missing(ef, ff, ef.len());
                let additional = names_missing(ff, ef, ff.len());
                if missing.len() > 0 || additional.len() > 0 {
                    (nodes, Err(UnifyErrorView::FieldMismatch(missing, additional)))
                } else {
                    spec_unify_fields(nodes, ff, ef, ef.len(), (fuel - 1) as nat)
                }
            },
            _ => (nodes, Err(UnifyErrorView::Mismatch(e, f))),
        }
    }
}

pub open spec fn result_view(r: Result<(), UnifyError>) -> Result<(), UnifyErrorView> {
    match r {
        Ok(()) => Ok(()),
        Err(e) => Err(unify_error_view(e)),
    }
}

/// No two fields of the record share a name.
pub open spec fn distinct_names(fields: Seq<(Seq<char>, TypeView)>) -> bool {
    forall|i: int, j: int|
        0 <= i < j < fields.len() ==> (#[trigger] fields[i]).0 != (#[trigger] fields[j]).0
}

/// Every record type inside `t` has distinct field names.
pub open spec fn records_distinct(t: TypeView) -> bool
    decreases t,
{
    match t {
        TypeView::Fn(p, r) => (match p {
            Some(p) => records_distinct(*p),
            None => true,
        }) && records_distinct(*r),
        TypeView::Record(fields) => distinct_names(fields) && forall|i: int|
            0 <= i < fields.len() ==> records_distinct(#[trigger] fields[i].1),
        _ => true,
    }
}

/// Every type the map has solved a variable to has distinct field names in its records.
pub open spec fn map_records_distinct(nodes: Seq<NodeView>) -> bool {
    forall|i: int|
        0 <= i < nodes.len() ==> (#[trigger] nodes[i] matches NodeView::Concrete(c)
            ==> records_distinct(c))
}

/// Unifying a type with itself changes nothing in the map, and, given any budget at all,
/// succeeds when the type stands for a variable, `Unit` or a literal type.
pub proof fn lemma_unify_with_itself(nodes: Seq<NodeView>, t: TypeView, fuel: nat)
    requires
        records_distinct(t),
        map_records_distinct(nodes),
    ensures
        spec_unify(nodes, t, t, fuel).0 == nodes,
        fuel > 0 && !(spec_representative(nodes, t) is Fn) && !(spec_representative(
            nodes,
            t,
        ) is Record) ==> spec_unify(nodes, t, t, fuel).1 is Ok,
    decreases fuel, 0nat, 0nat,
{
    let r = spec_representative(nodes, t);
    lemma_representative_distinct(nodes, t);
    if fuel > 0 {
        let f = (fuel - 1) as nat;
        match r {
            TypeView::Fn(p, b) => {
                match p {
                    Some(x) => {
                        lemma_unify_with_itself(nodes, *x, f);
                    },
                    None => {},
                }
                lemma_unify_with_itself(nodes, *b, f);
            },
            TypeView::Record(fields) => {
                lemma_unify_fields_with_themselves(nodes, fields, fields.len(), f);
            },
            _ => {},
        }
    }
}

pub proof fn lemma_representative_distinct(nodes: Seq<NodeView>, t: TypeView)
    requires
        records_distinct(t),
        map_records_distinct(nodes),
    ensures
        records_distinct(spec_representative(nodes, t)),
{
    if let TypeView::Var(v) = t {
        if let Some(r) = spec_root(nodes, v as int) {
            lemma_root_in_range(nodes, v as int, nodes.len());
        }
    }
}

pub proof fn lemma_root_in_range(nodes: Seq<NodeView>, v: int, fuel: nat)
    ensures
        root_within(nodes, v, fuel) matches Some(r) ==> 0 <= r < nodes.len(),
    decreases fuel,
{
    if 0 <= v < nodes.len() {
        if let NodeView::Reference(next) = nodes[v] {
            if fuel > 0 {
                lemma_root_in_range(nodes, next as int, (fuel - 1) as nat);
            }
        }
    }
}

proof fn lemma_unify_fields_with_themselves(
    nodes: Seq<NodeView>,
    fields: Seq<(Seq<char>, TypeView)>,
    n: nat,
    fuel: nat,
)
    requires
        n <= fields.len(),
        distinct_names(fields),
        forall|i: int| 0 <= i < fields.len() ==> records_distinct(#[trigger] fields[i].1),
        map_records_distinct(nodes),
    ensures
        spec_unify_fields(nodes, fields, fields, n, fuel).0 == nodes,
    decreases fuel, 1nat, n,
{
    if n > 0 {
        lemma_unify_fields_with_themselves(nodes, fields, (n - 1) as nat, fuel);
        let k = (n - 1) as nat;
        lemma_field_type_first_match(fields, fields[k as int].0, 0, k);
        lemma_unify_with_itself(nodes, fields[k as int].1, fuel);
    }
}

pub proof fn lemma_field_type_first_match(
    fields: Seq<(Seq<char>, TypeView)>,
    name: Seq<char>,
    k: nat,
    j: nat,
)
    requires
        k <= j < fields.len(),
        fields[j as int].0 == name,
        forall|m: int| k <= m < j ==> #[trigger] fields[m].0 != name,
    ensures
        field_type_from(fields, name, k) == fields[j as int].1,
    decreases j - k,
{
    if k < j {
        lemma_field_type_first_match(fields, name, k + 1, j);
    }
}

proof fn lemma_names_missing_complete(
    these: Seq<(Seq<char>, TypeView)>,
    those: Seq<(Seq<char>, TypeView)>,
    n: nat,
    k: nat,
)
    requires
        k < n <= these.len(),
        names_missing(these, those, n).len() == 0,
    ensures
        has_field(those, these[k as int].0),
    decreases n,
{
    if n - 1 > k {
        lemma_names_missing_complete(these, those, (n - 1) as nat, k);
    }
}

proof fn lemma_unify_fields_stops_at_failure(
    nodes: Seq<NodeView>,
    found: Seq<(Seq<char>, TypeView)>,
    expected: Seq<(Seq<char>, TypeView)>,
    k: nat,
    n: nat,
    fuel: nat,
)
    requires
        k <= n,
        spec_unify_fields(nodes, found, expected, k, fuel).1 is Err,
    ensures
        spec_unify_fields(nodes, found, expected, n, fuel) == spec_unify_fields(
            nodes,
            found,
            expected,
            k,
            fuel,
        ),
    decreases n,
{
    if n > k {
        lemma_unify_fields_stops_at_failure(nodes, found, expected, k, (n - 1) as nat, fuel);
    }
}

pub struct UnificationMap {
    map: Vec<UnionNode>,
}

#[derive(Debug)]
pub struct FreeTypeVariableNotFoundError {
    pub type_variable_id: TypeVarId,
}

#[derive(Debug)]
pub struct TypeMismatch {
    pub expected: Type,
    pub found: Type,
}

#[derive(Debug)]
pub struct InfiniteType {
    pub var: TypeVarId,
    pub ty: Type,
}

#[derive(Debug)]
pub struct RecordFieldMismatch {
    pub missing: Vec<String>,
    pub additional: Vec<String>,
}

#[derive(Debug)]
pub enum UnifyError {
    FunctionParameterNotProvided(TypeMismatch),
    FunctionParameterNotNeeded(TypeMismatch),
    TypeMismatch(TypeMismatch),
    RecordFieldMismatch(RecordFieldMismatch),
    FreeTypeVariableNotFoundError(FreeTypeVariableNotFoundError),
    InfiniteType(InfiniteType),
}

impl UnifyError {
    /// The user-facing error for this failure, pointing at `span`.
    pub fn into_type_check_error(self, span: SourceSpan) -> (error: TypeCheckError)
        ensures
            error.spec_span() == span,
            match self {
                UnifyError::FunctionParameterNotProvided(m) | UnifyError::FunctionParameterNotNeeded(
                    m,
                ) => error == (TypeCheckError::FunctionParameterMismatch {
                    expected: m.expected,
                    found: m.found,
                    span,
                }),
                UnifyError::TypeMismatch(m) => error == (TypeCheckError::TypeMismatch {
                    expected: m.expected,
                    found: m.found,
                    span,
                }),
                UnifyError::RecordFieldMismatch(m) => error == (TypeCheckError::RecordFieldMismatch {
                    missing: m.missing,
                    additional: m.additional,
                    span,
                }),
                UnifyError::FreeTypeVariableNotFoundError(e) => error matches TypeCheckError::InternalError {
                    message,
                    span: s,
                } && s == span && message@ == "type variable "@ + decimal(e.type_variable_id.0 as nat)
                    + " was referenced during unification but never minted"@,
                UnifyError::InfiniteType(i) => error == (TypeCheckError::InfiniteType {
                    var: i.var,
                    ty: i.ty,
                    span,
                }),
            },
    {
        match self {
            UnifyError::FunctionParameterNotProvided(mismatch) => {
                TypeCheckError::FunctionParameterMismatch {
                    expected: mismatch.expected,
                    found: mismatch.found,
                    span,
                }
            },
            UnifyError::FunctionParameterNotNeeded(mismatch) => {
                TypeCheckError::FunctionParameterMismatch {
                    expected: mismatch.expected,
                    found: mismatch.found,
                    span,
                }
            },
            UnifyError::TypeMismatch(mismatch) => TypeCheckError::TypeMismatch {
                expected: mismatch.expected,
                found: mismatch.found,
                span,
            },
            UnifyError::RecordFieldMismatch(mismatch) => TypeCheckError::RecordFieldMismatch {
                missing: mismatch.missing,
                additional: mismatch.additional,
                span,
            },
            UnifyError::FreeTypeVariableNotFoundError(err) => {
                let message = String::from_str("type variable ").concat(
                    decimal_string(err.type_variable_id.0).as_str(),
                ).concat(" was referenced during unification but never minted");
                TypeCheckError::InternalError { message, span }
            },
            UnifyError::InfiniteType(infinite_type) => TypeCheckError::InfiniteType {
                var: infinite_type.var,
                ty: infinite_type.ty,
                span,
            },
        }
    }
}

/// The position of the field named `name`, if any.
pub fn field_position<T>(fields: &Vec<(String, T)>, name: &String) -> (position: Option<usize>)
    ensures
        match position {
            Some(i) => i < fields@.len() && fields@[i as int].0@ == name@ && forall|j: int|
                0 <= j < i ==> #[trigger] fields@[j].0@ != name@,
            None => forall|j: int| 0 <= j < fields@.len() ==> #[trigger] fields@[j].0@ != name@,
        },
{
    let mut i: usize = 0;
    while i < fields.len()
        invariant
            0 <= i <= fields.len(),
            forall|j: int| 0 <= j < i ==> #[trigger] fields@[j].0@ != name@,
        decreases fields.len() - i,
    {
        if fields[i].0 == *name {
            return Some(i);
        }
        i = i + 1;
    }
    None
}

impl UnificationMap {
    pub closed spec fn nodes(&self) -> Seq<NodeView> {
        self.map@.map_values(|n: UnionNode| node_view(n))
    }

    pub fn new() -> (map: UnificationMap)
        ensures
            map.nodes() == Seq::<NodeView>::empty(),
    {
        let map = UnificationMap { map: Vec::new() };
        assert(map.nodes() =~= Seq::<NodeView>::empty());
        map
    }

    /// A fresh, unsolved variable.
    pub fn mint_new_type_var(&mut self) -> (var: TypeVarId)
        ensures
            var.0 == old(self).nodes().len(),
            final(self).nodes() == old(self).nodes().push(NodeView::Free),
    {
        let new_type_var = TypeVarId(self.map.len());
        self.map.push(UnionNode::RootUnionNode(RootUnionNode::FreeTypeVariable));
        assert(self.nodes() =~= old(self).nodes().push(NodeView::Free));
        new_type_var
    }

    /// The root of `var_id`'s class and the root's slot, or `None` for a variable never minted.
    pub fn find_root(&self, var_id: TypeVarId) -> (found: Option<(TypeVarId, &RootUnionNode)>)
        ensures
            match found {
                Some((root, node)) => spec_root(self.nodes(), var_id.0 as int) == Some(
                    root.0 as int,
                ) && root.0 < self.nodes().len() && self.nodes()[root.0 as int] == node_view(
                    UnionNode::RootUnionNode(*node),
                ),
                None => spec_root(self.nodes(), var_id.0 as int) is None,
            },
    {
        let ghost nodes = self.nodes();
        let mut current = var_id.0;
        let mut fuel = self.map.len();
        loop
            invariant
                nodes == self.nodes(),
                nodes.len() == self.map@.len(),
                fuel <= nodes.len(),
                spec_root(nodes, var_id.0 as int) == root_within(nodes, current as int, fuel as nat),
            decreases fuel,
        {
            if current >= self.map.len() {
                return None;
            }
            match &self.map[current] {
                UnionNode::Reference(next) => {
                    if fuel == 0 {
                        return None;
                    }
                    fuel = fuel - 1;
                    current = next.0;
                },
                UnionNode::RootUnionNode(root) => {
                    return Some((TypeVarId(current), root));
                },
            }
        }
    }

    /// What a type stands for at the top: a variable is replaced by its root's type or root.
    pub fn representative(&self, ty: &Type) -> (rep: Type)
        ensures
            rep@ == spec_representative(self.nodes(), ty@),
    {
        match ty {
            Type::Var(id) => match self.find_root(*id) {
                Some((_, RootUnionNode::Concrete(concrete))) => clone_type(concrete),
                Some((root_id, RootUnionNode::FreeTypeVariable)) => Type::Var(root_id),
                None => clone_type(ty),
            },
            _ => clone_type(ty),
        }
    }

    /// `ty` with every variable replaced by what the map knows of it.
    pub fn subsitute(&self, ty: &Type) -> (substituted: Type)
        ensures
            substituted@ == spec_subst(self.nodes(), ty@, UNIFY_FUEL as nat),
    {
        self.subsitute_within(ty, UNIFY_FUEL)
    }

    #[verifier::loop_isolation(false)]
    fn subsitute_within(&self, ty: &Type, fuel: u64) -> (substituted: Type)
        ensures
            substituted@ == spec_subst(self.nodes(), ty@, fuel as nat),
        decreases fuel, ty,
    {
        match ty {
            Type::Unit => Type::Unit,
            Type::Literal(l) => Type::Literal(*l),
            Type::Var(type_var_id) => match self.find_root(*type_var_id) {
                Some((_, RootUnionNode::Concrete(concrete))) => {
                    if fuel == 0 {
                        clone_type(ty)
                    } else {
                        self.subsitute_within(concrete, fuel - 1)
                    }
                },
                Some((root_id, RootUnionNode::FreeTypeVariable)) => Type::Var(root_id),
                None => clone_type(ty),
            },
            Type::Fn(param, result) => {
                let p = match param {
                    Some(param) => Some(Box::new(self.subsitute_within(param, fuel))),
                    None => None,
                };
                Type::Fn(p, Box::new(self.subsitute_within(result, fuel)))
            },
            Type::Record(fields) => {
                let ghost fv = record_view(type_view(*ty));
                let mut out: Vec<(String, Type)> = Vec::new();
                let mut i: usize = 0;
                while i < fields.len()
                    invariant
                        0 <= i <= fields.len(),
                        out@.len() == i,
                        fv.len() == fields@.len(),
                        forall|j: int|
                            0 <= j < i ==> (#[trigger] out@[j]).0@ == fv[j].0 && type_view(
                                out@[j].1,
                            ) == spec_subst(self.nodes(), fv[j].1, fuel as nat),
                    decreases fields.len() - i,
                {
                    proof {
                        assert(decreases_to!(*ty => fields@[i as int].1));
                    }
                    let t = self.subsitute_within(&fields[i].1, fuel);
                    out.push((fields[i].0.clone(), t));
                    i = i + 1;
                }
                let r = Type::Record(out);
                assert(type_view(r) =~= spec_subst(self.nodes(), type_view(*ty), fuel as nat)) by {
                    assert(record_view(type_view(r)) =~= record_view(
                        spec_subst(self.nodes(), type_view(*ty), fuel as nat),
                    ));
                }
                r
            },
        }
    }

    fn set(&mut self, type_var_id: TypeVarId, node: UnionNode) -> (result: Result<
        (),
        FreeTypeVariableNotFoundError,
    >)
        ensures
            type_var_id.0 < old(self).nodes().len() ==> result is Ok && final(self).nodes()
                == old(self).nodes().update(type_var_id.0 as int, node_view(node)),
            type_var_id.0 >= old(self).nodes().len() ==> result is Err && final(self).nodes()
                == old(self).nodes(),
    {
        if type_var_id.0 < self.map.len() {
            self.map.set(type_var_id.0, node);
            assert(self.nodes() =~= old(self).nodes().update(type_var_id.0 as int, node_view(node)));
            Ok(())
        } else {
            Err(FreeTypeVariableNotFoundError { type_variable_id: type_var_id })
        }
    }

    /// Whether the class rooted at `root` occurs in `declared_type`.
    fn root_occurs_in_type(&self, root: TypeVarId, declared_type: &Type) -> (occurs: bool)
        ensures
            occurs == spec_occurs(self.nodes(), root.0 as int, declared_type@, UNIFY_FUEL as nat),
    {
        self.root_occurs_within(root, declared_type, UNIFY_FUEL)
    }

    #[verifier::loop_isolation(false)]
    fn root_occurs_within(&self, root: TypeVarId, declared_type: &Type, fuel: u64) -> (occurs:
        bool)
        ensures
            occurs == spec_occurs(self.nodes(), root.0 as int, declared_type@, fuel as nat),
        decreases fuel, declared_type,
    {
        match declared_type {
            Type::Unit => false,
            Type::Literal(_) => false,
            Type::Var(type_var_id2) => {
                match self.find_root(*type_var_id2) {
                    None => false,
                    Some((root2, RootUnionNode::FreeTypeVariable)) => root.0 == root2.0,
                    Some((root2, RootUnionNode::Concrete(declared))) => {
                        if root.0 == root2.0 {
                            true
                        } else if fuel == 0 {
                            false
                        } else {
                            self.root_occurs_within(root, declared, fuel - 1)
                        }
                    },
                }
            },
            Type::Fn(param, body) => {
                let in_param = match param {
                    Some(p) => self.root_occurs_within(root, p, fuel),
                    None => false,
                };
                let r = in_param || self.root_occurs_within(root, body, fuel);
                assert(r == spec_occurs(self.nodes(), root.0 as int, type_view(*declared_type), fuel as nat));
                r
            },
            Type::Record(fields) => {
                let ghost fv = record_view(type_view(*declared_type));
                let mut occurs = false;
                let mut i: usize = 0;
                while i < fields.len()
                    invariant
                        0 <= i <= fields.len(),
                        fv.len() == fields@.len(),
                        forall|j: int|
                            0 <= j < fields@.len() ==> #[trigger] fv[j].1 == type_view(
                                fields@[j].1,
                            ),
                        occurs == occurs_in_fields(
                            self.nodes(),
                            root.0 as int,
                            fv,
                            i as nat,
                            fuel as nat,
                        ),
                    decreases fields.len() - i,
                {
                    proof {
                        assert(decreases_to!(*declared_type => fields@[i as int].1));
                    }
                    let here = self.root_occurs_within(root, &fields[i].1, fuel);
                    occurs = occurs || here;
                    i = i + 1;
                }
                assert(type_view(*declared_type) == TypeView::Record(fv));
                occurs
            },
        }
    }

    /// Links the classes of two variables.
    fn union_vars(&mut self, first_var_id: TypeVarId, second_var_id: TypeVarId) -> (result: Result<
        (),
        UnifyError,
    >)
        ensures
            final(self).nodes().len() == old(self).nodes().len(),
            (final(self).nodes(), result_view(result)) == spec_union_vars(
                old(self).nodes(),
                first_var_id.0 as nat,
                second_var_id.0 as nat,
            ),
    {
        if first_var_id.0 == second_var_id.0 {
            return Ok(());
        }
        let (first_root, first_concrete) = match self.find_root(first_var_id) {
            None => {
                return Err(
                    UnifyError::FreeTypeVariableNotFoundError(
                        FreeTypeVariableNotFoundError { type_variable_id: first_var_id },
                    ),
                );
            },
            Some((id, RootUnionNode::FreeTypeVariable)) => (id, None),
            Some((id, RootUnionNode::Concrete(t))) => (id, Some(clone_type(t))),
        };
        let (second_root, second_concrete) = match self.find_root(second_var_id) {
            None => {
                return Err(
                    UnifyError::FreeTypeVariableNotFoundError(
                        FreeTypeVariableNotFoundError { type_variable_id: second_var_id },
                    ),
                );
            },
            Some((id, RootUnionNode::FreeTypeVariable)) => (id, None),
            Some((id, RootUnionNode::Concrete(t))) => (id, Some(clone_type(t))),
        };
        match (first_concrete, second_concrete) {
            (Some(first_type), Some(second_type)) => {
                if types_equal(&first_type, &second_type) {
                    Ok(())
                } else {
                    Err(
                        UnifyError::TypeMismatch(
                            TypeMismatch { expected: first_type, found: second_type },
                        ),
                    )
                }
            },
            (None, Some(_)) => {
                match self.set(first_root, UnionNode::Reference(second_root)) {
                    Ok(()) => Ok(()),
                    Err(e) => Err(UnifyError::FreeTypeVariableNotFoundError(e)),
                }
            },
            _ => {
                match self.set(second_root, UnionNode::Reference(first_root)) {
                    Ok(()) => Ok(()),
                    Err(e) => Err(UnifyError::FreeTypeVariableNotFoundError(e)),
                }
            },
        }
    }

    /// Solves `variable` to `concrete_type`, after the occurs check.
    fn union_with_concrete_type(&mut self, variable: TypeVarId, concrete_type: &Type, fuel: u64) -> (result: Result<
        (),
        UnifyError,
    >)
        ensures
            final(self).nodes().len() == old(self).nodes().len(),
            (final(self).nodes(), result_view(result)) == spec_union_concrete(
                old(self).nodes(),
                variable.0 as nat,
                concrete_type@,
                fuel as nat,
            ),
        decreases fuel, 1nat, 0nat,
    {
        let (root_id, root_concrete_type) = match self.find_root(variable) {
            None => {
                return Err(
                    UnifyError::FreeTypeVariableNotFoundError(
                        FreeTypeVariableNotFoundError { type_variable_id: variable },
                    ),
                );
            },
            Some((id, RootUnionNode::FreeTypeVariable)) => (id, None),
            Some((id, RootUnionNode::Concrete(t))) => (id, Some(clone_type(t))),
        };
        match root_concrete_type {
            Some(root_concrete_type) => self.unify_inner(concrete_type, &root_concrete_type, fuel),
            None => {
                if self.root_occurs_in_type(root_id, concrete_type) {
                    return Err(
                        UnifyError::InfiniteType(
                            InfiniteType { var: root_id, ty: self.subsitute(concrete_type) },
                        ),
                    );
                }
                match self.set(
                    root_id,
                    UnionNode::RootUnionNode(RootUnionNode::Concrete(clone_type(concrete_type))),
                ) {
                    Ok(()) => Ok(()),
                    Err(e) => Err(UnifyError::FreeTypeVariableNotFoundError(e)),
                }
            },
        }
    }

    /// Unifies `found` with `expected`, reporting a failure at `span`.
    pub fn unify(&mut self, found: &Type, expected: &Type, span: SourceSpan) -> (result: Result<
        (),
        TypeCheckError,
    >)
        ensures
            final(self).nodes().len() == old(self).nodes().len(),
            final(self).nodes() == spec_unify(
                old(self).nodes(),
                found@,
                expected@,
                UNIFY_FUEL as nat,
            ).0,
            result is Ok <==> spec_unify(
                old(self).nodes(),
                found@,
                expected@,
                UNIFY_FUEL as nat,
            ).1 is Ok,
            result matches Err(e) ==> e.spec_span() == span && reported(
                e,
                spec_unify(old(self).nodes(), found@, expected@, UNIFY_FUEL as nat).1->Err_0,
                span,
            ),
    {
        match self.unify_inner(found, expected, UNIFY_FUEL) {
            Ok(()) => Ok(()),
            Err(err) => Err(err.into_type_check_error(span)),
        }
    }

    #[verifier::loop_isolation(false)]
    fn unify_inner(&mut self, found: &Type, expected: &Type, fuel: u64) -> (result: Result<
        (),
        UnifyError,
    >)
        ensures
            final(self).nodes().len() == old(self).nodes().len(),
            (final(self).nodes(), result_view(result)) == spec_unify(
                old(self).nodes(),
                found@,
                expected@,
                fuel as nat,
            ),
        decreases fuel, 0nat, 0nat,
    {
        let ghost nodes0 = self.nodes();
        let e = self.representative(expected);
        let f = self.representative(found);
        if fuel == 0 {
            return Err(UnifyError::TypeMismatch(TypeMismatch { expected: e, found: f }));
        }
        match (&e, &f) {
            (Type::Var(var1), Type::Var(var2)) => {
                return self.union_vars(*var1, *var2);
            },
            (Type::Var(type_var_id), _) => {
                return self.union_with_concrete_type(*type_var_id, &f, fuel - 1);
            },
            (_, Type::Var(type_var_id)) => {
                return self.union_with_concrete_type(*type_var_id, &e, fuel - 1);
            },
            _ => {},
        }
        match (&e, &f) {
            (Type::Unit, Type::Unit) => Ok(()),
            (Type::Literal(literal_a), Type::Literal(literal_b)) => {
                if *literal_a == *literal_b {
                    Ok(())
                } else {
                    Err(UnifyError::TypeMismatch(TypeMismatch { expected: e, found: f }))
                }
            },
            (Type::Fn(expected_param, expected_body), Type::Fn(found_param, found_body)) => {
                let param_unification = match (expected_param, found_param) {
                    (None, Some(_)) => Err(
                        UnifyError::FunctionParameterNotNeeded(
                            TypeMismatch { expected: clone_type(&e), found: clone_type(&f) },
                        ),
                    ),
                    (Some(_), None) => Err(
                        UnifyError::FunctionParameterNotProvided(
                            TypeMismatch { expected: clone_type(&e), found: clone_type(&f) },
                        ),
                    ),
                    (None, None) => Ok(()),
                    (Some(expected_param), Some(found_param)) => {
                        self.unify_inner(found_param, expected_param, fuel - 1)
                    },
                };
                match param_unification {
                    Err(err) => Err(err),
                    Ok(()) => self.unify_inner(found_body, expected_body, fuel - 1),
                }
            },
            (Type::Record(expected_fields), Type::Record(found_fields)) => {
                let ghost efv = record_view(e@);
                let ghost ffv = record_view(f@);
                let mut missing: Vec<String> = Vec::new();
                let mut i: usize = 0;
                while i < expected_fields.len()
                    invariant
                        0 <= i <= expected_fields.len(),
                        efv.len() == expected_fields@.len(),
                        names_view(missing@) == names_missing(efv, ffv, i as nat),
                    decreases expected_fields.len() - i,
                {
                    let found_at = field_position(found_fields, &expected_fields[i].0);
                    proof {
                        assert(efv[i as int].0 == expected_fields@[i as int].0@);
                        match found_at {
                            Some(j) => {
                                assert(ffv[j as int].0 == found_fields@[j as int].0@);
                                assert(has_field(ffv, efv[i as int].0));
                            },
                            None => {
                                assert forall|m: int| 0 <= m < ffv.len() implies #[trigger] ffv[m].0 != efv[i as int].0 by {
                                    assert(ffv[m].0 == found_fields@[m].0@);
                                }
                            },
                        }
                    }
                    if found_at.is_none() {
                        missing.push(expected_fields[i].0.clone());
                        assert(names_view(missing@) =~= names_missing(efv, ffv, i as nat).push(efv[i as int].0));
                    }
                    i = i + 1;
                }
                let mut additional: Vec<String> = Vec::new();
                let mut i: usize = 0;
                while i < found_fields.len()
                    invariant
                        0 <= i <= found_fields.len(),
                        ffv.len() == found_fields@.len(),
                        names_view(additional@) == names_missing(ffv, efv, i as nat),
                    decreases found_fields.len() - i,
                {
                    let found_at = field_position(expected_fields, &found_fields[i].0);
                    proof {
                        assert(ffv[i as int].0 == found_fields@[i as int].0@);
                        match found_at {
                            Some(j) => {
                                assert(efv[j as int].0 == expected_fields@[j as int].0@);
                                assert(has_field(efv, ffv[i as int].0));
                            },
                            None => {
                                assert forall|m: int| 0 <= m < efv.len() implies #[trigger] efv[m].0 != ffv[i as int].0 by {
                                    assert(efv[m].0 == expected_fields@[m].0@);
                                }
                            },
                        }
                    }
                    if found_at.is_none() {
                        additional.push(found_fields[i].0.clone());
                        assert(names_view(additional@) =~= names_missing(ffv, efv, i as nat).push(ffv[i as int].0));
                    }
                    i = i + 1;
                }
                if missing.len() > 0 || additional.len() > 0 {
                    return Err(
                        UnifyError::RecordFieldMismatch(RecordFieldMismatch { missing, additional }),
                    );
                }
                let mut i: usize = 0;
                while i < expected_fields.len()
                    invariant
                        0 <= i <= expected_fields.len(),
                        efv.len() == expected_fields@.len(),
                        ffv.len() == found_fields@.len(),
                        names_missing(efv, ffv, efv.len()).len() == 0,
                        self.nodes().len() == nodes0.len(),
                        (self.nodes(), Ok::<(), UnifyErrorView>(())) == spec_unify_fields(
                            nodes0,
                            ffv,
                            efv,
                            i as nat,
                            (fuel - 1) as nat,
                        ),
                    decreases expected_fields.len() - i,
                {
                    let found_at = field_position(found_fields, &expected_fields[i].0);
                    let j = match found_at {
                        Some(j) => j,
                        None => {
                            proof {
                                lemma_names_missing_complete(efv, ffv, efv.len(), i as nat);
                                assert forall|m: int| 0 <= m < ffv.len() implies #[trigger] ffv[m].0 != efv[i as int].0 by {
                                    assert(ffv[m].0 == found_fields@[m].0@);
                                }
                            }
                            return Err(
                                UnifyError::RecordFieldMismatch(
                                    RecordFieldMismatch { missing: Vec::new(), additional: Vec::new() },
                                ),
                            );
                        },
                    };
                    proof {
                        assert(efv[i as int].0 == expected_fields@[i as int].0@);
                        assert(ffv[j as int].0 == found_fields@[j as int].0@);
                        assert forall|m: int| 0 <= m < j implies #[trigger] ffv[m].0 != efv[i as int].0 by {
                            assert(ffv[m].0 == found_fields@[m].0@);
                        }
                        lemma_field_type_first_match(ffv, efv[i as int].0, 0, j as nat);
                        assert(ffv[j as int].1 == type_view(found_fields@[j as int].1));
                        assert(efv[i as int].1 == type_view(expected_fields@[i as int].1));
                    }
                    let r = self.unify_inner(&found_fields[j].1, &expected_fields[i].1, fuel - 1);
                    if r.is_err() {
                        proof {
                            lemma_unify_fields_stops_at_failure(
                                nodes0,
                                ffv,
                                efv,
                                (i + 1) as nat,
                                efv.len(),
                                (fuel - 1) as nat,
                            );
                        }
                        return r;
                    }
                    i = i + 1;
                }
                Ok(())
            },
            _ => Err(UnifyError::TypeMismatch(TypeMismatch { expected: e, found: f })),
        }
    }

}

} // verus!
