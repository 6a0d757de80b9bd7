//! What unification leaves for substitution: once two types are unified, substituting through
//! the map gives them the same type, and later unifications only refine the map, never undo it.

use vstd::prelude::*;

use super::agreement::{
    agree, lemma_names_missing_empty, lemma_root_in_range_of, lemma_root_of_root,
    lemma_unify_keeps, lemma_unify_sound, solutions_not_vars,
};
use super::ranking::{
    built_map, lemma_built_map_substitution_completes, lemma_completes_with_more_fuel,
    lemma_unify_keeps_built,
};
use super::substitution::subst_completes;
use super::typed_ast::TypeView;
use super::unification::{
    NodeView, UNIFY_FUEL, field_type_from, has_field, lemma_field_type_first_match, spec_representative, spec_root,
    spec_subst, spec_union_concrete, spec_union_vars, spec_unify, spec_unify_fields,
};
use crate::text::{lemma_seq_lt_irreflexive, lemma_seq_lt_transitive, seq_lt};

verus! {

/// The names of `fields` strictly increase.
pub open spec fn names_sorted(fields: Seq<(Seq<char>, TypeView)>) -> bool {
    forall|i: int, j: int|
        0 <= i < j < fields.len() ==> seq_lt(#[trigger] fields[i].0, #[trigger] fields[j].0)
}

/// Every record inside `t` lists its fields sorted by name, with no name twice, as the
/// checker builds them.
pub open spec fn records_sorted(t: TypeView) -> bool
    decreases t,
{
    match t {
        TypeView::Fn(p, r) => (match p {
            Some(p) => records_sorted(*p),
            None => true,
        }) && records_sorted(*r),
        TypeView::Record(fields) => names_sorted(fields) && forall|i: int|
            0 <= i < fields.len() ==> records_sorted(#[trigger] fields[i].1),
        _ => true,
    }
}

/// Every solution in the map has its records sorted.
pub open spec fn map_records_sorted(nodes: Seq<NodeView>) -> bool {
    forall|i: int|
        0 <= i < nodes.len() ==> (#[trigger] nodes[i] matches NodeView::Concrete(c)
            ==> records_sorted(c))
}

proof fn lemma_representative_sorted(nodes: Seq<NodeView>, t: TypeView)
    requires
        records_sorted(t),
        map_records_sorted(nodes),
    ensures
        records_sorted(spec_representative(nodes, t)),
{
    if let TypeView::Var(v) = t {
        if let Some(r) = spec_root(nodes, v as int) {
            lemma_root_in_range_of(nodes, v as int);
        }
    }
}

proof fn lemma_field_type_sorted(fields: Seq<(Seq<char>, TypeView)>, name: Seq<char>, k: nat)
    requires
        forall|i: int| 0 <= i < fields.len() ==> records_sorted(#[trigger] fields[i].1),
    ensures
        records_sorted(field_type_from(fields, name, k)),
    decreases fields.len() - k,
{
    if k < fields.len() && fields[k as int].0 != name {
        lemma_field_type_sorted(fields, name, k + 1);
    }
}

/// Unification keeps the map's records sorted, given types whose records are sorted.
pub proof fn lemma_unify_keeps_sorted(
    nodes: Seq<NodeView>,
    found: TypeView,
    expected: TypeView,
    fuel: nat,
)
    requires
        solutions_not_vars(nodes),
        map_records_sorted(nodes),
        records_sorted(found),
        records_sorted(expected),
    ensures
        map_records_sorted(spec_unify(nodes, found, expected, fuel).0),
    decreases fuel, 0nat, 0nat,
{
    let e = spec_representative(nodes, expected);
    let f = spec_representative(nodes, found);
    lemma_representative_sorted(nodes, expected);
    lemma_representative_sorted(nodes, found);
    if fuel > 0 {
        let g = (fuel - 1) as nat;
        match (e, f) {
            (TypeView::Var(v1), TypeView::Var(v2)) => {
                let after = spec_union_vars(nodes, v1, v2).0;
                if let (Some(r1), Some(r2)) = (spec_root(nodes, v1 as int), spec_root(nodes, v2 as int)) {
                    lemma_root_in_range_of(nodes, v1 as int);
                    lemma_root_in_range_of(nodes, v2 as int);
                }
                assert forall|i: int| 0 <= i < after.len() implies (#[trigger] after[i] matches NodeView::Concrete(c)
                    ==> records_sorted(c)) by {
                    assert(after[i] is Reference || after[i] == nodes[i]);
                }
            },
            (TypeView::Var(v), c) => {
                lemma_union_concrete_keeps_sorted(nodes, v, c, g);
            },
            (c, TypeView::Var(v)) => {
                lemma_union_concrete_keeps_sorted(nodes, v, c, g);
            },
            (TypeView::Fn(ep, eb), TypeView::Fn(fp, fb)) => {
                if let (Some(x), Some(y)) = (ep, fp) {
                    lemma_unify_keeps_sorted(nodes, *y, *x, g);
                    lemma_unify_keeps(nodes, *y, *x, g, TypeView::Unit, TypeView::Unit, 0, TypeView::Unit);
                    lemma_unify_keeps_sorted(spec_unify(nodes, *y, *x, g).0, *fb, *eb, g);
                } else {
                    lemma_unify_keeps_sorted(nodes, *fb, *eb, g);
                }
            },
            (TypeView::Record(ef), TypeView::Record(ff)) => {
                lemma_unify_fields_keep_sorted(nodes, ff, ef, ef.len(), g);
            },
            _ => {},
        }
    }
}

proof fn lemma_union_concrete_keeps_sorted(nodes: Seq<NodeView>, v: nat, c: TypeView, fuel: nat)
    requires
        solutions_not_vars(nodes),
        map_records_sorted(nodes),
        records_sorted(c),
    ensures
        map_records_sorted(spec_union_concrete(nodes, v, c, fuel).0),
    decreases fuel, 1nat, 0nat,
{
    if let Some(r) = spec_root(nodes, v as int) {
        lemma_root_in_range_of(nodes, v as int);
        match nodes[r] {
            NodeView::Concrete(rc) => {
                lemma_unify_keeps_sorted(nodes, c, rc, fuel);
            },
            _ => {
                let after = spec_union_concrete(nodes, v, c, fuel).0;
                assert forall|i: int| 0 <= i < after.len() implies (#[trigger] after[i] matches NodeView::Concrete(d)
                    ==> records_sorted(d)) by {
                    if i != r {
                        assert(after[i] == nodes[i]);
                    }
                }
            },
        }
    }
}

proof fn lemma_unify_fields_keep_sorted(
    nodes: Seq<NodeView>,
    found: Seq<(Seq<char>, TypeView)>,
    expected: Seq<(Seq<char>, TypeView)>,
    n: nat,
    fuel: nat,
)
    requires
        n <= expected.len(),
        solutions_not_vars(nodes),
        map_records_sorted(nodes),
        forall|i: int| 0 <= i < found.len() ==> records_sorted(#[trigger] found[i].1),
        forall|i: int| 0 <= i < expected.len() ==> records_sorted(#[trigger] expected[i].1),
    ensures
        map_records_sorted(spec_unify_fields(nodes, found, expected, n, fuel).0),
    decreases fuel, 1nat, n,
{
    if n > 0 {
        lemma_unify_fields_keep_sorted(nodes, found, expected, (n - 1) as nat, fuel);
        super::agreement::lemma_unify_fields_keeps(
            nodes,
            found,
            expected,
            (n - 1) as nat,
            fuel,
            TypeView::Unit,
            TypeView::Unit,
            0,
            TypeView::Unit,
        );
        let (before, result) = spec_unify_fields(nodes, found, expected, (n - 1) as nat, fuel);
        if result is Ok {
            lemma_field_type_sorted(found, expected[n - 1].0, 0);
            lemma_unify_keeps_sorted(
                before,
                field_type_from(found, expected[n - 1].0, 0),
                expected[n - 1].1,
                fuel,
            );
        }
    }
}

/// Where substitution completes, more fuel changes nothing.
proof fn lemma_subst_fuel_independent(nodes: Seq<NodeView>, t: TypeView, f: nat, g: nat)
    requires
        subst_completes(nodes, t, f),
        f <= g,
    ensures
        spec_subst(nodes, t, f) == spec_subst(nodes, t, g),
    decreases f, t,
{
    match t {
        TypeView::Var(v) => {
            if let Some(r) = spec_root(nodes, v as int) {
                if let NodeView::Concrete(c) = nodes[r] {
                    lemma_subst_fuel_independent(nodes, c, (f - 1) as nat, (g - 1) as nat);
                }
            }
        },
        TypeView::Fn(p, r) => {
            if let Some(p) = p {
                lemma_subst_fuel_independent(nodes, *p, f, g);
            }
            lemma_subst_fuel_independent(nodes, *r, f, g);
        },
        TypeView::Record(fields) => {
            assert forall|i: int| 0 <= i < fields.len() implies spec_subst(
                nodes,
                #[trigger] fields[i].1,
                f,
            ) == spec_subst(nodes, fields[i].1, g) by {
                lemma_subst_fuel_independent(nodes, fields[i].1, f, g);
            }
            if let (TypeView::Record(x), TypeView::Record(y)) = (
                spec_subst(nodes, t, f),
                spec_subst(nodes, t, g),
            ) {
                assert(x =~= y);
            }
        },
        _ => {},
    }
}

/// Substituting a type is substituting its representative.
proof fn lemma_subst_through_representative(nodes: Seq<NodeView>, t: TypeView, fuel: nat)
    requires
        solutions_not_vars(nodes),
        subst_completes(nodes, t, fuel),
    ensures
        subst_completes(nodes, spec_representative(nodes, t), fuel),
        spec_subst(nodes, t, fuel) == spec_subst(nodes, spec_representative(nodes, t), fuel),
{
    if let TypeView::Var(v) = t {
        if let Some(r) = spec_root(nodes, v as int) {
            lemma_root_in_range_of(nodes, v as int);
            if let NodeView::Concrete(c) = nodes[r] {
                lemma_completes_with_more_fuel(nodes, c, (fuel - 1) as nat, fuel);
                lemma_subst_fuel_independent(nodes, c, (fuel - 1) as nat, fuel);
            } else {
                lemma_root_of_root(nodes, r);
            }
        }
    }
}

proof fn lemma_same_name_at(a: Seq<(Seq<char>, TypeView)>, b: Seq<(Seq<char>, TypeView)>, i: int)
    requires
        names_sorted(a),
        names_sorted(b),
        forall|m: int| 0 <= m < a.len() ==> has_field(b, #[trigger] a[m].0),
        forall|m: int| 0 <= m < b.len() ==> has_field(a, #[trigger] b[m].0),
        0 <= i < a.len(),
        i < b.len(),
    ensures
        a[i].0 == b[i].0,
    decreases i,
{
    assert forall|m: int| 0 <= m < i implies a[m].0 == b[m].0 by {
        lemma_same_name_at(a, b, m);
    }
    assert(has_field(b, a[i].0));
    let j = choose|j: int| 0 <= j < b.len() && #[trigger] b[j].0 == a[i].0;
    if j < i {
        assert(seq_lt(a[j].0, a[i].0));
        lemma_seq_lt_irreflexive(a[i].0);
    } else if j > i {
        assert(has_field(a, b[i].0));
        let k = choose|k: int| 0 <= k < a.len() && #[trigger] a[k].0 == b[i].0;
        if k < i {
            assert(seq_lt(b[k].0, b[i].0));
            lemma_seq_lt_irreflexive(b[i].0);
        } else if k > i {
            assert(seq_lt(a[i].0, a[k].0));
            assert(seq_lt(b[i].0, b[j].0));
            lemma_seq_lt_transitive(a[i].0, b[i].0, a[i].0);
            lemma_seq_lt_irreflexive(a[i].0);
        }
    }
}

/// Two records with sorted fields and the same names list the same names in the same order.
proof fn lemma_sorted_same_names(a: Seq<(Seq<char>, TypeView)>, b: Seq<(Seq<char>, TypeView)>)
    requires
        names_sorted(a),
        names_sorted(b),
        forall|m: int| 0 <= m < a.len() ==> has_field(b, #[trigger] a[m].0),
        forall|m: int| 0 <= m < b.len() ==> has_field(a, #[trigger] b[m].0),
    ensures
        a.len() == b.len(),
        forall|m: int| 0 <= m < a.len() ==> #[trigger] a[m].0 == b[m].0,
{
    assert forall|m: int| 0 <= m < a.len() && m < b.len() implies #[trigger] a[m].0 == b[m].0 by {
        lemma_same_name_at(a, b, m);
    }
    if a.len() > b.len() {
        let i = b.len() as int;
        assert(has_field(b, a[i].0));
        let j = choose|j: int| 0 <= j < b.len() && #[trigger] b[j].0 == a[i].0;
        assert(a[j].0 == b[j].0);
        assert(seq_lt(a[j].0, a[i].0));
        lemma_seq_lt_irreflexive(a[i].0);
    } else if b.len() > a.len() {
        let i = a.len() as int;
        assert(has_field(a, b[i].0));
        let j = choose|j: int| 0 <= j < a.len() && #[trigger] a[j].0 == b[i].0;
        assert(a[j].0 == b[j].0);
        assert(seq_lt(b[j].0, b[i].0));
        lemma_seq_lt_irreflexive(b[i].0);
    }
}

/// In sorted fields, the field at `i` is the first of its name.
proof fn lemma_sorted_field_type(fields: Seq<(Seq<char>, TypeView)>, i: int)
    requires
        names_sorted(fields),
        0 <= i < fields.len(),
    ensures
        field_type_from(fields, fields[i].0, 0) == fields[i].1,
{
    assert forall|m: int| 0 <= m < i implies #[trigger] fields[m].0 != fields[i].0 by {
        assert(seq_lt(fields[m].0, fields[i].0));
        lemma_seq_lt_irreflexive(fields[i].0);
    }
    lemma_field_type_first_match(fields, fields[i].0, 0, i as nat);
}

/// Types that agree at every depth, with sorted records, substitute to the same type wherever
/// substitution completes.
pub proof fn lemma_agreeing_types_substitute_equally(
    nodes: Seq<NodeView>,
    found: TypeView,
    expected: TypeView,
    fuel: nat,
)
    requires
        solutions_not_vars(nodes),
        map_records_sorted(nodes),
        records_sorted(found),
        records_sorted(expected),
        subst_completes(nodes, found, fuel),
        subst_completes(nodes, expected, fuel),
        forall|k: nat| #[trigger] agree(nodes, found, expected, k),
    ensures
        spec_subst(nodes, found, fuel) == spec_subst(nodes, expected, fuel),
    decreases spec_subst(nodes, found, fuel),
{
    let e = spec_representative(nodes, expected);
    let f = spec_representative(nodes, found);
    lemma_subst_through_representative(nodes, found, fuel);
    lemma_subst_through_representative(nodes, expected, fuel);
    lemma_representative_sorted(nodes, found);
    lemma_representative_sorted(nodes, expected);
    assert(agree(nodes, found, expected, 1));
    match (e, f) {
        (TypeView::Fn(ep, eb), TypeView::Fn(fp, fb)) => {
            assert forall|j: nat| #[trigger] agree(nodes, *fb, *eb, j) by {
                assert(agree(nodes, found, expected, j + 1));
            }
            assert(spec_subst(nodes, found, fuel) == spec_subst(nodes, f, fuel));
            if let (Some(x), Some(y)) = (ep, fp) {
                assert forall|j: nat| #[trigger] agree(nodes, *y, *x, j) by {
                    assert(agree(nodes, found, expected, j + 1));
                }
                if let TypeView::Fn(Some(p2), _) = spec_subst(nodes, f, fuel) {
                    assert(*p2 == spec_subst(nodes, *y, fuel));
                    assert(decreases_to!(spec_subst(nodes, found, fuel) => *p2));
                }
                lemma_agreeing_types_substitute_equally(nodes, *y, *x, fuel);
            }
            if let TypeView::Fn(_, r2) = spec_subst(nodes, f, fuel) {
                assert(*r2 == spec_subst(nodes, *fb, fuel));
                assert(decreases_to!(spec_subst(nodes, found, fuel) => *r2));
            }
            lemma_agreeing_types_substitute_equally(nodes, *fb, *eb, fuel);
        },
        (TypeView::Record(ef), TypeView::Record(ff)) => {
            lemma_names_missing_empty(ef, ff, ef.len());
            lemma_names_missing_empty(ff, ef, ff.len());
            lemma_sorted_same_names(ff, ef);
            let sf = spec_subst(nodes, f, fuel);
            let se = spec_subst(nodes, e, fuel);
            assert forall|i: int| 0 <= i < ff.len() implies spec_subst(nodes, #[trigger] ff[i].1, fuel)
                == spec_subst(nodes, ef[i].1, fuel) by {
                lemma_sorted_field_type(ff, i);
                lemma_sorted_field_type(ef, i);
                assert forall|j: nat| #[trigger] agree(nodes, ff[i].1, ef[i].1, j) by {
                    assert(agree(nodes, found, expected, j + 1));
                }
                if let TypeView::Record(out) = sf {
                    assert(out[i].1 == spec_subst(nodes, ff[i].1, fuel));
                    assert(decreases_to!(spec_subst(nodes, found, fuel) => out));
                    assert(decreases_to!(out => out[i]));
                    assert(decreases_to!(out[i] => out[i].1));
                }
                lemma_agreeing_types_substitute_equally(nodes, ff[i].1, ef[i].1, fuel);
            }
            if let (TypeView::Record(x), TypeView::Record(y)) = (sf, se) {
                assert(x =~= y);
            }
        },
        _ => {},
    }
}

/// After unifying `found` with `expected` succeeds on a map built by minting and unifying,
/// substituting through the map it leaves gives both the same type. Records are taken as the
/// checker builds them, with their fields sorted by name.
pub proof fn lemma_unify_substitutes_equally(
    nodes: Seq<NodeView>,
    found: TypeView,
    expected: TypeView,
)
    requires
        built_map(nodes),
        map_records_sorted(nodes),
        records_sorted(found),
        records_sorted(expected),
        nodes.len() <= UNIFY_FUEL,
        spec_unify(nodes, found, expected, UNIFY_FUEL as nat).1 is Ok,
    ensures
        spec_subst(spec_unify(nodes, found, expected, UNIFY_FUEL as nat).0, found, UNIFY_FUEL as nat)
            == spec_subst(
            spec_unify(nodes, found, expected, UNIFY_FUEL as nat).0,
            expected,
            UNIFY_FUEL as nat,
        ),
{
    let after = spec_unify(nodes, found, expected, UNIFY_FUEL as nat).0;
    assert forall|k: nat| #[trigger] agree(after, found, expected, k) by {
        lemma_unify_sound(nodes, found, expected, k);
    }
    lemma_unify_keeps(nodes, found, expected, UNIFY_FUEL as nat, TypeView::Unit, TypeView::Unit, 0, TypeView::Unit);
    lemma_unify_keeps_built(nodes, found, expected);
    lemma_unify_keeps_sorted(nodes, found, expected, UNIFY_FUEL as nat);
    lemma_built_map_substitution_completes(after, found);
    lemma_built_map_substitution_completes(after, expected);
    lemma_agreeing_types_substitute_equally(after, found, expected, UNIFY_FUEL as nat);
}

proof fn lemma_agreement_survives(
    nodes: Seq<NodeView>,
    a: TypeView,
    b: TypeView,
    later: Seq<(TypeView, TypeView)>,
    maps: Seq<Seq<NodeView>>,
    i: int,
)
    requires
        built_map(nodes),
        map_records_sorted(nodes),
        nodes.len() <= UNIFY_FUEL,
        forall|k: nat| #[trigger] agree(nodes, a, b, k),
        forall|m: int|
            0 <= m < later.len() ==> records_sorted((#[trigger] later[m]).0) && records_sorted(
                later[m].1,
            ),
        maps.len() == later.len() + 1,
        maps[0] == nodes,
        forall|m: int|
            0 <= m < later.len() ==> #[trigger] maps[m + 1] == spec_unify(
                maps[m],
                later[m].0,
                later[m].1,
                UNIFY_FUEL as nat,
            ).0,
        0 <= i < maps.len(),
    ensures
        built_map(maps[i]),
        map_records_sorted(maps[i]),
        maps[i].len() == nodes.len(),
        forall|k: nat| #[trigger] agree(maps[i], a, b, k),
    decreases i,
{
    if i > 0 {
        lemma_agreement_survives(nodes, a, b, later, maps, i - 1);
        let prev = maps[i - 1];
        let (c, d) = later[i - 1];
        assert(maps[(i - 1) + 1] == spec_unify(prev, c, d, UNIFY_FUEL as nat).0);
        assert(maps[i] == spec_unify(prev, c, d, UNIFY_FUEL as nat).0);
        lemma_unify_keeps(prev, c, d, UNIFY_FUEL as nat, a, b, 0, TypeView::Unit);
        assert forall|k: nat| #[trigger] agree(maps[i], a, b, k) by {
            lemma_unify_keeps(prev, c, d, UNIFY_FUEL as nat, a, b, k, TypeView::Unit);
        }
        lemma_unify_keeps_built(prev, c, d);
        lemma_unify_keeps_sorted(prev, c, d, UNIFY_FUEL as nat);
    }
}

/// Solutions are only refined, never undone: once unifying `a` with `b` has succeeded on a map
/// built by minting and unifying, every later unification, successful or not, leaves a map in
/// which `a` and `b` still substitute to the same type. `maps[0]` is the map the first
/// unification leaves and `maps[i + 1]` the map after unifying the pair `later[i]` in
/// `maps[i]`. Records are taken as the checker builds them, with their fields sorted by name.
pub proof fn lemma_later_unifications_keep_equality(
    nodes: Seq<NodeView>,
    a: TypeView,
    b: TypeView,
    later: Seq<(TypeView, TypeView)>,
    maps: Seq<Seq<NodeView>>,
)
    requires
        built_map(nodes),
        map_records_sorted(nodes),
        records_sorted(a),
        records_sorted(b),
        forall|m: int|
            0 <= m < later.len() ==> records_sorted((#[trigger] later[m]).0) && records_sorted(
                later[m].1,
            ),
        nodes.len() <= UNIFY_FUEL,
        spec_unify(nodes, a, b, UNIFY_FUEL as nat).1 is Ok,
        maps.len() == later.len() + 1,
        maps[0] == spec_unify(nodes, a, b, UNIFY_FUEL as nat).0,
        forall|m: int|
            0 <= m < later.len() ==> #[trigger] maps[m + 1] == spec_unify(
                maps[m],
                later[m].0,
                later[m].1,
                UNIFY_FUEL as nat,
            ).0,
    ensures
        forall|i: int|
            0 <= i < maps.len() ==> spec_subst(#[trigger] maps[i], a, UNIFY_FUEL as nat) == spec_subst(
                maps[i],
                b,
                UNIFY_FUEL as nat,
            ),
{
    let first = maps[0];
    assert forall|k: nat| #[trigger] agree(first, a, b, k) by {
        lemma_unify_sound(nodes, a, b, k);
    }
    lemma_unify_keeps(nodes, a, b, UNIFY_FUEL as nat, TypeView::Unit, TypeView::Unit, 0, TypeView::Unit);
    lemma_unify_keeps_built(nodes, a, b);
    lemma_unify_keeps_sorted(nodes, a, b, UNIFY_FUEL as nat);
    assert forall|i: int| 0 <= i < maps.len() implies spec_subst(#[trigger] maps[i], a, UNIFY_FUEL as nat)
        == spec_subst(maps[i], b, UNIFY_FUEL as nat) by {
        lemma_agreement_survives(first, a, b, later, maps, i);
        lemma_built_map_substitution_completes(maps[i], a);
        lemma_built_map_substitution_completes(maps[i], b);
        lemma_agreeing_types_substitute_equally(maps[i], a, b, UNIFY_FUEL as nat);
    }
}

} // verus!
