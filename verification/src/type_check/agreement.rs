//! What a successful unification establishes: the two types agree, at every depth, in the map
//! it leaves, and every agreement that held before still holds.

use vstd::prelude::*;

use super::typed_ast::TypeView;
use super::unification::{
    NodeView, UNIFY_FUEL, field_type_from, has_field, lemma_field_type_first_match, names_missing,
    root_within, spec_representative, spec_root, spec_union_concrete, spec_union_vars, spec_unify,
    spec_unify_fields,
};

verus! {

/// The slot `i` steps of reference-following from `x` reach; a slot that is not a reference
/// (or lies outside the map) is never left.
pub open spec fn walk(nodes: Seq<NodeView>, x: int, i: nat) -> int
    decreases i,
{
    if i == 0 {
        x
    } else {
        let y = walk(nodes, x, (i - 1) as nat);
        if 0 <= y < nodes.len() && nodes[y] is Reference {
            nodes[y]->Reference_0 as int
        } else {
            y
        }
    }
}

/// How many references [`root_within`] follows from `x` with `fuel` steps.
pub open spec fn steps(nodes: Seq<NodeView>, x: int, fuel: nat) -> nat
    decreases fuel,
{
    if 0 <= x < nodes.len() && nodes[x] is Reference && fuel > 0 {
        1 + steps(nodes, nodes[x]->Reference_0 as int, (fuel - 1) as nat)
    } else {
        0
    }
}

/// A root found within `fuel` steps is found after exactly [`steps`] of them, every slot before
/// it being a reference, and with any larger budget too.
pub proof fn lemma_root_path(nodes: Seq<NodeView>, x: int, fuel: nat)
    requires
        root_within(nodes, x, fuel) is Some,
    ensures
        steps(nodes, x, fuel) <= fuel,
        walk(nodes, x, steps(nodes, x, fuel)) == root_within(nodes, x, fuel)->Some_0,
        forall|j: nat|
            j < steps(nodes, x, fuel) ==> 0 <= #[trigger] walk(nodes, x, j) < nodes.len()
                && nodes[walk(nodes, x, j)] is Reference,
        forall|f: nat| f >= steps(nodes, x, fuel) ==> #[trigger] root_within(nodes, x, f)
            == root_within(nodes, x, fuel),
    decreases fuel,
{
    if 0 <= x < nodes.len() && nodes[x] is Reference {
        let next = nodes[x]->Reference_0 as int;
        let g = (fuel - 1) as nat;
        lemma_root_path(nodes, next, g);
        lemma_walk_shift(nodes, x, next, steps(nodes, next, g));
        assert forall|j: nat| j < steps(nodes, x, fuel) implies 0 <= #[trigger] walk(nodes, x, j)
            < nodes.len() && nodes[walk(nodes, x, j)] is Reference by {
            if j > 0 {
                lemma_walk_shift(nodes, x, next, (j - 1) as nat);
                assert(walk(nodes, next, (j - 1) as nat) == walk(nodes, x, j));
            }
        }
        assert forall|f: nat| f >= steps(nodes, x, fuel) implies #[trigger] root_within(
            nodes,
            x,
            f,
        ) == root_within(nodes, x, fuel) by {
            assert(root_within(nodes, next, (f - 1) as nat) == root_within(nodes, next, g));
        }
    }
}

/// Walking one reference and then `i` steps is walking `i + 1` steps.
proof fn lemma_walk_shift(nodes: Seq<NodeView>, x: int, next: int, i: nat)
    requires
        0 <= x < nodes.len(),
        0 <= next,
        nodes[x] == NodeView::Reference(next as nat),
    ensures
        walk(nodes, next, i) == walk(nodes, x, i + 1),
    decreases i,
{
    if i > 0 {
        lemma_walk_shift(nodes, x, next, (i - 1) as nat);
        assert(walk(nodes, x, i + 1) == {
            let y = walk(nodes, x, i);
            if 0 <= y < nodes.len() && nodes[y] is Reference {
                nodes[y]->Reference_0 as int
            } else {
                y
            }
        });
    } else {
        assert(walk(nodes, x, 1) == next);
    }
}

/// Walks that meet once go on together.
proof fn lemma_walk_meets(nodes: Seq<NodeView>, x: int, i: nat, j: nat, d: nat)
    requires
        walk(nodes, x, i) == walk(nodes, x, j),
    ensures
        walk(nodes, x, i + d) == walk(nodes, x, j + d),
    decreases d,
{
    if d > 0 {
        lemma_walk_meets(nodes, x, i, j, (d - 1) as nat);
    }
}

/// A walk to a root visits no slot twice, so it takes fewer steps than there are slots.
pub proof fn lemma_path_short(nodes: Seq<NodeView>, x: int, m: nat)
    requires
        0 <= walk(nodes, x, m) < nodes.len(),
        !(nodes[walk(nodes, x, m)] is Reference),
        forall|j: nat|
            j < m ==> 0 <= #[trigger] walk(nodes, x, j) < nodes.len() && nodes[walk(
                nodes,
                x,
                j,
            )] is Reference,
    ensures
        m < nodes.len(),
{
    let path = Seq::new(m + 1, |j: int| walk(nodes, x, j as nat));
    assert forall|a: int, b: int| 0 <= a < b < path.len() implies path[a] != path[b] by {
        if path[a] == path[b] {
            lemma_walk_meets(nodes, x, a as nat, b as nat, (m - b) as nat);
            let c = (a + m - b) as nat;
            assert(walk(nodes, x, c) == walk(nodes, x, m));
            assert(c < m);
        }
    }
    assert(path.no_duplicates());
    path.unique_seq_to_set();
    vstd::set_lib::lemma_int_range(0, nodes.len() as int);
    assert(path.to_set().subset_of(vstd::set_lib::set_int_range(0, nodes.len() as int))) by {
        assert forall|v: int| path.to_set().contains(v) implies vstd::set_lib::set_int_range(
            0,
            nodes.len() as int,
        ).contains(v) by {
            let j = choose|j: int| 0 <= j < path.len() && path[j] == v;
            assert(walk(nodes, x, j as nat) == v);
        }
    }
    vstd::set_lib::lemma_len_subset(
        path.to_set(),
        vstd::set_lib::set_int_range(0, nodes.len() as int),
    );
}

/// A root is found within one step fewer than there are slots.
proof fn lemma_root_within_shorter(nodes: Seq<NodeView>, x: int)
    requires
        spec_root(nodes, x) is Some,
    ensures
        nodes.len() > 0,
        root_within(nodes, x, (nodes.len() - 1) as nat) == spec_root(nodes, x),
{
    let len = nodes.len();
    lemma_root_path(nodes, x, len);
    let m = steps(nodes, x, len);
    let r = spec_root(nodes, x)->Some_0;
    lemma_root_found_is_root(nodes, x, len);
    lemma_path_short(nodes, x, m);
    assert(root_within(nodes, x, (len - 1) as nat) == root_within(nodes, x, len));
}

/// What [`root_within`] finds is a slot of the map that is not a reference.
pub proof fn lemma_root_found_is_root(nodes: Seq<NodeView>, x: int, fuel: nat)
    requires
        root_within(nodes, x, fuel) is Some,
    ensures
        0 <= root_within(nodes, x, fuel)->Some_0 < nodes.len(),
        !(nodes[root_within(nodes, x, fuel)->Some_0] is Reference),
    decreases fuel,
{
    if 0 <= x < nodes.len() && nodes[x] is Reference {
        lemma_root_found_is_root(nodes, nodes[x]->Reference_0 as int, (fuel - 1) as nat);
    }
}

proof fn lemma_link_keeps_other_roots(
    nodes: Seq<NodeView>,
    s: int,
    t: int,
    x: int,
    fuel: nat,
)
    requires
        0 <= s < nodes.len(),
        !(nodes[s] is Reference),
        root_within(nodes, x, fuel) != Some(s),
    ensures
        root_within(nodes.update(s, NodeView::Reference(t as nat)), x, fuel) == root_within(
            nodes,
            x,
            fuel,
        ),
    decreases fuel,
{
    if 0 <= x < nodes.len() && nodes[x] is Reference && fuel > 0 {
        lemma_link_keeps_other_roots(nodes, s, t, nodes[x]->Reference_0 as int, (fuel - 1) as nat);
    }
}

proof fn lemma_link_moves_class(nodes: Seq<NodeView>, s: int, t: int, x: int, fuel: nat)
    requires
        0 <= s < nodes.len(),
        0 <= t < nodes.len(),
        s != t,
        !(nodes[s] is Reference),
        !(nodes[t] is Reference),
        root_within(nodes, x, fuel) == Some(s),
    ensures
        root_within(nodes.update(s, NodeView::Reference(t as nat)), x, fuel + 1) == Some(t),
    decreases fuel,
{
    let linked = nodes.update(s, NodeView::Reference(t as nat));
    if x == s {
        assert(root_within(linked, t, fuel) == Some(t));
    } else if 0 <= x < nodes.len() && nodes[x] is Reference && fuel > 0 {
        lemma_link_moves_class(nodes, s, t, nodes[x]->Reference_0 as int, (fuel - 1) as nat);
    }
}

/// Linking the root `s` to the root `t`: the class of `s` joins that of `t`, and every other
/// slot keeps its root.
pub proof fn lemma_root_after_link(nodes: Seq<NodeView>, s: int, t: int, x: int)
    requires
        0 <= s < nodes.len(),
        0 <= t < nodes.len(),
        s != t,
        !(nodes[s] is Reference),
        !(nodes[t] is Reference),
    ensures
        spec_root(nodes.update(s, NodeView::Reference(t as nat)), x) == if spec_root(nodes, x)
            == Some(s) {
            Some(t)
        } else {
            spec_root(nodes, x)
        },
{
    if spec_root(nodes, x) == Some(s) {
        lemma_root_within_shorter(nodes, x);
        lemma_link_moves_class(nodes, s, t, x, (nodes.len() - 1) as nat);
    } else {
        lemma_link_keeps_other_roots(nodes, s, t, x, nodes.len());
    }
}

proof fn lemma_solve_keeps_roots_within(
    nodes: Seq<NodeView>,
    s: int,
    node: NodeView,
    x: int,
    fuel: nat,
)
    requires
        0 <= s < nodes.len(),
        !(nodes[s] is Reference),
        !(node is Reference),
    ensures
        root_within(nodes.update(s, node), x, fuel) == root_within(nodes, x, fuel),
    decreases fuel,
{
    if 0 <= x < nodes.len() && nodes[x] is Reference && fuel > 0 {
        lemma_solve_keeps_roots_within(nodes, s, node, nodes[x]->Reference_0 as int, (fuel - 1) as nat);
    }
}

/// Changing what a root holds, without making it a reference, keeps every root.
pub proof fn lemma_root_after_solve(nodes: Seq<NodeView>, s: int, node: NodeView, x: int)
    requires
        0 <= s < nodes.len(),
        !(nodes[s] is Reference),
        !(node is Reference),
    ensures
        spec_root(nodes.update(s, node), x) == spec_root(nodes, x),
{
    lemma_solve_keeps_roots_within(nodes, s, node, x, nodes.len());
}

/// A slot that is not a reference is its own root.
pub proof fn lemma_root_of_root(nodes: Seq<NodeView>, r: int)
    requires
        0 <= r < nodes.len(),
        !(nodes[r] is Reference),
    ensures
        spec_root(nodes, r) == Some(r),
{
}

/// Every reference points into the map.
pub open spec fn refs_in_range(nodes: Seq<NodeView>) -> bool {
    forall|i: int|
        0 <= i < nodes.len() ==> (#[trigger] nodes[i] matches NodeView::Reference(r) ==> r < nodes.len())
}

/// No variable is solved to a bare variable.
pub open spec fn solutions_not_vars(nodes: Seq<NodeView>) -> bool {
    forall|i: int|
        0 <= i < nodes.len() ==> (#[trigger] nodes[i] matches NodeView::Concrete(c) ==> !(c is Var))
}

/// `x` is the root of its class, or was never minted.
pub open spec fn root_or_unminted(nodes: Seq<NodeView>, x: int) -> bool {
    spec_root(nodes, x) is None || spec_root(nodes, x) == Some(x)
}

/// What a variable's root holds, as a type: the solution, or the root itself.
pub open spec fn root_type(nodes: Seq<NodeView>, r: int) -> TypeView {
    match nodes[r] {
        NodeView::Concrete(c) => c,
        _ => TypeView::Var(r as nat),
    }
}

/// Linking the free root `s` to the root `t`: what stood for `s` now stands for `t`'s type,
/// and every other representative stays.
pub proof fn lemma_representative_after_link(nodes: Seq<NodeView>, s: int, t: int, a: TypeView)
    requires
        0 <= s < nodes.len(),
        0 <= t < nodes.len(),
        s != t,
        nodes[s] is Free,
        !(nodes[t] is Reference),
        solutions_not_vars(nodes),
    ensures
        spec_representative(nodes.update(s, NodeView::Reference(t as nat)), a) == if spec_representative(
            nodes,
            a,
        ) == TypeView::Var(s as nat) {
            root_type(nodes, t)
        } else {
            spec_representative(nodes, a)
        },
{
    lemma_root_of_root(nodes, s);
    if let TypeView::Var(v) = a {
        lemma_root_after_link(nodes, s, t, v as int);
        if let Some(r) = spec_root(nodes, v as int) {
            lemma_root_in_range_of(nodes, v as int);
            assert(nodes[r] matches NodeView::Concrete(c) ==> !(c is Var));
        }
    }
}

/// Solving the free root `s` to `c`: what stood for `s` is now `c`, and every other
/// representative stays.
pub proof fn lemma_representative_after_solve(nodes: Seq<NodeView>, s: int, c: TypeView, a: TypeView)
    requires
        0 <= s < nodes.len(),
        nodes[s] is Free,
        solutions_not_vars(nodes),
    ensures
        spec_representative(nodes.update(s, NodeView::Concrete(c)), a) == if spec_representative(
            nodes,
            a,
        ) == TypeView::Var(s as nat) {
            c
        } else {
            spec_representative(nodes, a)
        },
{
    lemma_root_of_root(nodes, s);
    if let TypeView::Var(v) = a {
        lemma_root_after_solve(nodes, s, NodeView::Concrete(c), v as int);
        if let Some(r) = spec_root(nodes, v as int) {
            lemma_root_in_range_of(nodes, v as int);
            assert(nodes[r] matches NodeView::Concrete(c) ==> !(c is Var));
        }
    }
}

/// A root lies in the map and is not a reference.
pub proof fn lemma_root_in_range_of(nodes: Seq<NodeView>, x: int)
    requires
        spec_root(nodes, x) is Some,
    ensures
        0 <= spec_root(nodes, x)->Some_0 < nodes.len(),
        !(nodes[spec_root(nodes, x)->Some_0] is Reference),
{
    lemma_root_found_is_root(nodes, x, nodes.len());
}

/// `found` and `expected` agree to depth `k` in `nodes`: at every depth up to `k` their
/// representatives are the same variable, the same literal type, both `Unit`, functions
/// whose parameters and results agree, or records with the same field names whose
/// like-named fields (the first of each name) agree.
pub open spec fn agree(nodes: Seq<NodeView>, found: TypeView, expected: TypeView, k: nat) -> bool
    decreases k,
{
    if k == 0 {
        true
    } else {
        let e = spec_representative(nodes, expected);
        let f = spec_representative(nodes, found);
        let j = (k - 1) as nat;
        match (e, f) {
            (TypeView::Var(a), TypeView::Var(b)) => a == b,
            (TypeView::Unit, TypeView::Unit) => true,
            (TypeView::Literal(a), TypeView::Literal(b)) => a == b,
            (TypeView::Fn(ep, eb), TypeView::Fn(fp, fb)) => (match (ep, fp) {
                (None, None) => true,
                (Some(x), Some(y)) => agree(nodes, *y, *x, j),
                _ => false,
            }) && agree(nodes, *fb, *eb, j),
            (TypeView::Record(ef), TypeView::Record(ff)) => names_missing(ef, ff, ef.len()).len()
                == 0 && names_missing(ff, ef, ff.len()).len() == 0 && forall|i: int|
                0 <= i < ef.len() ==> agree(
                    nodes,
                    field_type_from(ff, (#[trigger] ef[i]).0, 0),
                    field_type_from(ef, ef[i].0, 0),
                    j,
                ),
            _ => false,
        }
    }
}

proof fn lemma_names_missing_none(
    these: Seq<(Seq<char>, TypeView)>,
    those: Seq<(Seq<char>, TypeView)>,
    n: nat,
)
    requires
        n <= these.len(),
        forall|i: int| 0 <= i < n ==> has_field(those, #[trigger] these[i].0),
    ensures
        names_missing(these, those, n).len() == 0,
    decreases n,
{
    if n > 0 {
        lemma_names_missing_none(these, those, (n - 1) as nat);
    }
}

/// No name of `these` up to `n` is missing from `those`: each is there.
pub proof fn lemma_names_missing_empty(
    these: Seq<(Seq<char>, TypeView)>,
    those: Seq<(Seq<char>, TypeView)>,
    n: nat,
)
    requires
        n <= these.len(),
        names_missing(these, those, n).len() == 0,
    ensures
        forall|i: int| 0 <= i < n ==> has_field(those, #[trigger] these[i].0),
    decreases n,
{
    if n > 0 {
        let before = names_missing(these, those, (n - 1) as nat);
        if !has_field(those, these[n - 1].0) {
            assert(names_missing(these, those, n).len() == before.len() + 1);
        }
        lemma_names_missing_empty(these, those, (n - 1) as nat);
    }
}

/// Taking the representative twice gives the same as once.
pub proof fn lemma_representative_idempotent(nodes: Seq<NodeView>, t: TypeView)
    requires
        solutions_not_vars(nodes),
    ensures
        spec_representative(nodes, spec_representative(nodes, t)) == spec_representative(nodes, t),
{
    if spec_representative(nodes, t) is Var {
        lemma_representative_var_is_root(nodes, t);
    }
}

/// Agreement is transitive.
pub proof fn lemma_agree_trans(nodes: Seq<NodeView>, a: TypeView, b: TypeView, c: TypeView, k: nat)
    requires
        agree(nodes, a, b, k),
        agree(nodes, b, c, k),
    ensures
        agree(nodes, a, c, k),
    decreases k,
{
    if k > 0 {
        let ra = spec_representative(nodes, a);
        let rb = spec_representative(nodes, b);
        let rc = spec_representative(nodes, c);
        let j = (k - 1) as nat;
        match (ra, rb, rc) {
            (TypeView::Fn(ap, ar), TypeView::Fn(bp, br), TypeView::Fn(cp, cr)) => {
                lemma_agree_trans(nodes, *ar, *br, *cr, j);
                match (ap, bp, cp) {
                    (Some(x), Some(y), Some(z)) => {
                        lemma_agree_trans(nodes, *x, *y, *z, j);
                    },
                    _ => {},
                }
            },
            (TypeView::Record(af), TypeView::Record(bf), TypeView::Record(cf)) => {
                lemma_names_missing_empty(cf, bf, cf.len());
                lemma_names_missing_empty(bf, af, bf.len());
                lemma_names_missing_empty(af, bf, af.len());
                lemma_names_missing_empty(bf, cf, bf.len());
                assert forall|i: int| 0 <= i < cf.len() implies has_field(af, #[trigger] cf[i].0) by {
                    assert(has_field(bf, cf[i].0));
                    let m = choose|m: int| 0 <= m < bf.len() && #[trigger] bf[m].0 == cf[i].0;
                    assert(has_field(af, bf[m].0));
                }
                assert forall|i: int| 0 <= i < af.len() implies has_field(cf, #[trigger] af[i].0) by {
                    assert(has_field(bf, af[i].0));
                    let m = choose|m: int| 0 <= m < bf.len() && #[trigger] bf[m].0 == af[i].0;
                    assert(has_field(cf, bf[m].0));
                }
                lemma_names_missing_none(cf, af, cf.len());
                lemma_names_missing_none(af, cf, af.len());
                assert forall|i: int| 0 <= i < cf.len() implies agree(
                    nodes,
                    field_type_from(af, (#[trigger] cf[i]).0, 0),
                    field_type_from(cf, cf[i].0, 0),
                    j,
                ) by {
                    let name = cf[i].0;
                    assert(has_field(bf, name));
                    let m = choose|m: int| 0 <= m < bf.len() && #[trigger] bf[m].0 == name;
                    assert(agree(nodes, field_type_from(af, bf[m].0, 0), field_type_from(bf, bf[m].0, 0), j));
                    lemma_agree_trans(
                        nodes,
                        field_type_from(af, name, 0),
                        field_type_from(bf, name, 0),
                        field_type_from(cf, name, 0),
                        j,
                    );
                }
            },
            _ => {},
        }
    }
}

/// Two types with the same representative agree.
pub proof fn lemma_agree_same_representative(nodes: Seq<NodeView>, a: TypeView, b: TypeView, k: nat)
    requires
        spec_representative(nodes, a) == spec_representative(nodes, b),
    ensures
        agree(nodes, a, b, k),
    decreases k,
{
    if k > 0 {
        let r = spec_representative(nodes, a);
        let j = (k - 1) as nat;
        match r {
            TypeView::Fn(p, body) => {
                if let Some(x) = p {
                    lemma_agree_same_representative(nodes, *x, *x, j);
                }
                lemma_agree_same_representative(nodes, *body, *body, j);
            },
            TypeView::Record(fields) => {
                assert forall|i: int| 0 <= i < fields.len() implies has_field(
                    fields,
                    #[trigger] fields[i].0,
                ) by {}
                lemma_names_missing_none(fields, fields, fields.len());
                assert forall|i: int| 0 <= i < fields.len() implies agree(
                    nodes,
                    field_type_from(fields, (#[trigger] fields[i]).0, 0),
                    field_type_from(fields, fields[i].0, 0),
                    j,
                ) by {
                    let t = field_type_from(fields, fields[i].0, 0);
                    lemma_agree_same_representative(nodes, t, t, j);
                }
            },
            _ => {},
        }
    }
}

/// Linking the free root `s` to the root `t` keeps every agreement.
pub proof fn lemma_link_keeps_agree(
    nodes: Seq<NodeView>,
    s: int,
    t: int,
    a: TypeView,
    b: TypeView,
    k: nat,
)
    requires
        0 <= s < nodes.len(),
        0 <= t < nodes.len(),
        s != t,
        nodes[s] is Free,
        !(nodes[t] is Reference),
        solutions_not_vars(nodes),
        agree(nodes, a, b, k),
    ensures
        agree(nodes.update(s, NodeView::Reference(t as nat)), a, b, k),
    decreases k,
{
    let linked = nodes.update(s, NodeView::Reference(t as nat));
    if k > 0 {
        let j = (k - 1) as nat;
        lemma_representative_after_link(nodes, s, t, a);
        lemma_representative_after_link(nodes, s, t, b);
        let ra = spec_representative(nodes, a);
        let rb = spec_representative(nodes, b);
        if ra == TypeView::Var(s as nat) || rb == TypeView::Var(s as nat) {
            lemma_agree_same_representative(linked, a, b, k);
        } else {
            match (rb, ra) {
                (TypeView::Fn(ep, eb), TypeView::Fn(fp, fb)) => {
                    if let (Some(x), Some(y)) = (ep, fp) {
                        lemma_link_keeps_agree(nodes, s, t, *y, *x, j);
                    }
                    lemma_link_keeps_agree(nodes, s, t, *fb, *eb, j);
                },
                (TypeView::Record(ef), TypeView::Record(ff)) => {
                    assert forall|i: int| 0 <= i < ef.len() implies agree(
                        linked,
                        field_type_from(ff, (#[trigger] ef[i]).0, 0),
                        field_type_from(ef, ef[i].0, 0),
                        j,
                    ) by {
                        lemma_link_keeps_agree(
                            nodes,
                            s,
                            t,
                            field_type_from(ff, ef[i].0, 0),
                            field_type_from(ef, ef[i].0, 0),
                            j,
                        );
                    }
                },
                _ => {},
            }
        }
    }
}

/// Solving the free root `s` to a type keeps every agreement.
pub proof fn lemma_solve_keeps_agree(
    nodes: Seq<NodeView>,
    s: int,
    c: TypeView,
    a: TypeView,
    b: TypeView,
    k: nat,
)
    requires
        0 <= s < nodes.len(),
        nodes[s] is Free,
        solutions_not_vars(nodes),
        agree(nodes, a, b, k),
    ensures
        agree(nodes.update(s, NodeView::Concrete(c)), a, b, k),
    decreases k,
{
    let solved = nodes.update(s, NodeView::Concrete(c));
    if k > 0 {
        let j = (k - 1) as nat;
        lemma_representative_after_solve(nodes, s, c, a);
        lemma_representative_after_solve(nodes, s, c, b);
        let ra = spec_representative(nodes, a);
        let rb = spec_representative(nodes, b);
        if ra == TypeView::Var(s as nat) || rb == TypeView::Var(s as nat) {
            lemma_agree_same_representative(solved, a, b, k);
        } else {
            match (rb, ra) {
                (TypeView::Fn(ep, eb), TypeView::Fn(fp, fb)) => {
                    if let (Some(x), Some(y)) = (ep, fp) {
                        lemma_solve_keeps_agree(nodes, s, c, *y, *x, j);
                    }
                    lemma_solve_keeps_agree(nodes, s, c, *fb, *eb, j);
                },
                (TypeView::Record(ef), TypeView::Record(ff)) => {
                    assert forall|i: int| 0 <= i < ef.len() implies agree(
                        solved,
                        field_type_from(ff, (#[trigger] ef[i]).0, 0),
                        field_type_from(ef, ef[i].0, 0),
                        j,
                    ) by {
                        lemma_solve_keeps_agree(
                            nodes,
                            s,
                            c,
                            field_type_from(ff, ef[i].0, 0),
                            field_type_from(ef, ef[i].0, 0),
                            j,
                        );
                    }
                },
                _ => {},
            }
        }
    }
}

/// What a step from `before` to `after` keeps, seen from the types `a`, `b` and `t`: the map's
/// size, that no variable is solved to a bare variable, the agreement of `a` with `b` to depth `k`, and `t`'s representative
/// if it is not a variable.
pub open spec fn keeps(
    before: Seq<NodeView>,
    after: Seq<NodeView>,
    a: TypeView,
    b: TypeView,
    k: nat,
    t: TypeView,
) -> bool {
    &&& after.len() == before.len()
    &&& solutions_not_vars(after)
    &&& refs_in_range(before) ==> refs_in_range(after)
    &&& agree(before, a, b, k) ==> agree(after, a, b, k)
    &&& !(spec_representative(before, t) is Var) ==> spec_representative(after, t)
        == spec_representative(before, t)
}

proof fn lemma_keeps_transitive(
    n1: Seq<NodeView>,
    n2: Seq<NodeView>,
    n3: Seq<NodeView>,
    a: TypeView,
    b: TypeView,
    k: nat,
    t: TypeView,
)
    requires
        keeps(n1, n2, a, b, k, t),
        keeps(n2, n3, a, b, k, t),
    ensures
        keeps(n1, n3, a, b, k, t),
{
}

/// A variable a representative names is a root, or was never minted.
pub proof fn lemma_representative_var_is_root(nodes: Seq<NodeView>, t: TypeView)
    requires
        solutions_not_vars(nodes),
        spec_representative(nodes, t) is Var,
    ensures
        root_or_unminted(nodes, spec_representative(nodes, t)->Var_0 as int),
        spec_root(nodes, spec_representative(nodes, t)->Var_0 as int) is Some ==> nodes[spec_representative(
            nodes,
            t,
        )->Var_0 as int] is Free,
{
    if let TypeView::Var(v) = t {
        if let Some(r) = spec_root(nodes, v as int) {
            lemma_root_in_range_of(nodes, v as int);
            assert(nodes[r] matches NodeView::Concrete(c) ==> !(c is Var));
            lemma_root_of_root(nodes, r);
        }
    }
}

/// Linking two roots, as unification does, keeps what [`keeps`] says.
proof fn lemma_union_vars_keeps(
    nodes: Seq<NodeView>,
    v1: nat,
    v2: nat,
    a: TypeView,
    b: TypeView,
    k: nat,
    t: TypeView,
)
    requires
        solutions_not_vars(nodes),
        root_or_unminted(nodes, v1 as int),
        root_or_unminted(nodes, v2 as int),
    ensures
        keeps(nodes, spec_union_vars(nodes, v1, v2).0, a, b, k, t),
{
    if v1 != v2 {
        if let (Some(r1), Some(r2)) = (spec_root(nodes, v1 as int), spec_root(nodes, v2 as int)) {
            lemma_root_in_range_of(nodes, v1 as int);
            lemma_root_in_range_of(nodes, v2 as int);
            match (nodes[r1], nodes[r2]) {
                (NodeView::Concrete(_), NodeView::Concrete(_)) => {},
                (NodeView::Concrete(_), _) => {
                    if agree(nodes, a, b, k) {
                        lemma_link_keeps_agree(nodes, r2, r1, a, b, k);
                    }
                    lemma_representative_after_link(nodes, r2, r1, t);
                },
                (_, NodeView::Concrete(_)) => {
                    if agree(nodes, a, b, k) {
                        lemma_link_keeps_agree(nodes, r1, r2, a, b, k);
                    }
                    lemma_representative_after_link(nodes, r1, r2, t);
                },
                _ => {
                    if agree(nodes, a, b, k) {
                        lemma_link_keeps_agree(nodes, r2, r1, a, b, k);
                    }
                    lemma_representative_after_link(nodes, r2, r1, t);
                },
            }
            let after = spec_union_vars(nodes, v1, v2).0;
            assert(solutions_not_vars(after)) by {
                assert forall|i: int| 0 <= i < after.len() implies (#[trigger] after[i] matches NodeView::Concrete(c)
                    ==> !(c is Var)) by {
                    assert(after[i] is Reference || after[i] == nodes[i]);
                }
            }
            if refs_in_range(nodes) {
                assert forall|i: int| 0 <= i < after.len() implies (#[trigger] after[i] matches NodeView::Reference(r)
                    ==> r < after.len()) by {
                    if after[i] != nodes[i] {
                        assert(after[i] == NodeView::Reference(r1 as nat) || after[i]
                            == NodeView::Reference(r2 as nat));
                    }
                }
            }
        }
    }
}

/// Unification keeps what [`keeps`] says.
pub proof fn lemma_unify_keeps(
    nodes: Seq<NodeView>,
    found: TypeView,
    expected: TypeView,
    fuel: nat,
    a: TypeView,
    b: TypeView,
    k: nat,
    t: TypeView,
)
    requires
        solutions_not_vars(nodes),
    ensures
        keeps(nodes, spec_unify(nodes, found, expected, fuel).0, a, b, k, t),
    decreases fuel, 0nat, 0nat,
{
    let e = spec_representative(nodes, expected);
    let f = spec_representative(nodes, found);
    if fuel > 0 {
        let g = (fuel - 1) as nat;
        match (e, f) {
            (TypeView::Var(v1), TypeView::Var(v2)) => {
                lemma_representative_var_is_root(nodes, expected);
                lemma_representative_var_is_root(nodes, found);
                lemma_union_vars_keeps(nodes, v1, v2, a, b, k, t);
            },
            (TypeView::Var(v), c) => {
                lemma_union_concrete_keeps(nodes, v, c, g, a, b, k, t);
            },
            (c, TypeView::Var(v)) => {
                lemma_union_concrete_keeps(nodes, v, c, g, a, b, k, t);
            },
            (TypeView::Fn(ep, eb), TypeView::Fn(fp, fb)) => {
                let (after_param, param_result) = match (ep, fp) {
                    (Some(x), Some(y)) => spec_unify(nodes, *y, *x, g),
                    _ => (nodes, Ok(())),
                };
                if let (Some(x), Some(y)) = (ep, fp) {
                    lemma_unify_keeps(nodes, *y, *x, g, a, b, k, t);
                }
                if param_result is Ok {
                    lemma_unify_keeps(after_param, *fb, *eb, g, a, b, k, t);
                    lemma_keeps_transitive(
                        nodes,
                        after_param,
                        spec_unify(after_param, *fb, *eb, g).0,
                        a,
                        b,
                        k,
                        t,
                    );
                }
            },
            (TypeView::Record(ef), TypeView::Record(ff)) => {
                lemma_unify_fields_keeps(nodes, ff, ef, ef.len(), g, a, b, k, t);
            },
            _ => {},
        }
    }
}

/// Solving a variable to a type that is not a bare variable keeps what [`keeps`] says.
proof fn lemma_union_concrete_keeps(
    nodes: Seq<NodeView>,
    v: nat,
    c: TypeView,
    fuel: nat,
    a: TypeView,
    b: TypeView,
    k: nat,
    t: TypeView,
)
    requires
        solutions_not_vars(nodes),
        !(c is Var),
    ensures
        keeps(nodes, spec_union_concrete(nodes, v, c, fuel).0, a, b, k, t),
    decreases fuel, 1nat, 0nat,
{
    if let Some(r) = spec_root(nodes, v as int) {
        lemma_root_in_range_of(nodes, v as int);
        match nodes[r] {
            NodeView::Concrete(rc) => {
                lemma_unify_keeps(nodes, c, rc, fuel, a, b, k, t);
            },
            _ => {
                let solved = nodes.update(r, NodeView::Concrete(c));
                if agree(nodes, a, b, k) {
                    lemma_solve_keeps_agree(nodes, r, c, a, b, k);
                }
                lemma_representative_after_solve(nodes, r, c, t);
                assert(solutions_not_vars(solved)) by {
                    assert forall|i: int| 0 <= i < solved.len() implies (#[trigger] solved[i] matches NodeView::Concrete(d)
                        ==> !(d is Var)) by {
                        if i != r {
                            assert(solved[i] == nodes[i]);
                        }
                    }
                }
                if refs_in_range(nodes) {
                    assert forall|i: int| 0 <= i < solved.len() implies (#[trigger] solved[i] matches NodeView::Reference(q)
                        ==> q < solved.len()) by {
                        if i != r {
                            assert(solved[i] == nodes[i]);
                        }
                    }
                }
            },
        }
    }
}

/// Unifying fields one after another keeps what [`keeps`] says.
pub proof fn lemma_unify_fields_keeps(
    nodes: Seq<NodeView>,
    found: Seq<(Seq<char>, TypeView)>,
    expected: Seq<(Seq<char>, TypeView)>,
    n: nat,
    fuel: nat,
    a: TypeView,
    b: TypeView,
    k: nat,
    t: TypeView,
)
    requires
        n <= expected.len(),
        solutions_not_vars(nodes),
    ensures
        keeps(nodes, spec_unify_fields(nodes, found, expected, n, fuel).0, a, b, k, t),
    decreases fuel, 1nat, n,
{
    if n > 0 {
        lemma_unify_fields_keeps(nodes, found, expected, (n - 1) as nat, fuel, a, b, k, t);
        let (before, result) = spec_unify_fields(nodes, found, expected, (n - 1) as nat, fuel);
        if result is Ok {
            let name = expected[n - 1].0;
            lemma_unify_keeps(before, field_type_from(found, name, 0), expected[n - 1].1, fuel, a, b, k, t);
            lemma_keeps_transitive(
                nodes,
                before,
                spec_unify(before, field_type_from(found, name, 0), expected[n - 1].1, fuel).0,
                a,
                b,
                k,
                t,
            );
        }
    }
}

proof fn lemma_unify_agrees(
    nodes: Seq<NodeView>,
    found: TypeView,
    expected: TypeView,
    fuel: nat,
    k: nat,
)
    requires
        solutions_not_vars(nodes),
    ensures
        spec_unify(nodes, found, expected, fuel).1 is Ok ==> agree(
            spec_unify(nodes, found, expected, fuel).0,
            found,
            expected,
            k,
        ),
    decreases fuel, 0nat, 0nat,
{
    let (after, result) = spec_unify(nodes, found, expected, fuel);
    let e = spec_representative(nodes, expected);
    let f = spec_representative(nodes, found);
    if fuel > 0 && k > 0 && result is Ok {
        let g = (fuel - 1) as nat;
        let j = (k - 1) as nat;
        match (e, f) {
            (TypeView::Var(v1), TypeView::Var(v2)) => {
                if v1 != v2 {
                    lemma_representative_var_is_root(nodes, expected);
                    lemma_representative_var_is_root(nodes, found);
                    let r1 = v1 as int;
                    let r2 = v2 as int;
                    lemma_root_in_range_of(nodes, r1);
                    lemma_root_in_range_of(nodes, r2);
                    lemma_representative_after_link(nodes, r2, r1, expected);
                    lemma_representative_after_link(nodes, r2, r1, found);
                }
            },
            (TypeView::Var(v), c) => {
                lemma_representative_var_is_root(nodes, expected);
                if spec_root(nodes, v as int) is Some {
                    lemma_root_in_range_of(nodes, v as int);
                    let r = v as int;
                    lemma_representative_after_solve(nodes, r, c, expected);
                    lemma_representative_after_solve(nodes, r, c, found);
                    lemma_union_concrete_keeps(nodes, v, c, g, found, expected, k, found);
                    lemma_agree_same_representative(after, found, expected, k);
                }
            },
            (c, TypeView::Var(v)) => {
                lemma_representative_var_is_root(nodes, found);
                assert(spec_unify(nodes, found, expected, fuel) == spec_union_concrete(nodes, v, c, g));
                if spec_root(nodes, v as int) is Some {
                    lemma_root_in_range_of(nodes, v as int);
                    let r = v as int;
                    assert(after == nodes.update(r, NodeView::Concrete(c)));
                    lemma_representative_after_solve(nodes, r, c, expected);
                    lemma_representative_after_solve(nodes, r, c, found);
                    lemma_union_concrete_keeps(nodes, v, c, g, found, expected, k, expected);
                    lemma_agree_same_representative(after, found, expected, k);
                }
            },
            (TypeView::Fn(ep, eb), TypeView::Fn(fp, fb)) => {
                let (after_param, param_result) = match (ep, fp) {
                    (Some(x), Some(y)) => spec_unify(nodes, *y, *x, g),
                    _ => (nodes, Ok(())),
                };
                if let (Some(x), Some(y)) = (ep, fp) {
                    lemma_unify_agrees(nodes, *y, *x, g, j);
                    lemma_unify_keeps(nodes, *y, *x, g, *y, *x, j, found);
                    lemma_unify_keeps(nodes, *y, *x, g, *y, *x, j, expected);
                    lemma_unify_keeps(after_param, *fb, *eb, g, *y, *x, j, found);
                }
                lemma_unify_agrees(after_param, *fb, *eb, g, j);
                lemma_unify_keeps(after_param, *fb, *eb, g, *fb, *eb, j, found);
                lemma_unify_keeps(after_param, *fb, *eb, g, *fb, *eb, j, expected);
            },
            (TypeView::Record(ef), TypeView::Record(ff)) => {
                lemma_unify_fields_agree(nodes, ff, ef, ef.len(), g, j);
                assert forall|i: int| 0 <= i < ef.len() implies agree(
                    after,
                    field_type_from(ff, (#[trigger] ef[i]).0, 0),
                    field_type_from(ef, ef[i].0, 0),
                    j,
                ) by {
                    let first = lemma_first_occurrence(ef, ef[i].0, 0, i);
                    lemma_field_type_first_match(ef, ef[i].0, 0, first as nat);
                    assert(agree(after, field_type_from(ff, ef[first].0, 0), ef[first].1, j));
                }
                lemma_unify_fields_keeps(nodes, ff, ef, ef.len(), g, found, expected, k, found);
                lemma_unify_fields_keeps(nodes, ff, ef, ef.len(), g, found, expected, k, expected);
            },
            _ => {
            },
        }
    }
}

proof fn lemma_unify_fields_agree(
    nodes: Seq<NodeView>,
    found: Seq<(Seq<char>, TypeView)>,
    expected: Seq<(Seq<char>, TypeView)>,
    n: nat,
    fuel: nat,
    k: nat,
)
    requires
        n <= expected.len(),
        solutions_not_vars(nodes),
    ensures
        spec_unify_fields(nodes, found, expected, n, fuel).1 is Ok ==> forall|i: int|
            0 <= i < n ==> agree(
                spec_unify_fields(nodes, found, expected, n, fuel).0,
                field_type_from(found, expected[i].0, 0),
                #[trigger] expected[i].1,
                k,
            ),
    decreases fuel, 1nat, n,
{
    if n > 0 {
        lemma_unify_fields_agree(nodes, found, expected, (n - 1) as nat, fuel, k);
        lemma_unify_fields_keeps(nodes, found, expected, (n - 1) as nat, fuel, found[0].1, found[0].1, 0, TypeView::Unit);
        let (before, result) = spec_unify_fields(nodes, found, expected, (n - 1) as nat, fuel);
        if result is Ok {
            let name = expected[n - 1].0;
            let last = field_type_from(found, name, 0);
            lemma_unify_agrees(before, last, expected[n - 1].1, fuel, k);
            let after = spec_unify(before, last, expected[n - 1].1, fuel).0;
            assert forall|i: int| 0 <= i < n - 1 implies agree(
                after,
                field_type_from(found, expected[i].0, 0),
                #[trigger] expected[i].1,
                k,
            ) by {
                lemma_unify_keeps(
                    before,
                    last,
                    expected[n - 1].1,
                    fuel,
                    field_type_from(found, expected[i].0, 0),
                    expected[i].1,
                    k,
                    TypeView::Unit,
                );
            }
        }
    }
}

/// Unification is sound: when unifying `found` with `expected` succeeds, the two agree, to
/// any depth, in the map it leaves.
pub proof fn lemma_unify_sound(nodes: Seq<NodeView>, found: TypeView, expected: TypeView, k: nat)
    requires
        solutions_not_vars(nodes),
        spec_unify(nodes, found, expected, UNIFY_FUEL as nat).1 is Ok,
    ensures
        agree(spec_unify(nodes, found, expected, UNIFY_FUEL as nat).0, found, expected, k),
{
    lemma_unify_agrees(nodes, found, expected, UNIFY_FUEL as nat, k);
}

/// The first field named like field `i`, searching from `k` where none before is so named.
proof fn lemma_first_occurrence(fields: Seq<(Seq<char>, TypeView)>, name: Seq<char>, k: int, i: int) -> (first: int)
    requires
        0 <= k <= i < fields.len(),
        fields[i].0 == name,
        forall|m: int| 0 <= m < k ==> #[trigger] fields[m].0 != name,
    ensures
        0 <= first <= i,
        fields[first].0 == name,
        forall|m: int| 0 <= m < first ==> #[trigger] fields[m].0 != name,
    decreases i - k,
{
    if fields[k].0 == name {
        k
    } else {
        lemma_first_occurrence(fields, name, k + 1, i)
    }
}

proof fn lemma_mint_keeps_found_roots(nodes: Seq<NodeView>, x: int, fuel: nat)
    requires
        refs_in_range(nodes),
        root_within(nodes, x, fuel) is Some,
    ensures
        root_within(nodes.push(NodeView::Free), x, fuel) == root_within(nodes, x, fuel),
    decreases fuel,
{
    if 0 <= x < nodes.len() && nodes[x] is Reference && fuel > 0 {
        lemma_mint_keeps_found_roots(nodes, nodes[x]->Reference_0 as int, (fuel - 1) as nat);
    }
}

proof fn lemma_mint_keeps_missing_roots(nodes: Seq<NodeView>, x: int, fuel: nat)
    requires
        refs_in_range(nodes),
        0 <= x < nodes.len(),
        root_within(nodes, x, fuel) is None,
    ensures
        root_within(nodes.push(NodeView::Free), x, fuel) is None,
    decreases fuel,
{
    if nodes[x] is Reference && fuel > 0 {
        lemma_mint_keeps_missing_roots(nodes, nodes[x]->Reference_0 as int, (fuel - 1) as nat);
    }
}

/// Minting a fresh variable leaves every root as it was, and the fresh slot is its own root.
pub proof fn lemma_root_after_mint(nodes: Seq<NodeView>, x: int)
    requires
        refs_in_range(nodes),
    ensures
        spec_root(nodes.push(NodeView::Free), x) == if x == nodes.len() {
            Some(x)
        } else {
            spec_root(nodes, x)
        },
{
    let len = nodes.len();
    let minted = nodes.push(NodeView::Free);
    if x == len {
        assert(minted[x] == NodeView::Free);
    } else if 0 <= x < len {
        if spec_root(nodes, x) is Some {
            lemma_root_path(nodes, x, len);
            assert(root_within(nodes, x, len + 1) == spec_root(nodes, x));
            lemma_mint_keeps_found_roots(nodes, x, len + 1);
        } else {
            if root_within(nodes, x, len + 1) is Some {
                lemma_root_path(nodes, x, len + 1);
                let m = steps(nodes, x, len + 1);
                lemma_root_found_is_root(nodes, x, len + 1);
                lemma_path_short(nodes, x, m);
                assert(root_within(nodes, x, len) == root_within(nodes, x, len + 1));
            }
            lemma_mint_keeps_missing_roots(nodes, x, len + 1);
        }
    }
}

/// Minting a fresh variable changes no representative.
pub proof fn lemma_representative_after_mint(nodes: Seq<NodeView>, t: TypeView)
    requires
        refs_in_range(nodes),
    ensures
        spec_representative(nodes.push(NodeView::Free), t) == spec_representative(nodes, t),
{
    if let TypeView::Var(v) = t {
        lemma_root_after_mint(nodes, v as int);
        if let Some(r) = spec_root(nodes, v as int) {
            lemma_root_in_range_of(nodes, v as int);
        }
    }
}

/// Minting a fresh variable changes no agreement.
pub proof fn lemma_agree_after_mint(nodes: Seq<NodeView>, a: TypeView, b: TypeView, k: nat)
    requires
        refs_in_range(nodes),
    ensures
        agree(nodes.push(NodeView::Free), a, b, k) == agree(nodes, a, b, k),
    decreases k,
{
    if k > 0 {
        let j = (k - 1) as nat;
        lemma_representative_after_mint(nodes, a);
        lemma_representative_after_mint(nodes, b);
        match (spec_representative(nodes, b), spec_representative(nodes, a)) {
            (TypeView::Fn(ep, eb), TypeView::Fn(fp, fb)) => {
                if let (Some(x), Some(y)) = (ep, fp) {
                    lemma_agree_after_mint(nodes, *y, *x, j);
                }
                lemma_agree_after_mint(nodes, *fb, *eb, j);
            },
            (TypeView::Record(ef), TypeView::Record(ff)) => {
                assert forall|i: int| 0 <= i < ef.len() implies agree(
                    nodes.push(NodeView::Free),
                    field_type_from(ff, (#[trigger] ef[i]).0, 0),
                    field_type_from(ef, ef[i].0, 0),
                    j,
                ) == agree(nodes, field_type_from(ff, ef[i].0, 0), field_type_from(ef, ef[i].0, 0), j) by {
                    lemma_agree_after_mint(
                        nodes,
                        field_type_from(ff, ef[i].0, 0),
                        field_type_from(ef, ef[i].0, 0),
                        j,
                    );
                }
            },
            _ => {},
        }
    }
}

} // verus!
