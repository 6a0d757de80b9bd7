//! Why substitution always finishes on the maps unification builds: the occurs check keeps
//! every solution from reaching back to its own class, so the solutions can be ranked, and a
//! chain of solutions never passes more solved classes than the map has.

use vstd::prelude::*;
use vstd::set_lib::{lemma_int_range, lemma_len_subset, set_int_range};

use super::agreement::{
    lemma_representative_var_is_root, lemma_unify_fields_keeps, lemma_unify_keeps,
    lemma_representative_after_link, lemma_representative_after_mint,
    lemma_representative_after_solve, lemma_root_after_link, lemma_root_after_mint,
    lemma_root_after_solve, lemma_root_in_range_of, lemma_root_of_root, refs_in_range,
    solutions_not_vars,
};
use super::substitution::{lemma_subst_idempotent, settled, subst_completes};
use super::typed_ast::TypeView;
use super::unification::{
    NodeView, UNIFY_FUEL, spec_subst, field_type_from, occurs_in_fields, spec_occurs, spec_representative,
    spec_root, spec_union_concrete, spec_union_vars, spec_unify, spec_unify_fields,
};

verus! {

/// Every variable of `t` whose class is solved has its root ranked below `bound`.
pub open spec fn below(nodes: Seq<NodeView>, rank: spec_fn(int) -> nat, t: TypeView, bound: nat) -> bool
    decreases t,
{
    match t {
        TypeView::Var(v) => spec_representative(nodes, t) is Var || rank(
            spec_root(nodes, v as int)->Some_0,
        ) < bound,
        TypeView::Fn(p, r) => (match p {
            Some(p) => below(nodes, rank, *p, bound),
            None => true,
        }) && below(nodes, rank, *r, bound),
        TypeView::Record(fields) => forall|i: int|
            0 <= i < fields.len() ==> below(nodes, rank, #[trigger] fields[i].1, bound),
        _ => true,
    }
}

/// `rank` ranks the solutions of `nodes`: the solved classes a solution mentions rank below
/// the class it solves.
pub open spec fn ranked(nodes: Seq<NodeView>, rank: spec_fn(int) -> nat) -> bool {
    forall|r: int|
        0 <= r < nodes.len() ==> (#[trigger] nodes[r] matches NodeView::Concrete(c) ==> below(
            nodes,
            rank,
            c,
            rank(r),
        ))
}

/// No solution reaches back to the class it solves: the solutions can be ranked.
pub open spec fn acyclic(nodes: Seq<NodeView>) -> bool {
    exists|rank: spec_fn(int) -> nat| #[trigger] ranked(nodes, rank)
}

/// The solved slots ranked below `bound`.
pub open spec fn solved_below(nodes: Seq<NodeView>, rank: spec_fn(int) -> nat, bound: nat) -> Set<int> {
    Set::new(|r: int| 0 <= r < nodes.len() && nodes[r] is Concrete && rank(r) < bound)
}

/// One more than the highest rank of a solved slot among the first `n`.
pub open spec fn rank_bound(nodes: Seq<NodeView>, rank: spec_fn(int) -> nat, n: int) -> nat
    decreases n,
{
    if n <= 0 {
        0
    } else {
        let b = rank_bound(nodes, rank, n - 1);
        if nodes[n - 1] is Concrete && rank(n - 1) + 1 > b {
            (rank(n - 1) + 1) as nat
        } else {
            b
        }
    }
}

proof fn lemma_rank_bound(nodes: Seq<NodeView>, rank: spec_fn(int) -> nat, n: int, r: int)
    requires
        0 <= r < n <= nodes.len(),
        nodes[r] is Concrete,
    ensures
        rank(r) < rank_bound(nodes, rank, n),
    decreases n,
{
    if r < n - 1 {
        lemma_rank_bound(nodes, rank, n - 1, r);
    }
}

pub proof fn lemma_solved_below_size(nodes: Seq<NodeView>, rank: spec_fn(int) -> nat, bound: nat)
    ensures
        solved_below(nodes, rank, bound).finite(),
        solved_below(nodes, rank, bound).len() <= nodes.len(),
{
    lemma_int_range(0, nodes.len() as int);
    lemma_len_subset(solved_below(nodes, rank, bound), set_int_range(0, nodes.len() as int));
}

/// A variable whose representative is not a variable has a solved root.
pub proof fn lemma_solved_root(nodes: Seq<NodeView>, v: nat)
    requires
        !(spec_representative(nodes, TypeView::Var(v)) is Var),
    ensures
        spec_root(nodes, v as int) is Some,
        0 <= spec_root(nodes, v as int)->Some_0 < nodes.len(),
        nodes[spec_root(nodes, v as int)->Some_0] == NodeView::Concrete(
            spec_representative(nodes, TypeView::Var(v)),
        ),
{
    lemma_root_in_range_of(nodes, v as int);
}

/// With a bound above every rank, every type is below it.
pub proof fn lemma_below_rank_bound(nodes: Seq<NodeView>, rank: spec_fn(int) -> nat, t: TypeView)
    ensures
        below(nodes, rank, t, rank_bound(nodes, rank, nodes.len() as int)),
    decreases t,
{
    match t {
        TypeView::Var(v) => {
            if !(spec_representative(nodes, t) is Var) {
                lemma_solved_root(nodes, v);
                lemma_rank_bound(
                    nodes,
                    rank,
                    nodes.len() as int,
                    spec_root(nodes, v as int)->Some_0,
                );
            }
        },
        TypeView::Fn(p, r) => {
            if let Some(p) = p {
                lemma_below_rank_bound(nodes, rank, *p);
            }
            lemma_below_rank_bound(nodes, rank, *r);
        },
        TypeView::Record(fields) => {
            assert forall|i: int| 0 <= i < fields.len() implies below(
                nodes,
                rank,
                #[trigger] fields[i].1,
                rank_bound(nodes, rank, nodes.len() as int),
            ) by {
                lemma_below_rank_bound(nodes, rank, fields[i].1);
            }
        },
        _ => {},
    }
}

/// More fuel never stops a substitution that completes.
pub proof fn lemma_completes_with_more_fuel(nodes: Seq<NodeView>, t: TypeView, f: nat, g: nat)
    requires
        subst_completes(nodes, t, f),
        f <= g,
    ensures
        subst_completes(nodes, t, g),
    decreases f, t,
{
    match t {
        TypeView::Var(v) => {
            if let Some(r) = spec_root(nodes, v as int) {
                if let NodeView::Concrete(c) = nodes[r] {
                    lemma_completes_with_more_fuel(nodes, c, (f - 1) as nat, (g - 1) as nat);
                }
            }
        },
        TypeView::Fn(p, r) => {
            if let Some(p) = p {
                lemma_completes_with_more_fuel(nodes, *p, f, g);
            }
            lemma_completes_with_more_fuel(nodes, *r, f, g);
        },
        TypeView::Record(fields) => {
            assert forall|i: int| 0 <= i < fields.len() implies subst_completes(
                nodes,
                #[trigger] fields[i].1,
                g,
            ) by {
                lemma_completes_with_more_fuel(nodes, fields[i].1, f, g);
            }
        },
        _ => {},
    }
}

/// Below `bound`, substitution completes within as many steps as there are solved classes
/// ranked below `bound`: each step enters a class ranked lower than the last.
proof fn lemma_ranked_completes(nodes: Seq<NodeView>, rank: spec_fn(int) -> nat, t: TypeView, bound: nat)
    requires
        solutions_not_vars(nodes),
        ranked(nodes, rank),
        below(nodes, rank, t, bound),
    ensures
        subst_completes(nodes, t, solved_below(nodes, rank, bound).len()),
    decreases bound, t,
{
    let n = solved_below(nodes, rank, bound).len();
    lemma_solved_below_size(nodes, rank, bound);
    match t {
        TypeView::Var(v) => {
            if !(spec_representative(nodes, t) is Var) {
                lemma_solved_root(nodes, v);
                let r = spec_root(nodes, v as int)->Some_0;
                let c = spec_representative(nodes, t);
                assert(nodes[r] matches NodeView::Concrete(d) ==> below(nodes, rank, d, rank(r)));
                lemma_ranked_completes(nodes, rank, c, rank(r));
                let inner = solved_below(nodes, rank, rank(r));
                let outer = solved_below(nodes, rank, bound);
                lemma_solved_below_size(nodes, rank, rank(r));
                assert(outer.contains(r));
                assert(inner.subset_of(outer.remove(r)));
                lemma_len_subset(inner, outer.remove(r));
                lemma_completes_with_more_fuel(nodes, c, inner.len(), (n - 1) as nat);
            } else if let Some(r) = spec_root(nodes, v as int) {
                lemma_root_in_range_of(nodes, v as int);
            }
        },
        TypeView::Fn(p, r) => {
            if let Some(p) = p {
                lemma_ranked_completes(nodes, rank, *p, bound);
            }
            lemma_ranked_completes(nodes, rank, *r, bound);
        },
        TypeView::Record(fields) => {
            assert forall|i: int| 0 <= i < fields.len() implies subst_completes(
                nodes,
                #[trigger] fields[i].1,
                n,
            ) by {
                lemma_ranked_completes(nodes, rank, fields[i].1, bound);
            }
        },
        _ => {},
    }
}

/// In a map with no variable solved to a bare variable and no solution reaching back to its
/// own class, substituting any type completes within as many steps as the map has slots.
pub proof fn lemma_acyclic_completes(nodes: Seq<NodeView>, t: TypeView, fuel: nat)
    requires
        solutions_not_vars(nodes),
        acyclic(nodes),
        nodes.len() <= fuel,
    ensures
        subst_completes(nodes, t, fuel),
{
    let rank = choose|rank: spec_fn(int) -> nat| #[trigger] ranked(nodes, rank);
    let bound = rank_bound(nodes, rank, nodes.len() as int);
    lemma_below_rank_bound(nodes, rank, t);
    lemma_ranked_completes(nodes, rank, t, bound);
    lemma_solved_below_size(nodes, rank, bound);
    lemma_completes_with_more_fuel(nodes, t, solved_below(nodes, rank, bound).len(), fuel);
}

/// `t` reaches the free class `s`: it mentions a variable of `s`, or a variable whose class is
/// solved, ranked below `bound`, to a type that reaches `s` (below that class's rank).
pub open spec fn reaches(
    nodes: Seq<NodeView>,
    rank: spec_fn(int) -> nat,
    t: TypeView,
    s: int,
    bound: nat,
) -> bool
    decreases bound, t,
{
    match t {
        TypeView::Var(v) => match spec_representative(nodes, t) {
            TypeView::Var(w) => w == s,
            c => {
                let r = spec_root(nodes, v as int)->Some_0;
                rank(r) < bound && reaches(nodes, rank, c, s, rank(r))
            },
        },
        TypeView::Fn(p, r) => (match p {
            Some(p) => reaches(nodes, rank, *p, s, bound),
            None => false,
        }) || reaches(nodes, rank, *r, s, bound),
        TypeView::Record(fields) => exists|i: int|
            0 <= i < fields.len() && reaches(nodes, rank, #[trigger] fields[i].1, s, bound),
        _ => false,
    }
}

/// More fuel never hides an occurrence.
pub proof fn lemma_occurs_with_more_fuel(nodes: Seq<NodeView>, root: int, t: TypeView, f: nat, g: nat)
    requires
        spec_occurs(nodes, root, t, f),
        f <= g,
    ensures
        spec_occurs(nodes, root, t, g),
    decreases f, t, 0nat,
{
    match t {
        TypeView::Var(v) => {
            if let Some(r) = spec_root(nodes, v as int) {
                if let NodeView::Concrete(c) = nodes[r] {
                    if root != r {
                        lemma_occurs_with_more_fuel(nodes, root, c, (f - 1) as nat, (g - 1) as nat);
                    }
                }
            }
        },
        TypeView::Fn(p, r) => {
            if let Some(p) = p {
                if spec_occurs(nodes, root, *p, f) {
                    lemma_occurs_with_more_fuel(nodes, root, *p, f, g);
                }
            }
            if spec_occurs(nodes, root, *r, f) {
                lemma_occurs_with_more_fuel(nodes, root, *r, f, g);
            }
        },
        TypeView::Record(fields) => {
            lemma_occurs_in_fields_with_more_fuel(nodes, root, fields, fields.len(), f, g);
        },
        _ => {},
    }
}

proof fn lemma_occurs_in_fields_with_more_fuel(
    nodes: Seq<NodeView>,
    root: int,
    fields: Seq<(Seq<char>, TypeView)>,
    n: nat,
    f: nat,
    g: nat,
)
    requires
        occurs_in_fields(nodes, root, fields, n, f),
        f <= g,
    ensures
        occurs_in_fields(nodes, root, fields, n, g),
    decreases f, fields, n,
{
    if n > 0 {
        if occurs_in_fields(nodes, root, fields, (n - 1) as nat, f) {
            lemma_occurs_in_fields_with_more_fuel(nodes, root, fields, (n - 1) as nat, f, g);
        } else {
            lemma_occurs_with_more_fuel(nodes, root, fields[n - 1].1, f, g);
        }
    }
}

proof fn lemma_occurs_in_a_field(
    nodes: Seq<NodeView>,
    root: int,
    fields: Seq<(Seq<char>, TypeView)>,
    n: nat,
    i: int,
    fuel: nat,
)
    requires
        0 <= i < n <= fields.len(),
        spec_occurs(nodes, root, fields[i].1, fuel),
    ensures
        occurs_in_fields(nodes, root, fields, n, fuel),
    decreases n,
{
    if i < n - 1 {
        lemma_occurs_in_a_field(nodes, root, fields, (n - 1) as nat, i, fuel);
    }
}

/// Reaching the free class `s` below `bound` is an occurrence the occurs check finds with as
/// much fuel as there are solved classes ranked below `bound`.
proof fn lemma_reaches_occurs(
    nodes: Seq<NodeView>,
    rank: spec_fn(int) -> nat,
    t: TypeView,
    s: int,
    bound: nat,
)
    requires
        solutions_not_vars(nodes),
        ranked(nodes, rank),
        0 <= s < nodes.len(),
        nodes[s] is Free,
        reaches(nodes, rank, t, s, bound),
    ensures
        spec_occurs(nodes, s, t, solved_below(nodes, rank, bound).len()),
    decreases bound, t,
{
    let n = solved_below(nodes, rank, bound).len();
    lemma_solved_below_size(nodes, rank, bound);
    match t {
        TypeView::Var(v) => {
            lemma_root_of_root(nodes, s);
            if !(spec_representative(nodes, t) is Var) {
                lemma_solved_root(nodes, v);
                let r = spec_root(nodes, v as int)->Some_0;
                let c = spec_representative(nodes, t);
                lemma_reaches_occurs(nodes, rank, c, s, rank(r));
                let inner = solved_below(nodes, rank, rank(r));
                let outer = solved_below(nodes, rank, bound);
                lemma_solved_below_size(nodes, rank, rank(r));
                assert(outer.contains(r));
                assert(inner.subset_of(outer.remove(r)));
                lemma_len_subset(inner, outer.remove(r));
                lemma_occurs_with_more_fuel(nodes, s, c, inner.len(), (n - 1) as nat);
            } else if let Some(r) = spec_root(nodes, v as int) {
                lemma_root_in_range_of(nodes, v as int);
            }
        },
        TypeView::Fn(p, r) => {
            if let Some(p) = p {
                if reaches(nodes, rank, *p, s, bound) {
                    lemma_reaches_occurs(nodes, rank, *p, s, bound);
                }
            }
            if reaches(nodes, rank, *r, s, bound) {
                lemma_reaches_occurs(nodes, rank, *r, s, bound);
            }
        },
        TypeView::Record(fields) => {
            let i = choose|i: int|
                0 <= i < fields.len() && reaches(nodes, rank, #[trigger] fields[i].1, s, bound);
            lemma_reaches_occurs(nodes, rank, fields[i].1, s, bound);
            lemma_occurs_in_a_field(nodes, s, fields, fields.len(), i, n);
        },
        _ => {},
    }
}

proof fn lemma_below_after_mint(nodes: Seq<NodeView>, rank: spec_fn(int) -> nat, t: TypeView, bound: nat)
    requires
        refs_in_range(nodes),
        below(nodes, rank, t, bound),
    ensures
        below(nodes.push(NodeView::Free), rank, t, bound),
    decreases t,
{
    match t {
        TypeView::Var(v) => {
            lemma_representative_after_mint(nodes, t);
            lemma_root_after_mint(nodes, v as int);
            if !(spec_representative(nodes, t) is Var) {
                lemma_solved_root(nodes, v);
            }
        },
        TypeView::Fn(p, r) => {
            if let Some(p) = p {
                lemma_below_after_mint(nodes, rank, *p, bound);
            }
            lemma_below_after_mint(nodes, rank, *r, bound);
        },
        TypeView::Record(fields) => {
            assert forall|i: int| 0 <= i < fields.len() implies below(
                nodes.push(NodeView::Free),
                rank,
                #[trigger] fields[i].1,
                bound,
            ) by {
                lemma_below_after_mint(nodes, rank, fields[i].1, bound);
            }
        },
        _ => {},
    }
}

/// Minting a fresh variable keeps the solutions acyclic.
pub proof fn lemma_mint_keeps_acyclic(nodes: Seq<NodeView>)
    requires
        refs_in_range(nodes),
        acyclic(nodes),
    ensures
        acyclic(nodes.push(NodeView::Free)),
{
    let rank = choose|rank: spec_fn(int) -> nat| #[trigger] ranked(nodes, rank);
    let minted = nodes.push(NodeView::Free);
    assert forall|r: int| 0 <= r < minted.len() implies (#[trigger] minted[r] matches NodeView::Concrete(c)
        ==> below(minted, rank, c, rank(r))) by {
        if r < nodes.len() {
            assert(minted[r] == nodes[r]);
            if let NodeView::Concrete(c) = nodes[r] {
                lemma_below_after_mint(nodes, rank, c, rank(r));
            }
        }
    }
    assert(ranked(minted, rank));
}

proof fn lemma_below_after_link(
    nodes: Seq<NodeView>,
    rank: spec_fn(int) -> nat,
    s: int,
    t: int,
    a: TypeView,
    bound: nat,
)
    requires
        0 <= s < nodes.len(),
        0 <= t < nodes.len(),
        s != t,
        nodes[s] is Free,
        nodes[t] is Free,
        solutions_not_vars(nodes),
        below(nodes, rank, a, bound),
    ensures
        below(nodes.update(s, NodeView::Reference(t as nat)), rank, a, bound),
    decreases a,
{
    match a {
        TypeView::Var(v) => {
            lemma_representative_after_link(nodes, s, t, a);
            lemma_root_after_link(nodes, s, t, v as int);
            if !(spec_representative(nodes, a) is Var) {
                lemma_solved_root(nodes, v);
            }
        },
        TypeView::Fn(p, r) => {
            if let Some(p) = p {
                lemma_below_after_link(nodes, rank, s, t, *p, bound);
            }
            lemma_below_after_link(nodes, rank, s, t, *r, bound);
        },
        TypeView::Record(fields) => {
            assert forall|i: int| 0 <= i < fields.len() implies below(
                nodes.update(s, NodeView::Reference(t as nat)),
                rank,
                #[trigger] fields[i].1,
                bound,
            ) by {
                lemma_below_after_link(nodes, rank, s, t, fields[i].1, bound);
            }
        },
        _ => {},
    }
}

/// Linking one free class to another keeps the solutions acyclic.
pub proof fn lemma_link_keeps_acyclic(nodes: Seq<NodeView>, s: int, t: int)
    requires
        0 <= s < nodes.len(),
        0 <= t < nodes.len(),
        s != t,
        nodes[s] is Free,
        nodes[t] is Free,
        solutions_not_vars(nodes),
        acyclic(nodes),
    ensures
        acyclic(nodes.update(s, NodeView::Reference(t as nat))),
{
    let rank = choose|rank: spec_fn(int) -> nat| #[trigger] ranked(nodes, rank);
    let linked = nodes.update(s, NodeView::Reference(t as nat));
    assert forall|r: int| 0 <= r < linked.len() implies (#[trigger] linked[r] matches NodeView::Concrete(c)
        ==> below(linked, rank, c, rank(r))) by {
        if r != s {
            assert(linked[r] == nodes[r]);
            if let NodeView::Concrete(c) = nodes[r] {
                lemma_below_after_link(nodes, rank, s, t, c, rank(r));
            }
        }
    }
    assert(ranked(linked, rank));
}

/// The ranking after solving the free class `s`: `s` ranks above every solved class, and a
/// solved class that reaches `s` moves above it.
pub open spec fn rank_after_solve(
    nodes: Seq<NodeView>,
    rank: spec_fn(int) -> nat,
    s: int,
) -> spec_fn(int) -> nat {
    let top = rank_bound(nodes, rank, nodes.len() as int);
    |r: int|
        if r == s {
            top
        } else if 0 <= r < nodes.len() && nodes[r] is Concrete && reaches(
            nodes,
            rank,
            nodes[r]->Concrete_0,
            s,
            rank(r),
        ) {
            (rank(r) + top + 1) as nat
        } else {
            rank(r)
        }
}

/// A variable standing for the free class `s` has `s` as its root.
proof fn lemma_stands_for_free_root(nodes: Seq<NodeView>, s: int, v: nat)
    requires
        solutions_not_vars(nodes),
        0 <= s < nodes.len(),
        nodes[s] is Free,
        spec_representative(nodes, TypeView::Var(v)) == TypeView::Var(s as nat),
    ensures
        spec_root(nodes, v as int) == Some(s),
{
    lemma_root_of_root(nodes, s);
    if let Some(r) = spec_root(nodes, v as int) {
        lemma_root_in_range_of(nodes, v as int);
        assert(nodes[r] matches NodeView::Concrete(c) ==> !(c is Var));
    }
}

proof fn lemma_below_after_solve_raised(
    nodes: Seq<NodeView>,
    rank: spec_fn(int) -> nat,
    s: int,
    c: TypeView,
    a: TypeView,
    bound: nat,
)
    requires
        0 <= s < nodes.len(),
        nodes[s] is Free,
        solutions_not_vars(nodes),
        below(nodes, rank, a, bound),
    ensures
        below(
            nodes.update(s, NodeView::Concrete(c)),
            rank_after_solve(nodes, rank, s),
            a,
            bound + rank_bound(nodes, rank, nodes.len() as int) + 1,
        ),
    decreases a,
{
    let top = rank_bound(nodes, rank, nodes.len() as int);
    match a {
        TypeView::Var(v) => {
            lemma_representative_after_solve(nodes, s, c, a);
            lemma_root_after_solve(nodes, s, NodeView::Concrete(c), v as int);
            if spec_representative(nodes, a) == TypeView::Var(s as nat) {
                lemma_stands_for_free_root(nodes, s, v);
            } else if !(spec_representative(nodes, a) is Var) {
                lemma_solved_root(nodes, v);
            }
        },
        TypeView::Fn(p, r) => {
            if let Some(p) = p {
                lemma_below_after_solve_raised(nodes, rank, s, c, *p, bound);
            }
            lemma_below_after_solve_raised(nodes, rank, s, c, *r, bound);
        },
        TypeView::Record(fields) => {
            assert forall|i: int| 0 <= i < fields.len() implies below(
                nodes.update(s, NodeView::Concrete(c)),
                rank_after_solve(nodes, rank, s),
                #[trigger] fields[i].1,
                bound + top + 1,
            ) by {
                lemma_below_after_solve_raised(nodes, rank, s, c, fields[i].1, bound);
            }
        },
        _ => {},
    }
}

proof fn lemma_below_after_solve_apart(
    nodes: Seq<NodeView>,
    rank: spec_fn(int) -> nat,
    s: int,
    c: TypeView,
    a: TypeView,
    bound: nat,
)
    requires
        0 <= s < nodes.len(),
        nodes[s] is Free,
        solutions_not_vars(nodes),
        below(nodes, rank, a, bound),
        !reaches(nodes, rank, a, s, bound),
    ensures
        below(nodes.update(s, NodeView::Concrete(c)), rank_after_solve(nodes, rank, s), a, bound),
    decreases a,
{
    match a {
        TypeView::Var(v) => {
            lemma_representative_after_solve(nodes, s, c, a);
            lemma_root_after_solve(nodes, s, NodeView::Concrete(c), v as int);
            if !(spec_representative(nodes, a) is Var) {
                lemma_solved_root(nodes, v);
            }
        },
        TypeView::Fn(p, r) => {
            if let Some(p) = p {
                lemma_below_after_solve_apart(nodes, rank, s, c, *p, bound);
            }
            lemma_below_after_solve_apart(nodes, rank, s, c, *r, bound);
        },
        TypeView::Record(fields) => {
            assert forall|i: int| 0 <= i < fields.len() implies below(
                nodes.update(s, NodeView::Concrete(c)),
                rank_after_solve(nodes, rank, s),
                #[trigger] fields[i].1,
                bound,
            ) by {
                assert(!reaches(nodes, rank, fields[i].1, s, bound));
                lemma_below_after_solve_apart(nodes, rank, s, c, fields[i].1, bound);
            }
        },
        _ => {},
    }
}

/// Solving the free class `s` to a type in which the occurs check finds no `s` keeps the
/// solutions acyclic.
pub proof fn lemma_solve_keeps_acyclic(nodes: Seq<NodeView>, s: int, c: TypeView)
    requires
        0 <= s < nodes.len(),
        nodes[s] is Free,
        !(c is Var),
        solutions_not_vars(nodes),
        acyclic(nodes),
        nodes.len() <= UNIFY_FUEL,
        !spec_occurs(nodes, s, c, UNIFY_FUEL as nat),
    ensures
        acyclic(nodes.update(s, NodeView::Concrete(c))),
{
    let rank = choose|rank: spec_fn(int) -> nat| #[trigger] ranked(nodes, rank);
    let top = rank_bound(nodes, rank, nodes.len() as int);
    let raised = rank_after_solve(nodes, rank, s);
    let solved = nodes.update(s, NodeView::Concrete(c));
    lemma_below_rank_bound(nodes, rank, c);
    if reaches(nodes, rank, c, s, top) {
        lemma_reaches_occurs(nodes, rank, c, s, top);
        lemma_solved_below_size(nodes, rank, top);
        lemma_occurs_with_more_fuel(
            nodes,
            s,
            c,
            solved_below(nodes, rank, top).len(),
            UNIFY_FUEL as nat,
        );
    }
    assert forall|r: int| 0 <= r < solved.len() implies (#[trigger] solved[r] matches NodeView::Concrete(d)
        ==> below(solved, raised, d, raised(r))) by {
        if r == s {
            lemma_below_after_solve_apart(nodes, rank, s, c, c, top);
        } else {
            assert(solved[r] == nodes[r]);
            if let NodeView::Concrete(d) = nodes[r] {
                if reaches(nodes, rank, d, s, rank(r)) {
                    lemma_below_after_solve_raised(nodes, rank, s, c, d, rank(r));
                } else {
                    lemma_below_after_solve_apart(nodes, rank, s, c, d, rank(r));
                }
            }
        }
    }
    assert(ranked(solved, raised));
}

/// Unification keeps the solutions acyclic.
pub proof fn lemma_unify_keeps_acyclic(
    nodes: Seq<NodeView>,
    found: TypeView,
    expected: TypeView,
    fuel: nat,
)
    requires
        solutions_not_vars(nodes),
        acyclic(nodes),
        nodes.len() <= UNIFY_FUEL,
    ensures
        acyclic(spec_unify(nodes, found, expected, fuel).0),
    decreases fuel, 0nat, 0nat,
{
    let e = spec_representative(nodes, expected);
    let f = spec_representative(nodes, found);
    if fuel > 0 {
        let g = (fuel - 1) as nat;
        match (e, f) {
            (TypeView::Var(v1), TypeView::Var(v2)) => {
                lemma_representative_var_is_root(nodes, expected);
                lemma_representative_var_is_root(nodes, found);
                if v1 != v2 {
                    if let (Some(r1), Some(r2)) = (
                        spec_root(nodes, v1 as int),
                        spec_root(nodes, v2 as int),
                    ) {
                        lemma_root_in_range_of(nodes, v1 as int);
                        lemma_root_in_range_of(nodes, v2 as int);
                        lemma_link_keeps_acyclic(nodes, r2, r1);
                    }
                }
            },
            (TypeView::Var(v), c) => {
                lemma_union_concrete_keeps_acyclic(nodes, v, c, g);
            },
            (c, TypeView::Var(v)) => {
                lemma_union_concrete_keeps_acyclic(nodes, v, c, g);
            },
            (TypeView::Fn(ep, eb), TypeView::Fn(fp, fb)) => {
                if let (Some(x), Some(y)) = (ep, fp) {
                    lemma_unify_keeps_acyclic(nodes, *y, *x, g);
                    lemma_unify_keeps(nodes, *y, *x, g, TypeView::Unit, TypeView::Unit, 0, TypeView::Unit);
                    let after_param = spec_unify(nodes, *y, *x, g).0;
                    lemma_unify_keeps_acyclic(after_param, *fb, *eb, g);
                } else {
                    lemma_unify_keeps_acyclic(nodes, *fb, *eb, g);
                }
            },
            (TypeView::Record(ef), TypeView::Record(ff)) => {
                lemma_unify_fields_keep_acyclic(nodes, ff, ef, ef.len(), g);
            },
            _ => {},
        }
    }
}

proof fn lemma_union_concrete_keeps_acyclic(nodes: Seq<NodeView>, v: nat, c: TypeView, fuel: nat)
    requires
        solutions_not_vars(nodes),
        acyclic(nodes),
        nodes.len() <= UNIFY_FUEL,
        !(c is Var),
    ensures
        acyclic(spec_union_concrete(nodes, v, c, fuel).0),
    decreases fuel, 1nat, 0nat,
{
    if let Some(r) = spec_root(nodes, v as int) {
        lemma_root_in_range_of(nodes, v as int);
        match nodes[r] {
            NodeView::Concrete(rc) => {
                lemma_unify_keeps_acyclic(nodes, c, rc, fuel);
            },
            _ => {
                if !spec_occurs(nodes, r, c, UNIFY_FUEL as nat) {
                    lemma_solve_keeps_acyclic(nodes, r, c);
                }
            },
        }
    }
}

proof fn lemma_unify_fields_keep_acyclic(
    nodes: Seq<NodeView>,
    found: Seq<(Seq<char>, TypeView)>,
    expected: Seq<(Seq<char>, TypeView)>,
    n: nat,
    fuel: nat,
)
    requires
        n <= expected.len(),
        solutions_not_vars(nodes),
        acyclic(nodes),
        nodes.len() <= UNIFY_FUEL,
    ensures
        acyclic(spec_unify_fields(nodes, found, expected, n, fuel).0),
    decreases fuel, 1nat, n,
{
    if n > 0 {
        lemma_unify_fields_keep_acyclic(nodes, found, expected, (n - 1) as nat, fuel);
        lemma_unify_fields_keeps(
            nodes,
            found,
            expected,
            (n - 1) as nat,
            fuel,
            TypeView::Unit,
            TypeView::Unit,
            0,
            TypeView::Unit,
        );
        let (before, result) = spec_unify_fields(nodes, found, expected, (n - 1) as nat, fuel);
        if result is Ok {
            lemma_unify_keeps_acyclic(
                before,
                field_type_from(found, expected[n - 1].0, 0),
                expected[n - 1].1,
                fuel,
            );
        }
    }
}

/// The maps that minting and unifying build from an empty map: every reference lands in the
/// map, no variable is solved to a bare variable, and no solution reaches back to the class it
/// solves.
pub open spec fn built_map(nodes: Seq<NodeView>) -> bool {
    &&& refs_in_range(nodes)
    &&& solutions_not_vars(nodes)
    &&& acyclic(nodes)
}

/// The empty map is built.
pub proof fn lemma_empty_map_built()
    ensures
        built_map(Seq::<NodeView>::empty()),
{
    let rank = |r: int| 0nat;
    assert(ranked(Seq::<NodeView>::empty(), rank));
}

/// Minting a fresh variable in a built map gives a built map.
pub proof fn lemma_mint_keeps_built(nodes: Seq<NodeView>)
    requires
        built_map(nodes),
    ensures
        built_map(nodes.push(NodeView::Free)),
{
    let minted = nodes.push(NodeView::Free);
    lemma_mint_keeps_acyclic(nodes);
    assert forall|i: int| 0 <= i < minted.len() implies (#[trigger] minted[i] matches NodeView::Reference(r)
        ==> r < minted.len()) by {
        if i < nodes.len() {
            assert(minted[i] == nodes[i]);
        }
    }
    assert forall|i: int| 0 <= i < minted.len() implies (#[trigger] minted[i] matches NodeView::Concrete(c)
        ==> !(c is Var)) by {
        if i < nodes.len() {
            assert(minted[i] == nodes[i]);
        }
    }
}

/// Unifying two types in a built map, successfully or not, leaves a built map.
pub proof fn lemma_unify_keeps_built(nodes: Seq<NodeView>, found: TypeView, expected: TypeView)
    requires
        built_map(nodes),
        nodes.len() <= UNIFY_FUEL,
    ensures
        built_map(spec_unify(nodes, found, expected, UNIFY_FUEL as nat).0),
{
    lemma_unify_keeps(
        nodes,
        found,
        expected,
        UNIFY_FUEL as nat,
        TypeView::Unit,
        TypeView::Unit,
        0,
        TypeView::Unit,
    );
    lemma_unify_keeps_acyclic(nodes, found, expected, UNIFY_FUEL as nat);
}

/// On a built map, substituting any type completes within the fuel `subsitute` is given
/// (a map holds fewer slots than that).
pub proof fn lemma_built_map_substitution_completes(nodes: Seq<NodeView>, t: TypeView)
    requires
        built_map(nodes),
        nodes.len() <= UNIFY_FUEL,
    ensures
        subst_completes(nodes, t, UNIFY_FUEL as nat),
{
    lemma_acyclic_completes(nodes, t, UNIFY_FUEL as nat);
}

/// On every map built by minting and unifying, substitution is idempotent: every variable it
/// leaves is the root of a class with no solution, or a variable never minted, and
/// substituting its result again changes nothing.
pub proof fn lemma_subst_idempotent_on_built_maps(nodes: Seq<NodeView>, t: TypeView)
    requires
        built_map(nodes),
        nodes.len() <= UNIFY_FUEL,
    ensures
        settled(nodes, spec_subst(nodes, t, UNIFY_FUEL as nat)),
        spec_subst(nodes, spec_subst(nodes, t, UNIFY_FUEL as nat), UNIFY_FUEL as nat) == spec_subst(
            nodes,
            t,
            UNIFY_FUEL as nat,
        ),
{
    lemma_built_map_substitution_completes(nodes, t);
    lemma_subst_idempotent(nodes, t, UNIFY_FUEL as nat);
}

} // verus!
