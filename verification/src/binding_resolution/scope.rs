//! Lexical scopes: the names in sight at a point, the most recent binding of a name winning.

use vstd::prelude::*;

use std::rc::Rc;

use super::binding_resolved::{BindingId, TypeBindingId};
use crate::sharing::share;

verus! {

/// What a scope holds: a name and something it stands for.
pub trait ScopeEntry: Sized {
    spec fn spec_name(&self) -> Seq<char>;

    fn name_is(&self, name: &String) -> (is: bool)
        ensures
            is == (self.spec_name() == name@),
    ;
}

/// One binding of a scope, on top of the scope it extends.
struct ScopeNode<T> {
    entry: T,
    parent: Option<Rc<ScopeNode<T>>>,
}

/// A scope: a persistent list of entries, the most recent on top. Extending shares the scope
/// it extends and leaves it untouched.
pub struct GenericScope<T> {
    head: Option<Rc<ScopeNode<T>>>,
}

/// The entries of a chain of scope nodes, oldest first.
spec fn nodes_view<T>(head: Option<Rc<ScopeNode<T>>>) -> Seq<T>
    decreases head,
{
    match head {
        None => Seq::empty(),
        Some(node) => nodes_view(node.parent).push(node.entry),
    }
}

/// The position of the most recent entry named `name` among the first `n` entries.
pub open spec fn latest_named<T: ScopeEntry>(entries: Seq<T>, name: Seq<char>, n: int) -> Option<int>
    decreases n,
{
    if n <= 0 {
        None
    } else if entries[n - 1].spec_name() == name {
        Some(n - 1)
    } else {
        latest_named(entries, name, n - 1)
    }
}

proof fn lemma_latest_named_in_range<T: ScopeEntry>(entries: Seq<T>, name: Seq<char>, n: int)
    ensures
        latest_named(entries, name, n) matches Some(i) ==> 0 <= i < n,
    decreases n,
{
    if n > 0 {
        lemma_latest_named_in_range(entries, name, n - 1);
    }
}

/// An entry pushed on top does not change what the entries below it give.
proof fn lemma_latest_named_below_push<T: ScopeEntry>(entries: Seq<T>, top: T, name: Seq<char>, n: int)
    requires
        n <= entries.len(),
    ensures
        latest_named(entries.push(top), name, n) == latest_named(entries, name, n),
    decreases n,
{
    if n > 0 {
        assert(entries.push(top)[n - 1] == entries[n - 1]);
        lemma_latest_named_below_push(entries, top, name, n - 1);
    }
}

/// The most recent entry named `name` in the chain starting at `head`.
fn find_in<'a, T: ScopeEntry>(head: &'a Option<Rc<ScopeNode<T>>>, name: &String) -> (found: Option<&'a T>)
    ensures
        match latest_named(nodes_view(*head), name@, nodes_view(*head).len() as int) {
            Some(i) => found == Some(&nodes_view(*head)[i]),
            None => found is None,
        },
    decreases head,
{
    match head {
        None => None,
        Some(node) => {
            let ghost all = nodes_view(*head);
            let ghost below = all.drop_last();
            proof {
                assert(below =~= nodes_view(node.parent));
                assert(all.last() == node.entry);
                assert(all =~= below.push(all.last()));
                lemma_latest_named_below_push(below, all.last(), name@, below.len() as int);
            }
            if node.entry.name_is(name) {
                Some(&node.entry)
            } else {
                let found = find_in(&node.parent, name);
                proof {
                    if let Some(i) = latest_named(below, name@, below.len() as int) {
                        assert(0 <= i < below.len()) by {
                            lemma_latest_named_in_range(below, name@, below.len() as int);
                        }
                        assert(all[i] == below[i]);
                    }
                }
                found
            }
        },
    }
}

impl<T: ScopeEntry> GenericScope<T> {
    pub closed spec fn view(&self) -> Seq<T> {
        nodes_view(self.head)
    }

    pub fn empty() -> (scope: Self)
        ensures
            scope.view() == Seq::<T>::empty(),
    {
        GenericScope { head: None }
    }

    /// The same scope, sharing its entries.
    pub fn clone(&self) -> (copy: Self)
        ensures
            copy.view() == self.view(),
    {
        match &self.head {
            Some(node) => GenericScope { head: Some(share(node)) },
            None => GenericScope { head: None },
        }
    }

    /// This scope with `value` bound on top.
    pub fn extend(&self, value: T) -> (extended: Self)
        ensures
            extended.view() == self.view().push(value),
    {
        let parent = self.clone().head;
        GenericScope { head: Some(Rc::new(ScopeNode { entry: value, parent })) }
    }

    /// The most recent entry named `name`.
    pub fn find(&self, name: &String) -> (found: Option<&T>)
        ensures
            match latest_named(self.view(), name@, self.view().len() as int) {
                Some(i) => found == Some(&self.view()[i]),
                None => found is None,
            },
    {
        find_in(&self.head, name)
    }
}

pub struct VariableBindingScopeEntry {
    pub name: String,
    pub binding: BindingId,
}

impl ScopeEntry for VariableBindingScopeEntry {
    open spec fn spec_name(&self) -> Seq<char> {
        self.name@
    }

    fn name_is(&self, name: &String) -> (is: bool) {
        self.name == *name
    }

}

pub struct TypeBindingScopeEntry {
    pub name: String,
    pub binding: TypeBindingId,
}

impl ScopeEntry for TypeBindingScopeEntry {
    open spec fn spec_name(&self) -> Seq<char> {
        self.name@
    }

    fn name_is(&self, name: &String) -> (is: bool) {
        self.name == *name
    }

}

pub type VariableBindingScope = GenericScope<VariableBindingScopeEntry>;

pub type TypeBindingScope = GenericScope<TypeBindingScopeEntry>;

/// The binding `name` resolves to in `entries`: the most recent entry of that name.
pub open spec fn spec_lookup(entries: Seq<VariableBindingScopeEntry>, name: Seq<char>) -> Option<
    BindingId,
> {
    match latest_named(entries, name, entries.len() as int) {
        Some(i) => Some(entries[i].binding),
        None => None,
    }
}

pub open spec fn spec_lookup_type(entries: Seq<TypeBindingScopeEntry>, name: Seq<char>) -> Option<
    TypeBindingId,
> {
    match latest_named(entries, name, entries.len() as int) {
        Some(i) => Some(entries[i].binding),
        None => None,
    }
}

impl VariableBindingScope {
    pub fn lookup(&self, name: &String) -> (binding: Option<BindingId>)
        ensures
            binding == spec_lookup(self.view(), name@),
    {
        match self.find(name) {
            Some(entry) => Some(entry.binding),
            None => None,
        }
    }
}

impl TypeBindingScope {
    pub fn lookup(&self, name: &String) -> (binding: Option<TypeBindingId>)
        ensures
            binding == spec_lookup_type(self.view(), name@),
    {
        match self.find(name) {
            Some(entry) => Some(entry.binding),
            None => None,
        }
    }
}

/// The two namespaces in sight at one point: types and variables.
pub struct Scope {
    type_scope: TypeBindingScope,
    variable_scope: VariableBindingScope,
}

impl Scope {
    pub closed spec fn variables(&self) -> Seq<VariableBindingScopeEntry> {
        self.variable_scope.view()
    }

    pub closed spec fn types(&self) -> Seq<TypeBindingScopeEntry> {
        self.type_scope.view()
    }

    pub fn new() -> (scope: Scope)
        ensures
            scope.variables() == Seq::<VariableBindingScopeEntry>::empty(),
            scope.types() == Seq::<TypeBindingScopeEntry>::empty(),
    {
        Scope { type_scope: TypeBindingScope::empty(), variable_scope: VariableBindingScope::empty() }
    }

    pub fn clone(&self) -> (copy: Scope)
        ensures
            copy.variables() == self.variables(),
            copy.types() == self.types(),
    {
        Scope { type_scope: self.type_scope.clone(), variable_scope: self.variable_scope.clone() }
    }

    /// A new scope with `entry` bound in the variable namespace; types carried through.
    pub fn extend_variable(&self, entry: VariableBindingScopeEntry) -> (scope: Scope)
        ensures
            scope.variables() == self.variables().push(entry),
            scope.types() == self.types(),
    {
        Scope { type_scope: self.type_scope.clone(), variable_scope: self.variable_scope.extend(entry) }
    }

    /// A new scope with `entry` bound in the type namespace; variables carried through.
    pub fn extend_type(&self, entry: TypeBindingScopeEntry) -> (scope: Scope)
        ensures
            scope.types() == self.types().push(entry),
            scope.variables() == self.variables(),
    {
        Scope { type_scope: self.type_scope.extend(entry), variable_scope: self.variable_scope.clone() }
    }

    /// The variable `name` resolves to.
    pub fn lookup(&self, name: &String) -> (binding: Option<BindingId>)
        ensures
            binding == spec_lookup(self.variables(), name@),
    {
        self.variable_scope.lookup(name)
    }

    /// The type `name` resolves to.
    pub fn lookup_type(&self, name: &String) -> (binding: Option<TypeBindingId>)
        ensures
            binding == spec_lookup_type(self.types(), name@),
    {
        self.type_scope.lookup(name)
    }
}

} // verus!
