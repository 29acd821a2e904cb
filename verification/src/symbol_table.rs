//! Nested scopes of declared names, and the list of errors found so far.
use vstd::prelude::*;
use vstd::hash_map::StringHashMap;

use crate::ast::{Type, TypeV};

verus! {

/// A declared name with its type, and whether it may be assigned to.
#[derive(Debug)]
pub struct Symbol {
    pub name: String,
    pub ty: Type,
    pub mutable: bool,
}

/// The model of a [`Symbol`].
pub struct SymbolV {
    pub name: Seq<char>,
    pub ty: TypeV,
    pub mutable: bool,
}

impl View for Symbol {
    type V = SymbolV;

    open spec fn view(&self) -> SymbolV {
        SymbolV { name: self.name@, ty: self.ty@, mutable: self.mutable }
    }
}

impl Clone for Symbol {
    fn clone(&self) -> (r: Self)
        ensures
            r@ == self@,
    {
        Symbol { name: self.name.clone(), ty: self.ty.clone(), mutable: self.mutable }
    }
}

/// The scopes as models, innermost last.
pub type Scopes = Seq<Map<Seq<char>, SymbolV>>;

/// The innermost declaration of `name` in `scopes`, if any.
pub open spec fn lookup_in(scopes: Scopes, name: Seq<char>) -> Option<SymbolV>
    decreases scopes.len(),
{
    if scopes.len() == 0 {
        None
    } else if scopes.last().contains_key(name) {
        Some(scopes.last()[name])
    } else {
        lookup_in(scopes.drop_last(), name)
    }
}

/// `scopes` with `sym` declared in the innermost scope, replacing any
/// declaration of its name there.
pub open spec fn declare_in(scopes: Scopes, sym: SymbolV) -> Scopes {
    scopes.update(scopes.len() - 1, scopes.last().insert(sym.name, sym))
}

/// `scopes` with a new, empty innermost scope.
pub open spec fn push_in(scopes: Scopes) -> Scopes {
    scopes.push(Map::empty())
}

/// `scopes` without its innermost scope, unless that is the only one left.
pub open spec fn pop_in(scopes: Scopes) -> Scopes {
    if scopes.len() > 1 { scopes.drop_last() } else { scopes }
}

/// The texts of a sequence of strings.
pub open spec fn texts(s: Seq<String>) -> Seq<Seq<char>> {
    s.map_values(|m: String| m@)
}

/// Nested scopes, the outermost (global) one first, and the errors
/// reported so far.
pub struct SymbolTable {
    scopes: Vec<StringHashMap<Symbol>>,
    pub errors: Vec<String>,
}

impl SymbolTable {
    /// The scopes as models.
    pub closed spec fn scopes_view(&self) -> Scopes {
        Seq::new(self.scopes@.len(), |i: int| self.scopes@[i]@.map_values(|s: Symbol| s@))
    }

    /// The errors reported so far, as text.
    pub closed spec fn error_texts(&self) -> Seq<Seq<char>> {
        texts(self.errors@)
    }

    /// The table always keeps its global scope.
    pub open spec fn wf(&self) -> bool {
        self.scopes_view().len() >= 1
    }

    /// A table with one empty (global) scope and no errors.
    pub fn new() -> (r: Self)
        ensures
            r.wf(),
            r.scopes_view() == seq![Map::<Seq<char>, SymbolV>::empty()],
            r.error_texts() == Seq::<Seq<char>>::empty(),
    {
        let mut scopes: Vec<StringHashMap<Symbol>> = Vec::new();
        scopes.push(StringHashMap::new());
        let r = SymbolTable { scopes, errors: Vec::new() };
        assert(r.scopes_view()[0] =~= Map::<Seq<char>, SymbolV>::empty());
        assert(r.scopes_view() =~= seq![Map::<Seq<char>, SymbolV>::empty()]);
        assert(r.error_texts() =~= Seq::<Seq<char>>::empty());
        r
    }

    /// Opens a new innermost scope.
    pub fn push_scope(&mut self)
        requires
            old(self).wf(),
        ensures
            final(self).wf(),
            final(self).scopes_view() == push_in(old(self).scopes_view()),
            final(self).error_texts() == old(self).error_texts(),
    {
        self.scopes.push(StringHashMap::new());
        let ghost n = old(self).scopes@.len();
        assert(self.scopes_view()[n as int] =~= Map::<Seq<char>, SymbolV>::empty());
        assert(self.scopes_view() =~= push_in(old(self).scopes_view()));
    }

    /// Closes the innermost scope; the global scope is never closed.
    pub fn pop_scope(&mut self)
        requires
            old(self).wf(),
        ensures
            final(self).wf(),
            final(self).scopes_view() == pop_in(old(self).scopes_view()),
            final(self).error_texts() == old(self).error_texts(),
    {
        if self.scopes.len() > 1 {
            self.scopes.pop();
        }
        assert(self.scopes_view() =~= pop_in(old(self).scopes_view()));
    }

    /// Declares `sym` in the innermost scope, replacing any declaration of
    /// its name there.
    pub fn declare(&mut self, sym: Symbol)
        requires
            old(self).wf(),
        ensures
            final(self).wf(),
            final(self).scopes_view() == declare_in(old(self).scopes_view(), sym@),
            final(self).error_texts() == old(self).error_texts(),
    {
        let mut top = self.scopes.pop().unwrap();
        let ghost v = sym@;
        top.insert(sym.name.clone(), sym);
        self.scopes.push(top);
        let ghost n = old(self).scopes@.len() - 1;
        assert(self.scopes_view()[n] =~= old(self).scopes_view()[n].insert(v.name, v));
        assert(self.scopes_view() =~= declare_in(old(self).scopes_view(), v));
    }

    /// The innermost declaration of `name`, if any.
    pub fn lookup(&self, name: &str) -> (r: Option<&Symbol>)
        ensures
            r is Some == lookup_in(self.scopes_view(), name@) is Some,
            r is Some ==> r->0@ == lookup_in(self.scopes_view(), name@)->0,
    {
        let mut i: usize = self.scopes.len();
        assert(self.scopes_view().take(i as int) =~= self.scopes_view());
        while i > 0
            invariant
                i <= self.scopes@.len(),
                lookup_in(self.scopes_view().take(i as int), name@) == lookup_in(self.scopes_view(), name@),
            decreases i,
        {
            let ghost sv = self.scopes_view().take(i as int);
            assert(sv.drop_last() =~= self.scopes_view().take(i - 1));
            match self.scopes[i - 1].get(name) {
                Some(s) => {
                    return Some(s);
                },
                None => {},
            }
            i -= 1;
        }
        None
    }

    /// Reports an error.
    pub fn error(&mut self, msg: String)
        ensures
            final(self).error_texts() == old(self).error_texts().push(msg@),
            final(self).scopes_view() == old(self).scopes_view(),
            final(self).wf() == old(self).wf(),
    {
        let ghost m = msg@;
        self.errors.push(msg);
        assert(self.error_texts() =~= old(self).error_texts().push(m));
    }

    /// The errors reported, handed over.
    pub fn into_errors(self) -> (e: Vec<String>)
        ensures
            texts(e@) == self.error_texts(),
    {
        self.errors
    }

    /// Whether any error has been reported.
    pub fn has_errors(&self) -> (r: bool)
        ensures
            r == (self.error_texts().len() > 0),
    {
        !self.errors.is_empty()
    }
}

} // verus!
