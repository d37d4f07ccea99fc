//! Variable bindings: an association list whose latest entry for a variable wins.

use vstd::prelude::*;

use crate::value::Symbol;

verus! {

/// The map denoted by a list of bindings, later entries overriding earlier ones.
pub open spec fn bindings_map<T>(s: Seq<(Symbol, T)>) -> Map<Symbol, T>
    decreases s.len(),
{
    if s.len() == 0 {
        Map::empty()
    } else {
        bindings_map(s.drop_last()).insert(s.last().0, s.last().1)
    }
}

/// Variable bindings from symbols to values of `T`.
#[derive(Debug)]
pub struct VarMap<T> {
    entries: Vec<(Symbol, T)>,
}

/// Value bindings, as used by expression evaluation.
pub type Env = VarMap<crate::value::Value>;

/// Type bindings, as used by type inference.
pub type TypeEnv = VarMap<crate::value::Type>;

impl<T> View for VarMap<T> {
    type V = Map<Symbol, T>;

    closed spec fn view(&self) -> Map<Symbol, T> {
        bindings_map(self.entries@)
    }
}

/// The bindings map of a list is finite.
pub proof fn lemma_bindings_finite<T>(s: Seq<(Symbol, T)>)
    ensures
        bindings_map(s).dom().finite(),
    decreases s.len(),
{
    if s.len() > 0 {
        lemma_bindings_finite(s.drop_last());
    }
}

impl<T: Copy> VarMap<T> {
    /// Empty bindings.
    pub fn new() -> (r: Self)
        ensures
            r@ == Map::<Symbol, T>::empty(),
    {
        VarMap { entries: Vec::new() }
    }

    /// Looks up the value bound to `s`.
    pub fn get(&self, s: Symbol) -> (r: Option<T>)
        ensures
            match r {
                Some(v) => self@.contains_key(s) && self@[s] == v,
                None => !self@.contains_key(s),
            },
    {
        let mut i = self.entries.len();
        assert(self.entries@.subrange(0, i as int) =~= self.entries@);
        while i > 0
            invariant
                i <= self.entries.len(),
                bindings_map(self.entries@.subrange(0, i as int)).contains_key(s) == self@.contains_key(s),
                self@.contains_key(s) ==> bindings_map(self.entries@.subrange(0, i as int))[s] == self@[s],
            decreases i,
        {
            let ghost pre = self.entries@.subrange(0, i as int);
            assert(pre.drop_last() =~= self.entries@.subrange(0, i - 1));
            if self.entries[i - 1].0 == s {
                return Some(self.entries[i - 1].1);
            }
            i -= 1;
        }
        assert(self.entries@.subrange(0, 0) =~= Seq::<(Symbol, T)>::empty());
        None
    }

    /// Binds `s` to `v`, shadowing any earlier binding.
    pub fn insert(&mut self, s: Symbol, v: T)
        ensures
            final(self)@ == old(self)@.insert(s, v),
    {
        let ghost pre = self.entries@;
        self.entries.push((s, v));
        assert(self.entries@.drop_last() =~= pre);
    }

    /// A copy of these bindings.
    pub fn duplicate(&self) -> (r: Self)
        ensures
            r@ == self@,
    {
        let mut entries: Vec<(Symbol, T)> = Vec::new();
        let mut i: usize = 0;
        while i < self.entries.len()
            invariant
                i <= self.entries.len(),
                entries@ =~= self.entries@.subrange(0, i as int),
            decreases self.entries.len() - i,
        {
            entries.push(self.entries[i]);
            i += 1;
        }
        assert(self.entries@.subrange(0, i as int) =~= self.entries@);
        VarMap { entries }
    }
}

} // verus!

verus! {

/// Bindings of a concatenation: the later list overrides the earlier one.
pub proof fn lemma_bindings_concat<T>(s: Seq<(Symbol, T)>, t: Seq<(Symbol, T)>)
    ensures
        bindings_map(s + t) == bindings_map(s).union_prefer_right(bindings_map(t)),
    decreases t.len(),
{
    if t.len() == 0 {
        assert(s + t =~= s);
        assert(bindings_map(s).union_prefer_right(bindings_map(t)) =~= bindings_map(s));
    } else {
        lemma_bindings_concat(s, t.drop_last());
        assert((s + t).drop_last() =~= s + t.drop_last());
        assert(bindings_map(s + t) =~= bindings_map(s).union_prefer_right(bindings_map(t)));
    }
}

impl<T: Copy> VarMap<T> {
    /// These bindings extended by `more` (later entries win).
    pub fn extend(&self, more: &Vec<(Symbol, T)>) -> (r: Self)
        ensures
            r@ == self@.union_prefer_right(bindings_map(more@)),
    {
        let mut entries: Vec<(Symbol, T)> = Vec::new();
        let mut i: usize = 0;
        while i < self.entries.len()
            invariant
                i <= self.entries.len(),
                entries@ =~= self.entries@.subrange(0, i as int),
            decreases self.entries.len() - i,
        {
            entries.push(self.entries[i]);
            i += 1;
        }
        let mut k: usize = 0;
        while k < more.len()
            invariant
                k <= more.len(),
                entries@ =~= self.entries@ + more@.subrange(0, k as int),
            decreases more.len() - k,
        {
            entries.push(more[k]);
            k += 1;
        }
        assert(more@.subrange(0, k as int) =~= more@);
        proof { lemma_bindings_concat(self.entries@, more@); }
        VarMap { entries }
    }

    /// These bindings with `s` bound to `v`.
    pub fn with(&self, s: Symbol, v: T) -> (r: Self)
        ensures
            r@ == self@.insert(s, v),
    {
        let mut r = self.duplicate();
        r.insert(s, v);
        r
    }
}

} // verus!
