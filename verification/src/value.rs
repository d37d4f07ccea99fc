//! The dynamically-typed value model and string interning.

use vstd::prelude::*;

verus! {

/// An interned string, represented by a small integer id.
///
/// Symbols are only meaningful relative to the [`Interner`] that produced them.
#[derive(Debug, Clone, Copy, PartialEq, Eq, Hash, PartialOrd, Ord, Structural)]
pub struct Symbol(pub u32);

/// The runtime type of a column, value, or expression result.
#[derive(Debug, Clone, Copy, PartialEq, Eq, Hash, Structural)]
pub enum Type {
    /// A signed 64-bit integer.
    Int,
    /// A boolean.
    Bool,
    /// An interned symbol (string).
    Sym,
}

/// A runtime value: the contents of a single tuple column.
#[derive(Debug, Clone, Copy, PartialEq, Eq, Hash, PartialOrd, Ord, Structural)]
pub enum Value {
    /// A signed 64-bit integer.
    Int(i64),
    /// A boolean.
    Bool(bool),
    /// An interned symbol (string).
    Sym(Symbol),
}

/// The type of a value.
pub open spec fn type_of_spec(v: Value) -> Type {
    match v {
        Value::Int(_) => Type::Int,
        Value::Bool(_) => Type::Bool,
        Value::Sym(_) => Type::Sym,
    }
}

/// The `i64` encoding of a value used by the WebAssembly tier.
pub open spec fn to_bits_spec(v: Value) -> i64 {
    match v {
        Value::Int(i) => i,
        Value::Bool(b) => if b { 1 } else { 0 },
        Value::Sym(s) => s.0 as i64,
    }
}

/// Whether `bits` decodes to a value of type `ty` (only symbol ids are limited).
pub open spec fn bits_decodable(bits: i64, ty: Type) -> bool {
    ty == Type::Sym ==> 0 <= bits <= u32::MAX
}

/// Decodes bits into a value of `ty`.
pub open spec fn from_bits_spec(bits: i64, ty: Type) -> Value {
    match ty {
        Type::Int => Value::Int(bits),
        Type::Bool => Value::Bool(bits != 0),
        Type::Sym => Value::Sym(Symbol(bits as u32)),
    }
}

impl Value {
    /// Returns the [`Type`] of this value.
    pub fn type_of(self) -> (t: Type)
        ensures
            t == type_of_spec(self),
    {
        match self {
            Value::Int(_) => Type::Int,
            Value::Bool(_) => Type::Bool,
            Value::Sym(_) => Type::Sym,
        }
    }

    /// Encodes this value into the `i64` representation used by the WASM
    /// expression tier. Equality on the bit pattern matches equality on the
    /// value within each type.
    pub fn to_bits(self) -> (b: i64)
        ensures
            b == to_bits_spec(self),
    {
        match self {
            Value::Int(i) => i,
            Value::Bool(b) => if b { 1 } else { 0 },
            Value::Sym(s) => s.0 as i64,
        }
    }

    /// Decodes an `i64` produced by the WASM tier back into a value of `ty`.
    /// A symbol id must lie in the `u32` range.
    pub fn from_bits(bits: i64, ty: Type) -> (v: Value)
        requires
            bits_decodable(bits, ty),
        ensures
            v == from_bits_spec(bits, ty),
            type_of_spec(v) == ty,
    {
        match ty {
            Type::Int => Value::Int(bits),
            Type::Bool => Value::Bool(bits != 0),
            Type::Sym => Value::Sym(Symbol(bits as u32)),
        }
    }
}

/// Decoding the encoding of a value at its own type gives the value back.
pub proof fn lemma_bits_roundtrip(v: Value)
    ensures
        bits_decodable(to_bits_spec(v), type_of_spec(v)),
        from_bits_spec(to_bits_spec(v), type_of_spec(v)) == v,
{
}

/// Interns strings to [`Symbol`]s and resolves them back.
#[derive(Debug)]
pub struct Interner {
    names: Vec<String>,
}

impl View for Interner {
    type V = Seq<Seq<char>>;

    closed spec fn view(&self) -> Seq<Seq<char>> {
        self.names@.map_values(|s: String| s@)
    }
}

impl Interner {
    /// No string is interned twice and every id fits in a `u32`.
    pub open spec fn wf(&self) -> bool {
        &&& self@.no_duplicates()
        &&& self@.len() <= u32::MAX + 1
    }

    /// Whether `s` can be interned without exhausting the `u32` id space.
    pub open spec fn can_intern(&self, s: Seq<char>) -> bool {
        self@.contains(s) || self@.len() <= u32::MAX
    }

    /// What interning `s` leaves in the table.
    pub open spec fn interned(names: Seq<Seq<char>>, s: Seq<char>) -> Seq<Seq<char>> {
        if names.contains(s) { names } else { names.push(s) }
    }

    /// Creates an empty interner.
    pub fn new() -> (r: Interner)
        ensures
            r.wf(),
            r@ == Seq::<Seq<char>>::empty(),
    {
        let r = Interner { names: Vec::new() };
        assert(r@ =~= Seq::<Seq<char>>::empty());
        r
    }

    /// The position of `s` in the table, if interned.
    fn find(&self, s: &String) -> (r: Option<usize>)
        ensures
            match r {
                Some(i) => i < self@.len() && self@[i as int] == s@,
                None => !self@.contains(s@),
            },
    {
        let mut i: usize = 0;
        while i < self.names.len()
            invariant
                i <= self.names.len(),
                forall|j: int| 0 <= j < i ==> self@[j] != s@,
            decreases self.names.len() - i,
        {
            assert(self@[i as int] == self.names@[i as int]@);
            if self.names[i] == *s {
                return Some(i);
            }
            i += 1;
        }
        proof {
            if self@.contains(s@) {
                let j = choose|j: int| 0 <= j < self@.len() && self@[j] == s@;
                assert(self@[j] != s@);
            }
        }
        None
    }

    /// Interns `s`, returning a symbol that is stable for this interner:
    /// an already-interned string keeps its symbol, a new one gets the next id.
    pub fn intern(&mut self, s: &str) -> (sym: Symbol)
        requires
            old(self).wf(),
            old(self).can_intern(s@),
        ensures
            final(self).wf(),
            final(self)@ == Self::interned(old(self)@, s@),
            (sym.0 as int) < final(self)@.len(),
            final(self)@[sym.0 as int] == s@,
    {
        let owned = s.to_owned();
        match self.find(&owned) {
            Some(i) => Symbol(i as u32),
            None => {
                let id = self.names.len() as u32;
                let ghost old_view = self@;
                self.names.push(owned);
                assert(self@ =~= old_view.push(s@));
                proof {
                    assert forall|a: int, b: int| 0 <= a < self@.len() && 0 <= b < self@.len() && a != b
                        implies self@[a] != self@[b] by {
                        if a < old_view.len() && b < old_view.len() {
                            assert(old_view[a] != old_view[b]);
                        } else if a == old_view.len() {
                            assert(old_view.contains(old_view[b]));
                        } else {
                            assert(old_view.contains(old_view[a]));
                        }
                    }
                }
                Symbol(id)
            },
        }
    }

    /// Interns `s` if the table has room for it (it is present, or fewer
    /// than 2^32 strings are interned); otherwise leaves the table unchanged.
    pub(crate) fn try_intern(&mut self, s: &str) -> (r: Option<Symbol>)
        requires
            old(self).wf(),
        ensures
            final(self).wf(),
            old(self).can_intern(s@) ==> (r matches Some(sym) && final(self)@ == Self::interned(old(self)@, s@)
                && (sym.0 as int) < final(self)@.len() && final(self)@[sym.0 as int] == s@),
            !old(self).can_intern(s@) ==> r is None && final(self)@ == old(self)@,
    {
        let owned = s.to_owned();
        match self.find(&owned) {
            Some(i) => {
                proof { assert(self@.contains(s@)); }
                Some(self.intern(s))
            },
            None => {
                if self.names.len() <= 0xffff_ffffusize {
                    assert(self@.len() == self.names@.len());
                    Some(self.intern(s))
                } else {
                    None
                }
            },
        }
    }

    /// Resolves `sym` to its string, if it belongs to this interner.
    pub fn resolve(&self, sym: Symbol) -> (r: Option<&str>)
        ensures
            match r {
                Some(t) => (sym.0 as int) < self@.len() && t@ == self@[sym.0 as int],
                None => (sym.0 as int) >= self@.len(),
            },
    {
        let i = sym.0 as usize;
        if i < self.names.len() {
            Some(self.names[i].as_str())
        } else {
            None
        }
    }
}

/// Interning a string and resolving its symbol gives the string back, and
/// interning the same string again gives the same symbol.
pub proof fn lemma_intern_resolve(names: Seq<Seq<char>>, s: Seq<char>, id: int)
    requires
        names.no_duplicates(),
        0 <= id < Interner::interned(names, s).len(),
        Interner::interned(names, s)[id] == s,
    ensures
        Interner::interned(Interner::interned(names, s), s) == Interner::interned(names, s),
        forall|j: int| 0 <= j < Interner::interned(names, s).len()
            && Interner::interned(names, s)[j] == s ==> j == id,
        names.is_prefix_of(Interner::interned(names, s)),
{
    let n2 = Interner::interned(names, s);
    assert(n2.contains(s));
    if !names.contains(s) {
        assert(n2 == names.push(s));
        assert forall|j: int| 0 <= j < n2.len() && n2[j] == s implies j == id by {
            if j < names.len() {
                assert(names.contains(names[j]));
            }
            if id < names.len() {
                assert(names.contains(names[id]));
            }
        }
    } else {
        assert forall|j: int| 0 <= j < n2.len() && n2[j] == s implies j == id by {
            if j != id {
                assert(names[j] == names[id]);
            }
        }
    }
}

} // verus!
