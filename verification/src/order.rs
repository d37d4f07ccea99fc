//! The ordering of values and tuples (variant order `Int < Bool < Sym`, then
//! by payload; tuples lexicographically), and sorting tuples by it.

use vstd::prelude::*;

use crate::store::tuple_eq;
use crate::value::Value;

verus! {

/// The position of a value's variant.
pub open spec fn value_rank(v: Value) -> int {
    match v {
        Value::Int(_) => 0,
        Value::Bool(_) => 1,
        Value::Sym(_) => 2,
    }
}

/// Whether `a` orders strictly before `b`.
pub open spec fn value_lt(a: Value, b: Value) -> bool {
    if value_rank(a) != value_rank(b) {
        value_rank(a) < value_rank(b)
    } else {
        match (a, b) {
            (Value::Int(x), Value::Int(y)) => x < y,
            (Value::Bool(x), Value::Bool(y)) => !x && y,
            (Value::Sym(x), Value::Sym(y)) => x.0 < y.0,
            _ => false,
        }
    }
}

/// Whether tuple `a` orders strictly before `b`: at the first column where
/// they differ, or `a` being a proper prefix of `b`.
pub open spec fn tuple_lt(a: Seq<Value>, b: Seq<Value>) -> bool
    decreases a.len(),
{
    if a.len() == 0 {
        b.len() > 0
    } else if b.len() == 0 {
        false
    } else if a[0] == b[0] {
        tuple_lt(a.drop_first(), b.drop_first())
    } else {
        value_lt(a[0], b[0])
    }
}

/// Tuples in ascending order (each no greater than the next).
pub open spec fn ascending(s: Seq<Seq<Value>>) -> bool {
    forall|i: int| 0 <= i < s.len() - 1 ==> !tuple_lt(#[trigger] s[i + 1], s[i])
}

/// Strict ordering of tuples is asymmetric.
pub proof fn lemma_tuple_lt_asym(a: Seq<Value>, b: Seq<Value>)
    requires
        tuple_lt(a, b),
    ensures
        !tuple_lt(b, a),
    decreases a.len(),
{
    if a.len() > 0 && b.len() > 0 && a[0] == b[0] {
        lemma_tuple_lt_asym(a.drop_first(), b.drop_first());
    }
}

/// Whether `a` orders strictly before `b`.
fn value_less(a: Value, b: Value) -> (r: bool)
    ensures
        r == value_lt(a, b),
{
    match (a, b) {
        (Value::Int(x), Value::Int(y)) => x < y,
        (Value::Bool(x), Value::Bool(y)) => !x && y,
        (Value::Sym(x), Value::Sym(y)) => x.0 < y.0,
        (Value::Int(_), _) => true,
        (Value::Bool(_), Value::Sym(_)) => true,
        _ => false,
    }
}

/// Whether tuple `a` orders strictly before `b`.
pub fn tuple_less(a: &[Value], b: &[Value]) -> (r: bool)
    ensures
        r == tuple_lt(a@, b@),
{
    let mut i: usize = 0;
    assert(a@.skip(0) =~= a@);
    assert(b@.skip(0) =~= b@);
    while i < a.len() && i < b.len()
        invariant
            i <= a@.len(),
            i <= b@.len(),
            tuple_lt(a@, b@) == tuple_lt(a@.skip(i as int), b@.skip(i as int)),
        decreases a@.len() - i,
    {
        assert(a@.skip(i as int).drop_first() =~= a@.skip(i + 1));
        assert(b@.skip(i as int).drop_first() =~= b@.skip(i + 1));
        if a[i] != b[i] {
            return value_less(a[i], b[i]);
        }
        i += 1;
    }
    i < b.len()
}

/// The tuples of `a` that `b` does not contain, in order.
pub open spec fn rows_minus(a: Seq<Seq<Value>>, b: Seq<Seq<Value>>) -> Seq<Seq<Value>>
    decreases a.len(),
{
    if a.len() == 0 {
        Seq::empty()
    } else {
        let r = rows_minus(a.drop_last(), b);
        if b.contains(a.last()) { r } else { r.push(a.last()) }
    }
}

/// Sorts distinct tuples into ascending order.
pub fn sort_rows(d: Vec<Vec<Value>>) -> (r: Vec<Vec<Value>>)
    requires
        crate::store::rows_view(d@).no_duplicates(),
    ensures
        ascending(crate::store::rows_view(r@)),
        crate::store::rows_view(r@).no_duplicates(),
        r@.len() == d@.len(),
        forall|t: Seq<Value>| crate::store::rows_view(r@).contains(t) <==> crate::store::rows_view(d@).contains(t),
{
    let ghost dv = crate::store::rows_view(d@);
    let mut out: Vec<Vec<Value>> = Vec::new();
    let mut i: usize = 0;
    while i < d.len()
        invariant
            i <= d@.len(),
            dv == crate::store::rows_view(d@),
            dv.no_duplicates(),
            out@.len() == i,
            ascending(crate::store::rows_view(out@)),
            crate::store::rows_view(out@).no_duplicates(),
            forall|t: Seq<Value>| crate::store::rows_view(out@).contains(t) <==> dv.take(i as int).contains(t),
        decreases d@.len() - i,
    {
        let ghost ov = crate::store::rows_view(out@);
        let t = crate::store::copy_tuple(&d[i]);
        assert(t@ == dv[i as int]);
        let mut k: usize = 0;
        while k < out.len()
            invariant
                k <= out@.len(),
                ov == crate::store::rows_view(out@),
                forall|j: int| 0 <= j < k ==> !tuple_lt(t@, #[trigger] ov[j]),
            ensures
                k <= out@.len(),
                forall|j: int| 0 <= j < k ==> !tuple_lt(t@, #[trigger] ov[j]),
                k < out@.len() ==> tuple_lt(t@, ov[k as int]),
            decreases out@.len() - k,
        {
            assert(ov[k as int] == out@[k as int]@);
            if tuple_less(t.as_slice(), out[k].as_slice()) {
                break;
            }
            k += 1;
        }
        out.insert(k, t);
        proof {
            let nv = crate::store::rows_view(out@);
            assert(nv =~= ov.insert(k as int, t@));
            assert(!ov.contains(t@)) by {
                if ov.contains(t@) {
                    let j = choose|j: int| 0 <= j < ov.len() && ov[j] == t@;
                    assert(dv.take(i as int).contains(t@));
                    let m = choose|m: int| 0 <= m < i && dv.take(i as int)[m] == t@;
                    assert(dv[m] == dv[i as int]);
                }
            }
            assert forall|a: int| 0 <= a < nv.len() - 1 implies !tuple_lt(#[trigger] nv[a + 1], nv[a]) by {
                if a + 1 < k {
                    assert(nv[a] == ov[a] && nv[a + 1] == ov[a + 1]);
                    assert(!tuple_lt(ov[a + 1], ov[a]));
                } else if a + 1 == k {
                    assert(nv[a] == ov[a] && nv[a + 1] == t@);
                } else if a == k {
                    assert(nv[a] == t@ && nv[a + 1] == ov[a]);
                    assert(tuple_lt(t@, ov[a]));
                    lemma_tuple_lt_asym(t@, ov[a]);
                } else {
                    let a0 = a - 1;
                    assert(nv[a] == ov[a0] && nv[a + 1] == ov[a0 + 1]);
                    assert(!tuple_lt(ov[a0 + 1], ov[a0]));
                }
            }
            assert forall|a: int, b: int| 0 <= a < b < nv.len() implies nv[a] != nv[b] by {
                if b < k || a > k || (a < k && b > k) {
                    let a0 = if a < k { a } else { a - 1 };
                    let b0 = if b < k { b } else { b - 1 };
                    assert(nv[a] == ov[a0] && nv[b] == ov[b0]);
                } else if a == k {
                    assert(nv[b] == ov[b - 1]);
                    assert(ov.contains(ov[b - 1]));
                } else {
                    assert(nv[a] == ov[a]);
                    assert(ov.contains(ov[a]));
                }
            }
            let dn = dv.take(i + 1);
            assert(dn =~= dv.take(i as int).push(dv[i as int]));
            assert forall|x: Seq<Value>| nv.contains(x) <==> dn.contains(x) by {
                if nv.contains(x) {
                    let j = choose|j: int| 0 <= j < nv.len() && nv[j] == x;
                    if j < k { assert(ov[j] == x); assert(ov.contains(x)); }
                    else if j > k { assert(ov[j - 1] == x); assert(ov.contains(x)); }
                    if x != t@ {
                        assert(dv.take(i as int).contains(x));
                        let m = choose|m: int| 0 <= m < i && dv.take(i as int)[m] == x;
                        assert(dn[m] == x);
                    } else {
                        assert(dn[i as int] == x);
                    }
                }
                if dn.contains(x) {
                    let m = choose|m: int| 0 <= m < dn.len() && dn[m] == x;
                    if m < i {
                        assert(dv.take(i as int)[m] == x);
                        assert(ov.contains(x));
                        let j = choose|j: int| 0 <= j < ov.len() && ov[j] == x;
                        if j < k { assert(nv[j] == x); } else { assert(nv[j + 1] == x); }
                    } else {
                        assert(nv[k as int] == x);
                    }
                }
            }
        }
        i += 1;
    }
    assert(dv.take(i as int) =~= dv);
    out
}

/// What the difference of two lists of tuples holds.
pub proof fn lemma_minus_contains(a: Seq<Seq<Value>>, b: Seq<Seq<Value>>, t: Seq<Value>)
    ensures
        rows_minus(a, b).contains(t) <==> (a.contains(t) && !b.contains(t)),
    decreases a.len(),
{
    if a.len() > 0 {
        let init = a.drop_last();
        let last = a.last();
        lemma_minus_contains(init, b, t);
        let r = rows_minus(init, b);
        let m = rows_minus(a, b);
        assert(m == if b.contains(last) { r } else { r.push(last) });
        if m.contains(t) {
            let k = choose|k: int| 0 <= k < m.len() && m[k] == t;
            if k < r.len() {
                assert(r[k] == t);
                assert(r.contains(t));
                let j = choose|j: int| 0 <= j < init.len() && init[j] == t;
                assert(a[j] == t);
            } else {
                assert(t == last);
                assert(a[a.len() - 1] == t);
            }
        }
        if a.contains(t) && !b.contains(t) {
            let i = choose|i: int| 0 <= i < a.len() && a[i] == t;
            if i < a.len() - 1 {
                assert(init[i] == t);
                assert(r.contains(t));
                let k = choose|k: int| 0 <= k < r.len() && r[k] == t;
                assert(m[k] == t);
            } else {
                assert(last == t);
                assert(m[r.len() as int] == t);
            }
        }
    }
}

/// The difference of a list without duplicates has none.
pub proof fn lemma_minus_nodup(a: Seq<Seq<Value>>, b: Seq<Seq<Value>>)
    requires
        a.no_duplicates(),
    ensures
        rows_minus(a, b).no_duplicates(),
    decreases a.len(),
{
    if a.len() > 0 {
        let init = a.drop_last();
        assert(init.no_duplicates()) by {
            assert forall|i: int, j: int| 0 <= i < j < init.len() implies init[i] != init[j] by {
                assert(a[i] != a[j]);
            }
        }
        lemma_minus_nodup(init, b);
        let r = rows_minus(init, b);
        if !b.contains(a.last()) {
            lemma_minus_contains(init, b, a.last());
            assert(!init.contains(a.last())) by {
                if init.contains(a.last()) {
                    let i = choose|i: int| 0 <= i < init.len() && init[i] == a.last();
                    assert(a[i] == a[a.len() - 1]);
                }
            }
            let r2 = r.push(a.last());
            assert forall|i: int, j: int| 0 <= i < j < r2.len() implies r2[i] != r2[j] by {
                if j == r.len() {
                    assert(r.contains(r[i]));
                }
            }
        }
    }
}

/// Whether a list of tuples contains `t`.
pub fn rows_contain(rows: &Vec<Vec<Value>>, t: &Vec<Value>) -> (r: bool)
    ensures
        r == crate::store::rows_view(rows@).contains(t@),
{
    let ghost v = crate::store::rows_view(rows@);
    let mut i: usize = 0;
    while i < rows.len()
        invariant
            i <= rows@.len(),
            v == crate::store::rows_view(rows@),
            forall|j: int| 0 <= j < i ==> v[j] != t@,
        decreases rows@.len() - i,
    {
        assert(v[i as int] == rows@[i as int]@);
        if tuple_eq(rows[i].as_slice(), t.as_slice()) {
            return true;
        }
        i += 1;
    }
    false
}

/// The tuples of `a` that `b` lacks, in order.
pub fn minus_rows(a: &Vec<Vec<Value>>, b: &Vec<Vec<Value>>) -> (r: Vec<Vec<Value>>)
    ensures
        crate::store::rows_view(r@) == rows_minus(crate::store::rows_view(a@), crate::store::rows_view(b@)),
{
    let ghost av = crate::store::rows_view(a@);
    let ghost bv = crate::store::rows_view(b@);
    let mut out: Vec<Vec<Value>> = Vec::new();
    let mut i: usize = 0;
    assert(crate::store::rows_view(out@) =~= rows_minus(av.take(0), bv));
    while i < a.len()
        invariant
            i <= a@.len(),
            av == crate::store::rows_view(a@),
            bv == crate::store::rows_view(b@),
            crate::store::rows_view(out@) == rows_minus(av.take(i as int), bv),
        decreases a@.len() - i,
    {
        assert(av.take(i + 1).drop_last() =~= av.take(i as int));
        assert(av.take(i + 1).last() == a@[i as int]@);
        if !rows_contain(b, &a[i]) {
            let ghost before = out@;
            out.push(crate::store::copy_tuple(&a[i]));
            assert(crate::store::rows_view(out@) =~= crate::store::rows_view(before).push(a@[i as int]@));
        }
        i += 1;
    }
    assert(av.take(i as int) =~= av);
    out
}

} // verus!
