//! The lexer of the textual frontend: source text to tokens.
//!
//! Whitespace and `//` line comments separate tokens. Words are letters,
//! digits, `_` and `::` path separators; a lone `_` is the wildcard. Integers
//! are unsigned decimal literals that fit in an `i64`; strings are
//! double-quoted with no escapes.

use vstd::prelude::*;
use vstd::std_specs::iter::IteratorSpec;

verus! {

/// A token, as values.
pub enum TokV {
    Ident(Seq<char>),
    Int(i64),
    Str(Seq<char>),
    LParen,
    RParen,
    Comma,
    Semi,
    Arrow,
    Eq,
    EqEq,
    Ne,
    Lt,
    Le,
    Gt,
    Ge,
    Plus,
    Minus,
    Star,
    Slash,
    Percent,
    AndAnd,
    OrOr,
    Bang,
    Question,
    Underscore,
}

/// A token.
#[derive(Debug)]
pub enum Tok {
    Ident(String),
    Int(i64),
    Str(String),
    LParen,
    RParen,
    Comma,
    Semi,
    Arrow,
    Eq,
    EqEq,
    Ne,
    Lt,
    Le,
    Gt,
    Ge,
    Plus,
    Minus,
    Star,
    Slash,
    Percent,
    AndAnd,
    OrOr,
    Bang,
    Question,
    Underscore,
}

impl View for Tok {
    type V = TokV;

    open spec fn view(&self) -> TokV {
        match self {
            Tok::Ident(s) => TokV::Ident(s@),
            Tok::Int(n) => TokV::Int(*n),
            Tok::Str(s) => TokV::Str(s@),
            Tok::LParen => TokV::LParen,
            Tok::RParen => TokV::RParen,
            Tok::Comma => TokV::Comma,
            Tok::Semi => TokV::Semi,
            Tok::Arrow => TokV::Arrow,
            Tok::Eq => TokV::Eq,
            Tok::EqEq => TokV::EqEq,
            Tok::Ne => TokV::Ne,
            Tok::Lt => TokV::Lt,
            Tok::Le => TokV::Le,
            Tok::Gt => TokV::Gt,
            Tok::Ge => TokV::Ge,
            Tok::Plus => TokV::Plus,
            Tok::Minus => TokV::Minus,
            Tok::Star => TokV::Star,
            Tok::Slash => TokV::Slash,
            Tok::Percent => TokV::Percent,
            Tok::AndAnd => TokV::AndAnd,
            Tok::OrOr => TokV::OrOr,
            Tok::Bang => TokV::Bang,
            Tok::Question => TokV::Question,
            Tok::Underscore => TokV::Underscore,
        }
    }
}

/// The tokens of a list, as values.
pub open spec fn toks_view(ts: Seq<Tok>) -> Seq<TokV> {
    ts.map_values(|t: Tok| t@)
}

/// ASCII whitespace: space, tab, line feed, form feed, carriage return.
pub open spec fn is_ws(c: char) -> bool {
    c == ' ' || c == '\t' || c == '\n' || c == '\x0C' || c == '\r'
}

/// An ASCII decimal digit.
pub open spec fn is_digit(c: char) -> bool {
    '0' <= c && c <= '9'
}

/// An ASCII letter.
pub open spec fn is_alpha(c: char) -> bool {
    ('a' <= c && c <= 'z') || ('A' <= c && c <= 'Z')
}

/// A character that continues a word.
pub open spec fn is_word(c: char) -> bool {
    c == '_' || is_alpha(c) || is_digit(c)
}

/// The one-character tokens.
pub open spec fn single_spec(c: char) -> Option<TokV> {
    if c == '(' { Some(TokV::LParen) }
    else if c == ')' { Some(TokV::RParen) }
    else if c == ',' { Some(TokV::Comma) }
    else if c == ';' { Some(TokV::Semi) }
    else if c == '+' { Some(TokV::Plus) }
    else if c == '*' { Some(TokV::Star) }
    else if c == '/' { Some(TokV::Slash) }
    else if c == '%' { Some(TokV::Percent) }
    else if c == '?' { Some(TokV::Question) }
    else { None }
}

/// The first position at or after `j` holding `stop`, or the end.
pub open spec fn scan_to(cs: Seq<char>, j: int, stop: char) -> int
    decreases cs.len() - j,
{
    if j < 0 || j >= cs.len() || cs[j] == stop { j } else { scan_to(cs, j + 1, stop) }
}

/// The end of the run of digits starting at `j`.
pub open spec fn digits_end(cs: Seq<char>, j: int) -> int
    decreases cs.len() - j,
{
    if j < 0 || j >= cs.len() || !is_digit(cs[j]) { j } else { digits_end(cs, j + 1) }
}

/// The end of the word starting at `j`: word characters and `::` pairs.
pub open spec fn word_end(cs: Seq<char>, j: int) -> int
    decreases cs.len() - j,
{
    if j < 0 || j >= cs.len() {
        j
    } else if is_word(cs[j]) {
        word_end(cs, j + 1)
    } else if cs[j] == ':' && j + 1 < cs.len() && cs[j + 1] == ':' {
        word_end(cs, j + 2)
    } else {
        j
    }
}

/// The value of a run of decimal digits.
pub open spec fn digits_value(ds: Seq<char>) -> int
    decreases ds.len(),
{
    if ds.len() == 0 { 0 } else { digits_value(ds.drop_last()) * 10 + (ds.last() as int - '0' as int) }
}

/// What the lexer does at position `i`.
pub enum Step {
    /// Skips to the position.
    Skip(int),
    /// Emits the token and continues at the position.
    Emit(TokV, int),
    /// Rejects the input.
    Fail,
}

/// The lexer's step at position `i` (which is within `cs`).
pub open spec fn step_spec(cs: Seq<char>, i: int) -> Step {
    let c = cs[i];
    let next_is = |d: char| i + 1 < cs.len() && cs[i + 1] == d;
    if is_ws(c) {
        Step::Skip(i + 1)
    } else if c == '/' && next_is('/') {
        Step::Skip(scan_to(cs, i, '\n'))
    } else if single_spec(c) is Some {
        Step::Emit(single_spec(c).unwrap(), i + 1)
    } else if c == '-' {
        if next_is('-') { Step::Fail } else { Step::Emit(TokV::Minus, i + 1) }
    } else if c == '<' {
        if next_is('-') && i + 2 < cs.len() && cs[i + 2] == '-' {
            Step::Emit(TokV::Arrow, i + 3)
        } else if next_is('=') {
            Step::Emit(TokV::Le, i + 2)
        } else {
            Step::Emit(TokV::Lt, i + 1)
        }
    } else if c == '>' {
        if next_is('=') { Step::Emit(TokV::Ge, i + 2) } else { Step::Emit(TokV::Gt, i + 1) }
    } else if c == '=' {
        if next_is('=') { Step::Emit(TokV::EqEq, i + 2) } else { Step::Emit(TokV::Eq, i + 1) }
    } else if c == '!' {
        if next_is('=') { Step::Emit(TokV::Ne, i + 2) } else { Step::Emit(TokV::Bang, i + 1) }
    } else if c == '&' {
        if next_is('&') { Step::Emit(TokV::AndAnd, i + 2) } else { Step::Fail }
    } else if c == '|' {
        if next_is('|') { Step::Emit(TokV::OrOr, i + 2) } else { Step::Fail }
    } else if c == '"' {
        let j = scan_to(cs, i + 1, '"');
        if j >= cs.len() { Step::Fail } else { Step::Emit(TokV::Str(cs.subrange(i + 1, j)), j + 1) }
    } else if is_digit(c) {
        let j = digits_end(cs, i);
        let v = digits_value(cs.subrange(i, j));
        if v > i64::MAX { Step::Fail } else { Step::Emit(TokV::Int(v as i64), j) }
    } else if c == '_' || is_alpha(c) {
        let j = word_end(cs, i);
        let text = cs.subrange(i, j);
        if text == seq!['_'] { Step::Emit(TokV::Underscore, j) } else { Step::Emit(TokV::Ident(text), j) }
    } else {
        Step::Fail
    }
}

/// Scanning moves forward.
pub proof fn lemma_scan_progress(cs: Seq<char>, j: int)
    requires
        0 <= j <= cs.len(),
    ensures
        j <= scan_to(cs, j, '\n') <= cs.len(),
        j <= scan_to(cs, j, '"') <= cs.len(),
        j <= digits_end(cs, j) <= cs.len(),
        j <= word_end(cs, j) <= cs.len(),
    decreases cs.len() - j,
{
    if j < cs.len() {
        lemma_scan_progress(cs, j + 1);
        if j + 2 <= cs.len() {
            lemma_scan_progress(cs, j + 2);
        }
    }
}

/// Every step moves forward, within the input.
pub proof fn lemma_step_progress(cs: Seq<char>, i: int)
    requires
        0 <= i < cs.len(),
    ensures
        match step_spec(cs, i) {
            Step::Skip(j) => i < j <= cs.len(),
            Step::Emit(_, j) => i < j <= cs.len(),
            Step::Fail => true,
        },
{
    lemma_scan_progress(cs, i);
    lemma_scan_progress(cs, i + 1);
    if i + 1 < cs.len() {
        lemma_scan_progress(cs, i + 2);
    }
}

/// The tokens of `cs[i..]`, or `None` if the lexer rejects it.
pub open spec fn lex_spec(cs: Seq<char>, i: int) -> Option<Seq<TokV>>
    decreases cs.len() - i,
{
    if i < 0 || i >= cs.len() {
        Some(Seq::empty())
    } else {
        match step_spec(cs, i) {
            Step::Skip(j) => if i < j <= cs.len() { lex_spec(cs, j) } else { None },
            Step::Emit(t, j) => if i < j <= cs.len() {
                match lex_spec(cs, j) {
                    Some(rest) => Some(seq![t] + rest),
                    None => None,
                }
            } else {
                None
            },
            Step::Fail => None,
        }
    }
}

/// A run of digits is worth at least any of its prefixes.
pub proof fn lemma_digits_prefix(ds: Seq<char>, m: int)
    requires
        0 <= m <= ds.len(),
        forall|k: int| 0 <= k < ds.len() ==> is_digit(#[trigger] ds[k]),
    ensures
        digits_value(ds) >= digits_value(ds.take(m)),
        digits_value(ds) >= 0,
    decreases ds.len(),
{
    if ds.len() > 0 {
        let init = ds.drop_last();
        if m == ds.len() {
            assert(ds.take(m) =~= ds);
            lemma_digits_prefix(init, init.len() as int);
        } else {
            assert(init.take(m) =~= ds.take(m));
            lemma_digits_prefix(init, m);
        }
    } else {
        assert(ds.take(m) =~= ds);
    }
}

/// The digits of `digits_end` are all digits.
pub proof fn lemma_digits_all(cs: Seq<char>, i: int, j: int)
    requires
        0 <= i <= j <= cs.len(),
        forall|k: int| i <= k < j ==> is_digit(#[trigger] cs[k]),
    ensures
        forall|k: int| i <= k < digits_end(cs, j) ==> is_digit(#[trigger] cs[k]),
        digits_end(cs, i) == digits_end(cs, j),
    decreases cs.len() - j,
{
    if j < cs.len() && is_digit(cs[j]) {
        lemma_digits_all(cs, i, j + 1);
    }
    lemma_digits_from(cs, i, j);
}

proof fn lemma_digits_from(cs: Seq<char>, i: int, j: int)
    requires
        0 <= i <= j <= cs.len(),
        forall|k: int| i <= k < j ==> is_digit(#[trigger] cs[k]),
    ensures
        digits_end(cs, i) == digits_end(cs, j),
    decreases j - i,
{
    if i < j {
        lemma_digits_from(cs, i + 1, j);
    }
}

/// Appends a character to a string (`String::push`).
#[verifier::external_body]
fn push_char(s: &mut String, c: char)
    ensures
        final(s)@ == old(s)@.push(c),
{
    s.push(c);
}

/// The characters of a string slice, in order.
pub fn chars_of(s: &str) -> (r: Vec<char>)
    ensures
        r@ == s@,
{
    broadcast use vstd::string::axiom_spec_iter, vstd::string::next_postcondition;
    let mut it = s.chars();
    let mut out: Vec<char> = Vec::new();
    loop
        invariant
            out@ + it.remaining() == s@,
            it.obeys_prophetic_iter_laws(),
            it.decrease() is Some,
        decreases it.decrease()->0,
    {
        let ghost before = it.remaining();
        match it.next() {
            Some(c) => {
                out.push(c);
                assert(out@ + it.remaining() =~= s@) by {
                    assert(before == seq![c] + it.remaining());
                }
            },
            None => {
                assert(it.remaining().len() == 0);
                assert(out@ =~= s@);
                return out;
            },
        }
    }
}

/// The string of `cs[from..to]`.
pub fn string_of(cs: &Vec<char>, from: usize, to: usize) -> (r: String)
    requires
        from <= to <= cs@.len(),
    ensures
        r@ == cs@.subrange(from as int, to as int),
{
    let mut r = String::new();
    let mut k = from;
    while k < to
        invariant
            from <= k <= to <= cs@.len(),
            r@ == cs@.subrange(from as int, k as int),
        decreases to - k,
    {
        push_char(&mut r, cs[k]);
        assert(cs@.subrange(from as int, k + 1) =~= cs@.subrange(from as int, k as int).push(cs@[k as int]));
        k += 1;
    }
    r
}

fn is_ws_char(c: char) -> (r: bool)
    ensures
        r == is_ws(c),
{
    c == ' ' || c == '\t' || c == '\n' || c == '\x0C' || c == '\r'
}

fn is_digit_char(c: char) -> (r: bool)
    ensures
        r == is_digit(c),
{
    '0' <= c && c <= '9'
}

fn is_alpha_char(c: char) -> (r: bool)
    ensures
        r == is_alpha(c),
{
    ('a' <= c && c <= 'z') || ('A' <= c && c <= 'Z')
}

fn is_word_char(c: char) -> (r: bool)
    ensures
        r == is_word(c),
{
    c == '_' || is_alpha_char(c) || is_digit_char(c)
}

fn single_char(c: char) -> (r: Option<Tok>)
    ensures
        match single_spec(c) {
            Some(t) => r matches Some(x) && x@ == t,
            None => r is None,
        },
{
    if c == '(' { Some(Tok::LParen) }
    else if c == ')' { Some(Tok::RParen) }
    else if c == ',' { Some(Tok::Comma) }
    else if c == ';' { Some(Tok::Semi) }
    else if c == '+' { Some(Tok::Plus) }
    else if c == '*' { Some(Tok::Star) }
    else if c == '/' { Some(Tok::Slash) }
    else if c == '%' { Some(Tok::Percent) }
    else if c == '?' { Some(Tok::Question) }
    else { None }
}

fn next_is(cs: &Vec<char>, i: usize, d: char) -> (r: bool)
    requires
        i < cs@.len(),
    ensures
        r == (i + 1 < cs@.len() && cs@[i + 1] == d),
{
    let n = cs.len();
    i + 1 < n && cs[i + 1] == d
}

/// The first position at or after `j` holding `stop`, or the end.
fn scan(cs: &Vec<char>, j: usize, stop: char) -> (r: usize)
    requires
        j <= cs@.len(),
    ensures
        r == scan_to(cs@, j as int, stop),
{
    let mut k = j;
    while k < cs.len() && cs[k] != stop
        invariant
            j <= k <= cs@.len(),
            scan_to(cs@, j as int, stop) == scan_to(cs@, k as int, stop),
        decreases cs@.len() - k,
    {
        k += 1;
    }
    k
}

/// Lexes an integer literal starting at `i`.
fn lex_number(cs: &Vec<char>, i: usize) -> (r: Result<(i64, usize), String>)
    requires
        i < cs@.len(),
        is_digit(cs@[i as int]),
    ensures
        ({
            let j = digits_end(cs@, i as int);
            let v = digits_value(cs@.subrange(i as int, j));
            match r {
                Ok((n, k)) => k == j && v <= i64::MAX && n == v,
                Err(_) => v > i64::MAX,
            }
        }),
{
    let ghost j = digits_end(cs@, i as int);
    proof {
        lemma_scan_progress(cs@, i as int);
        lemma_digits_all(cs@, i as int, i as int);
    }
    let mut k = i;
    let mut acc: i64 = 0;
    assert(cs@.subrange(i as int, i as int) =~= Seq::<char>::empty());
    while k < cs.len() && is_digit_char(cs[k])
        invariant
            i <= k <= j <= cs@.len(),
            j == digits_end(cs@, i as int),
            digits_end(cs@, k as int) == j,
            forall|x: int| i <= x < j ==> is_digit(#[trigger] cs@[x]),
            acc as int == digits_value(cs@.subrange(i as int, k as int)),
            acc >= 0,
        decreases cs@.len() - k,
    {
        proof { lemma_scan_progress(cs@, k + 1); }
        assert(k + 1 <= j);
        let d = (cs[k] as u32 - '0' as u32) as i64;
        let ghost sub = cs@.subrange(i as int, k + 1);
        assert(sub.drop_last() =~= cs@.subrange(i as int, k as int));
        assert(d == sub.last() as int - '0' as int);
        let next = match acc.checked_mul(10) {
            Some(m) => m.checked_add(d),
            None => None,
        };
        match next {
            Some(n) => {
                acc = n;
            },
            None => {
                proof {
                    let full = cs@.subrange(i as int, j);
                    assert(digits_value(sub) > i64::MAX);
                    assert(full.take(k + 1 - i) =~= sub);
                    assert forall|x: int| 0 <= x < full.len() implies is_digit(#[trigger] full[x]) by {
                        assert(full[x] == cs@[i + x]);
                    }
                    lemma_digits_prefix(full, k + 1 - i);
                }
                return Err("bad integer literal".to_owned());
            },
        }
        k += 1;
    }
    proof {
        if k < cs@.len() {
            assert(!is_digit(cs@[k as int]));
        }
    }
    Ok((acc, k))
}

/// The end of the word starting at `i`.
fn scan_word(cs: &Vec<char>, i: usize) -> (r: usize)
    requires
        i <= cs@.len(),
    ensures
        r == word_end(cs@, i as int),
{
    let mut j = i;
    while j < cs.len()
        invariant
            i <= j <= cs@.len(),
            word_end(cs@, i as int) == word_end(cs@, j as int),
        decreases cs@.len() - j,
    {
        if is_word_char(cs[j]) {
            j += 1;
        } else if cs[j] == ':' && next_is(cs, j, ':') {
            j += 2;
        } else {
            return j;
        }
    }
    j
}

/// What the lexer does at one position.
enum StepX {
    Skip(usize),
    Emit(Tok, usize),
    Fail(String),
}

/// The lexer's step at position `i`.
fn step(cs: &Vec<char>, i: usize) -> (r: StepX)
    requires
        i < cs@.len(),
    ensures
        match step_spec(cs@, i as int) {
            Step::Skip(j) => r matches StepX::Skip(k) && k == j,
            Step::Emit(t, j) => r matches StepX::Emit(x, k) && x@ == t && k == j,
            Step::Fail => r is Fail,
        },
{
    proof { lemma_step_progress(cs@, i as int); }
    let n = cs.len();
    assert(i + 1 <= n);
    let c = cs[i];
    if is_ws_char(c) {
        return StepX::Skip(i + 1);
    }
    if c == '/' && next_is(cs, i, '/') {
        return StepX::Skip(scan(cs, i, '\n'));
    }
    match single_char(c) {
        Some(t) => return StepX::Emit(t, i + 1),
        None => {},
    }
    if c == '-' {
        if next_is(cs, i, '-') {
            return StepX::Fail("unexpected `--`; did you mean `<--`?".to_owned());
        }
        return StepX::Emit(Tok::Minus, i + 1);
    }
    if c == '<' {
        if next_is(cs, i, '-') && i + 2 < cs.len() && cs[i + 2] == '-' {
            return StepX::Emit(Tok::Arrow, i + 3);
        }
        if next_is(cs, i, '=') {
            return StepX::Emit(Tok::Le, i + 2);
        }
        return StepX::Emit(Tok::Lt, i + 1);
    }
    if c == '>' {
        if next_is(cs, i, '=') {
            return StepX::Emit(Tok::Ge, i + 2);
        }
        return StepX::Emit(Tok::Gt, i + 1);
    }
    if c == '=' {
        if next_is(cs, i, '=') {
            return StepX::Emit(Tok::EqEq, i + 2);
        }
        return StepX::Emit(Tok::Eq, i + 1);
    }
    if c == '!' {
        if next_is(cs, i, '=') {
            return StepX::Emit(Tok::Ne, i + 2);
        }
        return StepX::Emit(Tok::Bang, i + 1);
    }
    if c == '&' {
        if next_is(cs, i, '&') {
            return StepX::Emit(Tok::AndAnd, i + 2);
        }
        return StepX::Fail("unexpected character `&`".to_owned());
    }
    if c == '|' {
        if next_is(cs, i, '|') {
            return StepX::Emit(Tok::OrOr, i + 2);
        }
        return StepX::Fail("unexpected character `|`".to_owned());
    }
    if c == '"' {
        let j = scan(cs, i + 1, '"');
        proof { lemma_scan_progress(cs@, i + 1); }
        if j >= cs.len() {
            return StepX::Fail("unterminated string literal".to_owned());
        }
        return StepX::Emit(Tok::Str(string_of(cs, i + 1, j)), j + 1);
    }
    if is_digit_char(c) {
        return match lex_number(cs, i) {
            Ok((n, j)) => StepX::Emit(Tok::Int(n), j),
            Err(m) => StepX::Fail(m),
        };
    }
    if c == '_' || is_alpha_char(c) {
        let j = scan_word(cs, i);
        if j == i + 1 && c == '_' {
            assert(cs@.subrange(i as int, j as int) =~= seq!['_']);
            return StepX::Emit(Tok::Underscore, j);
        }
        let text = string_of(cs, i, j);
        proof {
            if cs@.subrange(i as int, j as int) == seq!['_'] {
                assert(cs@.subrange(i as int, j as int).len() == 1);
                assert(cs@.subrange(i as int, j as int)[0] == c);
            }
        }
        return StepX::Emit(Tok::Ident(text), j);
    }
    StepX::Fail("unexpected character".to_owned())
}

/// Splits source characters into tokens.
pub fn tokenize(cs: &Vec<char>) -> (r: Result<Vec<Tok>, String>)
    ensures
        match lex_spec(cs@, 0) {
            Some(ts) => r matches Ok(v) && toks_view(v@) == ts,
            None => r is Err,
        },
{
    let mut out: Vec<Tok> = Vec::new();
    let mut i: usize = 0;
    assert(toks_view(out@) =~= Seq::<TokV>::empty());
    while i < cs.len()
        invariant
            i <= cs@.len(),
            lex_spec(cs@, 0) == match lex_spec(cs@, i as int) {
                Some(rest) => Some(toks_view(out@) + rest),
                None => None::<Seq<TokV>>,
            },
        decreases cs@.len() - i,
    {
        proof { lemma_step_progress(cs@, i as int); }
        match step(cs, i) {
            StepX::Skip(j) => {
                i = j;
            },
            StepX::Emit(t, j) => {
                let ghost tv = t@;
                let ghost before = toks_view(out@);
                out.push(t);
                proof {
                    assert(toks_view(out@) =~= before.push(tv));
                    match lex_spec(cs@, j as int) {
                        Some(rest) => {
                            assert(before + (seq![tv] + rest) =~= before.push(tv) + rest);
                        },
                        None => {},
                    }
                }
                i = j;
            },
            StepX::Fail(m) => {
                return Err(m);
            },
        }
    }
    assert(toks_view(out@) + Seq::<TokV>::empty() =~= toks_view(out@));
    Ok(out)
}

} // verus!
