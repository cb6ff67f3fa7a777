//! Capability contracts for the values stored in a table's columns.
//!
//! A comparison value type must support an equality test (for equality
//! conditions) and, to back an ordered index, a total order. Both are
//! expressed against the type's abstract view, so that types with more than
//! one representation of the same logical value (such as strings) fit.

use vstd::prelude::*;

verus! {

/// A type that can be stored in a column: it can be compared for equality and
/// duplicated, both faithfully to its abstract view, and rendered as text.
pub trait StoreValue: View + Sized {
    /// The characters `text` renders the value as.
    spec fn text_view(&self) -> Seq<char>;

    /// Equality of the abstract values.
    fn eq_value(&self, other: &Self) -> (r: bool)
        ensures
            r == (self@ == other@),
    ;

    /// A copy that denotes the same abstract value.
    fn dup(&self) -> (r: Self)
        ensures
            r@ == self@,
    ;

    /// Render the value as text.
    fn text(&self) -> (r: String)
        ensures
            r@ == self.text_view(),
    ;
}

/// The character for one decimal digit.
pub open spec fn digit_char(d: nat) -> char {
    if d == 0 {
        '0'
    } else if d == 1 {
        '1'
    } else if d == 2 {
        '2'
    } else if d == 3 {
        '3'
    } else if d == 4 {
        '4'
    } else if d == 5 {
        '5'
    } else if d == 6 {
        '6'
    } else if d == 7 {
        '7'
    } else if d == 8 {
        '8'
    } else {
        '9'
    }
}

/// The decimal digits of `n`, most significant first.
pub open spec fn dec_digits(n: nat) -> Seq<char>
    decreases n,
{
    if n < 10 {
        seq![digit_char(n)]
    } else {
        dec_digits(n / 10).push(digit_char(n % 10))
    }
}

/// The character for one decimal digit, as a string slice.
fn digit_str(d: u64) -> (r: &'static str)
    requires
        d < 10,
    ensures
        r@ == seq![digit_char(d as nat)],
{
    proof {
        reveal_strlit("0");
        reveal_strlit("1");
        reveal_strlit("2");
        reveal_strlit("3");
        reveal_strlit("4");
        reveal_strlit("5");
        reveal_strlit("6");
        reveal_strlit("7");
        reveal_strlit("8");
        reveal_strlit("9");
    }
    let r: &'static str = match d {
        0 => "0",
        1 => "1",
        2 => "2",
        3 => "3",
        4 => "4",
        5 => "5",
        6 => "6",
        7 => "7",
        8 => "8",
        _ => "9",
    };
    proof {
        assert(r@ =~= seq![digit_char(d as nat)]);
    }
    r
}

/// Render a number in decimal.
pub(crate) fn render_u64(n: u64) -> (s: String)
    ensures
        s@ == dec_digits(n as nat),
    decreases n,
{
    if n < 10 {
        String::from_str(digit_str(n))
    } else {
        let mut s = render_u64(n / 10);
        s.append(digit_str(n % 10));
        proof {
            assert(s@ =~= dec_digits((n / 10) as nat).push(digit_char((n % 10) as nat)));
        }
        s
    }
}

/// A `StoreValue` whose abstract views carry a total order, as an ordered
/// index requires.
pub trait OrderedValue: StoreValue {
    /// The order on abstract values.
    spec fn le_v(a: Self::V, b: Self::V) -> bool;

    /// The order is total.
    proof fn le_v_total(a: Self::V, b: Self::V)
        ensures
            Self::le_v(a, b) || Self::le_v(b, a),
    ;

    /// The order is transitive.
    proof fn le_v_transitive(a: Self::V, b: Self::V, c: Self::V)
        requires
            Self::le_v(a, b),
            Self::le_v(b, c),
        ensures
            Self::le_v(a, c),
    ;

    /// The order is antisymmetric: mutually ordered views are equal.
    proof fn le_v_antisymmetric(a: Self::V, b: Self::V)
        requires
            Self::le_v(a, b),
            Self::le_v(b, a),
        ensures
            a == b,
    ;

    /// Decide the order on two values.
    fn le_value(&self, other: &Self) -> (r: bool)
        ensures
            r == Self::le_v(self@, other@),
    ;
}

impl StoreValue for u64 {
    open spec fn text_view(&self) -> Seq<char> {
        dec_digits(*self as nat)
    }

    fn eq_value(&self, other: &Self) -> (r: bool) {
        *self == *other
    }

    fn dup(&self) -> (r: Self) {
        *self
    }

    fn text(&self) -> (r: String) {
        render_u64(*self)
    }
}

impl OrderedValue for u64 {
    open spec fn le_v(a: u64, b: u64) -> bool {
        a <= b
    }

    proof fn le_v_total(a: u64, b: u64) {
    }

    proof fn le_v_transitive(a: u64, b: u64, c: u64) {
    }

    proof fn le_v_antisymmetric(a: u64, b: u64) {
    }

    fn le_value(&self, other: &Self) -> (r: bool) {
        *self <= *other
    }
}

/// Lexicographic order on character sequences, by code point.
pub open spec fn lex_le(a: Seq<char>, b: Seq<char>) -> bool
    decreases a.len(),
{
    if a.len() == 0 {
        true
    } else if b.len() == 0 {
        false
    } else if a[0] == b[0] {
        lex_le(a.subrange(1, a.len() as int), b.subrange(1, b.len() as int))
    } else {
        (a[0] as u32) < (b[0] as u32)
    }
}

/// Distinct characters have distinct code points.
proof fn lemma_char_neq(a: char, b: char)
    requires
        a != b,
    ensures
        (a as u32) != (b as u32),
{
    if (a as u32) == (b as u32) {
        vstd::utf8::char_u32_cast(a, a as u32);
        vstd::utf8::char_u32_cast(b, b as u32);
    }
}

/// The lexicographic order is total.
pub proof fn lemma_lex_le_total(a: Seq<char>, b: Seq<char>)
    ensures
        lex_le(a, b) || lex_le(b, a),
    decreases a.len(),
{
    if a.len() == 0 || b.len() == 0 {
    } else if a[0] == b[0] {
        lemma_lex_le_total(a.subrange(1, a.len() as int), b.subrange(1, b.len() as int));
    } else {
        lemma_char_neq(a[0], b[0]);
    }
}

/// The lexicographic order is transitive.
pub proof fn lemma_lex_le_transitive(a: Seq<char>, b: Seq<char>, c: Seq<char>)
    requires
        lex_le(a, b),
        lex_le(b, c),
    ensures
        lex_le(a, c),
    decreases a.len(),
{
    if a.len() == 0 || b.len() == 0 || c.len() == 0 {
    } else if a[0] == b[0] && b[0] == c[0] {
        lemma_lex_le_transitive(
            a.subrange(1, a.len() as int),
            b.subrange(1, b.len() as int),
            c.subrange(1, c.len() as int),
        );
    }
}

/// The lexicographic order is antisymmetric.
pub proof fn lemma_lex_le_antisymmetric(a: Seq<char>, b: Seq<char>)
    requires
        lex_le(a, b),
        lex_le(b, a),
    ensures
        a == b,
    decreases a.len(),
{
    if a.len() == 0 {
        assert(b.len() == 0);
        assert(a =~= b);
    } else {
        assert(b.len() > 0);
        if a[0] != b[0] {
            lemma_char_neq(a[0], b[0]);
            assert(false);
        }
        let ta = a.subrange(1, a.len() as int);
        let tb = b.subrange(1, b.len() as int);
        lemma_lex_le_antisymmetric(ta, tb);
        assert(a.len() == b.len());
        assert forall|i: int| 0 <= i < a.len() implies a[i] == b[i] by {
            if i > 0 {
                assert(a[i] == ta[i - 1]);
                assert(b[i] == tb[i - 1]);
            }
        }
        assert(a =~= b);
    }
}

/// Relies on str's `PartialEq`: two string slices are equal exactly when they
/// hold the same characters.
#[verifier::external_body]
fn str_eq(a: &str, b: &str) -> (r: bool)
    ensures
        r == (a@ == b@),
{
    a == b
}

/// Relies on str's `PartialOrd`: string slices are ordered lexicographically
/// by their bytes, which for UTF-8 coincides with the lexicographic order of
/// their code points.
#[verifier::external_body]
fn str_le(a: &str, b: &str) -> (r: bool)
    ensures
        r == lex_le(a@, b@),
{
    a <= b
}

impl<'a> StoreValue for &'a str {
    open spec fn text_view(&self) -> Seq<char> {
        self@
    }

    fn eq_value(&self, other: &Self) -> (r: bool) {
        str_eq(*self, *other)
    }

    fn dup(&self) -> (r: Self) {
        *self
    }

    fn text(&self) -> (r: String) {
        String::from_str(*self)
    }
}

impl<'a> OrderedValue for &'a str {
    open spec fn le_v(a: Seq<char>, b: Seq<char>) -> bool {
        lex_le(a, b)
    }

    proof fn le_v_total(a: Seq<char>, b: Seq<char>) {
        lemma_lex_le_total(a, b);
    }

    proof fn le_v_transitive(a: Seq<char>, b: Seq<char>, c: Seq<char>) {
        lemma_lex_le_transitive(a, b, c);
    }

    proof fn le_v_antisymmetric(a: Seq<char>, b: Seq<char>) {
        lemma_lex_le_antisymmetric(a, b);
    }

    fn le_value(&self, other: &Self) -> (r: bool) {
        str_le(*self, *other)
    }
}

impl StoreValue for String {
    open spec fn text_view(&self) -> Seq<char> {
        self@
    }

    fn eq_value(&self, other: &Self) -> (r: bool) {
        self.eq(other)
    }

    fn dup(&self) -> (r: Self) {
        self.clone()
    }

    fn text(&self) -> (r: String) {
        self.clone()
    }
}

impl OrderedValue for String {
    open spec fn le_v(a: Seq<char>, b: Seq<char>) -> bool {
        lex_le(a, b)
    }

    proof fn le_v_total(a: Seq<char>, b: Seq<char>) {
        lemma_lex_le_total(a, b);
    }

    proof fn le_v_transitive(a: Seq<char>, b: Seq<char>, c: Seq<char>) {
        lemma_lex_le_transitive(a, b, c);
    }

    proof fn le_v_antisymmetric(a: Seq<char>, b: Seq<char>) {
        lemma_lex_le_antisymmetric(a, b);
    }

    fn le_value(&self, other: &Self) -> (r: bool) {
        str_le(self.as_str(), other.as_str())
    }
}

} // verus!
