//! Mechanisms to compare values and express conditions on rows.

use vstd::prelude::*;

use crate::Row;
use crate::val::dec_digits;
use crate::val::render_u64;
use crate::val::StoreValue;

verus! {

/// A value represents something to compare against.
#[derive(Clone, Debug)]
pub enum Value<T> {
    /// A constant value literal.
    Const(T),
    /// A different column of the same row. Comparisons of this kind cannot
    /// use an index, since the compared value is only known once the row is
    /// fetched.
    Column(usize),
}

impl<T> Value<T> {
    /// The value this `Value` denotes for the given row.
    pub open spec fn spec_value(self, row: Seq<T>) -> T {
        match self {
            Value::Const(t) => t,
            Value::Column(i) => row[i as int],
        }
    }

    /// Whether every column this `Value` mentions exists in a row of `cols`
    /// columns.
    pub open spec fn valid(self, cols: int) -> bool {
        match self {
            Value::Const(_) => true,
            Value::Column(i) => i < cols,
        }
    }

    /// Extract the value literal for this `Value` when evaluated for the
    /// given row. For `Const` values, this evaluates to the `Const` value
    /// itself. For `Column`, it evaluates to the value of that column in the
    /// given row.
    pub fn value<'b, R: Row<T> + ?Sized>(&'b self, row: &'b R) -> (r: &'b T)
        requires
            self.valid(row.view_row().len() as int),
        ensures
            *r == self.spec_value(row.view_row()),
    {
        match self {
            Value::Column(i) => row.index(*i),
            Value::Const(val) => val,
        }
    }

    /// Construct a new `Value` by moving an existing value.
    pub fn new(t: T) -> (v: Value<T>)
        ensures
            v == Value::Const(t),
    {
        Value::Const(t)
    }

    /// Construct a new `Value` that refers to the value in a particular
    /// column of a row.
    pub fn column(c: usize) -> (v: Value<T>)
        ensures
            v == Value::<T>::Column(c),
    {
        Value::Column(c)
    }
}

impl<T: StoreValue> Value<T> {
    /// Construct a new `Value` from a reference to an existing value, by
    /// duplicating it.
    pub fn using(t: &T) -> (v: Value<T>)
        ensures
            v matches Value::Const(x) && x@ == t@,
    {
        Value::Const(t.dup())
    }

    /// The characters `describe` renders this `Value` as: a constant as its
    /// own text, a column reference as its number in brackets.
    pub open spec fn describe_view(self) -> Seq<char> {
        match self {
            Value::Const(t) => t.text_view(),
            Value::Column(i) => seq!['['] + dec_digits(i as nat) + seq![']'],
        }
    }

    /// Render this `Value` as text.
    pub fn describe(&self) -> (r: String)
        ensures
            r@ == self.describe_view(),
    {
        match self {
            Value::Const(t) => t.text(),
            Value::Column(i) => {
                let mut s = String::from_str("[");
                let digits = render_u64(*i as u64);
                s.append(digits.as_str());
                s.append("]");
                proof {
                    reveal_strlit("[");
                    reveal_strlit("]");
                    assert(s@ =~= seq!['['] + dec_digits(*i as nat) + seq![']']);
                }
                s
            },
        }
    }
}

/// A comparison to perform for a row's value against a `Value`.
#[derive(Clone, Debug)]
pub enum Comparison<T> {
    /// Is the value equal to the given `Value`?
    Equal(Value<T>),
}

impl<T: StoreValue> Comparison<T> {
    /// Whether `value` compares successfully under this comparison, for the
    /// given row. Equality is equality of the abstract views.
    pub open spec fn spec_matches(self, value: T, row: Seq<T>) -> bool {
        match self {
            Comparison::Equal(v) => value@ == v.spec_value(row)@,
        }
    }

    /// Whether every column this comparison mentions exists in a row of
    /// `cols` columns.
    pub open spec fn valid(self, cols: int) -> bool {
        match self {
            Comparison::Equal(v) => v.valid(cols),
        }
    }

    /// The characters `describe` renders this comparison as.
    pub open spec fn describe_view(self) -> Seq<char> {
        match self {
            Comparison::Equal(v) => seq!['=', ' '] + v.describe_view(),
        }
    }

    /// Render this comparison as text.
    pub fn describe(&self) -> (r: String)
        ensures
            r@ == self.describe_view(),
    {
        match self {
            Comparison::Equal(v) => {
                let mut s = String::from_str("= ");
                let inner = v.describe();
                s.append(inner.as_str());
                proof {
                    reveal_strlit("= ");
                    assert(s@ =~= seq!['=', ' '] + v.describe_view());
                }
                s
            },
        }
    }

    /// Returns true if the given value compares successfully against this
    /// comparison when evaluated against the given row.
    pub fn matches<R: Row<T> + ?Sized>(&self, value: &T, row: &R) -> (r: bool)
        requires
            self.valid(row.view_row().len() as int),
        ensures
            r == self.spec_matches(*value, row.view_row()),
    {
        match self {
            Comparison::Equal(v) => value.eq_value(v.value(row)),
        }
    }
}

/// A single condition to evaluate for a row in the dataset: the value in
/// column `column` must satisfy the comparison `cmp`.
#[derive(Clone, Debug)]
pub struct Condition<T> {
    /// The column of the row to use as the comparison value.
    pub column: usize,
    /// The comparison to perform on the selected value.
    pub cmp: Comparison<T>,
}

impl<T: StoreValue> Condition<T> {
    /// Whether this condition holds of the given row.
    pub open spec fn spec_matches(self, row: Seq<T>) -> bool {
        self.cmp.spec_matches(row[self.column as int], row)
    }

    /// Whether every column this condition mentions exists in a row of
    /// `cols` columns.
    pub open spec fn valid(self, cols: int) -> bool {
        self.column < cols && self.cmp.valid(cols)
    }

    /// The characters `describe` renders this condition as: its column
    /// number in brackets, then its comparison.
    pub open spec fn describe_view(self) -> Seq<char> {
        seq!['['] + dec_digits(self.column as nat) + seq![']', ' '] + self.cmp.describe_view()
    }

    /// Render this condition as text.
    pub fn describe(&self) -> (r: String)
        ensures
            r@ == self.describe_view(),
    {
        let mut s = String::from_str("[");
        let digits = render_u64(self.column as u64);
        s.append(digits.as_str());
        s.append("] ");
        let inner = self.cmp.describe();
        s.append(inner.as_str());
        proof {
            reveal_strlit("[");
            reveal_strlit("] ");
            assert(s@ =~= seq!['['] + dec_digits(self.column as nat) + seq![']', ' ']
                + self.cmp.describe_view());
        }
        s
    }

    /// Returns true if this condition holds true for the given row:
    /// `row[self.column]` is extracted and evaluated using the comparison in
    /// `self.cmp`.
    pub fn matches<R: Row<T> + ?Sized>(&self, row: &R) -> (r: bool)
        requires
            self.valid(row.view_row().len() as int),
        ensures
            r == self.spec_matches(row.view_row()),
    {
        self.cmp.matches(row.index(self.column), row)
    }
}

/// Whether a condition can be served by an index: only an equality
/// comparison against a constant is index-eligible, since a column-to-column
/// comparison's value is not known until the row is fetched.
pub open spec fn index_eligible<T: StoreValue>(c: Condition<T>) -> bool {
    match c.cmp {
        Comparison::Equal(Value::Const(_)) => true,
        Comparison::Equal(Value::Column(_)) => false,
    }
}

/// The constant an index-eligible condition compares against.
pub open spec fn eligible_value<T: StoreValue>(c: Condition<T>) -> T
    recommends
        index_eligible(c),
{
    match c.cmp {
        Comparison::Equal(Value::Const(t)) => t,
        Comparison::Equal(Value::Column(_)) => vstd::pervasive::arbitrary(),
    }
}

/// Whether every condition in `conds` holds of the given row. A query is a
/// set of conditions, implicitly AND-ed together.
pub open spec fn matches_all<T: StoreValue>(conds: Seq<Condition<T>>, row: Seq<T>) -> bool {
    forall|i: int| 0 <= i < conds.len() ==> (#[trigger] conds[i]).spec_matches(row)
}

/// Whether every condition in `conds` only mentions columns below `cols`.
pub open spec fn conds_valid<T: StoreValue>(conds: Seq<Condition<T>>, cols: int) -> bool {
    forall|i: int| 0 <= i < conds.len() ==> (#[trigger] conds[i]).valid(cols)
}

/// Evaluate every condition against the given row.
pub fn all_match<T: StoreValue, R: Row<T> + ?Sized>(conds: &[Condition<T>], row: &R) -> (r: bool)
    requires
        conds_valid(conds@, row.view_row().len() as int),
    ensures
        r == matches_all(conds@, row.view_row()),
{
    let mut i: usize = 0;
    while i < conds.len()
        invariant
            i <= conds.len(),
            conds_valid(conds@, row.view_row().len() as int),
            forall|j: int| 0 <= j < i ==> (#[trigger] conds@[j]).spec_matches(row.view_row()),
        decreases conds.len() - i,
    {
        if !conds[i].matches(row) {
            return false;
        }
        i += 1;
    }
    true
}

} // verus!
