use crate::error::LispError;
use crate::literal::{
    decimal_value, digit_run, float_literal, int_literal, is_digit_run, is_float_literal,
    is_plain_decimal, lemma_digit_run_literal, lemma_plain_decimal_is_float, parse_int,
};
use crate::pattern::{has_digit, has_point, is_digit, search, FLOAT_PATTERN, INT_PATTERN};
use crate::text::chars_of;
use vstd::prelude::*;

verus! {

/// A floating-point quantity, held as the literals it was read from and the
/// sums and differences taken of them. Nothing here rounds it to a machine
/// number: that is left to whoever needs the number itself.
#[derive(Debug, PartialEq)]
pub enum Real {
    Literal(String),
    Sum(Box<Real>, Box<Real>),
    Difference(Box<Real>, Box<Real>),
}

/// The mathematical content of a `Real`.
pub ghost enum RealView {
    Literal(Seq<char>),
    Sum(Box<RealView>, Box<RealView>),
    Difference(Box<RealView>, Box<RealView>),
}

impl View for Real {
    type V = RealView;

    open spec fn view(&self) -> RealView
        decreases self,
    {
        match self {
            Real::Literal(text) => RealView::Literal(text@),
            Real::Sum(left, right) => RealView::Sum(Box::new((**left)@), Box::new((**right)@)),
            Real::Difference(left, right) => RealView::Difference(
                Box::new((**left)@),
                Box::new((**right)@),
            ),
        }
    }
}

/// One level of a parenthesized expression: its elements, in order.
#[derive(Debug, PartialEq)]
pub struct Lisper {
    pub list: Vec<Lispies>,
}

/// Every entity the reader and the evaluator handle.
#[derive(Debug, PartialEq)]
pub enum Lispies {
    Symbol(String),
    Int(i32),
    Float(Real),
    List(Lisper),
    Nil,
}

/// The mathematical content of a `Lispies`.
pub ghost enum Value {
    Symbol(Seq<char>),
    Int(int),
    Float(RealView),
    List(Seq<Value>),
    Nil,
}

impl View for Lispies {
    type V = Value;

    open spec fn view(&self) -> Value
        decreases self,
    {
        match self {
            Lispies::Symbol(name) => Value::Symbol(name@),
            Lispies::Int(n) => Value::Int(*n as int),
            Lispies::Float(x) => Value::Float(x@),
            Lispies::List(inner) => Value::List(
                Seq::new(
                    inner.list@.len(),
                    |i: int|
                        if 0 <= i < inner.list@.len() {
                            inner.list@[i]@
                        } else {
                            Value::Nil
                        },
                ),
            ),
            Lispies::Nil => Value::Nil,
        }
    }
}

/// The contents of each of `items`, in order.
pub open spec fn values_of(items: Seq<Lispies>) -> Seq<Value> {
    Seq::new(items.len(), |i: int| items[i]@)
}

impl View for Lisper {
    type V = Seq<Value>;

    open spec fn view(&self) -> Seq<Value> {
        values_of(self.list@)
    }
}

/// A nested list's content is the content of its elements.
pub proof fn lemma_list_view(inner: Lisper)
    ensures
        Lispies::List(inner)@ == Value::List(inner@),
{
    assert(Lispies::List(inner)@->List_0 =~= inner@);
}

/// The content of a result: that of its value, or its error.
pub open spec fn outcome_of(result: Result<Lispies, LispError>) -> Result<Value, LispError> {
    match result {
        Ok(value) => Ok(value@),
        Err(error) => Err(error),
    }
}

/// The outcome that is `value`.
pub open spec fn done(value: Value) -> Result<Value, LispError> {
    Ok(value)
}

/// The outcome that is `error`.
pub open spec fn failed(error: LispError) -> Result<Value, LispError> {
    Err(error)
}

/// Whether `n` is a 32-bit signed integer.
pub open spec fn fits_i32(n: int) -> bool {
    i32::MIN <= n <= i32::MAX
}

/// The sum of two values: of two integers their sum where it fits, of two
/// floating-point values their sum, of anything else nothing.
pub open spec fn sum_of(left: Value, right: Value) -> Result<Value, LispError> {
    match (left, right) {
        (Value::Int(a), Value::Int(b)) => if fits_i32(a + b) {
            Ok(Value::Int(a + b))
        } else {
            Err(LispError::Overflow)
        },
        (Value::Float(x), Value::Float(y)) => Ok(
            Value::Float(RealView::Sum(Box::new(x), Box::new(y))),
        ),
        _ => Err(LispError::UnsupportedOperand),
    }
}

/// The difference of two values, by the rule of `sum_of`.
pub open spec fn difference_of(left: Value, right: Value) -> Result<Value, LispError> {
    match (left, right) {
        (Value::Int(a), Value::Int(b)) => if fits_i32(a - b) {
            Ok(Value::Int(a - b))
        } else {
            Err(LispError::Overflow)
        },
        (Value::Float(x), Value::Float(y)) => Ok(
            Value::Float(RealView::Difference(Box::new(x), Box::new(y))),
        ),
        _ => Err(LispError::UnsupportedOperand),
    }
}

/// What a token other than a parenthesis is taken for.
pub ghost enum TokenKind {
    Float,
    Int,
    Symbol,
}

/// What `token` is taken for. The test for a decimal point comes first: a
/// token with a point is taken for a floating-point number whatever else it
/// holds; one without, made of digits and nothing else, for an integer; any
/// other for a symbol.
pub open spec fn kind_of(token: Seq<char>) -> TokenKind {
    if has_point(token) {
        TokenKind::Float
    } else if is_digit_run(token) {
        TokenKind::Int
    } else {
        TokenKind::Symbol
    }
}

/// What a token other than a parenthesis stands for: the floating-point
/// number that it writes, or an error where it has a point and writes none;
/// the integer that its digits denote, or an error where that is no 32-bit
/// signed integer; else the symbol that it names.
pub open spec fn classify(token: Seq<char>) -> Result<Value, LispError> {
    match kind_of(token) {
        TokenKind::Float => if is_float_literal(token) {
            Ok(Value::Float(RealView::Literal(token)))
        } else {
            Err(LispError::NumericParseFailure)
        },
        TokenKind::Int => if decimal_value(token) <= i32::MAX {
            Ok(Value::Int(decimal_value(token)))
        } else {
            Err(LispError::NumericParseFailure)
        },
        TokenKind::Symbol => Ok(Value::Symbol(token)),
    }
}

/// A token with a decimal point is taken for a floating-point number even
/// where it holds digits, and read as one where it is digits and a point; a
/// run of digits and nothing else is taken for an integer, and read as the
/// number it writes where that fits; any other token is a symbol.
pub proof fn lemma_classification_precedence(token: Seq<char>)
    ensures
        has_point(token) ==> kind_of(token) == TokenKind::Float,
        has_point(token) ==> classify(token) == done(
            Value::Float(RealView::Literal(token)),
        ) || classify(token) == failed(LispError::NumericParseFailure),
        is_plain_decimal(token) ==> classify(token) == done(
            Value::Float(RealView::Literal(token)),
        ),
        is_digit_run(token) ==> kind_of(token) == TokenKind::Int,
        is_digit_run(token) && decimal_value(token) <= i32::MAX ==> classify(token) == done(
            Value::Int(decimal_value(token)),
        ),
        is_digit_run(token) && decimal_value(token) > i32::MAX ==> classify(token) == failed(
            LispError::NumericParseFailure,
        ),
        !has_point(token) && !is_digit_run(token) ==> classify(token) == done(
            Value::Symbol(token),
        ),
{
    if is_plain_decimal(token) {
        lemma_plain_decimal_is_float(token);
    }
    if is_digit_run(token) {
        assert forall|i: int| 0 <= i < token.len() implies token[i] != '.' by {
            assert(is_digit(token[i]));
        }
    }
}

impl Lispies {
    /// Whether `s` is taken for an integer: it holds a digit somewhere.
    pub fn is_int(s: &str) -> (yes: bool)
        ensures
            yes == has_digit(s@),
    {
        match search(INT_PATTERN, s) {
            Ok(hit) => hit,
            Err(_) => false,
        }
    }

    /// Whether `s` is taken for a floating-point number: it holds a decimal
    /// point somewhere.
    pub fn is_float(s: &str) -> (yes: bool)
        ensures
            yes == has_point(s@),
    {
        match search(FLOAT_PATTERN, s) {
            Ok(hit) => hit,
            Err(_) => false,
        }
    }

    /// Reads `s` as an integer literal.
    pub fn to_int(s: &str) -> (value: Result<Lispies, LispError>)
        ensures
            outcome_of(value) == (match int_literal(s@) {
                Some(n) => Ok(Value::Int(n)),
                None => Err(LispError::NumericParseFailure),
            }),
    {
        let chars = chars_of(s);
        match parse_int(&chars) {
            Some(n) => Ok(Lispies::Int(n)),
            None => Err(LispError::NumericParseFailure),
        }
    }

    /// Reads `s` as a floating-point literal.
    pub fn to_float(s: &str) -> (value: Result<Lispies, LispError>)
        ensures
            outcome_of(value) == if is_float_literal(s@) {
                done(Value::Float(RealView::Literal(s@)))
            } else {
                Err(LispError::NumericParseFailure)
            },
    {
        let chars = chars_of(s);
        if float_literal(&chars) {
            Ok(Lispies::Float(Real::Literal(s.to_owned())))
        } else {
            Err(LispError::NumericParseFailure)
        }
    }

    /// Reads a token other than a parenthesis: a floating-point literal where
    /// it holds a decimal point, else an integer where it is digits and
    /// nothing else, else the symbol of that text.
    pub fn from_token(value: &str) -> (read: Result<Lispies, LispError>)
        ensures
            outcome_of(read) == classify(value@),
            has_point(value@) ==> outcome_of(read) == done(
                Value::Float(RealView::Literal(value@)),
            ) || outcome_of(read) == failed(LispError::NumericParseFailure),
            is_digit_run(value@) && decimal_value(value@) <= i32::MAX ==> outcome_of(read) == done(
                Value::Int(decimal_value(value@)),
            ),
            is_digit_run(value@) && decimal_value(value@) > i32::MAX ==> outcome_of(read)
                == failed(LispError::NumericParseFailure),
            !has_point(value@) && !is_digit_run(value@) ==> outcome_of(read) == done(
                Value::Symbol(value@),
            ),
    {
        proof {
            lemma_classification_precedence(value@);
            if is_digit_run(value@) {
                lemma_digit_run_literal(value@);
            }
        }
        if Self::is_float(value) {
            Self::to_float(value)
        } else if Self::is_int(value) && digit_run(value) {
            Self::to_int(value)
        } else {
            Ok(Lispies::Symbol(value.to_owned()))
        }
    }

    /// The sum of `self` and `rhs`, which must be of one numeric kind.
    pub fn add(self, rhs: Lispies) -> (sum: Result<Lispies, LispError>)
        ensures
            outcome_of(sum) == sum_of(self@, rhs@),
    {
        match (self, rhs) {
            (Lispies::Int(left), Lispies::Int(right)) => match left.checked_add(right) {
                Some(total) => Ok(Lispies::Int(total)),
                None => Err(LispError::Overflow),
            },
            (Lispies::Float(left), Lispies::Float(right)) => Ok(
                Lispies::Float(Real::Sum(Box::new(left), Box::new(right))),
            ),
            (_, _) => Err(LispError::UnsupportedOperand),
        }
    }

    /// The difference of `self` and `rhs`, which must be of one numeric kind.
    pub fn sub(self, rhs: Lispies) -> (difference: Result<Lispies, LispError>)
        ensures
            outcome_of(difference) == difference_of(self@, rhs@),
    {
        match (self, rhs) {
            (Lispies::Int(left), Lispies::Int(right)) => match left.checked_sub(right) {
                Some(rest) => Ok(Lispies::Int(rest)),
                None => Err(LispError::Overflow),
            },
            (Lispies::Float(left), Lispies::Float(right)) => Ok(
                Lispies::Float(Real::Difference(Box::new(left), Box::new(right))),
            ),
            (_, _) => Err(LispError::UnsupportedOperand),
        }
    }
}

impl Lisper {
    /// The empty list.
    pub fn new() -> (empty: Self)
        ensures
            empty@ == Seq::<Value>::empty(),
    {
        let empty = Self { list: Vec::new() };
        assert(empty@ =~= Seq::<Value>::empty());
        empty
    }

    /// Appends `value` as the last element.
    pub fn push(&mut self, value: Lispies)
        ensures
            final(self)@ == old(self)@.push(value@),
    {
        self.list.push(value);
        assert(self@ =~= old(self)@.push(value@));
    }
}

impl Default for Lisper {
    fn default() -> (empty: Self)
        ensures
            empty@ == Seq::<Value>::empty(),
    {
        Self::new()
    }
}

impl From<Lisper> for Lispies {
    fn from(val: Lisper) -> (wrapped: Self) {
        Lispies::List(val)
    }
}

impl vstd::std_specs::convert::FromSpecImpl<Lisper> for Lispies {
    open spec fn obeys_from_spec() -> bool {
        true
    }

    open spec fn from_spec(val: Lisper) -> Self {
        Lispies::List(val)
    }
}

impl From<Lispies> for Option<Lisper> {
    fn from(val: Lispies) -> (inner: Self) {
        match val {
            Lispies::List(val) => Some(val),
            _ => None,
        }
    }
}

impl vstd::std_specs::convert::FromSpecImpl<Lispies> for Option<Lisper> {
    open spec fn obeys_from_spec() -> bool {
        true
    }

    open spec fn from_spec(val: Lispies) -> Self {
        match val {
            Lispies::List(val) => Some(val),
            _ => None,
        }
    }
}

impl Real {
    /// A copy of the quantity.
    pub fn duplicate(&self) -> (copy: Real)
        ensures
            copy@ == self@,
        decreases self,
    {
        match self {
            Real::Literal(text) => Real::Literal(text.clone()),
            Real::Sum(left, right) => Real::Sum(
                Box::new(left.duplicate()),
                Box::new(right.duplicate()),
            ),
            Real::Difference(left, right) => Real::Difference(
                Box::new(left.duplicate()),
                Box::new(right.duplicate()),
            ),
        }
    }
}

impl Lispies {
    /// A copy of the value, nested lists and all.
    pub fn duplicate(&self) -> (copy: Lispies)
        ensures
            copy@ == self@,
        decreases self,
    {
        match self {
            Lispies::Symbol(name) => Lispies::Symbol(name.clone()),
            Lispies::Int(n) => Lispies::Int(*n),
            Lispies::Float(x) => Lispies::Float(x.duplicate()),
            Lispies::List(inner) => {
                let copy = inner.duplicate();
                proof {
                    lemma_list_view(copy);
                    lemma_list_view(*inner);
                }
                Lispies::List(copy)
            },
            Lispies::Nil => Lispies::Nil,
        }
    }
}

impl Clone for Real {
    fn clone(&self) -> (copy: Self)
        ensures
            copy@ == self@,
    {
        self.duplicate()
    }
}

impl Clone for Lispies {
    fn clone(&self) -> (copy: Self)
        ensures
            copy@ == self@,
    {
        self.duplicate()
    }
}

impl Lisper {
    /// A copy of the list, nested lists and all.
    pub fn duplicate(&self) -> (copy: Lisper)
        ensures
            copy@ == self@,
        decreases self,
    {
        let mut list: Vec<Lispies> = Vec::new();
        let mut i: usize = 0;
        while i < self.list.len()
            invariant
                0 <= i <= self.list.len(),
                list.len() == i,
                forall|k: int| 0 <= k < i ==> list@[k]@ == self.list@[k]@,
            decreases self.list.len() - i,
        {
            proof {
                assert(decreases_to!(*self => self.list));
                assert(decreases_to!(self.list => self.list@));
                assert(decreases_to!(self.list@ => self.list@[i as int]));
            }
            let item = self.list[i].duplicate();
            list.push(item);
            i += 1;
        }
        let copy = Lisper { list };
        assert(copy@ =~= self@);
        copy
    }
}

impl Clone for Lisper {
    fn clone(&self) -> (copy: Self)
        ensures
            copy@ == self@,
    {
        self.duplicate()
    }
}

} // verus!
