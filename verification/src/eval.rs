use crate::error::LispError;
use crate::lispies::{
    difference_of, done, failed, fits_i32, lemma_list_view, outcome_of, sum_of, values_of, Lispies,
    RealView, Value,
};
use vstd::hash_map::StringHashMap;
use vstd::prelude::*;

verus! {

/// The operators of integer and floating-point arithmetic.
#[derive(Clone, Copy, Debug, PartialEq, Eq)]
pub enum Func {
    /// The sum of the two operands.
    Add,
    /// The first operand less the second.
    Sub,
}

/// A binary operator that a name of the operator table can stand for.
pub trait Operator {
    /// What the operator makes of two operands.
    spec fn applied(&self, left: Value, right: Value) -> Result<Value, LispError>;

    /// Applies the operator to two operands.
    fn apply(&self, left: Lispies, right: Lispies) -> (result: Result<Lispies, LispError>)
        ensures
            outcome_of(result) == self.applied(left@, right@),
    ;
}

impl Operator for Func {
    open spec fn applied(&self, left: Value, right: Value) -> Result<Value, LispError> {
        match self {
            Func::Add => sum_of(left, right),
            Func::Sub => difference_of(left, right),
        }
    }

    fn apply(&self, left: Lispies, right: Lispies) -> (result: Result<Lispies, LispError>) {
        match self {
            Func::Add => left.add(right),
            Func::Sub => left.sub(right),
        }
    }
}

/// The operator table: what each operator's name stands for. Where nothing
/// else is said, its operators are those of arithmetic.
pub type OperatorTable<O = Func> = StringHashMap<O>;

/// The operators that `env` registers: `+` and `-`.
pub open spec fn with_arithmetic(table: Map<Seq<char>, Func>) -> Map<Seq<char>, Func> {
    table.insert(seq!['+'], Func::Add).insert(seq!['-'], Func::Sub)
}

/// Registers `+` as addition and `-` as subtraction, over whatever the table
/// held under those names.
pub fn env(hm: &mut StringHashMap<Func>)
    ensures
        final(hm)@ == with_arithmetic(old(hm)@),
{
    proof {
        reveal_strlit("+");
        reveal_strlit("-");
        assert("+"@ =~= seq!['+']);
        assert("-"@ =~= seq!['-']);
    }
    hm.insert("+".to_owned(), Func::Add);
    hm.insert("-".to_owned(), Func::Sub);
}

/// What the element at `at` is worth as an operand: an integer is worth
/// itself, a list what it evaluates to, anything else nothing, and so is a
/// place behind the end.
pub open spec fn operand_at<O: Operator>(
    forms: Seq<Value>,
    table: Map<Seq<char>, O>,
    at: int,
) -> Result<Value, LispError>
    decreases forms, 0int,
{
    if 0 <= at < forms.len() {
        match forms[at] {
            Value::Int(n) => Ok(Value::Int(n)),
            Value::List(inner) => accumulated(inner, table, 0, Value::Int(0)),
            _ => Err(LispError::UnsupportedOperand),
        }
    } else {
        Err(LispError::UnsupportedOperand)
    }
}

/// What evaluation gives from place `at` on, with `total` gathered so far.
///
/// An integer is added to the total. A symbol is looked up in the table and
/// applied to the two elements behind it, taken as operands, and the result is
/// added to the total. Any other element is an error. The total at the end is
/// the result.
pub open spec fn accumulated<O: Operator>(
    forms: Seq<Value>,
    table: Map<Seq<char>, O>,
    at: int,
    total: Value,
) -> Result<Value, LispError>
    decreases forms, forms.len() - at + 3,
{
    if 0 <= at < forms.len() {
        match forms[at] {
            Value::Int(n) => match sum_of(total, Value::Int(n)) {
                Ok(more) => accumulated(forms, table, at + 1, more),
                Err(error) => Err(error),
            },
            Value::Symbol(name) => if !table.contains_key(name) {
                Err(LispError::UnknownOperator)
            } else {
                match operand_at(forms, table, at + 1) {
                    Ok(left) => match operand_at(forms, table, at + 2) {
                        Ok(right) => match table[name].applied(left, right) {
                            Ok(result) => match sum_of(total, result) {
                                Ok(more) => accumulated(forms, table, at + 3, more),
                                Err(error) => Err(error),
                            },
                            Err(error) => Err(error),
                        },
                        Err(error) => Err(error),
                    },
                    Err(error) => Err(error),
                }
            },
            _ => Err(LispError::UnsupportedOperand),
        }
    } else {
        Ok(total)
    }
}

/// What a list evaluates to: the sum of what its top-level forms are worth,
/// gathered from zero.
pub open spec fn evaluated<O: Operator>(forms: Seq<Value>, table: Map<Seq<char>, O>) -> Result<
    Value,
    LispError,
> {
    accumulated(forms, table, 0, Value::Int(0))
}

/// Evaluates `lisps` against the operators of `env`: the sum of what its
/// top-level forms are worth. An operator's name is looked up before its
/// operands are evaluated.
pub fn eval<O: Operator>(lisps: &[Lispies], env: &StringHashMap<O>) -> (result: Result<
    Lispies,
    LispError,
>)
    ensures
        outcome_of(result) == evaluated(values_of(lisps@), env@),
        result matches Ok(value) ==> value is Int,
    decreases lisps@, 1int,
{
    let ghost forms = values_of(lisps@);
    let mut res = Lispies::Int(0);
    let mut pos: usize = 0;
    while pos < lisps.len()
        invariant
            0 <= pos <= lisps.len(),
            forms == values_of(lisps@),
            accumulated(forms, env@, pos as int, res@) == evaluated(forms, env@),
        decreases lisps.len() - pos,
    {
        match &lisps[pos] {
            Lispies::Symbol(x) => {
                let func = match env.get(x.as_str()) {
                    Some(func) => func,
                    None => {
                        return Err(LispError::UnknownOperator);
                    },
                };
                let arg1 = match eval_next(&mut pos, env, lisps) {
                    Ok(value) => value,
                    Err(error) => {
                        return Err(error);
                    },
                };
                let arg2 = match eval_next(&mut pos, env, lisps) {
                    Ok(value) => value,
                    Err(error) => {
                        return Err(error);
                    },
                };
                let value = match func.apply(arg1, arg2) {
                    Ok(value) => value,
                    Err(error) => {
                        return Err(error);
                    },
                };
                res = match res.add(value) {
                    Ok(more) => more,
                    Err(error) => {
                        return Err(error);
                    },
                };
            },
            Lispies::Int(x) => {
                res = match res.add(Lispies::Int(*x)) {
                    Ok(more) => more,
                    Err(error) => {
                        return Err(error);
                    },
                };
            },
            _ => {
                return Err(LispError::UnsupportedOperand);
            },
        }
        pos += 1;
    }
    proof {
        lemma_evaluated_is_integer(forms, env@, 0, 0);
    }
    Ok(res)
}

/// Steps to the next element and evaluates it as an operand.
fn eval_next<O: Operator>(pos: &mut usize, env: &StringHashMap<O>, lisps: &[Lispies]) -> (result:
    Result<Lispies, LispError>)
    requires
        *old(pos) < lisps.len(),
    ensures
        *final(pos) == *old(pos) + 1,
        outcome_of(result) == operand_at(values_of(lisps@), env@, *final(pos) as int),
        result is Ok ==> *final(pos) < lisps.len(),
    decreases lisps@, 0int,
{
    *pos += 1;
    if *pos >= lisps.len() {
        return Err(LispError::UnsupportedOperand);
    }
    match &lisps[*pos] {
        Lispies::Int(val) => Ok(Lispies::Int(*val)),
        Lispies::List(vals) => {
            proof {
                lemma_list_view(*vals);
            }
            eval(vals.list.as_slice(), env)
        },
        _ => Err(LispError::UnsupportedOperand),
    }
}

/// Whatever evaluation gives from an integer total on is an integer.
pub proof fn lemma_evaluated_is_integer<O: Operator>(
    forms: Seq<Value>,
    table: Map<Seq<char>, O>,
    at: int,
    total: int,
)
    requires
        0 <= at,
    ensures
        accumulated(forms, table, at, Value::Int(total)) matches Ok(value) ==> value is Int,
    decreases forms.len() - at,
{
    if at < forms.len() {
        match forms[at] {
            Value::Int(n) => {
                lemma_evaluated_is_integer(forms, table, at + 1, total + n);
            },
            Value::Symbol(name) => {
                if table.contains_key(name) {
                    let left = operand_at(forms, table, at + 1);
                    let right = operand_at(forms, table, at + 2);
                    if left is Ok && right is Ok {
                        let result = table[name].applied(left->Ok_0, right->Ok_0);
                        if result is Ok && sum_of(Value::Int(total), result->Ok_0) is Ok {
                            lemma_evaluated_is_integer(
                                forms,
                                table,
                                at + 3,
                                total + result->Ok_0->Int_0,
                            );
                        }
                    }
                }
            },
            _ => {},
        }
    }
}

/// No operator takes an integer with a floating-point value: the
/// application fails, and neither operand is turned into the other's kind.
pub proof fn lemma_same_kind_enforced(func: Func, n: int, x: RealView)
    ensures
        func.applied(Value::Int(n), Value::Float(x)) == failed(
            LispError::UnsupportedOperand,
        ),
        func.applied(Value::Float(x), Value::Int(n)) == failed(
            LispError::UnsupportedOperand,
        ),
{
}

/// Evaluating a known operator with an integer for one operand and a
/// floating-point value for the other fails with `UnsupportedOperand`,
/// wherever the application stands and whatever was gathered before it.
pub proof fn lemma_mixed_application_fails<O: Operator>(
    forms: Seq<Value>,
    table: Map<Seq<char>, O>,
    at: int,
    total: Value,
)
    requires
        0 <= at,
        at + 2 < forms.len(),
        forms[at] matches Value::Symbol(name) && table.contains_key(name),
        (forms[at + 1] is Int && forms[at + 2] is Float) || (forms[at + 1] is Float && forms[at
            + 2] is Int),
    ensures
        accumulated(forms, table, at, total) == failed(
            LispError::UnsupportedOperand,
        ),
{
    assert(operand_at(forms, table, at + 1) is Err || operand_at(forms, table, at + 2) is Err);
    assert(operand_at(forms, table, at + 1) is Err ==> operand_at(forms, table, at + 1) == failed(LispError::UnsupportedOperand));
    assert(operand_at(forms, table, at + 2) is Err ==> operand_at(forms, table, at + 2) == failed(LispError::UnsupportedOperand));
}

/// Whether every integer among `forms` is a 32-bit signed integer, as it is
/// in the content of any list.
pub open spec fn integers_fit(forms: Seq<Value>) -> bool {
    forall|i: int|
        0 <= i < forms.len() ==> (#[trigger] forms[i] matches Value::Int(n) ==> fits_i32(n))
}

/// The top-level form that begins at `at`: a symbol with the two elements
/// behind it, as far as they are there, or any other element alone.
pub open spec fn form_at(forms: Seq<Value>, at: int) -> Seq<Value> {
    if forms[at] is Symbol {
        forms.subrange(
            at,
            if at + 3 <= forms.len() {
                at + 3
            } else {
                forms.len() as int
            },
        )
    } else {
        forms.subrange(at, at + 1)
    }
}

/// The sum of what the forms from `at` on are worth, each evaluated by itself;
/// nothing where one of them evaluates to no integer.
pub open spec fn worth_from<O: Operator>(
    forms: Seq<Value>,
    table: Map<Seq<char>, O>,
    at: int,
) -> Option<int>
    decreases forms.len() - at,
{
    if 0 <= at < forms.len() {
        let form = form_at(forms, at);
        match (evaluated(form, table), worth_from(forms, table, at + form.len())) {
            (Ok(Value::Int(worth)), Some(rest)) => Some(worth + rest),
            _ => None,
        }
    } else {
        Some(0)
    }
}

/// Where evaluation from `at` on succeeds, every form from there on evaluates
/// by itself to an integer, and the result is what was gathered before plus
/// the sum of those integers.
pub proof fn lemma_accumulated_is_sum<O: Operator>(
    forms: Seq<Value>,
    table: Map<Seq<char>, O>,
    at: int,
    total: int,
)
    requires
        0 <= at <= forms.len(),
        integers_fit(forms),
        results_fit(table),
        accumulated(forms, table, at, Value::Int(total)) is Ok,
    ensures
        worth_from(forms, table, at) is Some,
        accumulated(forms, table, at, Value::Int(total)) == done(
            Value::Int(total + worth_from(forms, table, at)->Some_0),
        ),
    decreases forms.len() - at,
{
    if at < forms.len() {
        let form = form_at(forms, at);
        match forms[at] {
            Value::Int(n) => {
                assert(form[0] == forms[at]);
                assert(accumulated(form, table, 1, Value::Int(n)) == done(
                    Value::Int(n),
                ));
                assert(evaluated(form, table) == done(Value::Int(n)));
                lemma_accumulated_is_sum(forms, table, at + 1, total + n);
            },
            Value::Symbol(name) => {
                let left = operand_at(forms, table, at + 1);
                let right = operand_at(forms, table, at + 2);
                assert(left is Ok && right is Ok);
                assert(at + 2 < forms.len());
                assert(form[0] == forms[at] && form[1] == forms[at + 1] && form[2] == forms[at
                    + 2]);
                assert(operand_at(form, table, 1) == left);
                assert(operand_at(form, table, 2) == right);
                let result = table[name].applied(left->Ok_0, right->Ok_0);
                assert(result is Ok);
                assert(sum_of(Value::Int(total), result->Ok_0) is Ok);
                let worth = result->Ok_0->Int_0;
                assert(accumulated(form, table, 3, Value::Int(worth)) == done(
                    Value::Int(worth),
                ));
                assert(evaluated(form, table) == done(Value::Int(worth)));
                lemma_accumulated_is_sum(forms, table, at + 3, total + worth);
            },
            _ => {},
        }
    }
}

/// Whether every integer that an operator of `table` gives is a 32-bit signed
/// integer, as every integer is that an operator hands back when applied.
pub open spec fn results_fit<O: Operator>(table: Map<Seq<char>, O>) -> bool {
    forall|name: Seq<char>, left: Value, right: Value|
        table.contains_key(name) ==> (#[trigger] table[name].applied(left, right) matches Ok(
            Value::Int(n),
        ) ==> fits_i32(n))
}

/// The integers that the arithmetic operators give are 32-bit signed
/// integers.
pub proof fn lemma_arithmetic_fits(table: Map<Seq<char>, Func>)
    ensures
        results_fit(table),
{
}

/// The integers in the content of a list are 32-bit signed integers.
pub proof fn lemma_integers_fit(lisps: Seq<Lispies>)
    ensures
        integers_fit(values_of(lisps)),
{
}

/// Where a list evaluates at all, each of its top-level forms evaluates by
/// itself to an integer, and the list evaluates to the sum of those integers.
pub proof fn lemma_accumulation<O: Operator>(forms: Seq<Value>, table: Map<Seq<char>, O>)
    requires
        integers_fit(forms),
        results_fit(table),
        evaluated(forms, table) is Ok,
    ensures
        worth_from(forms, table, 0) is Some,
        evaluated(forms, table) == done(
            Value::Int(worth_from(forms, table, 0)->Some_0),
        ),
{
    lemma_accumulated_is_sum(forms, table, 0, 0);
}

} // verus!
