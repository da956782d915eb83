//! What the instructions compute: arithmetic, comparison, indexing and
//! the built-in functions on collections.
//!
//! Each operation is stated as a function on models, with the error it
//! gives, and carried out by an executable function that is proved to
//! agree with it.

use vstd::prelude::*;
use vstd::string::*;
use crate::decimal::display_text;
use crate::dict::{compare_keys, key_lt, lookup, put};
use crate::error::{ErrorKind, ErrorModel, KindModel, WhispemError, WhispemResult, error_at_line, error_nowhere};
use crate::number::{
    Number, add_spec, div_spec, eq_spec, integral, is_zero, le_spec, lt_spec, sign_of,
    mul_spec, neg_spec, rem_spec, sub_spec, to_i64_spec, to_usize_spec,
};
use crate::text::{push_char, push_decimal, signed_decimal};
use crate::value::{
    Data, Dict, Value, format_text, kind_text, lemma_array_view, lemma_dict_view, views,
};

verus! {

/// A value, or the error that took its place.
pub type Outcome = Result<Data, ErrorModel>;

/// Whether an executable result is the given outcome.
pub open spec fn yields(r: WhispemResult<Value>, model: Outcome) -> bool {
    match r {
        Ok(v) => model == Ok::<Data, ErrorModel>(v@),
        Err(e) => model == Err::<Data, ErrorModel>(e@),
    }
}

pub open spec fn type_error(expected: Seq<char>, found: Seq<char>, line: usize) -> ErrorModel {
    error_at_line(KindModel::TypeError { expected, found }, line)
}

/// The names of the types of two operands, as a type error shows them.
pub open spec fn both_kinds(a: Data, b: Data) -> Seq<char> {
    kind_text(a) + " and "@ + kind_text(b)
}

/// `ADD`: the sum of two numbers; with a string on either side, the texts
/// of both joined.
pub open spec fn add_model(a: Data, b: Data, line: usize) -> Outcome {
    match (a, b) {
        (Data::Number(x), Data::Number(y)) => Ok(Data::Number(add_spec(x, y))),
        (Data::Str(x), _) => Ok(Data::Str(x + format_text(b))),
        (_, Data::Str(y)) => Ok(Data::Str(format_text(a) + y)),
        _ => Err(type_error("number or string"@, both_kinds(a, b), line)),
    }
}

/// `SUB`.
pub open spec fn sub_model(a: Data, b: Data, line: usize) -> Outcome {
    match (a, b) {
        (Data::Number(x), Data::Number(y)) => Ok(Data::Number(sub_spec(x, y))),
        _ => Err(type_error("number"@, both_kinds(a, b), line)),
    }
}

/// `MUL`.
pub open spec fn mul_model(a: Data, b: Data, line: usize) -> Outcome {
    match (a, b) {
        (Data::Number(x), Data::Number(y)) => Ok(Data::Number(mul_spec(x, y))),
        _ => Err(type_error("number"@, both_kinds(a, b), line)),
    }
}

/// `DIV`: a zero divisor is an error.
pub open spec fn div_model(a: Data, b: Data, line: usize) -> Outcome {
    match (a, b) {
        (Data::Number(x), Data::Number(y)) => if is_zero(y) {
            Err(error_nowhere(KindModel::DivisionByZero))
        } else {
            Ok(Data::Number(div_spec(x, y)))
        },
        _ => Err(type_error("number"@, both_kinds(a, b), line)),
    }
}

/// `MOD`: a zero divisor is an error.
pub open spec fn rem_model(a: Data, b: Data, line: usize) -> Outcome {
    match (a, b) {
        (Data::Number(x), Data::Number(y)) => if is_zero(y) {
            Err(error_nowhere(KindModel::DivisionByZero))
        } else {
            Ok(Data::Number(rem_spec(x, y)))
        },
        _ => Err(type_error("number"@, both_kinds(a, b), line)),
    }
}

/// `NEG`.
pub open spec fn neg_model(a: Data, line: usize) -> Outcome {
    match a {
        Data::Number(x) => Ok(Data::Number(neg_spec(x))),
        _ => Err(type_error("number"@, kind_text(a), line)),
    }
}

/// `EQ`: numbers, strings, booleans and none are equal to their like;
/// values of different types, and arrays and dictionaries, are never equal.
pub open spec fn equal_model(a: Data, b: Data) -> bool {
    match (a, b) {
        (Data::Number(x), Data::Number(y)) => eq_spec(x, y),
        (Data::Str(x), Data::Str(y)) => x == y,
        (Data::Bool(x), Data::Bool(y)) => x == y,
        (Data::Nil, Data::Nil) => true,
        _ => false,
    }
}

/// The four orderings.
#[derive(Debug, Clone, Copy, PartialEq, Eq, Structural)]
pub enum Comparison {
    Lt,
    Lte,
    Gt,
    Gte,
}

/// `LT`, `LTE`, `GT`, `GTE`: two numbers by size, two strings by their bytes.
pub open spec fn compare_model(op: Comparison, a: Data, b: Data, line: usize) -> Outcome {
    match (a, b) {
        (Data::Number(x), Data::Number(y)) => Ok(
            Data::Bool(
                match op {
                    Comparison::Lt => lt_spec(x, y),
                    Comparison::Lte => le_spec(x, y),
                    Comparison::Gt => lt_spec(y, x),
                    Comparison::Gte => le_spec(y, x),
                },
            ),
        ),
        (Data::Str(x), Data::Str(y)) => Ok(
            Data::Bool(
                match op {
                    Comparison::Lt => key_lt(x, y),
                    Comparison::Lte => key_lt(x, y) || x == y,
                    Comparison::Gt => key_lt(y, x),
                    Comparison::Gte => key_lt(y, x) || x == y,
                },
            ),
        ),
        _ => Err(type_error("number or string"@, both_kinds(a, b), line)),
    }
}

/// The key that a number stands for: its integer part in decimal when it
/// has no fractional part, and the number written in full otherwise.
pub open spec fn key_text(bits: u64) -> Seq<char> {
    if integral(bits) {
        signed_decimal(to_i64_spec(bits) as int)
    } else {
        display_text(bits)
    }
}

/// The dictionary key that a value stands for.
pub open spec fn dict_key_model(v: Data, line: usize) -> Result<Seq<char>, ErrorModel> {
    match v {
        Data::Str(s) => Ok(s),
        Data::Number(bits) => Ok(key_text(bits)),
        _ => Err(type_error("string or number (as dict key)"@, kind_text(v), line)),
    }
}

/// Whether a number can be an index: whether it is finite, has no
/// fractional part and is not below zero.  The zero of either sign is one.
pub open spec fn is_index(bits: u64) -> bool {
    integral(bits) && (!sign_of(bits) || is_zero(bits))
}

/// The index that a value stands for: that of a number which is an
/// integer not below zero.  Any other number, and any other value, is
/// the error `InvalidIndex`.
pub open spec fn index_of_model(v: Data, line: usize) -> Result<usize, ErrorModel> {
    match v {
        Data::Number(bits) => if is_index(bits) {
            Ok(to_usize_spec(bits))
        } else {
            Err(error_at_line(KindModel::InvalidIndex, line))
        },
        _ => Err(error_at_line(KindModel::InvalidIndex, line)),
    }
}

/// The integer that a value stands for.
pub open spec fn int_of_model(v: Data, line: usize) -> Result<i64, ErrorModel> {
    match v {
        Data::Number(bits) => Ok(to_i64_spec(bits)),
        _ => Err(type_error("number"@, kind_text(v), line)),
    }
}

/// What a missing dictionary key is reported as.
pub open spec fn missing_key(key: Seq<char>, line: usize) -> ErrorModel {
    error_at_line(KindModel::UndefinedVariable("dict key \""@ + key + "\""@), line)
}

/// `GET_INDEX`: the element of an array at an index, or the value of a
/// dictionary under a key.
pub open spec fn index_model(obj: Data, idx: Data, line: usize) -> Outcome {
    match obj {
        Data::Array(items) => match index_of_model(idx, line) {
            Ok(i) => if i >= items.len() {
                Err(
                    error_at_line(
                        KindModel::IndexOutOfBounds { index: i, length: items.len() as usize },
                        line,
                    ),
                )
            } else {
                Ok(items[i as int])
            },
            Err(e) => Err(e),
        },
        Data::Dict(entries) => match dict_key_model(idx, line) {
            Ok(key) => match lookup(entries, key) {
                Some(v) => Ok(v),
                None => Err(missing_key(key, line)),
            },
            Err(e) => Err(e),
        },
        _ => Err(type_error("array or dict"@, kind_text(obj), line)),
    }
}

/// `SET_INDEX`: the array with one element replaced, or the dictionary
/// with one key bound.
pub open spec fn set_index_model(obj: Data, idx: Data, value: Data, line: usize) -> Outcome {
    match obj {
        Data::Array(items) => match index_of_model(idx, line) {
            Ok(i) => if i >= items.len() {
                Err(
                    error_at_line(
                        KindModel::IndexOutOfBounds { index: i, length: items.len() as usize },
                        line,
                    ),
                )
            } else {
                Ok(Data::Array(items.update(i as int, value)))
            },
            Err(e) => Err(e),
        },
        Data::Dict(entries) => match dict_key_model(idx, line) {
            Ok(key) => Ok(Data::Dict(put(entries, key, value))),
            Err(e) => Err(e),
        },
        _ => Err(type_error("array or dict"@, kind_text(obj), line)),
    }
}

/// An array is indexed by integers not below zero only: a number that
/// is negative, has a fractional part, is infinite or is no number is the
/// error `InvalidIndex`, for reading an element and for replacing one.
pub proof fn lemma_index_refused(items: Seq<Data>, bits: u64, value: Data, line: usize)
    requires
        !is_index(bits),
    ensures
        index_model(Data::Array(items), Data::Number(bits), line) == Err::<Data, ErrorModel>(
            error_at_line(KindModel::InvalidIndex, line),
        ),
        set_index_model(Data::Array(items), Data::Number(bits), value, line) == Err::<
            Data,
            ErrorModel,
        >(error_at_line(KindModel::InvalidIndex, line)),
{
}

/// A number that is an integer not below zero and within an array reads
/// the element at its place, and replaces that element and no other.
pub proof fn lemma_index_taken(items: Seq<Data>, bits: u64, value: Data, line: usize)
    requires
        is_index(bits),
        to_usize_spec(bits) < items.len(),
    ensures
        index_model(Data::Array(items), Data::Number(bits), line) == Ok::<Data, ErrorModel>(
            items[to_usize_spec(bits) as int],
        ),
        set_index_model(Data::Array(items), Data::Number(bits), value, line) == Ok::<
            Data,
            ErrorModel,
        >(Data::Array(items.update(to_usize_spec(bits) as int, value))),
{
}

/// Dividing a number by zero, of either sign, is the error
/// `DivisionByZero`, and so is taking the remainder.
pub proof fn lemma_division_by_zero(x: u64, y: u64, line: usize)
    requires
        is_zero(y),
    ensures
        div_model(Data::Number(x), Data::Number(y), line) == Err::<Data, ErrorModel>(
            error_nowhere(KindModel::DivisionByZero),
        ),
        rem_model(Data::Number(x), Data::Number(y), line) == Err::<Data, ErrorModel>(
            error_nowhere(KindModel::DivisionByZero),
        ),
{
}

/// Indexing an array at or beyond its length is the error
/// `IndexOutOfBounds`, with the index and the length.
pub proof fn lemma_index_out_of_bounds(items: Seq<Data>, idx: Data, line: usize)
    requires
        index_of_model(idx, line) is Ok,
        index_of_model(idx, line)->Ok_0 >= items.len(),
    ensures
        index_model(Data::Array(items), idx, line) == Err::<Data, ErrorModel>(
            error_at_line(
                KindModel::IndexOutOfBounds {
                    index: index_of_model(idx, line)->Ok_0,
                    length: items.len() as usize,
                },
                line,
            ),
        ),
{
}

pub fn type_error_at(expected: &str, found: String, line: usize) -> (e: WhispemError)
    ensures
        e@ == type_error(expected@, found@, line),
{
    WhispemError::at_line(
        ErrorKind::TypeError { expected: String::from_str(expected), found },
        line,
    )
}

/// The names of the types of two operands, as a type error shows them.
fn kinds_of(a: &Value, b: &Value) -> (s: String)
    ensures
        s@ == both_kinds(a@, b@),
{
    let mut s = String::from_str(a.kind_name());
    s.append(" and ");
    s.append(b.kind_name());
    s
}

pub fn kind_of(a: &Value) -> (s: String)
    ensures
        s@ == kind_text(a@),
{
    String::from_str(a.kind_name())
}

pub fn add_values(a: Value, b: Value, line: usize) -> (r: WhispemResult<Value>)
    ensures
        yields(r, add_model(a@, b@, line)),
{
    match (a, b) {
        (Value::Number(x), Value::Number(y)) => Ok(Value::Number(x.add(y))),
        (Value::Str(x), other) => {
            let mut s = x;
            other.format_into(&mut s);
            Ok(Value::Str(s))
        },
        (other, Value::Str(y)) => {
            let mut s = other.format();
            s.append(y.as_str());
            Ok(Value::Str(s))
        },
        (a, b) => Err(type_error_at("number or string", kinds_of(&a, &b), line)),
    }
}

pub fn sub_values(a: Value, b: Value, line: usize) -> (r: WhispemResult<Value>)
    ensures
        yields(r, sub_model(a@, b@, line)),
{
    match (a, b) {
        (Value::Number(x), Value::Number(y)) => Ok(Value::Number(x.sub(y))),
        (a, b) => Err(type_error_at("number", kinds_of(&a, &b), line)),
    }
}

pub fn mul_values(a: Value, b: Value, line: usize) -> (r: WhispemResult<Value>)
    ensures
        yields(r, mul_model(a@, b@, line)),
{
    match (a, b) {
        (Value::Number(x), Value::Number(y)) => Ok(Value::Number(x.mul(y))),
        (a, b) => Err(type_error_at("number", kinds_of(&a, &b), line)),
    }
}

pub fn div_values(a: Value, b: Value, line: usize) -> (r: WhispemResult<Value>)
    ensures
        yields(r, div_model(a@, b@, line)),
{
    match (a, b) {
        (Value::Number(x), Value::Number(y)) => {
            if y.is_zero() {
                Err(WhispemError::runtime(ErrorKind::DivisionByZero))
            } else {
                Ok(Value::Number(x.div(y)))
            }
        },
        (a, b) => Err(type_error_at("number", kinds_of(&a, &b), line)),
    }
}

pub fn rem_values(a: Value, b: Value, line: usize) -> (r: WhispemResult<Value>)
    ensures
        yields(r, rem_model(a@, b@, line)),
{
    match (a, b) {
        (Value::Number(x), Value::Number(y)) => {
            if y.is_zero() {
                Err(WhispemError::runtime(ErrorKind::DivisionByZero))
            } else {
                Ok(Value::Number(x.rem(y)))
            }
        },
        (a, b) => Err(type_error_at("number", kinds_of(&a, &b), line)),
    }
}

pub fn neg_value(a: Value, line: usize) -> (r: WhispemResult<Value>)
    ensures
        yields(r, neg_model(a@, line)),
{
    match a {
        Value::Number(x) => Ok(Value::Number(x.neg())),
        other => Err(type_error_at("number", kind_of(&other), line)),
    }
}

pub fn values_equal(a: &Value, b: &Value) -> (r: bool)
    ensures
        r == equal_model(a@, b@),
{
    match (a, b) {
        (Value::Number(x), Value::Number(y)) => x.num_eq(*y),
        (Value::Str(x), Value::Str(y)) => compare_keys(x.as_str(), y.as_str()) == 0,
        (Value::Bool(x), Value::Bool(y)) => *x == *y,
        (Value::Nil, Value::Nil) => true,
        _ => false,
    }
}

pub fn compare_values(op: Comparison, a: Value, b: Value, line: usize) -> (r: WhispemResult<
    Value,
>)
    ensures
        yields(r, compare_model(op, a@, b@, line)),
{
    match (a, b) {
        (Value::Number(x), Value::Number(y)) => {
            let t = match op {
                Comparison::Lt => x.lt(y),
                Comparison::Lte => x.le(y),
                Comparison::Gt => y.lt(x),
                Comparison::Gte => y.le(x),
            };
            Ok(Value::Bool(t))
        },
        (Value::Str(x), Value::Str(y)) => {
            let c = compare_keys(x.as_str(), y.as_str());
            let t = match op {
                Comparison::Lt => c < 0,
                Comparison::Lte => c <= 0,
                Comparison::Gt => c > 0,
                Comparison::Gte => c >= 0,
            };
            Ok(Value::Bool(t))
        },
        (a, b) => Err(type_error_at("number or string", kinds_of(&a, &b), line)),
    }
}

/// The key that a number stands for.
pub fn number_key(n: Number) -> (s: String)
    ensures
        s@ == key_text(n.bits),
{
    if n.is_integral() {
        let i = n.to_i64();
        let mut s = String::new();
        if i < 0 {
            push_char(&mut s, '-');
            let m: u64 = if i == i64::MIN {
                0x8000_0000_0000_0000
            } else {
                (-i) as u64
            };
            push_decimal(&mut s, m);
            assert(s@ =~= signed_decimal(i as int));
        } else {
            push_decimal(&mut s, i as u64);
            assert(s@ =~= signed_decimal(i as int));
        }
        s
    } else {
        n.to_text()
    }
}

pub fn to_dict_key(v: Value, line: usize) -> (r: WhispemResult<String>)
    ensures
        match r {
            Ok(s) => dict_key_model(v@, line) == Ok::<Seq<char>, ErrorModel>(s@),
            Err(e) => dict_key_model(v@, line) == Err::<Seq<char>, ErrorModel>(e@),
        },
{
    match v {
        Value::Str(s) => Ok(s),
        Value::Number(n) => Ok(number_key(n)),
        other => Err(type_error_at("string or number (as dict key)", kind_of(&other), line)),
    }
}

/// The index that a value stands for, or the error `InvalidIndex`.
pub fn to_index(v: &Value, line: usize) -> (r: WhispemResult<usize>)
    ensures
        match r {
            Ok(i) => index_of_model(v@, line) == Ok::<usize, ErrorModel>(i),
            Err(e) => index_of_model(v@, line) == Err::<usize, ErrorModel>(e@),
        },
{
    match v {
        Value::Number(n) => if n.is_integral() && (!n.is_negative() || n.is_zero()) {
            Ok(n.to_usize())
        } else {
            Err(WhispemError::at_line(ErrorKind::InvalidIndex, line))
        },
        _ => Err(WhispemError::at_line(ErrorKind::InvalidIndex, line)),
    }
}

pub fn to_int(v: &Value, line: usize) -> (r: WhispemResult<i64>)
    ensures
        match r {
            Ok(i) => int_of_model(v@, line) == Ok::<i64, ErrorModel>(i),
            Err(e) => int_of_model(v@, line) == Err::<i64, ErrorModel>(e@),
        },
{
    match v {
        Value::Number(n) => Ok(n.to_i64()),
        other => Err(type_error_at("number", kind_of(other), line)),
    }
}

fn missing_key_error(key: &String, line: usize) -> (e: WhispemError)
    ensures
        e@ == missing_key(key@, line),
{
    let mut s = String::from_str("dict key \"");
    s.append(key.as_str());
    s.append("\"");
    WhispemError::at_line(ErrorKind::UndefinedVariable(s), line)
}

pub fn get_index(obj: Value, idx: Value, line: usize) -> (r: WhispemResult<Value>)
    ensures
        yields(r, index_model(obj@, idx@, line)),
{
    match obj {
        Value::Array(a) => {
            proof {
                lemma_array_view(a);
            }
            let i = to_index(&idx, line)?;
            if i >= a.len() {
                return Err(
                    WhispemError::at_line(
                        ErrorKind::IndexOutOfBounds { index: i, length: a.len() },
                        line,
                    ),
                );
            }
            Ok(a[i].copy())
        },
        Value::Dict(d) => {
            proof {
                lemma_dict_view(d);
            }
            let key = to_dict_key(idx, line)?;
            match d.get(key.as_str()) {
                Some(v) => Ok(v.copy()),
                None => Err(missing_key_error(&key, line)),
            }
        },
        other => Err(type_error_at("array or dict", kind_of(&other), line)),
    }
}

pub fn set_index(obj: Value, idx: Value, value: Value, line: usize) -> (r: WhispemResult<Value>)
    ensures
        yields(r, set_index_model(obj@, idx@, value@, line)),
{
    match obj {
        Value::Array(a) => {
            proof {
                lemma_array_view(a);
            }
            let i = to_index(&idx, line)?;
            if i >= a.len() {
                return Err(
                    WhispemError::at_line(
                        ErrorKind::IndexOutOfBounds { index: i, length: a.len() },
                        line,
                    ),
                );
            }
            let mut items = a;
            items.set(i, value);
            proof {
                lemma_array_view(items);
                assert(views(items@) =~= views(a@).update(i as int, value@));
            }
            Ok(Value::Array(items))
        },
        Value::Dict(d) => {
            proof {
                lemma_dict_view(d);
            }
            let key = to_dict_key(idx, line)?;
            let mut entries = d;
            entries.insert(key, value);
            proof {
                lemma_dict_view(entries);
            }
            Ok(Value::Dict(entries))
        },
        other => Err(type_error_at("array or dict", kind_of(&other), line)),
    }
}

} // verus!
