//! The built-in functions.

use vstd::prelude::*;
use vstd::string::*;
use vstd::utf8::encode_utf8;
use crate::dict::{entry_values, key_values, lookup, same_text};
use crate::error::{ErrorKind, ErrorModel, KindModel, WhispemError, WhispemResult, error_at_line};
use crate::number::{Number, from_int_spec};
use crate::ops::{
    Outcome, dict_key_model, index_of_model, int_of_model, kind_of, to_dict_key, to_index,
    to_int, type_error, type_error_at, yields,
};
use crate::value::{Data, Value, format_text, kind_text, lemma_array_view, lemma_dict_view, views};

verus! {

pub open spec fn arity_error(name: Seq<char>, expected: usize, got: nat, line: usize)
    -> ErrorModel {
    error_at_line(KindModel::ArgumentCount { name, expected, got: got as usize }, line)
}

/// `length`: the number of elements of an array, of bytes of a string, or
/// of entries of a dictionary.
pub open spec fn length_model(args: Seq<Data>, line: usize) -> Outcome {
    if args.len() != 1 {
        Err(arity_error("length"@, 1, args.len(), line))
    } else {
        match args[0] {
            Data::Array(a) => Ok(Data::Number(from_int_spec(a.len() as int))),
            Data::Str(s) => Ok(Data::Number(from_int_spec(encode_utf8(s).len() as int))),
            Data::Dict(d) => Ok(Data::Number(from_int_spec(d.len() as int))),
            _ => Err(type_error("array, string, or dict"@, kind_text(args[0]), line)),
        }
    }
}

/// `push`: the array with one more element at its end.
pub open spec fn push_model(args: Seq<Data>, line: usize) -> Outcome {
    if args.len() != 2 {
        Err(arity_error("push"@, 2, args.len(), line))
    } else {
        match args[0] {
            Data::Array(a) => Ok(Data::Array(a.push(args[1]))),
            _ => Err(type_error("array"@, kind_text(args[0]), line)),
        }
    }
}

/// `pop`: the last element of an array.
pub open spec fn pop_model(args: Seq<Data>, line: usize) -> Outcome {
    if args.len() != 1 {
        Err(arity_error("pop"@, 1, args.len(), line))
    } else {
        match args[0] {
            Data::Array(a) => if a.len() == 0 {
                Err(error_at_line(KindModel::EmptyArray, line))
            } else {
                Ok(a.last())
            },
            _ => Err(type_error("array"@, kind_text(args[0]), line)),
        }
    }
}

/// `reverse`: the array with its elements in the opposite order.
pub open spec fn reverse_model(args: Seq<Data>, line: usize) -> Outcome {
    if args.len() != 1 {
        Err(arity_error("reverse"@, 1, args.len(), line))
    } else {
        match args[0] {
            Data::Array(a) => Ok(Data::Array(a.reverse())),
            _ => Err(type_error("array"@, kind_text(args[0]), line)),
        }
    }
}

/// `slice`: the elements of an array from `start` up to, not including,
/// `end`.  Each bound is an index: an integer not below zero.
pub open spec fn slice_model(args: Seq<Data>, line: usize) -> Outcome {
    if args.len() != 3 {
        Err(arity_error("slice"@, 3, args.len(), line))
    } else {
        match index_of_model(args[1], line) {
            Ok(start) => match index_of_model(args[2], line) {
                Ok(end) => match args[0] {
                    Data::Array(a) => if start > end {
                        Err(error_at_line(KindModel::InvalidSlice { start, end }, line))
                    } else if end > a.len() {
                        Err(
                            error_at_line(
                                KindModel::SliceOutOfBounds { end, length: a.len() as usize },
                                line,
                            ),
                        )
                    } else {
                        Ok(Data::Array(a.subrange(start as int, end as int)))
                    },
                    _ => Err(type_error("array"@, kind_text(args[0]), line)),
                },
                Err(e) => Err(e),
            },
            Err(e) => Err(e),
        }
    }
}

/// The integers from `start` up to, not including, `end`, as numbers.
pub open spec fn range_values(start: int, end: int) -> Seq<Data> {
    Seq::new(
        if end > start {
            (end - start) as nat
        } else {
            0
        },
        |k: int| Data::Number(from_int_spec(start + k)),
    )
}

/// `range`: the array of the integers from `start` up to, not including, `end`.
pub open spec fn range_model(args: Seq<Data>, line: usize) -> Outcome {
    if args.len() != 2 {
        Err(arity_error("range"@, 2, args.len(), line))
    } else {
        match int_of_model(args[0], line) {
            Ok(start) => match int_of_model(args[1], line) {
                Ok(end) => Ok(Data::Array(range_values(start as int, end as int))),
                Err(e) => Err(e),
            },
            Err(e) => Err(e),
        }
    }
}

/// `keys`: the keys of a dictionary, in their order.
pub open spec fn keys_model(args: Seq<Data>, line: usize) -> Outcome {
    if args.len() != 1 {
        Err(arity_error("keys"@, 1, args.len(), line))
    } else {
        match args[0] {
            Data::Dict(d) => Ok(Data::Array(key_values(d))),
            _ => Err(type_error("dict"@, kind_text(args[0]), line)),
        }
    }
}

/// Whether the values are strings, each smaller than those that follow it.
pub open spec fn ascending(items: Seq<Data>) -> bool {
    forall|i: int, j: int|
        0 <= i < j < items.len() ==> (#[trigger] items[i]) is Str && (#[trigger] items[j]) is Str
            && crate::dict::key_lt(items[i]->Str_0, items[j]->Str_0)
}

/// `keys` of a dictionary whose entries stand in the order of their
/// keys gives the keys in ascending order, each once.
pub proof fn lemma_keys_ascend(d: Seq<(Seq<char>, Data)>, line: usize)
    requires
        crate::dict::sorted_keys(d),
    ensures
        keys_model(seq![Data::Dict(d)], line) == Ok::<Data, ErrorModel>(Data::Array(key_values(d))),
        key_values(d).len() == d.len(),
        ascending(key_values(d)),
{
}

/// `values`: the values of a dictionary, in the order of their keys.
pub open spec fn values_model(args: Seq<Data>, line: usize) -> Outcome {
    if args.len() != 1 {
        Err(arity_error("values"@, 1, args.len(), line))
    } else {
        match args[0] {
            Data::Dict(d) => Ok(Data::Array(entry_values(d))),
            _ => Err(type_error("dict"@, kind_text(args[0]), line)),
        }
    }
}

/// `has_key`: whether a dictionary binds a key.
pub open spec fn has_key_model(args: Seq<Data>, line: usize) -> Outcome {
    if args.len() != 2 {
        Err(arity_error("has_key"@, 2, args.len(), line))
    } else {
        match args[0] {
            Data::Dict(d) => match dict_key_model(args[1], line) {
                Ok(key) => Ok(Data::Bool(lookup(d, key) is Some)),
                Err(e) => Err(e),
            },
            _ => Err(type_error("dict"@, kind_text(args[0]), line)),
        }
    }
}

/// The built-in functions, which a call finds before any function of the program.
#[derive(Debug, Clone, Copy, PartialEq, Eq, Structural)]
pub enum Builtin {
    Length,
    Push,
    Pop,
    Reverse,
    Slice,
    Range,
    Input,
    ReadFile,
    WriteFile,
    Keys,
    Values,
    HasKey,
}

/// The built-in function with the given name, if there is one.
pub open spec fn builtin_named(name: Seq<char>) -> Option<Builtin> {
    if name == "length"@ {
        Some(Builtin::Length)
    } else if name == "push"@ {
        Some(Builtin::Push)
    } else if name == "pop"@ {
        Some(Builtin::Pop)
    } else if name == "reverse"@ {
        Some(Builtin::Reverse)
    } else if name == "slice"@ {
        Some(Builtin::Slice)
    } else if name == "range"@ {
        Some(Builtin::Range)
    } else if name == "input"@ {
        Some(Builtin::Input)
    } else if name == "read_file"@ {
        Some(Builtin::ReadFile)
    } else if name == "write_file"@ {
        Some(Builtin::WriteFile)
    } else if name == "keys"@ {
        Some(Builtin::Keys)
    } else if name == "values"@ {
        Some(Builtin::Values)
    } else if name == "has_key"@ {
        Some(Builtin::HasKey)
    } else {
        None
    }
}

/// What the outside world is asked to do for a built-in function.
pub enum RequestModel {
    /// Show the prompt, if it is not empty, and read one line.
    Input(Seq<char>),
    /// Read the file at the path.
    ReadFile(Seq<char>),
    /// Write the content to the file at the path.
    WriteFile(Seq<char>, Seq<char>),
}

/// What a built-in function is applied to its arguments: a value or an
/// error at once, or a request to the outside world.
pub enum Applied {
    Done(Outcome),
    Ask(RequestModel),
}

/// A built-in function applied to its arguments.
pub open spec fn apply_model(b: Builtin, args: Seq<Data>, line: usize) -> Applied {
    match b {
        Builtin::Length => Applied::Done(length_model(args, line)),
        Builtin::Push => Applied::Done(push_model(args, line)),
        Builtin::Pop => Applied::Done(pop_model(args, line)),
        Builtin::Reverse => Applied::Done(reverse_model(args, line)),
        Builtin::Slice => Applied::Done(slice_model(args, line)),
        Builtin::Range => Applied::Done(range_model(args, line)),
        Builtin::Keys => Applied::Done(keys_model(args, line)),
        Builtin::Values => Applied::Done(values_model(args, line)),
        Builtin::HasKey => Applied::Done(has_key_model(args, line)),
        Builtin::Input => if args.len() > 1 {
            Applied::Done(Err(arity_error("input"@, 1, args.len(), line)))
        } else if args.len() == 0 {
            Applied::Ask(RequestModel::Input(Seq::empty()))
        } else {
            match args[0] {
                Data::Str(s) => Applied::Ask(RequestModel::Input(s)),
                _ => Applied::Done(Err(type_error("string"@, kind_text(args[0]), line))),
            }
        },
        Builtin::ReadFile => if args.len() != 1 {
            Applied::Done(Err(arity_error("read_file"@, 1, args.len(), line)))
        } else {
            match args[0] {
                Data::Str(s) => Applied::Ask(RequestModel::ReadFile(s)),
                _ => Applied::Done(Err(type_error("string"@, kind_text(args[0]), line))),
            }
        },
        Builtin::WriteFile => if args.len() != 2 {
            Applied::Done(Err(arity_error("write_file"@, 2, args.len(), line)))
        } else {
            match args[0] {
                Data::Str(s) => Applied::Ask(RequestModel::WriteFile(s, format_text(args[1]))),
                _ => Applied::Done(Err(type_error("string"@, kind_text(args[0]), line))),
            }
        },
    }
}

/// A request to the outside world.
#[derive(Debug)]
pub enum Request {
    /// Show the prompt, if it is not empty, and read one line.
    Input(String),
    /// Read the file at the path.
    ReadFile(String),
    /// Write the content to the file at the path.
    WriteFile(String, String),
}

impl View for Request {
    type V = RequestModel;

    open spec fn view(&self) -> RequestModel {
        match self {
            Request::Input(p) => RequestModel::Input(p@),
            Request::ReadFile(p) => RequestModel::ReadFile(p@),
            Request::WriteFile(p, c) => RequestModel::WriteFile(p@, c@),
        }
    }
}

/// The array that `push` gives is longer by one than the array it was
/// given: `length` of the one counts one element more than `length` of
/// the other.
pub proof fn lemma_push_adds_one(a: Seq<Data>, x: Data, line: usize)
    ensures
        push_model(seq![Data::Array(a), x], line) == Ok::<Data, ErrorModel>(
            Data::Array(a.push(x)),
        ),
        a.push(x).len() == a.len() + 1,
        length_model(seq![Data::Array(a)], line) == Ok::<Data, ErrorModel>(
            Data::Number(from_int_spec(a.len() as int)),
        ),
        length_model(seq![Data::Array(a.push(x))], line) == Ok::<Data, ErrorModel>(
            Data::Number(from_int_spec(a.len() as int + 1)),
        ),
{
}

/// Reversing an array twice gives the array back.
pub proof fn lemma_reverse_twice(a: Seq<Data>, line: usize)
    ensures
        reverse_model(seq![Data::Array(a)], line) == Ok::<Data, ErrorModel>(
            Data::Array(a.reverse()),
        ),
        reverse_model(seq![Data::Array(a.reverse())], line) == Ok::<Data, ErrorModel>(
            Data::Array(a),
        ),
{
    assert(a.reverse().reverse() =~= a);
}

/// `has_key` says true of a dictionary and a key exactly when indexing the
/// dictionary with the key gives a value.
pub proof fn lemma_has_key_iff_index(d: Seq<(Seq<char>, Data)>, k: Data, line: usize)
    ensures
        has_key_model(seq![Data::Dict(d), k], line) == Ok::<Data, ErrorModel>(Data::Bool(true))
            <==> crate::ops::index_model(Data::Dict(d), k, line) is Ok,
{
}

/// `pop` of the empty array is the error `EmptyArray`.
pub proof fn lemma_pop_empty(line: usize)
    ensures
        pop_model(seq![Data::Array(Seq::empty())], line) == Err::<Data, ErrorModel>(
            error_at_line(KindModel::EmptyArray, line),
        ),
{
}

/// `slice` with a start beyond its end is the error `InvalidSlice`,
/// whatever the array.
pub proof fn lemma_slice_backwards(a: Seq<Data>, start: Data, end: Data, line: usize)
    requires
        index_of_model(start, line) is Ok,
        index_of_model(end, line) is Ok,
        index_of_model(start, line)->Ok_0 > index_of_model(end, line)->Ok_0,
    ensures
        slice_model(seq![Data::Array(a), start, end], line) == Err::<Data, ErrorModel>(
            error_at_line(
                KindModel::InvalidSlice {
                    start: index_of_model(start, line)->Ok_0,
                    end: index_of_model(end, line)->Ok_0,
                },
                line,
            ),
        ),
{
}

/// In the language's own numbers: the length of the array that `push`
/// gives is the length of the array it was given, plus one.  This holds
/// for arrays of fewer than 2^53 - 1 elements, whose lengths are numbers
/// that are exact.
pub proof fn lemma_length_of_push(a: Seq<Data>, x: Data, line: usize)
    requires
        a.len() + 1 < vstd::arithmetic::power2::pow2(53),
    ensures
        length_model(seq![push_model(seq![Data::Array(a), x], line)->Ok_0], line)
            == crate::ops::add_model(
            length_model(seq![Data::Array(a)], line)->Ok_0,
            Data::Number(crate::lowering::ONE_BITS),
            line,
        ),
{
    crate::exact::lemma_add_one(a.len());
}

/// Slicing an array from 0 to its length gives the array.  This holds for
/// arrays of fewer than 2^53 elements, whose lengths are numbers that are
/// exact.
pub proof fn lemma_slice_whole(a: Seq<Data>, line: usize)
    requires
        a.len() < vstd::arithmetic::power2::pow2(53),
        a.len() <= usize::MAX,
    ensures
        slice_model(
            seq![Data::Array(a), Data::Number(0), length_model(seq![Data::Array(a)], line)->Ok_0],
            line,
        ) == Ok::<Data, ErrorModel>(Data::Array(a)),
{
    crate::exact::lemma_small_integer_exact(a.len());
    crate::exact::lemma_small_integer_exact(0);
    vstd::arithmetic::power2::lemma2_to64();
    assert(from_int_spec(0) == 0) by {
        assert(0 * vstd::arithmetic::power2::pow2(0) == 0);
    }
    assert(a.subrange(0, a.len() as int) =~= a);
}

/// The built-in function with the given name, if there is one.
pub fn builtin_of(name: &str) -> (b: Option<Builtin>)
    ensures
        b == builtin_named(name@),
{
    if same_text(name, "length") {
        Some(Builtin::Length)
    } else if same_text(name, "push") {
        Some(Builtin::Push)
    } else if same_text(name, "pop") {
        Some(Builtin::Pop)
    } else if same_text(name, "reverse") {
        Some(Builtin::Reverse)
    } else if same_text(name, "slice") {
        Some(Builtin::Slice)
    } else if same_text(name, "range") {
        Some(Builtin::Range)
    } else if same_text(name, "input") {
        Some(Builtin::Input)
    } else if same_text(name, "read_file") {
        Some(Builtin::ReadFile)
    } else if same_text(name, "write_file") {
        Some(Builtin::WriteFile)
    } else if same_text(name, "keys") {
        Some(Builtin::Keys)
    } else if same_text(name, "values") {
        Some(Builtin::Values)
    } else if same_text(name, "has_key") {
        Some(Builtin::HasKey)
    } else {
        None
    }
}

fn arity_error_at(name: &str, expected: usize, got: usize, line: usize) -> (e: WhispemError)
    ensures
        e@ == arity_error(name@, expected, got as nat, line),
{
    WhispemError::at_line(
        ErrorKind::ArgumentCount { name: String::from_str(name), expected, got },
        line,
    )
}

pub fn builtin_length(args: Vec<Value>, line: usize) -> (r: WhispemResult<Value>)
    ensures
        yields(r, length_model(views(args@), line)),
{
    if args.len() != 1 {
        return Err(arity_error_at("length", 1, args.len(), line));
    }
    assert(views(args@)[0] == args@[0]@);
    match &args[0] {
        Value::Array(a) => {
            proof {
                lemma_array_view(*a);
            }
            Ok(Value::Number(Number::from_usize(a.len())))
        },
        Value::Str(s) => Ok(Value::Number(Number::from_usize(s.as_str().as_bytes().len()))),
        Value::Dict(d) => {
            proof {
                lemma_dict_view(*d);
            }
            Ok(Value::Number(Number::from_usize(d.len())))
        },
        other => Err(type_error_at("array, string, or dict", kind_of(other), line)),
    }
}

pub fn builtin_push(args: Vec<Value>, line: usize) -> (r: WhispemResult<Value>)
    ensures
        yields(r, push_model(views(args@), line)),
{
    if args.len() != 2 {
        return Err(arity_error_at("push", 2, args.len(), line));
    }
    assert(views(args@)[0] == args@[0]@);
    assert(views(args@)[1] == args@[1]@);
    let mut rest = args;
    let x = rest.pop().unwrap();
    let first = rest.pop().unwrap();
    match first {
        Value::Array(a) => {
            let mut items = a;
            items.push(x);
            proof {
                lemma_array_view(a);
                lemma_array_view(items);
                assert(views(items@) =~= views(a@).push(x@));
            }
            Ok(Value::Array(items))
        },
        other => Err(type_error_at("array", kind_of(&other), line)),
    }
}

pub fn builtin_pop(args: Vec<Value>, line: usize) -> (r: WhispemResult<Value>)
    ensures
        yields(r, pop_model(views(args@), line)),
{
    if args.len() != 1 {
        return Err(arity_error_at("pop", 1, args.len(), line));
    }
    assert(views(args@)[0] == args@[0]@);
    let mut rest = args;
    let first = rest.pop().unwrap();
    match first {
        Value::Array(a) => {
            proof {
                lemma_array_view(a);
            }
            if a.len() == 0 {
                return Err(WhispemError::at_line(ErrorKind::EmptyArray, line));
            }
            let mut items = a;
            let last = items.pop().unwrap();
            assert(views(a@).last() == last@);
            Ok(last)
        },
        other => Err(type_error_at("array", kind_of(&other), line)),
    }
}

pub fn builtin_reverse(args: Vec<Value>, line: usize) -> (r: WhispemResult<Value>)
    ensures
        yields(r, reverse_model(views(args@), line)),
{
    if args.len() != 1 {
        return Err(arity_error_at("reverse", 1, args.len(), line));
    }
    assert(views(args@)[0] == args@[0]@);
    let mut rest = args;
    let first = rest.pop().unwrap();
    match first {
        Value::Array(a) => {
            let mut items = a;
            let mut out: Vec<Value> = Vec::new();
            while items.len() > 0
                invariant
                    items@.len() + out@.len() == a@.len(),
                    items@ =~= a@.take(items@.len() as int),
                    forall|j: int|
                        0 <= j < out@.len() ==> (#[trigger] out@[j])@ == a@[a@.len() - 1 - j]@,
                decreases items@.len(),
            {
                let x = items.pop().unwrap();
                out.push(x);
            }
            proof {
                lemma_array_view(a);
                lemma_array_view(out);
                assert(views(out@) =~= views(a@).reverse());
            }
            Ok(Value::Array(out))
        },
        other => Err(type_error_at("array", kind_of(&other), line)),
    }
}

pub fn builtin_slice(args: Vec<Value>, line: usize) -> (r: WhispemResult<Value>)
    ensures
        yields(r, slice_model(views(args@), line)),
{
    if args.len() != 3 {
        return Err(arity_error_at("slice", 3, args.len(), line));
    }
    assert(views(args@)[0] == args@[0]@);
    assert(views(args@)[1] == args@[1]@);
    assert(views(args@)[2] == args@[2]@);
    let start = to_index(&args[1], line)?;
    let end = to_index(&args[2], line)?;
    match &args[0] {
        Value::Array(a) => {
            proof {
                lemma_array_view(*a);
            }
            if start > end {
                return Err(WhispemError::at_line(ErrorKind::InvalidSlice { start, end }, line));
            }
            if end > a.len() {
                return Err(
                    WhispemError::at_line(
                        ErrorKind::SliceOutOfBounds { end, length: a.len() },
                        line,
                    ),
                );
            }
            let mut out: Vec<Value> = Vec::new();
            let mut i: usize = start;
            while i < end
                invariant
                    start <= i <= end,
                    end <= a@.len(),
                    out@.len() == i - start,
                    forall|j: int| 0 <= j < out@.len() ==> (#[trigger] out@[j])@ == a@[start + j]@,
                decreases end - i,
            {
                out.push(a[i].copy());
                i += 1;
            }
            proof {
                lemma_array_view(out);
                assert(views(out@) =~= views(a@).subrange(start as int, end as int));
            }
            Ok(Value::Array(out))
        },
        other => Err(type_error_at("array", kind_of(other), line)),
    }
}

pub fn builtin_range(args: Vec<Value>, line: usize) -> (r: WhispemResult<Value>)
    ensures
        yields(r, range_model(views(args@), line)),
{
    if args.len() != 2 {
        return Err(arity_error_at("range", 2, args.len(), line));
    }
    assert(views(args@)[0] == args@[0]@);
    assert(views(args@)[1] == args@[1]@);
    let start = to_int(&args[0], line)?;
    let end = to_int(&args[1], line)?;
    let mut out: Vec<Value> = Vec::new();
    let mut i: i64 = start;
    while i < end
        invariant
            start <= i,
            start <= end ==> i <= end,
            end < start ==> i == start,
            out@.len() == i - start,
            forall|j: int|
                0 <= j < out@.len() ==> (#[trigger] out@[j])@ == Data::Number(
                    from_int_spec(start + j),
                ),
        decreases end - i,
    {
        out.push(Value::Number(Number::from_i64(i)));
        i += 1;
    }
    proof {
        lemma_array_view(out);
        let want = range_values(start as int, end as int);
        assert(views(out@).len() == want.len());
        assert forall|j: int| 0 <= j < out@.len() implies views(out@)[j] == want[j] by {
            assert(out@[j]@ == Data::Number(from_int_spec(start + j)));
        }
        assert(views(out@) =~= want);
    }
    Ok(Value::Array(out))
}

/// `keys`: the keys of a dictionary as strings, each smaller than those
/// that follow it.
pub fn builtin_keys(args: Vec<Value>, line: usize) -> (r: WhispemResult<Value>)
    ensures
        yields(r, keys_model(views(args@), line)),
        r matches Ok(v) ==> v@ is Array && ascending(v@->Array_0),
{
    if args.len() != 1 {
        return Err(arity_error_at("keys", 1, args.len(), line));
    }
    assert(views(args@)[0] == args@[0]@);
    match &args[0] {
        Value::Dict(d) => {
            let out = d.keys();
            proof {
                lemma_dict_view(*d);
                lemma_array_view(out);
                lemma_keys_ascend(d@, line);
            }
            Ok(Value::Array(out))
        },
        other => Err(type_error_at("dict", kind_of(other), line)),
    }
}

pub fn builtin_values(args: Vec<Value>, line: usize) -> (r: WhispemResult<Value>)
    ensures
        yields(r, values_model(views(args@), line)),
{
    if args.len() != 1 {
        return Err(arity_error_at("values", 1, args.len(), line));
    }
    assert(views(args@)[0] == args@[0]@);
    match &args[0] {
        Value::Dict(d) => {
            let out = d.values();
            proof {
                lemma_dict_view(*d);
                lemma_array_view(out);
            }
            Ok(Value::Array(out))
        },
        other => Err(type_error_at("dict", kind_of(other), line)),
    }
}

pub fn builtin_has_key(args: Vec<Value>, line: usize) -> (r: WhispemResult<Value>)
    ensures
        yields(r, has_key_model(views(args@), line)),
{
    if args.len() != 2 {
        return Err(arity_error_at("has_key", 2, args.len(), line));
    }
    assert(views(args@)[0] == args@[0]@);
    assert(views(args@)[1] == args@[1]@);
    let mut rest = args;
    let k = rest.pop().unwrap();
    let first = rest.pop().unwrap();
    match first {
        Value::Dict(d) => {
            proof {
                lemma_dict_view(d);
            }
            let key = to_dict_key(k, line)?;
            Ok(Value::Bool(d.contains_key(key.as_str())))
        },
        other => Err(type_error_at("dict", kind_of(&other), line)),
    }
}

/// What applying a built-in function gives: a value or an error at once,
/// or a request to the outside world.
pub enum Application {
    Done(WhispemResult<Value>),
    Ask(Request),
}

/// Whether an application is what the model gives.
pub open spec fn applies(r: Application, model: Applied) -> bool {
    match r {
        Application::Done(res) => model is Done && yields(res, model->Done_0),
        Application::Ask(req) => model == Applied::Ask(req@),
    }
}

/// The text argument of a built-in function that reads or writes.
fn text_argument(v: Value, line: usize) -> (r: WhispemResult<String>)
    ensures
        match r {
            Ok(s) => v@ == Data::Str(s@),
            Err(e) => !(v@ is Str) && e@ == type_error("string"@, kind_text(v@), line),
        },
{
    match v {
        Value::Str(s) => Ok(s),
        other => Err(type_error_at("string", kind_of(&other), line)),
    }
}

/// Applies a built-in function to its arguments.
pub fn apply_builtin(b: Builtin, args: Vec<Value>, line: usize) -> (r: Application)
    ensures
        applies(r, apply_model(b, views(args@), line)),
{
    match b {
        Builtin::Length => Application::Done(builtin_length(args, line)),
        Builtin::Push => Application::Done(builtin_push(args, line)),
        Builtin::Pop => Application::Done(builtin_pop(args, line)),
        Builtin::Reverse => Application::Done(builtin_reverse(args, line)),
        Builtin::Slice => Application::Done(builtin_slice(args, line)),
        Builtin::Range => Application::Done(builtin_range(args, line)),
        Builtin::Keys => Application::Done(builtin_keys(args, line)),
        Builtin::Values => Application::Done(builtin_values(args, line)),
        Builtin::HasKey => Application::Done(builtin_has_key(args, line)),
        Builtin::Input => {
            if args.len() > 1 {
                return Application::Done(Err(arity_error_at("input", 1, args.len(), line)));
            }
            if args.len() == 0 {
                return Application::Ask(Request::Input(String::new()));
            }
            assert(views(args@)[0] == args@[0]@);
            let mut rest = args;
            let first = rest.pop().unwrap();
            match text_argument(first, line) {
                Ok(s) => Application::Ask(Request::Input(s)),
                Err(e) => Application::Done(Err(e)),
            }
        },
        Builtin::ReadFile => {
            if args.len() != 1 {
                return Application::Done(Err(arity_error_at("read_file", 1, args.len(), line)));
            }
            assert(views(args@)[0] == args@[0]@);
            let mut rest = args;
            let first = rest.pop().unwrap();
            match text_argument(first, line) {
                Ok(s) => Application::Ask(Request::ReadFile(s)),
                Err(e) => Application::Done(Err(e)),
            }
        },
        Builtin::WriteFile => {
            if args.len() != 2 {
                return Application::Done(Err(arity_error_at("write_file", 2, args.len(), line)));
            }
            assert(views(args@)[0] == args@[0]@);
            assert(views(args@)[1] == args@[1]@);
            let mut rest = args;
            let content = rest.pop().unwrap();
            let first = rest.pop().unwrap();
            match text_argument(first, line) {
                Ok(s) => Application::Ask(Request::WriteFile(s, content.format())),
                Err(e) => Application::Done(Err(e)),
            }
        },
    }
}

} // verus!
