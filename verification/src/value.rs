//! The values that programs compute with, and their mathematical model.

use vstd::prelude::*;
use vstd::string::*;
use crate::decimal::display_text;
use crate::number::{Number, integral, int_value, is_zero, trunc_magnitude};
use crate::text::{push_char, push_decimal, signed_decimal};

verus! {

/// The mathematical model of a value.  A dictionary is the sequence of its
/// entries in the order of their keys.
pub enum Data {
    Number(u64),
    Bool(bool),
    Str(Seq<char>),
    Array(Seq<Data>),
    Dict(Seq<(Seq<char>, Data)>),
    Nil,
}

/// A value of the language.
#[derive(Debug)]
pub enum Value {
    Number(Number),
    Bool(bool),
    Str(String),
    Array(Vec<Value>),
    Dict(Dict),
    Nil,
}

/// A dictionary: entries with string keys, held in the order of the
/// keys.  That no key occurs twice and each is smaller than those that
/// follow it is the invariant of the type.
#[derive(Debug)]
pub struct Dict {
    pub(crate) entries: Vec<(String, Value)>,
}

impl Value {
    /// The model of the value.
    pub open(crate) spec fn model(&self) -> Data
        decreases self,
    {
        match self {
            Value::Number(n) => Data::Number(n.bits),
            Value::Bool(b) => Data::Bool(*b),
            Value::Str(s) => Data::Str(s@),
            Value::Array(items) => Data::Array(
                Seq::new(
                    items@.len(),
                    |i: int|
                        if 0 <= i < items@.len() {
                            items@[i].model()
                        } else {
                            Data::Nil
                        },
                ),
            ),
            Value::Dict(d) => Data::Dict(
                Seq::new(
                    d.entries@.len(),
                    |i: int|
                        if 0 <= i < d.entries@.len() {
                            (d.entries@[i].0@, d.entries@[i].1.model())
                        } else {
                            (Seq::empty(), Data::Nil)
                        },
                ),
            ),
            Value::Nil => Data::Nil,
        }
    }
}

impl View for Value {
    type V = Data;

    open spec fn view(&self) -> Data {
        self.model()
    }
}

/// The models of a sequence of values.
pub open spec fn views(items: Seq<Value>) -> Seq<Data> {
    Seq::new(items.len(), |i: int| items[i]@)
}

/// The models of a sequence of entries.
pub open spec fn entry_views(entries: Seq<(String, Value)>) -> Seq<(Seq<char>, Data)> {
    Seq::new(entries.len(), |i: int| (entries[i].0@, entries[i].1@))
}

impl View for Dict {
    type V = Seq<(Seq<char>, Data)>;

    open(crate) spec fn view(&self) -> Seq<(Seq<char>, Data)> {
        entry_views(self.entries@)
    }
}

pub proof fn lemma_array_view(items: Vec<Value>)
    ensures
        Value::Array(items)@ == Data::Array(views(items@)),
{
    reveal_with_fuel(Value::model, 2);
    assert forall|i: int| 0 <= i < items@.len() implies Value::Array(items)@->Array_0[i]
        == views(items@)[i] by {}
    assert(Value::Array(items)@->Array_0 =~= views(items@));
}

pub proof fn lemma_dict_view(d: Dict)
    ensures
        Value::Dict(d)@ == Data::Dict(d@),
{
    reveal_with_fuel(Value::model, 2);
    assert forall|i: int| 0 <= i < d@.len() implies Value::Dict(d)@->Dict_0[i] == d@[i] by {}
    assert(Value::Dict(d)@->Dict_0 =~= d@);
}

/// How the language writes a number: as an integer when it has no
/// fractional part and is below 10^15 in size, and in full otherwise.
pub open spec fn number_text(bits: u64) -> Seq<char> {
    if integral(bits) && trunc_magnitude(bits) < 1_000_000_000_000_000 {
        signed_decimal(int_value(bits))
    } else {
        display_text(bits)
    }
}

/// The items' texts, separated by a comma and a space.
pub open spec fn join_items(items: Seq<Data>) -> Seq<char>
    decreases items, 0nat,
{
    if items.len() == 0 {
        Seq::empty()
    } else if items.len() == 1 {
        format_text(items[0])
    } else {
        join_items(items.drop_last()) + seq![',', ' '] + format_text(items.last())
    }
}

/// The text of one dictionary entry: the key in double quotes, a colon, a
/// space, and the value's text.
pub open spec fn entry_text(entry: (Seq<char>, Data)) -> Seq<char>
    decreases entry, 0nat,
{
    seq!['"'] + entry.0 + seq!['"', ':', ' '] + format_text(entry.1)
}

/// The entries' texts, separated by a comma and a space.
pub open spec fn join_entries(entries: Seq<(Seq<char>, Data)>) -> Seq<char>
    decreases entries, 1nat,
{
    if entries.len() == 0 {
        Seq::empty()
    } else if entries.len() == 1 {
        entry_text(entries[0])
    } else {
        join_entries(entries.drop_last()) + seq![',', ' '] + entry_text(entries.last())
    }
}

/// The text that `print` writes for a value.
pub open spec fn format_text(d: Data) -> Seq<char>
    decreases d, 1nat,
{
    match d {
        Data::Number(bits) => number_text(bits),
        Data::Bool(b) => if b {
            seq!['t', 'r', 'u', 'e']
        } else {
            seq!['f', 'a', 'l', 's', 'e']
        },
        Data::Str(s) => s,
        Data::Array(items) => seq!['['] + join_items(items) + seq![']'],
        Data::Dict(entries) => seq!['{'] + join_entries(entries) + seq!['}'],
        Data::Nil => Seq::empty(),
    }
}

/// The name of the type of a value.
pub open spec fn kind_text(d: Data) -> Seq<char> {
    match d {
        Data::Number(_) => "number"@,
        Data::Bool(_) => "bool"@,
        Data::Str(_) => "string"@,
        Data::Array(_) => "array"@,
        Data::Dict(_) => "dict"@,
        Data::Nil => "none"@,
    }
}

/// Whether a value counts as true: everything does but `false`, zero, the
/// empty string, the empty array, the empty dictionary and none.
pub open spec fn truthy(d: Data) -> bool {
    match d {
        Data::Number(bits) => !is_zero(bits),
        Data::Bool(b) => b,
        Data::Str(s) => s.len() != 0,
        Data::Array(items) => items.len() != 0,
        Data::Dict(entries) => entries.len() != 0,
        Data::Nil => false,
    }
}

/// Appends [`number_text`] to `out`.
pub fn push_number(out: &mut String, n: Number)
    ensures
        final(out)@ == old(out)@ + number_text(n.bits),
{
    if n.is_integral() {
        let i = n.to_i64();
        if -1_000_000_000_000_000 < i && i < 1_000_000_000_000_000 {
            if i < 0 {
                push_char(out, '-');
                push_decimal(out, (-i) as u64);
                assert(old(out)@.push('-') + crate::text::decimal((-i) as nat) =~= old(out)@
                    + signed_decimal(i as int));
            } else {
                push_decimal(out, i as u64);
            }
            return ;
        }
    }
    let t = n.to_text();
    out.append(t.as_str());
}

impl Clone for Value {
    /// A copy of the value, with all that it holds.
    fn clone(&self) -> (r: Value)
        ensures
            r@ == self@,
    {
        self.copy()
    }
}

impl Clone for Dict {
    /// A copy of the dictionary, with all that it holds.
    fn clone(&self) -> (d: Dict)
        ensures
            d@ == self@,
    {
        self.copy()
    }
}

impl Value {
    /// A copy of the value, with all that it holds.
    pub fn copy(&self) -> (r: Value)
        ensures
            r@ == self@,
        decreases self,
    {
        match self {
            Value::Number(n) => Value::Number(*n),
            Value::Bool(b) => Value::Bool(*b),
            Value::Str(s) => Value::Str(s.clone()),
            Value::Array(items) => {
                let mut out: Vec<Value> = Vec::new();
                let mut i: usize = 0;
                while i < items.len()
                    invariant
                        i <= items.len(),
                        out@.len() == i,
                        forall|j: int| 0 <= j < i ==> (#[trigger] out@[j])@ == items@[j]@,
                        self->Array_0 == *items,
                        self is Array,
                    decreases items.len() - i,
                {
                    proof {
                        assert(decreases_to!(*self => self->Array_0));
                        assert(decreases_to!(items => items[i as int]));
                    }
                    let c = items[i].copy();
                    out.push(c);
                    i += 1;
                }
                proof {
                    lemma_array_view(out);
                    lemma_array_view(*items);
                    assert(views(out@) =~= views(items@));
                }
                Value::Array(out)
            },
            Value::Dict(d) => {
                let c = Value::copy_entries(&d.entries);
                proof {
                    use_type_invariant(d);
                }
                let r = Dict { entries: c };
                proof {
                    lemma_dict_view(r);
                    lemma_dict_view(*d);
                }
                Value::Dict(r)
            },
            Value::Nil => Value::Nil,
        }
    }

    fn copy_entries(entries: &Vec<(String, Value)>) -> (out: Vec<(String, Value)>)
        ensures
            entry_views(out@) == entry_views(entries@),
        decreases entries,
    {
        let mut out: Vec<(String, Value)> = Vec::new();
        let mut i: usize = 0;
        while i < entries.len()
            invariant
                i <= entries.len(),
                out@.len() == i,
                forall|j: int|
                    0 <= j < i ==> (#[trigger] out@[j]).0@ == entries@[j].0@ && out@[j].1@
                        == entries@[j].1@,
            decreases entries.len() - i,
        {
            proof {
                assert(decreases_to!(entries => entries[i as int]));
                assert(decreases_to!(entries[i as int] => entries[i as int].1));
            }
            let c = entries[i].1.copy();
            out.push((entries[i].0.clone(), c));
            i += 1;
        }
        assert(entry_views(out@) =~= entry_views(entries@));
        out
    }

    pub fn kind_name(&self) -> (s: &'static str)
        ensures
            s@ == kind_text(self@),
    {
        match self {
            Value::Number(_) => "number",
            Value::Bool(_) => "bool",
            Value::Str(_) => "string",
            Value::Array(_) => "array",
            Value::Dict(_) => "dict",
            Value::Nil => "none",
        }
    }

    pub fn is_truthy(&self) -> (b: bool)
        ensures
            b == truthy(self@),
    {
        proof {
            if let Value::Array(a) = self {
                lemma_array_view(*a);
            }
            if let Value::Dict(d) = self {
                lemma_dict_view(*d);
            }
        }
        match self {
            Value::Bool(b) => *b,
            Value::Number(n) => !n.is_zero(),
            Value::Str(s) => {
                let e = s.as_str().is_empty();
                !e
            },
            Value::Array(a) => a.len() != 0,
            Value::Dict(d) => d.entries.len() != 0,
            Value::Nil => false,
        }
    }

    /// Appends the text of the value to `out`.
    pub fn format_into(&self, out: &mut String)
        ensures
            final(out)@ == old(out)@ + format_text(self@),
        decreases self,
    {
        match self {
            Value::Number(n) => push_number(out, *n),
            Value::Bool(b) => {
                if *b {
                    out.append("true");
                    proof {
                        reveal_strlit("true");
                        assert("true"@ =~= seq!['t', 'r', 'u', 'e']);
                    }
                } else {
                    out.append("false");
                    proof {
                        reveal_strlit("false");
                        assert("false"@ =~= seq!['f', 'a', 'l', 's', 'e']);
                    }
                }
            },
            Value::Str(s) => out.append(s.as_str()),
            Value::Array(items) => {
                push_char(out, '[');
                let mut i: usize = 0;
                proof {
                    lemma_array_view(*items);
                    assert(views(items@).take(0) =~= Seq::<Data>::empty());
                    assert(old(out)@.push('[') =~= old(out)@ + seq!['['] + Seq::<char>::empty());
                }
                while i < items.len()
                    invariant
                        i <= items.len(),
                        out@ == old(out)@ + seq!['['] + join_items(views(items@).take(i as int)),
                        self->Array_0 == *items,
                        self is Array,
                    decreases items.len() - i,
                {
                    let ghost before = out@;
                    if i > 0 {
                        push_char(out, ',');
                        push_char(out, ' ');
                    }
                    proof {
                        assert(decreases_to!(*self => self->Array_0));
                        assert(decreases_to!(items => items[i as int]));
                    }
                    items[i].format_into(out);
                    proof {
                        let all = views(items@);
                        let next = all.take(i + 1);
                        assert(next.drop_last() =~= all.take(i as int));
                        assert(next.last() == items@[i as int]@);
                        if i > 0 {
                            assert(before.push(',').push(' ') + format_text(items@[i as int]@)
                                =~= before + seq![',', ' '] + format_text(items@[i as int]@));
                            assert(out@ =~= old(out)@ + seq!['['] + join_items(next));
                        } else {
                            assert(next[0] == items@[0]@);
                            assert(join_items(all.take(0)) =~= Seq::<char>::empty());
                            assert(out@ =~= old(out)@ + seq!['['] + join_items(next));
                        }
                    }
                    i += 1;
                }
                push_char(out, ']');
                proof {
                    let all = views(items@);
                    assert(all.take(items.len() as int) =~= all);
                    assert(out@ =~= old(out)@ + (seq!['['] + join_items(all) + seq![']']));
                }
            },
            Value::Dict(d) => {
                push_char(out, '{');
                let entries = &d.entries;
                let mut i: usize = 0;
                proof {
                    lemma_dict_view(*d);
                    assert(d@.take(0) =~= Seq::<(Seq<char>, Data)>::empty());
                    assert(old(out)@.push('{') =~= old(out)@ + seq!['{'] + Seq::<char>::empty());
                }
                while i < entries.len()
                    invariant
                        i <= entries.len(),
                        entries == &d.entries,
                        out@ == old(out)@ + seq!['{'] + join_entries(d@.take(i as int)),
                        self->Dict_0 == *d,
                        self is Dict,
                    decreases entries.len() - i,
                {
                    let ghost before = out@;
                    if i > 0 {
                        push_char(out, ',');
                        push_char(out, ' ');
                    }
                    push_char(out, '"');
                    out.append(entries[i].0.as_str());
                    push_char(out, '"');
                    push_char(out, ':');
                    push_char(out, ' ');
                    proof {
                        assert(decreases_to!(*self => self->Dict_0));
                        assert(decreases_to!(self->Dict_0 => d.entries));
                        assert(decreases_to!(d.entries => d.entries[i as int]));
                        assert(decreases_to!(d.entries[i as int] => d.entries[i as int].1));
                    }
                    entries[i].1.format_into(out);
                    proof {
                        let all = d@;
                        let next = all.take(i + 1);
                        let e = all[i as int];
                        assert(next.drop_last() =~= all.take(i as int));
                        assert(next.last() == e);
                        let sep = if i > 0 { before.push(',').push(' ') } else { before };
                        assert(out@ =~= sep + entry_text(e));
                        if i > 0 {
                            assert(sep + entry_text(e) =~= before + seq![',', ' '] + entry_text(
                                e,
                            ));
                        } else {
                            assert(next[0] == e);
                            assert(join_entries(all.take(0)) =~= Seq::<char>::empty());
                        }
                        assert(out@ =~= old(out)@ + seq!['{'] + join_entries(next));
                    }
                    i += 1;
                }
                push_char(out, '}');
                proof {
                    let all = d@;
                    assert(all.take(entries.len() as int) =~= all);
                    assert(out@ =~= old(out)@ + (seq!['{'] + join_entries(all) + seq!['}']));
                }
            },
            Value::Nil => {
                assert(old(out)@ + Seq::<char>::empty() =~= old(out)@);
            },
        }
    }

    /// The text that `print` writes for the value.
    pub fn format(&self) -> (s: String)
        ensures
            s@ == format_text(self@),
    {
        let mut s = String::new();
        self.format_into(&mut s);
        assert(Seq::<char>::empty() + format_text(self@) =~= format_text(self@));
        s
    }
}

} // verus!
