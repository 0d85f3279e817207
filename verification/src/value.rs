//! The composite value model: a decoded node and everything below it.
//!
//! A [`Value`] owns its children. What it stands for is its view, a
//! [`ValueView`]: there a list is a sequence and a compound is a map from
//! names to values, so that two compounds with the same entries are the
//! same value, in whatever order the entries were met.

use vstd::prelude::*;
use vstd::std_specs::cmp::PartialEqSpecImpl;
use crate::arrays::{ByteArray, IntArray, LongArray};
use crate::tag::Tag;

verus! {

/// What a value is, as mathematics. A float is held by its bits.
#[verifier::ext_equal]
pub enum ValueView {
    Byte(i8),
    Short(i16),
    Int(i32),
    Long(i64),
    Float(u32),
    Double(u64),
    String(Seq<char>),
    ByteArray(Seq<i8>),
    IntArray(Seq<i32>),
    LongArray(Seq<i64>),
    List(Seq<ValueView>),
    Compound(Map<Seq<char>, ValueView>),
}

impl ValueView {
    /// The tag that introduces a value of this kind on the wire.
    pub open spec fn tag(self) -> Tag {
        match self {
            ValueView::Byte(_) => Tag::Byte,
            ValueView::Short(_) => Tag::Short,
            ValueView::Int(_) => Tag::Int,
            ValueView::Long(_) => Tag::Long,
            ValueView::Float(_) => Tag::Float,
            ValueView::Double(_) => Tag::Double,
            ValueView::String(_) => Tag::String,
            ValueView::ByteArray(_) => Tag::ByteArray,
            ValueView::IntArray(_) => Tag::IntArray,
            ValueView::LongArray(_) => Tag::LongArray,
            ValueView::List(_) => Tag::List,
            ValueView::Compound(_) => Tag::Compound,
        }
    }
}

/// A collection of values by name. No name occurs twice; an entry that is
/// put in under a name that is there replaces the one that was.
#[derive(Debug)]
pub struct Compound {
    entries: Vec<(String, Value)>,
}

/// A complete NBT value. It owns its data. `Float` and `Double` hold the
/// bits of the number.
#[derive(Debug)]
pub enum Value {
    Byte(i8),
    Short(i16),
    Int(i32),
    Long(i64),
    Double(u64),
    Float(u32),
    String(String),
    ByteArray(ByteArray),
    IntArray(IntArray),
    LongArray(LongArray),
    List(Vec<Value>),
    Compound(Compound),
}

/// What the value `v` stands for.
pub open spec fn value_view(v: Value) -> ValueView
    decreases v,
{
    match v {
        Value::Byte(x) => ValueView::Byte(x),
        Value::Short(x) => ValueView::Short(x),
        Value::Int(x) => ValueView::Int(x),
        Value::Long(x) => ValueView::Long(x),
        Value::Float(x) => ValueView::Float(x),
        Value::Double(x) => ValueView::Double(x),
        Value::String(s) => ValueView::String(s@),
        Value::ByteArray(a) => ValueView::ByteArray(a@),
        Value::IntArray(a) => ValueView::IntArray(a@),
        Value::LongArray(a) => ValueView::LongArray(a@),
        Value::List(l) => ValueView::List(list_view(l@)),
        Value::Compound(c) => ValueView::Compound(entries_onto(Map::empty(), c.entries())),
    }
}

/// What the values `l` stand for, each in its place.
pub open spec fn list_view(l: Seq<Value>) -> Seq<ValueView>
    decreases l,
{
    Seq::new(
        l.len(),
        |i: int|
            if 0 <= i < l.len() {
                value_view(l[i])
            } else {
                arbitrary()
            },
    )
}

/// The map `acc` after the entries `es` were put into it one by one, from
/// the first on: a later entry replaces an earlier one of its name.
pub open spec fn entries_onto(acc: Map<Seq<char>, ValueView>, es: Seq<(String, Value)>) -> Map<
    Seq<char>,
    ValueView,
>
    decreases es,
{
    if es.len() == 0 {
        acc
    } else {
        entries_onto(acc.insert(es[0].0@, value_view(es[0].1)), es.drop_first())
    }
}

/// Whether no name occurs twice among the entries `es`.
pub open spec fn names_unique(es: Seq<(String, Value)>) -> bool {
    forall|i: int, j: int| 0 <= i < j < es.len() ==> es[i].0@ != es[j].0@
}

/// Whether the name `name` occurs among the entries `es`.
pub open spec fn has_name(es: Seq<(String, Value)>, name: Seq<char>) -> bool {
    exists|j: int| 0 <= j < es.len() && es[j].0@ == name
}

/// An entry whose name does not occur among `es` can as well be put in
/// after them.
pub proof fn lemma_entries_onto_commute(
    acc: Map<Seq<char>, ValueView>,
    es: Seq<(String, Value)>,
    name: Seq<char>,
    x: ValueView,
)
    requires
        forall|j: int| 0 <= j < es.len() ==> es[j].0@ != name,
    ensures
        entries_onto(acc.insert(name, x), es) == entries_onto(acc, es).insert(name, x),
    decreases es.len(),
{
    if es.len() == 0 {
    } else {
        let rest = es.drop_first();
        let n0 = es[0].0@;
        let v0 = value_view(es[0].1);
        assert(acc.insert(name, x).insert(n0, v0) =~= acc.insert(n0, v0).insert(name, x));
        assert forall|j: int| 0 <= j < rest.len() implies rest[j].0@ != name by {
            assert(rest[j] == es[j + 1]);
        }
        lemma_entries_onto_commute(acc.insert(n0, v0), rest, name, x);
    }
}

/// Putting one more entry in at the end is one more insertion.
pub proof fn lemma_entries_onto_push(
    acc: Map<Seq<char>, ValueView>,
    es: Seq<(String, Value)>,
    e: (String, Value),
)
    ensures
        entries_onto(acc, es.push(e)) == entries_onto(acc, es).insert(e.0@, value_view(e.1)),
    decreases es.len(),
{
    let pushed = es.push(e);
    if es.len() == 0 {
        assert(pushed.drop_first() =~= Seq::<(String, Value)>::empty());
        assert(pushed[0] == e);
        reveal_with_fuel(entries_onto, 2);
    } else {
        assert(pushed[0] == es[0]);
        assert(pushed.drop_first() =~= es.drop_first().push(e));
        lemma_entries_onto_push(
            acc.insert(es[0].0@, value_view(es[0].1)),
            es.drop_first(),
            e,
        );
    }
}

/// Where no name occurs twice, the first entry can as well be put in last.
pub proof fn lemma_entries_onto_first_last(
    acc: Map<Seq<char>, ValueView>,
    es: Seq<(String, Value)>,
)
    requires
        names_unique(es),
        es.len() > 0,
    ensures
        entries_onto(acc, es) == entries_onto(acc, es.drop_first()).insert(
            es[0].0@,
            value_view(es[0].1),
        ),
        names_unique(es.drop_first()),
{
    let rest = es.drop_first();
    assert forall|j: int| 0 <= j < rest.len() implies rest[j].0@ != es[0].0@ by {
        assert(rest[j] == es[j + 1]);
    }
    assert forall|i: int, j: int| 0 <= i < j < rest.len() implies rest[i].0@ != rest[j].0@ by {
        assert(rest[i] == es[i + 1]);
        assert(rest[j] == es[j + 1]);
    }
    lemma_entries_onto_commute(acc, rest, es[0].0@, value_view(es[0].1));
}

/// Replacing the entry of a name in its place is one insertion under that
/// name.
pub proof fn lemma_entries_onto_update(
    acc: Map<Seq<char>, ValueView>,
    es: Seq<(String, Value)>,
    i: int,
    e: (String, Value),
)
    requires
        names_unique(es),
        0 <= i < es.len(),
        es[i].0@ == e.0@,
    ensures
        entries_onto(acc, es.update(i, e)) == entries_onto(acc, es).insert(
            e.0@,
            value_view(e.1),
        ),
        names_unique(es.update(i, e)),
    decreases es.len(),
{
    let updated = es.update(i, e);
    let rest = es.drop_first();
    assert forall|a: int, b: int| 0 <= a < b < updated.len() implies updated[a].0@
        != updated[b].0@ by {
        assert(updated[a].0@ == es[a].0@);
        assert(updated[b].0@ == es[b].0@);
    }
    lemma_entries_onto_first_last(acc, es);
    lemma_entries_onto_first_last(acc, updated);
    if i == 0 {
        assert(updated.drop_first() =~= rest);
        assert(entries_onto(acc, rest).insert(es[0].0@, value_view(es[0].1)).insert(
            e.0@,
            value_view(e.1),
        ) =~= entries_onto(acc, rest).insert(e.0@, value_view(e.1)));
    } else {
        assert(updated.drop_first() =~= rest.update(i - 1, e));
        assert(rest[i - 1] == es[i]);
        lemma_entries_onto_update(acc, rest, i - 1, e);
        assert(es[0].0@ != e.0@);
        assert(entries_onto(acc, rest).insert(e.0@, value_view(e.1)).insert(
            es[0].0@,
            value_view(es[0].1),
        ) =~= entries_onto(acc, rest).insert(es[0].0@, value_view(es[0].1)).insert(
            e.0@,
            value_view(e.1),
        ));
    }
}

/// Where no name occurs twice, the map holds a name exactly if an entry
/// has it or it was there before, and it holds the value of that entry.
pub proof fn lemma_entries_onto_lookup(
    acc: Map<Seq<char>, ValueView>,
    es: Seq<(String, Value)>,
    name: Seq<char>,
)
    requires
        names_unique(es),
    ensures
        entries_onto(acc, es).dom().contains(name) <==> (acc.dom().contains(name) || has_name(
            es,
            name,
        )),
        forall|j: int|
            0 <= j < es.len() && es[j].0@ == name ==> entries_onto(acc, es)[name] == value_view(
                es[j].1,
            ),
    decreases es.len(),
{
    if es.len() == 0 {
    } else {
        let rest = es.drop_first();
        lemma_entries_onto_first_last(acc, es);
        lemma_entries_onto_lookup(acc, rest, name);
        if has_name(rest, name) {
            let j = choose|j: int| 0 <= j < rest.len() && rest[j].0@ == name;
            assert(es[j + 1] == rest[j]);
        }
        if has_name(es, name) {
            let j = choose|j: int| 0 <= j < es.len() && es[j].0@ == name;
            if j > 0 {
                assert(rest[j - 1] == es[j]);
            }
        }
        assert forall|j: int| 0 <= j < es.len() && es[j].0@ == name implies entries_onto(
            acc,
            es,
        )[name] == value_view(es[j].1) by {
            if j > 0 {
                assert(rest[j - 1] == es[j]);
                assert(es[0].0@ != name);
            }
        }
    }
}

/// Where no name occurs twice, the map has as many names as there are
/// entries.
pub proof fn lemma_entries_onto_len(es: Seq<(String, Value)>)
    requires
        names_unique(es),
    ensures
        entries_onto(Map::empty(), es).dom().finite(),
        entries_onto(Map::empty(), es).dom().len() == es.len(),
    decreases es.len(),
{
    let empty = Map::<Seq<char>, ValueView>::empty();
    if es.len() == 0 {
    } else {
        let rest = es.drop_first();
        lemma_entries_onto_first_last(empty, es);
        lemma_entries_onto_len(rest);
        lemma_entries_onto_lookup(empty, rest, es[0].0@);
        if has_name(rest, es[0].0@) {
            let j = choose|j: int| 0 <= j < rest.len() && rest[j].0@ == es[0].0@;
            assert(rest[j] == es[j + 1]);
        }
    }
}

impl View for Compound {
    type V = Map<Seq<char>, ValueView>;

    closed spec fn view(&self) -> Map<Seq<char>, ValueView> {
        entries_onto(Map::empty(), self.entries@)
    }
}

impl View for Value {
    type V = ValueView;

    open spec fn view(&self) -> ValueView {
        value_view(*self)
    }
}

impl Compound {
    /// The entries in the order in which their names were first put in.
    pub closed spec fn entries(&self) -> Seq<(String, Value)> {
        self.entries@
    }

    #[verifier::type_invariant]
    spec fn no_name_twice(&self) -> bool {
        names_unique(self.entries@)
    }

    /// The view is the map that the entries make.
    pub proof fn lemma_view(&self)
        ensures
            self@ == entries_onto(Map::empty(), self.entries()),
    {
    }

    /// A compound is larger than the value of each of its entries.
    pub proof fn lemma_decreases(&self, i: int)
        requires
            0 <= i < self.entries().len(),
        ensures
            decreases_to!(*self => self.entries()[i].1),
    {
        assert(decreases_to!(*self => self.entries));
        assert(decreases_to!(self.entries => self.entries@));
        assert(decreases_to!(self.entries@ => self.entries@[i]));
        assert(decreases_to!(self.entries@[i] => self.entries@[i].1));
    }

    /// A compound is larger than its entries.
    pub proof fn lemma_entries_decrease(&self)
        ensures
            decreases_to!(*self => self.entries()),
    {
        assert(decreases_to!(*self => self.entries));
        assert(decreases_to!(self.entries => self.entries@));
    }

    /// A compound without entries.
    pub fn new() -> (c: Self)
        ensures
            c@ == Map::<Seq<char>, ValueView>::empty(),
            c.entries() == Seq::<(String, Value)>::empty(),
    {
        Compound { entries: Vec::new() }
    }

    /// The number of entries, which is the number of names.
    pub fn len(&self) -> (n: usize)
        ensures
            n == self.entries().len(),
            self@.dom().finite(),
            n == self@.dom().len(),
            names_unique(self.entries()),
    {
        proof {
            use_type_invariant(self);
            lemma_entries_onto_len(self.entries@);
        }
        self.entries.len()
    }

    /// Where the entry of the name `name` stands, if there is one.
    fn position(&self, name: &String) -> (r: Option<usize>)
        ensures
            match r {
                Some(i) => i < self.entries().len() && self.entries()[i as int].0@ == name@,
                None => !has_name(self.entries(), name@),
            },
            names_unique(self.entries()),
    {
        proof {
            use_type_invariant(self);
        }
        let n: usize = self.entries.len();
        let mut i: usize = 0;
        while i < n
            invariant
                i <= n,
                n == self.entries@.len(),
                names_unique(self.entries@),
                forall|j: int| 0 <= j < i ==> self.entries@[j].0@ != name@,
            decreases n - i,
        {
            if self.entries[i].0 == *name {
                return Some(i);
            }
            i = i + 1;
        }
        None
    }

    /// The value under `name`, if there is one.
    pub fn get(&self, name: &str) -> (r: Option<&Value>)
        ensures
            match r {
                Some(v) => self@.dom().contains(name@) && self@[name@] == v@,
                None => !self@.dom().contains(name@),
            },
    {
        let owned: String = name.to_owned();
        let found = self.position(&owned);
        proof {
            lemma_entries_onto_lookup(Map::empty(), self.entries@, name@);
        }
        match found {
            Some(i) => Some(&self.entries[i].1),
            None => None,
        }
    }

    /// Whether there is a value under `name`.
    pub fn contains_key(&self, name: &str) -> (r: bool)
        ensures
            r == self@.dom().contains(name@),
    {
        self.get(name).is_some()
    }

    /// The entry at `index`, in the order in which the names were first put
    /// in.
    pub fn entry(&self, index: usize) -> (r: Option<(&String, &Value)>)
        ensures
            match r {
                Some((name, value)) => index < self.entries().len() && *name
                    == self.entries()[index as int].0 && *value == self.entries()[index as int].1,
                None => index >= self.entries().len(),
            },
    {
        if index < self.entries.len() {
            let e = &self.entries[index];
            Some((&e.0, &e.1))
        } else {
            None
        }
    }

    /// Puts `value` in under `name`. An entry that was there under that
    /// name is replaced, and `true` is returned.
    pub fn insert(&mut self, name: String, value: Value) -> (replaced: bool)
        ensures
            final(self)@ == old(self)@.insert(name@, value@),
            replaced == old(self)@.dom().contains(name@),
            replaced ==> final(self).entries() == old(self).entries().update(
                index_of_name(old(self).entries(), name@),
                (name, value),
            ),
            !replaced ==> final(self).entries() == old(self).entries().push((name, value)),
    {
        let found = self.position(&name);
        let ghost before = self.entries@;
        proof {
            lemma_entries_onto_lookup(Map::empty(), before, name@);
        }
        match found {
            Some(i) => {
                proof {
                    lemma_entries_onto_update(Map::empty(), before, i as int, (name, value));
                    lemma_index_of_name(before, name@, i as int);
                }
                let mut taken: Vec<(String, Value)> = Vec::new();
                std::mem::swap(&mut self.entries, &mut taken);
                taken.set(i, (name, value));
                self.entries = taken;
                true
            },
            None => {
                proof {
                    lemma_entries_onto_push(Map::empty(), before, (name, value));
                    assert forall|a: int, b: int|
                        0 <= a < b < before.push((name, value)).len() implies before.push(
                        (name, value),
                    )[a].0@ != before.push((name, value))[b].0@ by {
                        if b < before.len() {
                        } else {
                            assert(before[a].0@ != name@);
                        }
                    }
                }
                let mut taken: Vec<(String, Value)> = Vec::new();
                std::mem::swap(&mut self.entries, &mut taken);
                taken.push((name, value));
                self.entries = taken;
                false
            },
        }
    }
}

/// Where the entry of the name `name` stands among `es`.
pub open spec fn index_of_name(es: Seq<(String, Value)>, name: Seq<char>) -> int {
    choose|j: int| 0 <= j < es.len() && es[j].0@ == name
}

/// Where no name occurs twice, the place of a name is the one place where
/// it stands.
pub proof fn lemma_index_of_name(es: Seq<(String, Value)>, name: Seq<char>, i: int)
    requires
        names_unique(es),
        0 <= i < es.len(),
        es[i].0@ == name,
    ensures
        index_of_name(es, name) == i,
{
    let j = index_of_name(es, name);
    if j < i {
        assert(es[j].0@ != es[i].0@);
    } else if i < j {
        assert(es[i].0@ != es[j].0@);
    }
}

impl Value {
    /// The tag that introduces this value on the wire.
    pub fn tag(&self) -> (t: Tag)
        ensures
            t == self@.tag(),
            t != Tag::End,
    {
        match self {
            Value::Byte(_) => Tag::Byte,
            Value::Short(_) => Tag::Short,
            Value::Int(_) => Tag::Int,
            Value::Long(_) => Tag::Long,
            Value::Float(_) => Tag::Float,
            Value::Double(_) => Tag::Double,
            Value::String(_) => Tag::String,
            Value::ByteArray(_) => Tag::ByteArray,
            Value::IntArray(_) => Tag::IntArray,
            Value::LongArray(_) => Tag::LongArray,
            Value::List(_) => Tag::List,
            Value::Compound(_) => Tag::Compound,
        }
    }

    /// Whether `self` and `other` stand for the same value: a list by its
    /// elements in order, a compound by its names and what stands under
    /// each, in whatever order.
    pub fn same(&self, other: &Value) -> (r: bool)
        ensures
            r == (self@ == other@),
        decreases self,
    {
        match (self, other) {
            (Value::Byte(a), Value::Byte(b)) => *a == *b,
            (Value::Short(a), Value::Short(b)) => *a == *b,
            (Value::Int(a), Value::Int(b)) => *a == *b,
            (Value::Long(a), Value::Long(b)) => *a == *b,
            (Value::Float(a), Value::Float(b)) => *a == *b,
            (Value::Double(a), Value::Double(b)) => *a == *b,
            (Value::String(a), Value::String(b)) => *a == *b,
            (Value::ByteArray(a), Value::ByteArray(b)) => *a == *b,
            (Value::IntArray(a), Value::IntArray(b)) => *a == *b,
            (Value::LongArray(a), Value::LongArray(b)) => *a == *b,
            (Value::List(a), Value::List(b)) => {
                let n: usize = a.len();
                if n != b.len() {
                    assert(list_view(a@).len() != list_view(b@).len());
                    return false;
                }
                let mut i: usize = 0;
                while i < n
                    invariant
                        i <= n,
                        n == a@.len(),
                        n == b@.len(),
                        *self == Value::List(*a),
                        *other == Value::List(*b),
                        forall|j: int| 0 <= j < i ==> value_view(a@[j]) == value_view(b@[j]),
                    decreases n - i,
                {
                    proof {
                        assert(self->List_0 == *a);
                        assert(decreases_to!(*self => self->List_0));
                        assert(decreases_to!(*a => a@));
                        assert(decreases_to!(a@ => a@[i as int]));
                    }
                    if !a[i].same(&b[i]) {
                        assert(list_view(a@)[i as int] != list_view(b@)[i as int]);
                        return false;
                    }
                    i = i + 1;
                }
                assert(list_view(a@) =~= list_view(b@));
                true
            },
            (Value::Compound(a), Value::Compound(b)) => {
                let n: usize = a.len();
                let m: usize = b.len();
                proof {
                    a.lemma_view();
                    b.lemma_view();
                }
                if n != m {
                    return false;
                }
                let mut i: usize = 0;
                while i < n
                    invariant
                        i <= n,
                        n == a.entries().len(),
                        names_unique(a.entries()),
                        *self == Value::Compound(*a),
                        *other == Value::Compound(*b),
                        b@.dom().finite(),
                        b@.dom().len() == n,
                        forall|j: int|
                            0 <= j < i ==> b@.dom().contains(#[trigger] a.entries()[j].0@) && b@[a.entries()[j].0@]
                                == value_view(a.entries()[j].1),
                    decreases n - i,
                {
                    match a.entry(i) {
                        None => {
                            return false;
                        },
                        Some((name, value)) => {
                            proof {
                                lemma_entries_onto_lookup(Map::empty(), a.entries(), name@);
                                a.lemma_view();
                                b.lemma_view();
                                assert(a.entries()[i as int].0@ == name@);
                                assert(has_name(a.entries(), name@));
                                assert(a@.dom().contains(name@));
                                assert(a@[name@] == value_view(*value));
                                assert(self->Compound_0 == *a);
                                assert(decreases_to!(*self => self->Compound_0));
                                assert(decreases_to!(*a => a.entries));
                                assert(decreases_to!(a.entries => a.entries@));
                                assert(decreases_to!(a.entries@ => a.entries@[i as int]));
                                assert(decreases_to!(a.entries@[i as int] => a.entries@[i as int].1));
                            }
                            match b.get(name.as_str()) {
                                None => {
                                    return false;
                                },
                                Some(theirs) => {
                                    if !value.same(theirs) {
                                        return false;
                                    }
                                },
                            }
                        },
                    }
                    i = i + 1;
                }
                proof {
                    a.lemma_view();
                    lemma_same_maps(a.entries(), a@, b@);
                }
                true
            },
            _ => false,
        }
    }

    /// A copy of the value and of everything below it.
    pub fn deep_clone(&self) -> (r: Value)
        ensures
            r@ == self@,
        decreases self,
    {
        match self {
            Value::Byte(x) => Value::Byte(*x),
            Value::Short(x) => Value::Short(*x),
            Value::Int(x) => Value::Int(*x),
            Value::Long(x) => Value::Long(*x),
            Value::Float(x) => Value::Float(*x),
            Value::Double(x) => Value::Double(*x),
            Value::String(s) => Value::String(s.clone()),
            Value::ByteArray(a) => Value::ByteArray(a.clone()),
            Value::IntArray(a) => Value::IntArray(a.clone()),
            Value::LongArray(a) => Value::LongArray(a.clone()),
            Value::List(l) => {
                let n: usize = l.len();
                let mut out: Vec<Value> = Vec::new();
                let mut i: usize = 0;
                while i < n
                    invariant
                        i <= n,
                        n == l@.len(),
                        out@.len() == i,
                        *self == Value::List(*l),
                        forall|j: int| 0 <= j < i ==> value_view(out@[j]) == value_view(l@[j]),
                    decreases n - i,
                {
                    proof {
                        assert(self->List_0 == *l);
                        assert(decreases_to!(*self => self->List_0));
                        assert(decreases_to!(*l => l@));
                        assert(decreases_to!(l@ => l@[i as int]));
                    }
                    let item = l[i].deep_clone();
                    out.push(item);
                    i = i + 1;
                }
                assert(list_view(out@) =~= list_view(l@));
                Value::List(out)
            },
            Value::Compound(c) => {
                let n: usize = c.len();
                let mut out = Compound::new();
                let mut i: usize = 0;
                proof {
                    c.lemma_view();
                    assert(c.entries().take(0) =~= Seq::<(String, Value)>::empty());
                }
                while i < n
                    invariant
                        i <= n,
                        n == c.entries().len(),
                        *self == Value::Compound(*c),
                        out@ == entries_onto(Map::empty(), c.entries().take(i as int)),
                    decreases n - i,
                {
                    match c.entry(i) {
                        None => {},
                        Some((name, value)) => {
                            proof {
                                assert(self->Compound_0 == *c);
                                assert(decreases_to!(*self => self->Compound_0));
                                assert(decreases_to!(*c => c.entries));
                                assert(decreases_to!(c.entries => c.entries@));
                                assert(decreases_to!(c.entries@ => c.entries@[i as int]));
                                assert(decreases_to!(c.entries@[i as int] => c.entries@[i as int].1));
                            }
                            let item = value.deep_clone();
                            proof {
                                let e = c.entries()[i as int];
                                lemma_entries_onto_push(
                                    Map::empty(),
                                    c.entries().take(i as int),
                                    e,
                                );
                                assert(c.entries().take(i as int).push(e) =~= c.entries().take(
                                    i + 1,
                                ));
                            }
                            out.insert(name.clone(), item);
                        },
                    }
                    i = i + 1;
                }
                proof {
                    assert(c.entries().take(n as int) =~= c.entries());
                    c.lemma_view();
                }
                Value::Compound(out)
            },
        }
    }
}

/// Two maps are the same if one has as many names as the other and holds
/// under each of its names what the other holds there.
pub proof fn lemma_same_maps(
    es: Seq<(String, Value)>,
    a: Map<Seq<char>, ValueView>,
    b: Map<Seq<char>, ValueView>,
)
    requires
        names_unique(es),
        a == entries_onto(Map::empty(), es),
        b.dom().finite(),
        b.dom().len() == es.len(),
        forall|j: int|
            0 <= j < es.len() ==> b.dom().contains(#[trigger] es[j].0@) && b[es[j].0@]
                == value_view(es[j].1),
    ensures
        a == b,
{
    lemma_entries_onto_len(es);
    assert forall|k: Seq<char>| #[trigger] a.dom().contains(k) implies b.dom().contains(k) by {
        lemma_entries_onto_lookup(Map::empty(), es, k);
        let j = choose|j: int| 0 <= j < es.len() && es[j].0@ == k;
        assert(b.dom().contains(es[j].0@));
    }
    assert forall|k: Seq<char>| #[trigger] a.dom().contains(k) implies a[k] == b[k] by {
        lemma_entries_onto_lookup(Map::empty(), es, k);
        let j = choose|j: int| 0 <= j < es.len() && es[j].0@ == k;
        assert(b.dom().contains(es[j].0@));
    }
    assert(a.dom().subset_of(b.dom()));
    vstd::set_lib::lemma_subset_equality(a.dom(), b.dom());
    assert(a =~= b);
}

impl Clone for Compound {
    fn clone(&self) -> (r: Self)
        ensures
            r@ == self@,
    {
        let n: usize = self.len();
        let mut out = Compound::new();
        let mut i: usize = 0;
        proof {
            assert(self.entries().take(0) =~= Seq::<(String, Value)>::empty());
        }
        while i < n
            invariant
                i <= n,
                n == self.entries().len(),
                out@ == entries_onto(Map::empty(), self.entries().take(i as int)),
            decreases n - i,
        {
            match self.entry(i) {
                None => {},
                Some((name, value)) => {
                    let item = value.deep_clone();
                    proof {
                        let e = self.entries()[i as int];
                        lemma_entries_onto_push(Map::empty(), self.entries().take(i as int), e);
                        assert(self.entries().take(i as int).push(e) =~= self.entries().take(
                            i + 1,
                        ));
                    }
                    out.insert(name.clone(), item);
                },
            }
            i = i + 1;
        }
        proof {
            assert(self.entries().take(n as int) =~= self.entries());
        }
        out
    }
}

impl Clone for Value {
    fn clone(&self) -> (r: Self)
        ensures
            r@ == self@,
    {
        self.deep_clone()
    }
}

impl PartialEq for Value {
    fn eq(&self, other: &Self) -> (r: bool) {
        self.same(other)
    }
}

impl PartialEqSpecImpl for Value {
    open spec fn obeys_eq_spec() -> bool {
        true
    }

    open spec fn eq_spec(&self, other: &Self) -> bool {
        self@ == other@
    }
}

} // verus!
