//! The value model: a property list as a tree of typed values.

use vstd::prelude::*;
use vstd::set_lib::lemma_subset_equality;
use vstd::string::StringSliceAdditionalSpecFns;
use vstd::utf8::encode_utf8_decode_utf8;
use crate::error::{yields, Error};
use crate::reader::binary::binary_value;
use crate::reader::xml::markup_value;
use crate::reader::{document_value, rest_of, Reader};

verus! {

/// A real number, held as the document encodes it.
#[derive(Debug)]
pub enum Real {
    /// The bits of an IEEE-754 double.
    Bits(u64),
    /// A decimal text, as a markup document writes it.
    Decimal(String),
}

/// The mathematical value of a [`Real`].
pub ghost enum RealView {
    Bits(u64),
    Decimal(Seq<char>),
}

impl Real {
    /// A copy of the real.
    pub fn duplicate(&self) -> (r: Real)
        ensures
            r@ == self@,
    {
        match self {
            Real::Bits(bits) => Real::Bits(*bits),
            Real::Decimal(text) => Real::Decimal(text.clone()),
        }
    }
}

impl Clone for Real {
    fn clone(&self) -> (r: Real)
        ensures
            r@ == self@,
    {
        self.duplicate()
    }
}

impl View for Real {
    type V = RealView;

    open spec fn view(&self) -> RealView {
        match self {
            Real::Bits(b) => RealView::Bits(*b),
            Real::Decimal(s) => RealView::Decimal(s@),
        }
    }
}

/// An instant in time, independent of any time zone: `secs` whole seconds
/// and `nanos` nanoseconds after 1970-01-01T00:00:00Z.
#[derive(Debug, Clone, Copy, PartialEq, Eq, Structural)]
pub struct Date {
    /// Whole seconds since the Unix epoch; negative before it.
    pub secs: i128,
    /// Nanoseconds after that second.
    pub nanos: u32,
}

/// Represents a property list value.
#[derive(Debug)]
pub enum Plist {
    /// An array or vector of plist objects
    Array(Vec<Plist>),
    /// A dictionary of plist objects, keyed by string
    Dict(Dictionary),
    /// A boolean value
    Boolean(bool),
    /// A data value
    Data(Vec<u8>),
    /// A date value
    DateTime(Date),
    /// A floating point value
    Real(Real),
    /// An integer value
    Integer(i64),
    /// A string value
    String(String),
}

/// A dictionary of plist objects: each key occurs once, and the order of the
/// entries means nothing.
#[derive(Debug)]
pub struct Dictionary {
    entries: Vec<(String, Plist)>,
}

/// The mathematical value of a [`Plist`].
pub ghost enum Value {
    Array(Seq<Value>),
    Dict(Map<Seq<char>, Value>),
    Boolean(bool),
    Data(Seq<u8>),
    DateTime(Date),
    Real(RealView),
    Integer(i64),
    String(Seq<char>),
}

impl Plist {
    /// The value of the property list.
    pub open spec fn value(self) -> Value
        decreases self,
    {
        match self {
            Plist::Array(v) => Value::Array(
                Seq::new(
                    v.len() as nat,
                    |i: int|
                        if 0 <= i < v.len() {
                            v[i].value()
                        } else {
                            arbitrary()
                        },
                ),
            ),
            Plist::Dict(d) => Value::Dict(d.value()),
            Plist::Boolean(b) => Value::Boolean(b),
            Plist::Data(d) => Value::Data(d@),
            Plist::DateTime(d) => Value::DateTime(d),
            Plist::Real(r) => Value::Real(r@),
            Plist::Integer(i) => Value::Integer(i),
            Plist::String(s) => Value::String(s@),
        }
    }
}

impl Plist {
    /// Decodes a binary property list value from a reader.
    pub fn from_binary_reader(input: &mut Reader) -> (r: Result<Plist, Error>)
        ensures
            final(input).data() == old(input).data(),
            yields(r, binary_value(old(input).data())),
    {
        crate::reader::binary::from_binary_reader(input)
    }

    /// Decodes an XML property list value from a reader.
    pub fn from_xml_reader(input: &mut Reader) -> (r: Result<Plist, Error>)
        ensures
            final(input).data() == old(input).data(),
            yields(r, markup_value(rest_of(old(input).data(), old(input).position()))),
    {
        crate::reader::xml::from_xml_reader(input)
    }

    /// Decodes a binary or XML property list value from a reader, based on
    /// the presence of the binary plist magic bytes.
    pub fn from_reader(input: &mut Reader) -> (r: Result<Plist, Error>)
        ensures
            final(input).data() == old(input).data(),
            yields(r, document_value(old(input).data())),
    {
        crate::reader::from_reader(input)
    }
}

impl Plist {
    /// A copy of the property list.
    pub fn duplicate(&self) -> (r: Plist)
        ensures
            r@ == self@,
        decreases self,
    {
        match self {
            Plist::Array(items) => {
                let mut copies: Vec<Plist> = Vec::new();
                let mut i: usize = 0;
                while i < items.len()
                    invariant
                        *self == Plist::Array(*items),
                        i <= items.len(),
                        copies@.len() == i,
                        forall|j: int| 0 <= j < i ==> copies@[j]@ == items@[j]@,
                    decreases items.len() - i,
                {
                    proof {
                        assert(self->Array_0 == *items);
                    }
                    let copy = items[i].duplicate();
                    copies.push(copy);
                    i = i + 1;
                }
                proof {
                    lemma_array_view(*items);
                    lemma_array_view(copies);
                    assert(values_of(copies@) =~= values_of(items@));
                }
                Plist::Array(copies)
            },
            Plist::Dict(entries) => Plist::Dict(entries.duplicate()),
            Plist::Boolean(b) => Plist::Boolean(*b),
            Plist::Data(bytes) => Plist::Data(bytes.clone()),
            Plist::DateTime(date) => Plist::DateTime(*date),
            Plist::Real(number) => Plist::Real(number.duplicate()),
            Plist::Integer(i) => Plist::Integer(*i),
            Plist::String(text) => Plist::String(text.clone()),
        }
    }

    /// Whether two property lists have the same value: the same shape and
    /// equal leaves, the items of an array in the same order, the entries of
    /// a dictionary in any order.
    pub fn same(&self, other: &Plist) -> (r: bool)
        ensures
            r == (self@ == other@),
        decreases self,
    {
        match (self, other) {
            (Plist::Array(a), Plist::Array(b)) => {
                proof {
                    lemma_array_view(*a);
                    lemma_array_view(*b);
                }
                if a.len() != b.len() {
                    assert(values_of(a@).len() != values_of(b@).len());
                    return false;
                }
                let mut i: usize = 0;
                while i < a.len()
                    invariant
                        *self == Plist::Array(*a),
                        self@ == Value::Array(values_of(a@)),
                        other@ == Value::Array(values_of(b@)),
                        a.len() == b.len(),
                        i <= a.len(),
                        forall|j: int| 0 <= j < i ==> a@[j]@ == b@[j]@,
                    decreases a.len() - i,
                {
                    if !a[i].same(&b[i]) {
                        assert(values_of(a@)[i as int] != values_of(b@)[i as int]);
                        return false;
                    }
                    i = i + 1;
                }
                assert(values_of(a@) =~= values_of(b@));
                true
            },
            (Plist::Dict(a), Plist::Dict(b)) => a.same(b),
            (Plist::Boolean(a), Plist::Boolean(b)) => *a == *b,
            (Plist::Data(a), Plist::Data(b)) => same_bytes(a, b),
            (Plist::DateTime(a), Plist::DateTime(b)) => a.secs == b.secs && a.nanos == b.nanos,
            (Plist::Real(Real::Bits(a)), Plist::Real(Real::Bits(b))) => *a == *b,
            (Plist::Real(Real::Decimal(a)), Plist::Real(Real::Decimal(b))) => same_text(
                a.as_str(),
                b.as_str(),
            ),
            (Plist::Integer(a), Plist::Integer(b)) => *a == *b,
            (Plist::String(a), Plist::String(b)) => same_text(a.as_str(), b.as_str()),
            _ => false,
        }
    }
}

impl View for Plist {
    type V = Value;

    open spec fn view(&self) -> Value {
        self.value()
    }
}

impl View for Dictionary {
    type V = Map<Seq<char>, Value>;

    open spec fn view(&self) -> Map<Seq<char>, Value> {
        self.value()
    }
}

impl Dictionary {
    #[verifier::type_invariant]
    spec fn distinct_keys(self) -> bool {
        forall|i: int, j: int|
            0 <= i < j < self.entries.len() ==> (#[trigger] self.entries[i]).0@
                != (#[trigger] self.entries[j]).0@
    }

    /// The map from each key to the value of what is stored under it.
    pub closed spec fn value(self) -> Map<Seq<char>, Value>
        decreases self,
    {
        Map::new(
            |k: Seq<char>| self.has_key(k),
            |k: Seq<char>|
                {
                    let i = self.index_of(k);
                    if 0 <= i < self.entries.len() {
                        self.entries[i].1.value()
                    } else {
                        arbitrary()
                    }
                },
        )
    }

    spec fn has_key(&self, k: Seq<char>) -> bool {
        exists|i: int| 0 <= i < self.entries.len() && (#[trigger] self.entries[i]).0@ == k
    }

    spec fn index_of(&self, k: Seq<char>) -> int {
        choose|i: int| 0 <= i < self.entries.len() && (#[trigger] self.entries[i]).0@ == k
    }

    /// A dictionary without entries.
    pub fn new() -> (d: Dictionary)
        ensures
            d@ == Map::<Seq<char>, Value>::empty(),
    {
        let d = Dictionary { entries: Vec::new() };
        assert(d@ =~= Map::<Seq<char>, Value>::empty());
        d
    }

    /// The number of entries.
    pub fn len(&self) -> (n: usize)
        ensures
            n == self@.dom().len(),
            self@.dom().finite(),
    {
        proof {
            use_type_invariant(self);
            self.lemma_domain(self.entries.len() as int);
            assert(self.keys_below(self.entries.len() as int) =~= self@.dom());
        }
        self.entries.len()
    }

    /// What the view holds for the entry at `i`.
    proof fn lemma_entry(&self, i: int)
        requires
            self.distinct_keys(),
            0 <= i < self.entries.len(),
        ensures
            self@.contains_key(self.entries[i].0@),
            self@[self.entries[i].0@] == self.entries[i].1@,
    {
        let k = self.entries[i].0@;
        assert(self.has_key(k));
        let j = self.index_of(k);
        assert(j == i);
    }

    /// What the view holds for all the entries, and how many they are.
    proof fn lemma_entries(&self)
        requires
            self.distinct_keys(),
        ensures
            self@.dom().finite(),
            self@.dom().len() == self.entries.len(),
            forall|i: int|
                0 <= i < self.entries.len() ==> self@.contains_key(
                    (#[trigger] self.entries[i]).0@,
                ) && self@[self.entries[i].0@] == self.entries[i].1@,
    {
        self.lemma_domain(self.entries.len() as int);
        assert(self.keys_below(self.entries.len() as int) =~= self@.dom());
        assert forall|i: int| 0 <= i < self.entries.len() implies self@.contains_key(
            (#[trigger] self.entries[i]).0@,
        ) && self@[self.entries[i].0@] == self.entries[i].1@ by {
            self.lemma_entry(i);
        }
    }

    /// The value stored under `key`, if there is one.
    pub fn get(&self, key: &str) -> (r: Option<&Plist>)
        ensures
            match r {
                Some(v) => self@.contains_key(key@) && v@ == self@[key@],
                None => !self@.contains_key(key@),
            },
    {
        proof {
            use_type_invariant(self);
        }
        let mut i: usize = 0;
        while i < self.entries.len()
            invariant
                i <= self.entries.len(),
                self.distinct_keys(),
                forall|j: int| 0 <= j < i ==> (#[trigger] self.entries[j]).0@ != key@,
            decreases self.entries.len() - i,
        {
            if same_text(self.entries[i].0.as_str(), key) {
                proof {
                    self.lemma_entry(i as int);
                }
                return Some(&self.entries[i].1);
            }
            i = i + 1;
        }
        None
    }

    /// Stores `value` under `key`, in place of what was stored under it before.
    pub fn insert(&mut self, key: String, value: Plist)
        ensures
            final(self)@ == old(self)@.insert(key@, value@),
    {
        let mut taken = Dictionary { entries: Vec::new() };
        core::mem::swap(self, &mut taken);
        let ghost before = taken;
        let ghost k = key@;
        let ghost v = value@;
        proof {
            use_type_invariant(&taken);
        }
        let mut entries = taken.entries;
        let n = entries.len();
        let mut i: usize = 0;
        while i < n && !same_text(entries[i].0.as_str(), key.as_str())
            invariant
                n == entries.len(),
                i <= n,
                entries == before.entries,
                forall|j: int| 0 <= j < i ==> (#[trigger] entries[j]).0@ != key@,
            decreases n - i,
        {
            i = i + 1;
        }
        if i < n {
            entries.set(i, (key, value));
        } else {
            entries.push((key, value));
        }
        let after = Dictionary { entries };
        proof {
            assert forall|q: Seq<char>| after.has_key(q) == (before.has_key(q) || q == k) by {
                if before.has_key(q) {
                    let a = before.index_of(q);
                    assert(after.entries[a].0@ == q);
                }
                if q == k {
                    assert(after.entries[i as int].0@ == q);
                }
                if after.has_key(q) {
                    let a = after.index_of(q);
                    if a != i {
                        assert(before.entries[a].0@ == q);
                    }
                }
            }
            assert forall|q: Seq<char>| after.has_key(q) implies #[trigger] after@[q]
                == before@.insert(k, v)[q] by {
                let a = after.index_of(q);
                after.lemma_entry(a);
                if a != i {
                    before.lemma_entry(a);
                }
            }
            assert(after@ =~= before@.insert(k, v));
        }
        *self = after;
    }

    /// A copy of the dictionary.
    pub fn duplicate(&self) -> (r: Dictionary)
        ensures
            r@ == self@,
        decreases self,
    {
        proof {
            use_type_invariant(self);
        }
        let mut copies: Vec<(String, Plist)> = Vec::new();
        let mut i: usize = 0;
        while i < self.entries.len()
            invariant
                i <= self.entries.len(),
                copies@.len() == i,
                forall|j: int|
                    0 <= j < i ==> (#[trigger] copies@[j]).0@ == self.entries[j].0@ && copies@[j].1@
                        == self.entries[j].1@,
            decreases self.entries.len() - i,
        {
            let key = self.entries[i].0.clone();
            let value = self.entries[i].1.duplicate();
            copies.push((key, value));
            i = i + 1;
        }
        let copy = Dictionary { entries: copies };
        proof {
            assert forall|k: Seq<char>| copy.has_key(k) == self.has_key(k) by {
                if copy.has_key(k) {
                    let j = copy.index_of(k);
                    assert(self.entries[j].0@ == k);
                }
                if self.has_key(k) {
                    let j = self.index_of(k);
                    assert(copy.entries[j].0@ == k);
                }
            }
            assert forall|k: Seq<char>| copy.has_key(k) implies #[trigger] copy@[k] == self@[k] by {
                let j = copy.index_of(k);
                copy.lemma_entry(j);
                self.lemma_entry(j);
            }
            assert(copy@ =~= self@);
        }
        copy
    }

    /// Whether two dictionaries have the same value: the same keys, and
    /// under each key the same value.
    pub fn same(&self, other: &Dictionary) -> (r: bool)
        ensures
            r == (self@ == other@),
        decreases self,
    {
        let n = self.len();
        if n != other.len() {
            return false;
        }
        proof {
            use_type_invariant(self);
        }
        let mut i: usize = 0;
        while i < self.entries.len()
            invariant
                self.distinct_keys(),
                i <= self.entries.len(),
                self@.dom().finite(),
                other@.dom().finite(),
                self@.dom().len() == other@.dom().len(),
                forall|j: int|
                    0 <= j < i ==> other@.contains_key((#[trigger] self.entries[j]).0@)
                        && other@[self.entries[j].0@] == self.entries[j].1@,
            decreases self.entries.len() - i,
        {
            proof {
                self.lemma_entry(i as int);
            }
            match other.get(self.entries[i].0.as_str()) {
                Some(value) => {
                    if !self.entries[i].1.same(value) {
                        return false;
                    }
                },
                None => {
                    return false;
                },
            }
            i = i + 1;
        }
        proof {
            assert forall|k: Seq<char>| self@.contains_key(k) implies other@.contains_key(k)
                && other@[k] == self@[k] by {
                let j = self.index_of(k);
                self.lemma_entry(j);
            }
            assert(self@.dom().subset_of(other@.dom()));
            lemma_subset_equality(self@.dom(), other@.dom());
            assert(self@ =~= other@);
        }
        true
    }

    /// The dictionary taken apart: its entries, each key with its value, in no
    /// particular order.
    pub fn into_entries(self) -> (r: Vec<(String, Plist)>)
        ensures
            r.len() == self@.dom().len(),
            forall|i: int|
                0 <= i < r.len() ==> self@.contains_key((#[trigger] r[i]).0@) && self@[r[i].0@]
                    == r[i].1@,
            forall|i: int, j: int|
                0 <= i < j < r.len() ==> (#[trigger] r[i]).0@ != (#[trigger] r[j]).0@,
    {
        proof {
            use_type_invariant(&self);
            self.lemma_entries();
        }
        self.entries
    }

    /// The entries, each key with its value, in no particular order.
    pub fn entries(&self) -> (r: &Vec<(String, Plist)>)
        ensures
            r.len() == self@.dom().len(),
            forall|i: int|
                0 <= i < r.len() ==> self@.contains_key((#[trigger] r[i]).0@) && self@[r[i].0@]
                    == r[i].1@,
            forall|i: int, j: int|
                0 <= i < j < r.len() ==> (#[trigger] r[i]).0@ != (#[trigger] r[j]).0@,
    {
        proof {
            use_type_invariant(self);
            self.lemma_entries();
        }
        &self.entries
    }

    spec fn keys_below(&self, n: int) -> Set<Seq<char>> {
        Set::new(|k: Seq<char>| exists|i: int| 0 <= i < n && (#[trigger] self.entries[i]).0@ == k)
    }

    proof fn lemma_domain(&self, n: int)
        requires
            self.distinct_keys(),
            0 <= n <= self.entries.len(),
        ensures
            self.keys_below(n).finite(),
            self.keys_below(n).len() == n,
        decreases n,
    {
        if n == 0 {
            assert(self.keys_below(0) =~= Set::<Seq<char>>::empty());
        } else {
            self.lemma_domain(n - 1);
            let k = self.entries[n - 1].0@;
            assert(!self.keys_below(n - 1).contains(k));
            assert(self.keys_below(n) =~= self.keys_below(n - 1).insert(k));
        }
    }
}

/// The value of a dictionary does not tell in which order its entries were
/// stored: two entries with different keys give the same value in either
/// order.
pub proof fn lemma_order_of_entries(
    m: Map<Seq<char>, Value>,
    k1: Seq<char>,
    v1: Value,
    k2: Seq<char>,
    v2: Value,
)
    requires
        k1 != k2,
    ensures
        m.insert(k1, v1).insert(k2, v2) == m.insert(k2, v2).insert(k1, v1),
{
    assert(m.insert(k1, v1).insert(k2, v2) =~= m.insert(k2, v2).insert(k1, v1));
}

/// The values of a sequence of property lists.
pub open spec fn values_of(v: Seq<Plist>) -> Seq<Value> {
    Seq::new(v.len(), |i: int| v[i]@)
}

/// The value of an array is made of the values of its items.
pub proof fn lemma_array_view(v: Vec<Plist>)
    ensures
        Plist::Array(v)@ == Value::Array(values_of(v@)),
{
    let items = Seq::new(
        v.len() as nat,
        |i: int|
            if 0 <= i < v.len() {
                v[i].view()
            } else {
                arbitrary()
            },
    );
    assert(Plist::Array(v).value()->Array_0 =~= values_of(v@));
}

/// Whether two vectors hold the same bytes.
pub fn same_bytes(a: &Vec<u8>, b: &Vec<u8>) -> (r: bool)
    ensures
        r == (a@ == b@),
{
    if a.len() != b.len() {
        return false;
    }
    let mut i: usize = 0;
    while i < a.len()
        invariant
            a.len() == b.len(),
            i <= a.len(),
            forall|j: int| 0 <= j < i ==> a@[j] == b@[j],
        decreases a.len() - i,
    {
        if a[i] != b[i] {
            return false;
        }
        i = i + 1;
    }
    assert(a@ =~= b@);
    true
}

/// Whether two texts hold the same characters.
pub fn same_text(a: &str, b: &str) -> (r: bool)
    ensures
        r == (a@ == b@),
{
    let x = a.as_bytes();
    let y = b.as_bytes();
    proof {
        encode_utf8_decode_utf8(a@);
        encode_utf8_decode_utf8(b@);
    }
    if x.len() != y.len() {
        return false;
    }
    let mut i: usize = 0;
    while i < x.len()
        invariant
            x@ == a.spec_bytes(),
            y@ == b.spec_bytes(),
            x@.len() == y@.len(),
            i <= x@.len(),
            forall|j: int| 0 <= j < i ==> x@[j] == y@[j],
        decreases x.len() - i,
    {
        if x[i] != y[i] {
            return false;
        }
        i = i + 1;
    }
    assert(x@ =~= y@);
    true
}

} // verus!
