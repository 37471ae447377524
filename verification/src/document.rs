//! Documents: the store's native representation of one record. A document
//! is an ordered key-value map with unique keys; values are scalars.

use vstd::prelude::*;
use crate::object_id::ObjectId;
use crate::scalars::DateTime;

verus! {

/// A scalar value of the store's native serialization.
#[derive(Debug)]
pub enum Value {
    /// The null value.
    Null,
    /// A boolean.
    Bool(bool),
    /// A 32-bit signed integer.
    Int32(i32),
    /// A 64-bit signed integer.
    Int64(i64),
    /// A UTF-8 string.
    Str(String),
    /// A millisecond-precision instant.
    Instant(DateTime),
    /// A native object identifier.
    Id(ObjectId),
}

/// The mathematical shape of a [`Value`].
pub enum ValueView {
    /// The null value.
    Null,
    /// A boolean.
    Bool(bool),
    /// A 32-bit signed integer.
    Int32(int),
    /// A 64-bit signed integer.
    Int64(int),
    /// A UTF-8 string.
    Str(Seq<char>),
    /// A millisecond-precision instant.
    Instant(int),
    /// A native object identifier.
    Id(Seq<u8>),
}

impl View for Value {
    type V = ValueView;

    open spec fn view(&self) -> ValueView {
        match self {
            Value::Null => ValueView::Null,
            Value::Bool(b) => ValueView::Bool(*b),
            Value::Int32(n) => ValueView::Int32(*n as int),
            Value::Int64(n) => ValueView::Int64(*n as int),
            Value::Str(s) => ValueView::Str(s@),
            Value::Instant(t) => ValueView::Instant(t@),
            Value::Id(o) => ValueView::Id(o@),
        }
    }
}

/// Whether a value's shape is well formed: an identifier holds exactly
/// twelve bytes.
pub open spec fn value_view_wf(v: ValueView) -> bool {
    match v {
        ValueView::Id(b) => b.len() == 12,
        _ => true,
    }
}

impl Value {
    /// Whether the value is well formed (see [`value_view_wf`]).
    pub open spec fn wf(&self) -> bool {
        value_view_wf(self@)
    }

    /// Whether two values have the same shape.
    pub fn same_as(&self, other: &Value) -> (r: bool)
        ensures
            r == (self@ == other@),
    {
        match (self, other) {
            (Value::Null, Value::Null) => true,
            (Value::Bool(a), Value::Bool(b)) => *a == *b,
            (Value::Int32(a), Value::Int32(b)) => *a == *b,
            (Value::Int64(a), Value::Int64(b)) => *a == *b,
            (Value::Str(a), Value::Str(b)) => crate::scalars::str_eq(a.as_str(), b.as_str()),
            (Value::Instant(a), Value::Instant(b)) => a.le(b) && b.le(a),
            (Value::Id(a), Value::Id(b)) => a.same_as(b),
            _ => {
                proof {
                    assert(self@ != other@);
                }
                false
            },
        }
    }

    /// An identical copy.
    pub fn duplicate(&self) -> (r: Value)
        ensures
            r@ == self@,
    {
        match self {
            Value::Null => Value::Null,
            Value::Bool(b) => Value::Bool(*b),
            Value::Int32(n) => Value::Int32(*n),
            Value::Int64(n) => Value::Int64(*n),
            Value::Str(s) => Value::Str(s.clone()),
            Value::Instant(t) => Value::Instant(*t),
            Value::Id(o) => Value::Id(o.duplicate()),
        }
    }
}

/// The mathematical shape of a document: the sequence of its entries.
pub type DocView = Seq<(Seq<char>, ValueView)>;

/// Whether `d` binds `k` at position `i`.
pub open spec fn doc_key_at(d: DocView, k: Seq<char>, i: int) -> bool {
    0 <= i < d.len() && d[i].0 == k
}

/// Whether `d` binds `k` anywhere.
pub open spec fn doc_has_key(d: DocView, k: Seq<char>) -> bool {
    exists|i: int| doc_key_at(d, k, i)
}

/// Whether no key occurs twice in `d`.
pub open spec fn doc_keys_unique(d: DocView) -> bool {
    forall|i: int, j: int| 0 <= i < j < d.len() ==> (#[trigger] d[i]).0 != (#[trigger] d[j]).0
}

/// Whether every value in `d` is well formed.
pub open spec fn doc_values_wf(d: DocView) -> bool {
    forall|i: int| 0 <= i < d.len() ==> value_view_wf((#[trigger] d[i]).1)
}

/// Whether `d` is a well-formed document shape.
pub open spec fn doc_wf(d: DocView) -> bool {
    doc_keys_unique(d) && doc_values_wf(d)
}

/// The value `d` binds to `k`, if any.
pub open spec fn doc_get(d: DocView, k: Seq<char>) -> Option<ValueView> {
    if doc_has_key(d, k) {
        Some(d[choose|i: int| doc_key_at(d, k, i)].1)
    } else {
        None
    }
}

/// `d` with `k` bound to `v`: replaced in place if `k` is present,
/// appended otherwise.
pub open spec fn doc_insert(d: DocView, k: Seq<char>, v: ValueView) -> DocView {
    if doc_has_key(d, k) {
        d.update(choose|i: int| doc_key_at(d, k, i), (k, v))
    } else {
        d.push((k, v))
    }
}

/// Under unique keys, looking a bound key up yields the value at its
/// position.
pub proof fn lemma_doc_get_at(d: DocView, i: int)
    requires
        doc_keys_unique(d),
        0 <= i < d.len(),
    ensures
        doc_get(d, d[i].0) == Some(d[i].1),
{
    assert(doc_key_at(d, d[i].0, i));
    let w = choose|w: int| doc_key_at(d, d[i].0, w);
    assert(w == i);
}

/// An ordered key-value map with unique keys, the unit the store keeps
/// and returns. Its view is the sequence of its entries.
#[derive(Debug)]
pub struct Document {
    entries: Vec<(String, Value)>,
}

impl View for Document {
    type V = DocView;

    closed spec fn view(&self) -> DocView {
        self.entries@.map(|i: int, e: (String, Value)| (e.0@, e.1@))
    }
}

impl Document {
    /// Whether the document is well formed (see [`doc_wf`]).
    pub open spec fn wf(&self) -> bool {
        doc_wf(self@)
    }

    /// The empty document.
    pub fn new() -> (r: Document)
        ensures
            r@ =~= Seq::<(Seq<char>, ValueView)>::empty(),
            r.wf(),
    {
        let entries: Vec<(String, Value)> = Vec::new();
        Document { entries }
    }

    /// How many entries the document holds.
    pub fn len(&self) -> (r: usize)
        ensures
            r == self@.len(),
    {
        self.entries.len()
    }

    /// Whether the document holds no entry.
    pub fn is_empty(&self) -> (r: bool)
        ensures
            r == (self@.len() == 0),
    {
        self.entries.is_empty()
    }

    /// The position of `key`, if the document binds it.
    fn index_of(&self, key: &str) -> (r: Option<usize>)
        requires
            doc_keys_unique(self@),
        ensures
            r is Some <==> doc_has_key(self@, key@),
            r is Some ==> doc_key_at(self@, key@, r->0 as int),
    {
        let mut i: usize = 0;
        while i < self.entries.len()
            invariant
                0 <= i <= self@.len(),
                self@.len() == self.entries@.len(),
                forall|j: int| 0 <= j < i ==> (#[trigger] self@[j]).0 != key@,
            decreases self@.len() - i,
        {
            if crate::scalars::str_eq(self.entries[i].0.as_str(), key) {
                proof {
                    assert(doc_key_at(self@, key@, i as int));
                }
                return Some(i);
            }
            i += 1;
        }
        proof {
            if doc_has_key(self@, key@) {
                let w = choose|w: int| doc_key_at(self@, key@, w);
                assert(self@[w].0 != key@);
            }
        }
        None
    }

    /// Binds `key` to `value`: replaces in place when `key` is present,
    /// appends otherwise.
    pub fn insert(&mut self, key: String, value: Value)
        requires
            old(self).wf(),
            value.wf(),
        ensures
            final(self)@ == doc_insert(old(self)@, key@, value@),
            final(self).wf(),
            final(self)@.len() == if doc_has_key(old(self)@, key@) {
                old(self)@.len()
            } else {
                old(self)@.len() + 1
            },
    {
        let found = self.index_of(key.as_str());
        match found {
            Some(i) => {
                let _ = self.entries.remove(i);
                self.entries.insert(i, (key, value));
                proof {
                    let w = choose|w: int| doc_key_at(old(self)@, key@, w);
                    assert(w == i as int);
                    assert(self@ =~= doc_insert(old(self)@, key@, value@));
                }
            },
            None => {
                self.entries.push((key, value));
                proof {
                    assert(self@ =~= doc_insert(old(self)@, key@, value@));
                }
            },
        }
        proof {
            let newd = self@;
            let oldd = old(self)@;
            assert forall|i: int, j: int| 0 <= i < j < newd.len() implies (#[trigger] newd[i]).0 != (
            #[trigger] newd[j]).0 by {
                if doc_has_key(oldd, key@) {
                    let w = choose|w: int| doc_key_at(oldd, key@, w);
                    assert(oldd[i].0 == newd[i].0 || i == w);
                    assert(oldd[j].0 == newd[j].0 || j == w);
                } else {
                    assert(j < newd.len());
                    if j == newd.len() - 1 {
                        assert(newd[j].0 == key@);
                        assert(!doc_key_at(oldd, key@, i));
                    }
                }
            }
        }
    }

    /// The value bound to `key`, if any.
    pub fn get(&self, key: &str) -> (r: Option<&Value>)
        requires
            self.wf(),
        ensures
            r is Some <==> doc_has_key(self@, key@),
            r is Some ==> Some(r->0@) == doc_get(self@, key@),
    {
        let found = self.index_of(key);
        match found {
            Some(i) => {
                proof {
                    let w = choose|w: int| doc_key_at(self@, key@, w);
                    assert(w == i as int);
                }
                Some(&self.entries[i].1)
            },
            None => None,
        }
    }

    /// Whether the document binds `key`.
    pub fn contains_key(&self, key: &str) -> (r: bool)
        requires
            self.wf(),
        ensures
            r == doc_has_key(self@, key@),
    {
        match self.index_of(key) {
            Some(_) => true,
            None => false,
        }
    }

    /// The entry at position `i`.
    pub fn entry_at(&self, i: usize) -> (r: (&String, &Value))
        requires
            i < self@.len(),
        ensures
            (r.0@, r.1@) == self@[i as int],
    {
        let e = &self.entries[i];
        (&e.0, &e.1)
    }

    /// The document holding copies of the entries from position `start`
    /// on.
    pub fn tail_from(&self, start: usize) -> (r: Document)
        requires
            start <= self@.len(),
        ensures
            r@ =~= self@.subrange(start as int, self@.len() as int),
    {
        let mut entries: Vec<(String, Value)> = Vec::new();
        let mut i: usize = start;
        while i < self.entries.len()
            invariant
                start <= i <= self.entries@.len(),
                entries@.len() == i - start,
                forall|j: int|
                    0 <= j < i - start ==> ((#[trigger] entries@[j]).0@, entries@[j].1@) == (
                    self.entries@[j + start].0@, self.entries@[j + start].1@),
            decreases self.entries@.len() - i,
        {
            let e = &self.entries[i];
            entries.push((e.0.clone(), e.1.duplicate()));
            i += 1;
        }
        let r = Document { entries };
        proof {
            assert(r@ =~= self@.subrange(start as int, self@.len() as int));
        }
        r
    }

    /// An identical copy.
    pub fn duplicate(&self) -> (r: Document)
        ensures
            r@ == self@,
    {
        let mut entries: Vec<(String, Value)> = Vec::new();
        let mut i: usize = 0;
        while i < self.entries.len()
            invariant
                0 <= i <= self.entries@.len(),
                entries@.len() == i,
                forall|j: int|
                    0 <= j < i ==> ((#[trigger] entries@[j]).0@, entries@[j].1@) == (
                    self.entries@[j].0@, self.entries@[j].1@),
            decreases self.entries@.len() - i,
        {
            let e = &self.entries[i];
            entries.push((e.0.clone(), e.1.duplicate()));
            i += 1;
        }
        let r = Document { entries };
        proof {
            assert(r@ =~= self@);
        }
        r
    }

    /// Whether two documents have the same shape.
    pub fn same_as(&self, other: &Document) -> (r: bool)
        ensures
            r == (self@ =~= other@),
    {
        if self.entries.len() != other.entries.len() {
            return false;
        }
        let mut i: usize = 0;
        while i < self.entries.len()
            invariant
                0 <= i <= self@.len(),
                self@.len() == self.entries@.len(),
                other@.len() == other.entries@.len(),
                self@.len() == other@.len(),
                forall|j: int| 0 <= j < i ==> #[trigger] self@[j] == other@[j],
            decreases self@.len() - i,
        {
            let a = &self.entries[i];
            let b = &other.entries[i];
            if !crate::scalars::str_eq(a.0.as_str(), b.0.as_str()) {
                proof {
                    assert(self@[i as int] != other@[i as int]);
                }
                return false;
            }
            if !a.1.same_as(&b.1) {
                proof {
                    assert(self@[i as int] != other@[i as int]);
                }
                return false;
            }
            proof {
                assert(self@[i as int] == other@[i as int]);
            }
            i += 1;
        }
        true
    }
}

} // verus!
