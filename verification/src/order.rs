//! A total preorder over values, and the stable, deterministic order the
//! store sorts documents in: by one key, ascending or descending,
//! documents with equal keys keeping their previous relative order.

use vstd::prelude::*;
use vstd::multiset::Multiset;
use vstd::seq_lib::lemma_multiset_commutative;
use crate::document::{doc_get, DocView, Document, Value, ValueView};

verus! {

/// The rank of a value's kind: kinds sort before contents. The two
/// integer kinds share a rank and compare numerically.
pub open spec fn rank(v: ValueView) -> int {
    match v {
        ValueView::Null => 0,
        ValueView::Bool(_) => 1,
        ValueView::Int32(_) => 2,
        ValueView::Int64(_) => 2,
        ValueView::Str(_) => 3,
        ValueView::Instant(_) => 4,
        ValueView::Id(_) => 5,
    }
}

/// The number behind an integer value, zero for any other kind.
pub open spec fn num_of(v: ValueView) -> int {
    match v {
        ValueView::Int32(n) => n,
        ValueView::Int64(n) => n,
        _ => 0,
    }
}

/// Lexicographic strict order on character sequences.
pub open spec fn str_lt(a: Seq<char>, b: Seq<char>) -> bool
    decreases a.len(),
{
    if b.len() == 0 {
        false
    } else if a.len() == 0 {
        true
    } else if a[0] < b[0] {
        true
    } else if b[0] < a[0] {
        false
    } else {
        str_lt(a.drop_first(), b.drop_first())
    }
}

/// Lexicographic strict order on byte sequences.
pub open spec fn bytes_lt(a: Seq<u8>, b: Seq<u8>) -> bool
    decreases a.len(),
{
    if b.len() == 0 {
        false
    } else if a.len() == 0 {
        true
    } else if a[0] < b[0] {
        true
    } else if b[0] < a[0] {
        false
    } else {
        bytes_lt(a.drop_first(), b.drop_first())
    }
}

/// The order never holds both ways.
pub proof fn lemma_str_lt_asym(a: Seq<char>, b: Seq<char>)
    ensures
        !(str_lt(a, b) && str_lt(b, a)),
    decreases a.len(),
{
    if a.len() > 0 && b.len() > 0 && a[0] == b[0] {
        lemma_str_lt_asym(a.drop_first(), b.drop_first());
    }
}

/// Where `c` is below `a`, every `b` is above `c` or above-or-at `a`.
pub proof fn lemma_str_lt_neg_trans(a: Seq<char>, b: Seq<char>, c: Seq<char>)
    ensures
        str_lt(c, a) ==> str_lt(c, b) || str_lt(b, a),
    decreases a.len() + b.len() + c.len(),
{
    if str_lt(c, a) && !str_lt(c, b) && !str_lt(b, a) {
        if c.len() == 0 {
            assert(b.len() == 0);
        } else if b.len() == 0 {
        } else if a.len() == 0 {
        } else {
            if c[0] == a[0] && c[0] == b[0] {
                lemma_str_lt_neg_trans(a.drop_first(), b.drop_first(), c.drop_first());
            }
        }
    }
}

/// The order never holds both ways.
pub proof fn lemma_bytes_lt_asym(a: Seq<u8>, b: Seq<u8>)
    ensures
        !(bytes_lt(a, b) && bytes_lt(b, a)),
    decreases a.len(),
{
    if a.len() > 0 && b.len() > 0 && a[0] == b[0] {
        lemma_bytes_lt_asym(a.drop_first(), b.drop_first());
    }
}

/// Where `c` is below `a`, every `b` is above `c` or above-or-at `a`.
pub proof fn lemma_bytes_lt_neg_trans(a: Seq<u8>, b: Seq<u8>, c: Seq<u8>)
    ensures
        bytes_lt(c, a) ==> bytes_lt(c, b) || bytes_lt(b, a),
    decreases a.len() + b.len() + c.len(),
{
    if bytes_lt(c, a) && !bytes_lt(c, b) && !bytes_lt(b, a) {
        if c.len() == 0 {
            assert(b.len() == 0);
        } else if b.len() == 0 {
        } else if a.len() == 0 {
        } else {
            if c[0] == a[0] && c[0] == b[0] {
                lemma_bytes_lt_neg_trans(a.drop_first(), b.drop_first(), c.drop_first());
            }
        }
    }
}

/// The total preorder values sort by: by kind rank first, then by
/// content. It is total and transitive, but not antisymmetric: a 32-bit
/// and a 64-bit integer of the same number sort as equals.
pub open spec fn value_le(a: ValueView, b: ValueView) -> bool {
    if rank(a) != rank(b) {
        rank(a) < rank(b)
    } else {
        match (a, b) {
            (ValueView::Null, ValueView::Null) => true,
            (ValueView::Bool(x), ValueView::Bool(y)) => !x || y,
            (ValueView::Str(x), ValueView::Str(y)) => !str_lt(y, x),
            (ValueView::Instant(x), ValueView::Instant(y)) => x <= y,
            (ValueView::Id(x), ValueView::Id(y)) => !bytes_lt(y, x),
            _ => num_of(a) <= num_of(b),
        }
    }
}

/// One of the two directions always holds.
pub proof fn lemma_value_le_total(a: ValueView, b: ValueView)
    ensures
        value_le(a, b) || value_le(b, a),
{
    if rank(a) == rank(b) {
        match (a, b) {
            (ValueView::Str(x), ValueView::Str(y)) => {
                lemma_str_lt_asym(x, y);
            },
            (ValueView::Id(x), ValueView::Id(y)) => {
                lemma_bytes_lt_asym(x, y);
            },
            _ => {},
        }
    }
}

/// The preorder is transitive.
pub proof fn lemma_value_le_trans(a: ValueView, b: ValueView, c: ValueView)
    requires
        value_le(a, b),
        value_le(b, c),
    ensures
        value_le(a, c),
{
    if rank(a) == rank(b) && rank(b) == rank(c) {
        match (a, b) {
            (ValueView::Str(x), ValueView::Str(y)) => {
                if let ValueView::Str(z) = c {
                    lemma_str_lt_neg_trans(x, y, z);
                }
            },
            (ValueView::Id(x), ValueView::Id(y)) => {
                if let ValueView::Id(z) = c {
                    lemma_bytes_lt_neg_trans(x, y, z);
                }
            },
            _ => {},
        }
    }
}

/// The value a document sorts by under key `k`: the bound value, or null
/// where the key is absent (absent keys sort first, ascending).
pub open spec fn sort_val(d: DocView, k: Seq<char>) -> ValueView {
    match doc_get(d, k) {
        Some(v) => v,
        None => ValueView::Null,
    }
}

/// The order documents take under key `k`: by the bound values,
/// reversed when `asc` is false.
pub open spec fn doc_le(a: DocView, b: DocView, k: Seq<char>, asc: bool) -> bool {
    if asc {
        value_le(sort_val(a, k), sort_val(b, k))
    } else {
        value_le(sort_val(b, k), sort_val(a, k))
    }
}

/// One of the two directions always holds.
pub proof fn lemma_doc_le_total(a: DocView, b: DocView, k: Seq<char>, asc: bool)
    ensures
        doc_le(a, b, k, asc) || doc_le(b, a, k, asc),
{
    lemma_value_le_total(sort_val(a, k), sort_val(b, k));
}

/// The document order is transitive.
pub proof fn lemma_doc_le_trans(a: DocView, b: DocView, c: DocView, k: Seq<char>, asc: bool)
    requires
        doc_le(a, b, k, asc),
        doc_le(b, c, k, asc),
    ensures
        doc_le(a, c, k, asc),
{
    if asc {
        lemma_value_le_trans(sort_val(a, k), sort_val(b, k), sort_val(c, k));
    } else {
        lemma_value_le_trans(sort_val(c, k), sort_val(b, k), sort_val(a, k));
    }
}

/// `x` placed into `s` after every element at or below it: the step of a
/// stable insertion sort.
pub open spec fn insert_sorted(s: Seq<DocView>, x: DocView, k: Seq<char>, asc: bool) -> Seq<
    DocView,
>
    decreases s.len(),
{
    if s.len() == 0 {
        seq![x]
    } else if doc_le(s[0], x, k, asc) {
        seq![s[0]] + insert_sorted(s.drop_first(), x, k, asc)
    } else {
        seq![x] + s
    }
}

/// The stable insertion sort of `d` under key `k`: the one order the
/// store returns documents in. Documents with equal keys keep their
/// previous relative order.
pub open spec fn insort(d: Seq<DocView>, k: Seq<char>, asc: bool) -> Seq<DocView>
    decreases d.len(),
{
    if d.len() == 0 {
        Seq::empty()
    } else {
        insert_sorted(insort(d.drop_last(), k, asc), d.last(), k, asc)
    }
}

/// Whether `s` is ordered under key `k`.
pub open spec fn sorted_by_key(s: Seq<DocView>, k: Seq<char>, asc: bool) -> bool {
    forall|i: int, j: int| 0 <= i < j < s.len() ==> doc_le(#[trigger] s[i], #[trigger] s[j], k, asc)
}

/// The insertion step adds exactly `x` to the sequence's contents.
pub proof fn lemma_insert_sorted_multiset(s: Seq<DocView>, x: DocView, k: Seq<char>, asc: bool)
    ensures
        insert_sorted(s, x, k, asc).to_multiset() =~= s.to_multiset().insert(x),
    decreases s.len(),
{
    broadcast use vstd::seq_lib::group_to_multiset_ensures;

    if s.len() == 0 {
        assert(seq![x] =~= Seq::empty().push(x));
    } else if doc_le(s[0], x, k, asc) {
        lemma_insert_sorted_multiset(s.drop_first(), x, k, asc);
        let rest = insert_sorted(s.drop_first(), x, k, asc);
        lemma_multiset_commutative(seq![s[0]], rest);
        lemma_multiset_commutative(seq![s[0]], s.drop_first());
        assert(s =~= seq![s[0]] + s.drop_first());
        assert(seq![s[0]].to_multiset() =~= Multiset::empty().insert(s[0])) by {
            assert(seq![s[0]] =~= Seq::empty().push(s[0]));
        }
        assert(insert_sorted(s, x, k, asc).to_multiset() =~= s.to_multiset().insert(x));
    } else {
        lemma_multiset_commutative(seq![x], s);
        assert(seq![x].to_multiset() =~= Multiset::empty().insert(x)) by {
            assert(seq![x] =~= Seq::empty().push(x));
        }
        assert(insert_sorted(s, x, k, asc).to_multiset() =~= s.to_multiset().insert(x));
    }
}

/// Sorting does not change the documents, only their order.
pub proof fn lemma_insort_multiset(d: Seq<DocView>, k: Seq<char>, asc: bool)
    ensures
        insort(d, k, asc).to_multiset() =~= d.to_multiset(),
    decreases d.len(),
{
    broadcast use vstd::seq_lib::group_to_multiset_ensures;

    if d.len() > 0 {
        lemma_insort_multiset(d.drop_last(), k, asc);
        lemma_insert_sorted_multiset(insort(d.drop_last(), k, asc), d.last(), k, asc);
        assert(d =~= d.drop_last().push(d.last()));
    }
}

/// The insertion step keeps the sequence ordered.
pub proof fn lemma_insert_sorted_sorted(s: Seq<DocView>, x: DocView, k: Seq<char>, asc: bool)
    requires
        sorted_by_key(s, k, asc),
    ensures
        sorted_by_key(insert_sorted(s, x, k, asc), k, asc),
    decreases s.len(),
{
    broadcast use vstd::seq_lib::group_to_multiset_ensures;

    let r = insert_sorted(s, x, k, asc);
    if s.len() == 0 {
    } else if doc_le(s[0], x, k, asc) {
        assert(sorted_by_key(s.drop_first(), k, asc)) by {
            assert(forall|i: int|
                0 <= i < s.drop_first().len() ==> #[trigger] s.drop_first()[i] == s[i + 1]);
        }
        lemma_insert_sorted_sorted(s.drop_first(), x, k, asc);
        let rest = insert_sorted(s.drop_first(), x, k, asc);
        lemma_insert_sorted_multiset(s.drop_first(), x, k, asc);
        assert forall|i: int, j: int| 0 <= i < j < r.len() implies doc_le(
            #[trigger] r[i],
            #[trigger] r[j],
            k,
            asc,
        ) by {
            if i == 0 {
                assert(r[j] == rest[j - 1]);
                assert(rest.to_multiset().contains(rest[j - 1]));
                if rest[j - 1] == x {
                } else {
                    assert(s.drop_first().to_multiset().contains(rest[j - 1]));
                    let w = choose|w: int|
                        0 <= w < s.drop_first().len() && s.drop_first()[w] == rest[j - 1];
                    assert(s.drop_first()[w] == s[w + 1]);
                    assert(doc_le(s[0], s[w + 1], k, asc));
                }
            } else {
                assert(r[i] == rest[i - 1]);
                assert(r[j] == rest[j - 1]);
            }
        }
    } else {
        lemma_doc_le_total(s[0], x, k, asc);
        assert forall|i: int, j: int| 0 <= i < j < r.len() implies doc_le(
            #[trigger] r[i],
            #[trigger] r[j],
            k,
            asc,
        ) by {
            if i == 0 {
                assert(r[0] == x);
                assert(r[j] == s[j - 1]);
                if j == 1 {
                    assert(doc_le(x, s[0], k, asc));
                } else {
                    assert(doc_le(s[0], s[j - 1], k, asc));
                    lemma_doc_le_trans(x, s[0], s[j - 1], k, asc);
                }
            } else {
                assert(r[i] == s[i - 1]);
                assert(r[j] == s[j - 1]);
            }
        }
    }
}

/// The sort's result is ordered.
pub proof fn lemma_insort_sorted(d: Seq<DocView>, k: Seq<char>, asc: bool)
    ensures
        sorted_by_key(insort(d, k, asc), k, asc),
    decreases d.len(),
{
    if d.len() > 0 {
        lemma_insort_sorted(d.drop_last(), k, asc);
        lemma_insert_sorted_sorted(insort(d.drop_last(), k, asc), d.last(), k, asc);
    }
}

/// Where `j` is the first position whose element is not at or below `x`,
/// the insertion step places `x` exactly there.
pub proof fn lemma_insert_sorted_split(s: Seq<DocView>, x: DocView, k: Seq<char>, asc: bool, j: int)
    requires
        0 <= j <= s.len(),
        forall|m: int| 0 <= m < j ==> doc_le(#[trigger] s[m], x, k, asc),
        j < s.len() ==> !doc_le(s[j], x, k, asc),
    ensures
        insert_sorted(s, x, k, asc) =~= s.subrange(0, j) + seq![x] + s.subrange(j, s.len() as int),
    decreases s.len(),
{
    if s.len() == 0 {
    } else if doc_le(s[0], x, k, asc) {
        assert(j >= 1);
        lemma_insert_sorted_split(s.drop_first(), x, k, asc, j - 1);
        assert(insert_sorted(s, x, k, asc) =~= s.subrange(0, j) + seq![x] + s.subrange(
            j,
            s.len() as int,
        ));
    } else {
        assert(j == 0);
    }
}

/// The views of a sequence of documents.
pub open spec fn views_of(v: Seq<Document>) -> Seq<DocView> {
    v.map_values(|d: Document| d@)
}

/// Compares two string slices lexicographically from position `i` on.
fn str_lt_from(a: &str, b: &str, i: usize) -> (r: bool)
    requires
        i <= a@.len(),
        i <= b@.len(),
    ensures
        r == str_lt(a@.skip(i as int), b@.skip(i as int)),
    decreases a@.len() - i,
{
    let alen = a.unicode_len();
    let blen = b.unicode_len();
    if i == blen {
        false
    } else if i == alen {
        true
    } else {
        let ca = a.get_char(i);
        let cb = b.get_char(i);
        proof {
            assert(a@.skip(i as int)[0] == ca);
            assert(b@.skip(i as int)[0] == cb);
        }
        if ca < cb {
            true
        } else if cb < ca {
            false
        } else {
            let r = str_lt_from(a, b, i + 1);
            proof {
                assert(a@.skip(i as int).drop_first() =~= a@.skip(i as int + 1));
                assert(b@.skip(i as int).drop_first() =~= b@.skip(i as int + 1));
            }
            r
        }
    }
}

/// Compares two byte vectors lexicographically from position `i` on.
fn bytes_lt_from(a: &Vec<u8>, b: &Vec<u8>, i: usize) -> (r: bool)
    requires
        i <= a@.len(),
        i <= b@.len(),
    ensures
        r == bytes_lt(a@.skip(i as int), b@.skip(i as int)),
    decreases a@.len() - i,
{
    if i == b.len() {
        false
    } else if i == a.len() {
        true
    } else {
        let ca = a[i];
        let cb = b[i];
        proof {
            assert(a@.skip(i as int)[0] == ca);
            assert(b@.skip(i as int)[0] == cb);
        }
        if ca < cb {
            true
        } else if cb < ca {
            false
        } else {
            let r = bytes_lt_from(a, b, i + 1);
            proof {
                assert(a@.skip(i as int).drop_first() =~= a@.skip(i as int + 1));
                assert(b@.skip(i as int).drop_first() =~= b@.skip(i as int + 1));
            }
            r
        }
    }
}

/// The rank of a value's kind.
fn rank_of(v: &Value) -> (r: u8)
    ensures
        r as int == rank(v@),
{
    match v {
        Value::Null => 0,
        Value::Bool(_) => 1,
        Value::Int32(_) => 2,
        Value::Int64(_) => 2,
        Value::Str(_) => 3,
        Value::Instant(_) => 4,
        Value::Id(_) => 5,
    }
}

/// Whether `a` sorts at or below `b`.
fn value_le_exec(a: &Value, b: &Value) -> (r: bool)
    ensures
        r == value_le(a@, b@),
{
    let ra = rank_of(a);
    let rb = rank_of(b);
    if ra != rb {
        return ra < rb;
    }
    match (a, b) {
        (Value::Null, Value::Null) => true,
        (Value::Bool(x), Value::Bool(y)) => !*x || *y,
        (Value::Int32(x), Value::Int32(y)) => *x <= *y,
        (Value::Int32(x), Value::Int64(y)) => (*x as i64) <= *y,
        (Value::Int64(x), Value::Int32(y)) => *x <= (*y as i64),
        (Value::Int64(x), Value::Int64(y)) => *x <= *y,
        (Value::Str(x), Value::Str(y)) => {
            let r = !str_lt_from(y.as_str(), x.as_str(), 0);
            proof {
                assert(y@.skip(0) =~= y@);
                assert(x@.skip(0) =~= x@);
            }
            r
        },
        (Value::Instant(x), Value::Instant(y)) => x.le(y),
        (Value::Id(x), Value::Id(y)) => {
            let r = !bytes_lt_from(y.bytes_ref(), x.bytes_ref(), 0);
            proof {
                assert(y@.skip(0) =~= y@);
                assert(x@.skip(0) =~= x@);
            }
            r
        },
        _ => {
            proof {
                assert(false);
            }
            false
        },
    }
}

/// Whether document `a` sorts at or below `b` under `key`.
fn doc_le_exec(a: &Document, b: &Document, key: &str, asc: bool) -> (r: bool)
    requires
        a.wf(),
        b.wf(),
    ensures
        r == doc_le(a@, b@, key@, asc),
{
    let null_a = Value::Null;
    let null_b = Value::Null;
    let va = match a.get(key) {
        Some(v) => v,
        None => &null_a,
    };
    let vb = match b.get(key) {
        Some(v) => v,
        None => &null_b,
    };
    proof {
        assert(va@ == sort_val(a@, key@));
        assert(vb@ == sort_val(b@, key@));
    }
    if asc {
        value_le_exec(va, vb)
    } else {
        value_le_exec(vb, va)
    }
}

/// Sorts documents by `key` with a stable insertion sort: the store's
/// one deterministic order.
pub fn sort_docs(docs: &Vec<Document>, key: &str, asc: bool) -> (r: Vec<Document>)
    requires
        forall|i: int| 0 <= i < docs@.len() ==> (#[trigger] docs@[i]).wf(),
    ensures
        views_of(r@) =~= insort(views_of(docs@), key@, asc),
        forall|i: int| 0 <= i < r@.len() ==> (#[trigger] r@[i]).wf(),
    decreases docs@.len(),
{
    let mut out: Vec<Document> = Vec::new();
    let mut i: usize = 0;
    while i < docs.len()
        invariant
            0 <= i <= docs@.len(),
            forall|m: int| 0 <= m < docs@.len() ==> (#[trigger] docs@[m]).wf(),
            forall|m: int| 0 <= m < out@.len() ==> (#[trigger] out@[m]).wf(),
            views_of(out@) =~= insort(views_of(docs@.subrange(0, i as int)), key@, asc),
        decreases docs@.len() - i,
    {
        let x = docs[i].duplicate();
        let mut j: usize = 0;
        let mut placed = false;
        while j < out.len() && !placed
            invariant
                0 <= j <= out@.len(),
                i < docs@.len(),
                x@ == docs@[i as int]@,
                x.wf(),
                forall|m: int| 0 <= m < out@.len() ==> (#[trigger] out@[m]).wf(),
                forall|m: int| 0 <= m < j ==> doc_le((#[trigger] out@[m])@, x@, key@, asc),
                placed ==> j < out@.len() && !doc_le(out@[j as int]@, x@, key@, asc),
            decreases out@.len() - j + (if placed {
                0int
            } else {
                1int
            }),
        {
            if doc_le_exec(&out[j], &x, key, asc) {
                j += 1;
            } else {
                placed = true;
            }
        }
        proof {
            lemma_insert_sorted_split(views_of(out@), x@, key@, asc, j as int);
        }
        let ghost old_out = out@;
        out.insert(j, x);
        proof {
            assert(views_of(out@) =~= views_of(old_out).subrange(0, j as int) + seq![
                docs@[i as int]@,
            ] + views_of(old_out).subrange(j as int, old_out.len() as int));
            assert(views_of(docs@.subrange(0, i as int + 1)).drop_last() =~= views_of(
                docs@.subrange(0, i as int),
            ));
            assert(views_of(docs@.subrange(0, i as int + 1)).last() == docs@[i as int]@);
            assert(views_of(out@) =~= insort(
                views_of(docs@.subrange(0, i as int + 1)),
                key@,
                asc,
            ));
        }
        i += 1;
    }
    proof {
        assert(docs@.subrange(0, docs@.len() as int) =~= docs@);
    }
    out
}

} // verus!
