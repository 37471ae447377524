//! The document store the entity layer runs against: named collections
//! of stored documents, with store-generated identifiers and
//! store-managed timestamps.

use vstd::prelude::*;
use crate::document::{
    doc_get, doc_has_key, doc_keys_unique, doc_wf, DocView, Document, Value, ValueView,
};
use crate::entity::{payload_wf, reserved_key};
use crate::object_id::ObjectId;
use crate::order::{insort, views_of, sort_docs};
use crate::record::{id_bytes_of, instant_of, record_doc, record_doc_shape};
use crate::scalars::{str_eq, DateTime};
use crate::Error;

verus! {

broadcast use vstd::string::group_string_axioms;

/// The mathematical shape of a store: each collection's name beside the
/// shapes of its documents, in insertion order.
pub type StoreView = Seq<(Seq<char>, Seq<DocView>)>;

/// Whether the store names collection `n` at position `i`.
pub open spec fn coll_key_at(s: StoreView, n: Seq<char>, i: int) -> bool {
    0 <= i < s.len() && s[i].0 == n
}

/// Whether the store names collection `n` anywhere.
pub open spec fn coll_has(s: StoreView, n: Seq<char>) -> bool {
    exists|i: int| coll_key_at(s, n, i)
}

/// Whether no collection name occurs twice.
pub open spec fn colls_unique(s: StoreView) -> bool {
    forall|i: int, j: int| 0 <= i < j < s.len() ==> (#[trigger] s[i]).0 != (#[trigger] s[j]).0
}

/// The documents of collection `n`: empty where the store has no such
/// collection yet.
pub open spec fn coll_docs(s: StoreView, n: Seq<char>) -> Seq<DocView> {
    if coll_has(s, n) {
        s[choose|i: int| coll_key_at(s, n, i)].1
    } else {
        Seq::empty()
    }
}

/// The store with collection `n` holding exactly `docs`: replaced in
/// place where `n` exists, appended otherwise.
pub open spec fn coll_upsert(s: StoreView, n: Seq<char>, docs: Seq<DocView>) -> StoreView {
    if coll_has(s, n) {
        s.update(choose|i: int| coll_key_at(s, n, i), (n, docs))
    } else {
        s.push((n, docs))
    }
}

/// Whether every document of every collection has the stored shape.
pub open spec fn store_docs_wf(s: StoreView) -> bool {
    forall|c: int, i: int|
        0 <= c < s.len() && 0 <= i < s[c].1.len() ==> doc_wf(#[trigger] s[c].1[i])
            && record_doc_shape(s[c].1[i])
}

/// Whether a store shape is well formed: collection names unique, every
/// document of the stored shape.
pub open spec fn store_view_wf(s: StoreView) -> bool {
    colls_unique(s) && store_docs_wf(s)
}

/// The twelve identifier bytes the store derives from its counter: four
/// zero bytes, then the counter big-endian.
pub open spec fn ctr_bytes(c: u64) -> Seq<u8> {
    seq![
        0u8,
        0u8,
        0u8,
        0u8,
        (c >> 56) as u8,
        (c >> 48) as u8,
        (c >> 40) as u8,
        (c >> 32) as u8,
        (c >> 24) as u8,
        (c >> 16) as u8,
        (c >> 8) as u8,
        c as u8,
    ]
}

/// Different counters give different identifier bytes.
pub proof fn lemma_ctr_bytes_injective(c1: u64, c2: u64)
    requires
        ctr_bytes(c1) == ctr_bytes(c2),
    ensures
        c1 == c2,
{
    assert(ctr_bytes(c1)[4] == ctr_bytes(c2)[4]);
    assert(ctr_bytes(c1)[5] == ctr_bytes(c2)[5]);
    assert(ctr_bytes(c1)[6] == ctr_bytes(c2)[6]);
    assert(ctr_bytes(c1)[7] == ctr_bytes(c2)[7]);
    assert(ctr_bytes(c1)[8] == ctr_bytes(c2)[8]);
    assert(ctr_bytes(c1)[9] == ctr_bytes(c2)[9]);
    assert(ctr_bytes(c1)[10] == ctr_bytes(c2)[10]);
    assert(ctr_bytes(c1)[11] == ctr_bytes(c2)[11]);
    assert(c1 == c2) by (bit_vector)
        requires
            (c1 >> 56) as u8 == (c2 >> 56) as u8,
            (c1 >> 48) as u8 == (c2 >> 48) as u8,
            (c1 >> 40) as u8 == (c2 >> 40) as u8,
            (c1 >> 32) as u8 == (c2 >> 32) as u8,
            (c1 >> 24) as u8 == (c2 >> 24) as u8,
            (c1 >> 16) as u8 == (c2 >> 16) as u8,
            (c1 >> 8) as u8 == (c2 >> 8) as u8,
            c1 as u8 == c2 as u8,
    ;
}

/// Whether `idb` is an identifier the store has drawn: the bytes of some
/// counter value below `next_ctr`.
pub open spec fn id_from_ctr(idb: Seq<u8>, next_ctr: u64) -> bool {
    exists|w: u64| w < next_ctr && idb == ctr_bytes(w)
}

/// A drawn identifier stays drawn as the counter grows.
pub proof fn lemma_id_from_ctr_mono(idb: Seq<u8>, a: u64, b: u64)
    requires
        id_from_ctr(idb, a),
        a <= b,
    ensures
        id_from_ctr(idb, b),
{
    let w = choose|w: u64| w < a && idb == ctr_bytes(w);
    assert(w < b && idb == ctr_bytes(w));
}

/// Whether `d` matches filter `f`: every filter entry is bound, with the
/// same value, in `d`. The empty filter matches every document.
pub open spec fn matches_filter(d: DocView, f: DocView) -> bool {
    forall|i: int| 0 <= i < f.len() ==> doc_get(d, (#[trigger] f[i]).0) == Some(f[i].1)
}

/// The documents of `docs` matching `f`, in their given order.
pub open spec fn filter_spec(docs: Seq<DocView>, f: DocView) -> Seq<DocView>
    decreases docs.len(),
{
    if docs.len() == 0 {
        Seq::empty()
    } else if matches_filter(docs.last(), f) {
        filter_spec(docs.drop_last(), f) + seq![docs.last()]
    } else {
        filter_spec(docs.drop_last(), f)
    }
}

/// What one find returns: the matching documents, sorted where a sort
/// key is given, cut where a limit is given.
pub open spec fn find_spec(
    docs: Seq<DocView>,
    f: DocView,
    sort: Option<(Seq<char>, bool)>,
    limit: Option<int>,
) -> Seq<DocView> {
    let m = filter_spec(docs, f);
    let s = match sort {
        Some((k, asc)) => insort(m, k, asc),
        None => m,
    };
    match limit {
        Some(l) => if l < s.len() {
            s.take(l)
        } else {
            s
        },
        None => s,
    }
}

/// Every document a find returns matches the filter and comes from the
/// collection.
pub proof fn lemma_filter_spec_sound(docs: Seq<DocView>, f: DocView)
    ensures
        forall|i: int|
            0 <= i < filter_spec(docs, f).len() ==> matches_filter(
                #[trigger] filter_spec(docs, f)[i],
                f,
            ),
        forall|i: int|
            0 <= i < filter_spec(docs, f).len() ==> docs.contains(
                #[trigger] filter_spec(docs, f)[i],
            ),
        forall|i: int|
            0 <= i < docs.len() && matches_filter(#[trigger] docs[i], f) ==> filter_spec(
                docs,
                f,
            ).contains(docs[i]),
    decreases docs.len(),
{
    if docs.len() > 0 {
        lemma_filter_spec_sound(docs.drop_last(), f);
        assert forall|i: int|
            0 <= i < filter_spec(docs, f).len() implies docs.contains(
            #[trigger] filter_spec(docs, f)[i],
        ) by {
            let pre = filter_spec(docs.drop_last(), f);
            if i < pre.len() {
                let w = choose|w: int| 0 <= w < docs.drop_last().len() && docs.drop_last()[w] == pre[i];
                assert(docs[w] == pre[i]);
            } else {
                assert(docs[docs.len() - 1] == filter_spec(docs, f)[i]);
            }
        }
        assert forall|i: int|
            0 <= i < docs.len() && matches_filter(#[trigger] docs[i], f) implies filter_spec(
            docs,
            f,
        ).contains(docs[i]) by {
            let pre = filter_spec(docs.drop_last(), f);
            if i < docs.len() - 1 {
                assert(docs.drop_last()[i] == docs[i]);
                let w = choose|w: int| 0 <= w < pre.len() && pre[w] == docs[i];
                assert(filter_spec(docs, f)[w] == docs[i]);
            } else {
                assert(filter_spec(docs, f).last() == docs[i]);
            }
        }
    }
}

/// After placing `docs` as collection `n`, that is what the collection
/// holds.
pub proof fn lemma_coll_upsert_docs(s: StoreView, n: Seq<char>, docs: Seq<DocView>)
    requires
        colls_unique(s),
    ensures
        coll_docs(coll_upsert(s, n, docs), n) == docs,
{
    let s2 = coll_upsert(s, n, docs);
    if coll_has(s, n) {
        let w = choose|w: int| coll_key_at(s, n, w);
        assert(coll_key_at(s2, n, w));
        let w2 = choose|w2: int| coll_key_at(s2, n, w2);
        if w2 != w {
            assert(s[w2].0 == s2[w2].0);
            assert(s[w2].0 != s[w].0);
        }
    } else {
        assert(coll_key_at(s2, n, s.len() as int));
        let w2 = choose|w2: int| coll_key_at(s2, n, w2);
        if w2 != s.len() {
            assert(coll_key_at(s, n, w2));
        }
    }
}

/// Whether the document at position `i` carries identifier `idb`.
pub open spec fn doc_id_at(docs: Seq<DocView>, idb: Seq<u8>, i: int) -> bool {
    0 <= i < docs.len() && id_bytes_of(docs[i][0].1) == idb
}

/// Whether any document carries identifier `idb`.
pub open spec fn has_doc_id(docs: Seq<DocView>, idb: Seq<u8>) -> bool {
    exists|i: int| doc_id_at(docs, idb, i)
}

/// Whether no two documents share an identifier.
pub open spec fn doc_ids_unique(docs: Seq<DocView>) -> bool {
    forall|i: int, j: int|
        0 <= i < j < docs.len() ==> id_bytes_of((#[trigger] docs[i])[0].1) != id_bytes_of(
            (#[trigger] docs[j])[0].1,
        )
}

/// The documents whose identifier is not `idb`, in their given order.
pub open spec fn without_id(docs: Seq<DocView>, idb: Seq<u8>) -> Seq<DocView>
    decreases docs.len(),
{
    if docs.len() == 0 {
        Seq::empty()
    } else if id_bytes_of(docs.last()[0].1) == idb {
        without_id(docs.drop_last(), idb)
    } else {
        without_id(docs.drop_last(), idb) + seq![docs.last()]
    }
}

/// Every kept document comes from the originals, and identifiers stay
/// unique.
pub proof fn lemma_without_id_subseq(docs: Seq<DocView>, idb: Seq<u8>)
    ensures
        forall|i: int|
            0 <= i < without_id(docs, idb).len() ==> docs.contains(
                #[trigger] without_id(docs, idb)[i],
            ),
        doc_ids_unique(docs) ==> doc_ids_unique(without_id(docs, idb)),
        forall|i: int|
            0 <= i < without_id(docs, idb).len() ==> id_bytes_of(
                (#[trigger] without_id(docs, idb)[i])[0].1,
            ) != idb,
    decreases docs.len(),
{
    if docs.len() > 0 {
        lemma_without_id_subseq(docs.drop_last(), idb);
        let pre = without_id(docs.drop_last(), idb);
        let r = without_id(docs, idb);
        assert forall|i: int| 0 <= i < r.len() implies docs.contains(#[trigger] r[i]) by {
            if i < pre.len() {
                let w = choose|w: int|
                    0 <= w < docs.drop_last().len() && docs.drop_last()[w] == pre[i];
                assert(docs[w] == pre[i]);
            } else {
                assert(docs[docs.len() - 1] == r[i]);
            }
        }
        if doc_ids_unique(docs) {
            assert(doc_ids_unique(docs.drop_last()));
            assert forall|i: int, j: int| 0 <= i < j < r.len() implies id_bytes_of(
                (#[trigger] r[i])[0].1,
            ) != id_bytes_of((#[trigger] r[j])[0].1) by {
                if j < pre.len() {
                } else if r.len() > pre.len() {
                    let w = choose|w: int|
                        0 <= w < docs.drop_last().len() && docs.drop_last()[w] == pre[i];
                    assert(docs[w] == r[i]);
                    assert(r[j] == docs[docs.len() - 1]);
                }
            }
        }
    }
}

/// Removing an absent identifier removes nothing.
pub proof fn lemma_without_id_absent(docs: Seq<DocView>, idb: Seq<u8>)
    requires
        !has_doc_id(docs, idb),
    ensures
        without_id(docs, idb) =~= docs,
    decreases docs.len(),
{
    if docs.len() > 0 {
        assert(!has_doc_id(docs.drop_last(), idb)) by {
            if has_doc_id(docs.drop_last(), idb) {
                let w = choose|w: int| doc_id_at(docs.drop_last(), idb, w);
                assert(doc_id_at(docs, idb, w));
            }
        }
        assert(!(id_bytes_of(docs.last()[0].1) == idb)) by {
            if id_bytes_of(docs.last()[0].1) == idb {
                assert(doc_id_at(docs, idb, docs.len() - 1));
            }
        }
        lemma_without_id_absent(docs.drop_last(), idb);
    }
}

/// The documents with every one carrying `idb` replaced: same
/// identifier, its creation instant kept, the update instant and payload
/// new.
pub open spec fn replaced_docs(docs: Seq<DocView>, idb: Seq<u8>, upd: int, payload: DocView) -> Seq<
    DocView,
> {
    Seq::new(
        docs.len(),
        |i: int|
            if id_bytes_of(docs[i][0].1) == idb {
                record_doc(idb, instant_of(docs[i][1].1), upd, payload)
            } else {
                docs[i]
            },
    )
}

/// Whether `d` matches `filter`, checked entry by entry.
fn matches_filter_exec(d: &Document, filter: &Document) -> (r: bool)
    requires
        d.wf(),
        filter.wf(),
    ensures
        r == matches_filter(d@, filter@),
{
    let n = filter.len();
    let mut i: usize = 0;
    while i < n
        invariant
            0 <= i <= n,
            n == filter@.len(),
            d.wf(),
            filter.wf(),
            forall|j: int|
                0 <= j < i ==> doc_get(d@, (#[trigger] filter@[j]).0) == Some(filter@[j].1),
        decreases n - i,
    {
        let (k, v) = filter.entry_at(i);
        match d.get(k.as_str()) {
            Some(w) => {
                if !w.same_as(v) {
                    proof {
                        assert(doc_get(d@, filter@[i as int].0) != Some(filter@[i as int].1));
                    }
                    return false;
                }
            },
            None => {
                proof {
                    assert(doc_get(d@, filter@[i as int].0) is None);
                }
                return false;
            },
        }
        i += 1;
    }
    true
}

/// Whether the stored document's identifier is `id`.
fn doc_id_matches(d: &Document, id: &ObjectId) -> (r: bool)
    requires
        d.wf(),
        record_doc_shape(d@),
    ensures
        r == (id_bytes_of(d@[0].1) == id@),
{
    let (_, v) = d.entry_at(0);
    match v {
        Value::Id(o) => o.same_as(id),
        _ => {
            proof {
                assert(false);
            }
            false
        },
    }
}

/// A collection swapped for one whose documents all come from it keeps
/// the invariant.
proof fn lemma_shrunk_inv(
    oldv: StoreView,
    newv: StoreView,
    n: Seq<char>,
    idb: Seq<u8>,
    next_ctr: u64,
    clock: i64,
)
    requires
        store_inv_core(oldv, next_ctr, clock),
        coll_has(oldv, n),
        newv == coll_upsert(oldv, n, without_id(coll_docs(oldv, n), idb)),
    ensures
        store_inv_core(newv, next_ctr, clock),
{
    let w = choose|w: int| coll_key_at(oldv, n, w);
    let cd = coll_docs(oldv, n);
    let nd = without_id(cd, idb);
    lemma_without_id_subseq(cd, idb);
    assert forall|c: int, i: int|
        0 <= c < newv.len() && 0 <= i < newv[c].1.len() implies doc_wf(#[trigger] newv[c].1[i])
        && record_doc_shape(newv[c].1[i]) && id_from_ctr(
        id_bytes_of(newv[c].1[i][0].1),
        next_ctr,
    ) && instant_of(newv[c].1[i][2].1) <= clock by {
        if c == w {
            let g = choose|g: int| 0 <= g < cd.len() && cd[g] == nd[i];
            assert(oldv[w].1[g] == newv[c].1[i]);
        } else {
            assert(newv[c] == oldv[c]);
        }
    }
    assert forall|c: int, i: int, j: int|
        0 <= c < newv.len() && 0 <= i < j < newv[c].1.len() implies id_bytes_of(
        (#[trigger] newv[c].1[i])[0].1,
    ) != id_bytes_of((#[trigger] newv[c].1[j])[0].1) by {
        if c == w {
            assert(doc_ids_unique(cd));
            assert(doc_ids_unique(nd));
        } else {
            assert(newv[c] == oldv[c]);
        }
    }
    assert(colls_unique(newv)) by {
        assert(forall|c: int| 0 <= c < newv.len() ==> (#[trigger] newv[c]).0 == oldv[c].0);
    }
}

/// A collection grown by one fresh, well-stamped document keeps the
/// invariant.
proof fn lemma_upsert_inv(
    oldv: StoreView,
    newv: StoreView,
    n: Seq<char>,
    newd: DocView,
    old_ctr: u64,
    new_ctr: u64,
    old_clock: i64,
    new_clock: i64,
    ctr: u64,
)
    requires
        store_inv_core(oldv, old_ctr, old_clock),
        newv == coll_upsert(oldv, n, coll_docs(oldv, n).push(newd)),
        old_ctr <= new_ctr,
        old_clock <= new_clock,
        doc_wf(newd),
        record_doc_shape(newd),
        id_bytes_of(newd[0].1) == ctr_bytes(ctr),
        old_ctr <= ctr < new_ctr,
        instant_of(newd[2].1) <= new_clock,
    ensures
        store_inv_core(newv, new_ctr, new_clock),
{
    let cd = coll_docs(oldv, n);
    let nd = cd.push(newd);
    if coll_has(oldv, n) {
        let w = choose|w: int| coll_key_at(oldv, n, w);
        assert(newv == oldv.update(w, (n, nd)));
        assert(colls_unique(newv)) by {
            assert(forall|c: int| 0 <= c < newv.len() ==> (#[trigger] newv[c]).0 == oldv[c].0);
        }
        assert forall|c: int, i: int|
            0 <= c < newv.len() && 0 <= i < newv[c].1.len() implies doc_wf(#[trigger] newv[c].1[i])
            && record_doc_shape(newv[c].1[i]) && id_from_ctr(
            id_bytes_of(newv[c].1[i][0].1),
            new_ctr,
        ) && instant_of(newv[c].1[i][2].1) <= new_clock by {
            if c == w && i == nd.len() - 1 {
                assert(newv[c].1[i] == newd);
                assert(ctr < new_ctr && id_bytes_of(newd[0].1) == ctr_bytes(ctr));
            } else if c == w {
                assert(newv[c].1[i] == oldv[w].1[i]);
                assert(id_from_ctr(id_bytes_of(oldv[w].1[i][0].1), old_ctr));
                lemma_id_from_ctr_mono(id_bytes_of(oldv[w].1[i][0].1), old_ctr, new_ctr);
            } else {
                assert(newv[c] == oldv[c]);
                assert(id_from_ctr(id_bytes_of(oldv[c].1[i][0].1), old_ctr));
                lemma_id_from_ctr_mono(id_bytes_of(oldv[c].1[i][0].1), old_ctr, new_ctr);
            }
        }
        assert forall|c: int, i: int, j: int|
            0 <= c < newv.len() && 0 <= i < j < newv[c].1.len() implies id_bytes_of(
            (#[trigger] newv[c].1[i])[0].1,
        ) != id_bytes_of((#[trigger] newv[c].1[j])[0].1) by {
            if c == w {
                if j == nd.len() - 1 {
                    assert(newv[c].1[i] == oldv[w].1[i]);
                    assert(id_from_ctr(id_bytes_of(oldv[w].1[i][0].1), old_ctr));
                    let wc = choose|wc: u64|
                        wc < old_ctr && id_bytes_of(oldv[w].1[i][0].1) == ctr_bytes(wc);
                    if id_bytes_of(newv[c].1[i][0].1) == id_bytes_of(newd[0].1) {
                        lemma_ctr_bytes_injective(wc, ctr);
                    }
                } else {
                    assert(newv[c].1[i] == oldv[w].1[i]);
                    assert(newv[c].1[j] == oldv[w].1[j]);
                }
            } else {
                assert(newv[c] == oldv[c]);
            }
        }
    } else {
        assert(cd =~= Seq::<DocView>::empty());
        assert(newv == oldv.push((n, nd)));
        assert(colls_unique(newv)) by {
            assert forall|c: int, cc: int|
                0 <= c < cc < newv.len() implies (#[trigger] newv[c]).0 != (
            #[trigger] newv[cc]).0 by {
                if cc == newv.len() - 1 {
                    assert(!coll_key_at(oldv, n, c));
                }
            }
        }
        assert forall|c: int, i: int|
            0 <= c < newv.len() && 0 <= i < newv[c].1.len() implies doc_wf(#[trigger] newv[c].1[i])
            && record_doc_shape(newv[c].1[i]) && id_from_ctr(
            id_bytes_of(newv[c].1[i][0].1),
            new_ctr,
        ) && instant_of(newv[c].1[i][2].1) <= new_clock by {
            if c == newv.len() - 1 {
                assert(newv[c].1[i] == newd);
                assert(ctr < new_ctr && id_bytes_of(newd[0].1) == ctr_bytes(ctr));
            } else {
                assert(newv[c] == oldv[c]);
                assert(id_from_ctr(id_bytes_of(oldv[c].1[i][0].1), old_ctr));
                lemma_id_from_ctr_mono(id_bytes_of(oldv[c].1[i][0].1), old_ctr, new_ctr);
            }
        }
        assert forall|c: int, i: int, j: int|
            0 <= c < newv.len() && 0 <= i < j < newv[c].1.len() implies id_bytes_of(
            (#[trigger] newv[c].1[i])[0].1,
        ) != id_bytes_of((#[trigger] newv[c].1[j])[0].1) by {
            if c < newv.len() - 1 {
                assert(newv[c] == oldv[c]);
            }
        }
    }
}

/// A stored document built from a well-formed payload is well formed and
/// has the stored shape.
pub proof fn lemma_record_doc_wf(id: Seq<u8>, c: int, u: int, p: DocView)
    requires
        payload_wf(p),
        id.len() == 12,
        c <= u,
    ensures
        doc_wf(record_doc(id, c, u, p)),
        record_doc_shape(record_doc(id, c, u, p)),
{
    crate::entity::lemma_reserved_distinct();
    let d = record_doc(id, c, u, p);
    assert forall|i: int, j: int| 0 <= i < j < d.len() implies (#[trigger] d[i]).0 != (
    #[trigger] d[j]).0 by {
        if i >= 3 {
            assert(d[i].0 == p[i - 3].0);
        }
        if j >= 3 {
            assert(d[j].0 == p[j - 3].0);
            if i < 3 {
                assert(!reserved_key(p[j - 3].0));
            }
        }
    }
    assert forall|i: int| 0 <= i < d.len() implies crate::document::value_view_wf(
        (#[trigger] d[i]).1,
    ) by {
        if i >= 3 {
            assert(d[i].1 == p[i - 3].1);
        }
    }
}

/// A collection whose matching documents were rewritten in place keeps
/// the invariant.
proof fn lemma_replaced_inv(
    oldv: StoreView,
    newv: StoreView,
    n: Seq<char>,
    idb: Seq<u8>,
    upd: int,
    payload: DocView,
    next_ctr: u64,
    old_clock: i64,
    new_clock: i64,
)
    requires
        store_inv_core(oldv, next_ctr, old_clock),
        coll_has(oldv, n),
        newv == coll_upsert(oldv, n, replaced_docs(coll_docs(oldv, n), idb, upd, payload)),
        payload_wf(payload),
        old_clock <= upd <= new_clock,
        old_clock <= new_clock,
    ensures
        store_inv_core(newv, next_ctr, new_clock),
{
    let w = choose|w: int| coll_key_at(oldv, n, w);
    let cd = coll_docs(oldv, n);
    let nd = replaced_docs(cd, idb, upd, payload);
    assert(colls_unique(newv)) by {
        assert(forall|c: int| 0 <= c < newv.len() ==> (#[trigger] newv[c]).0 == oldv[c].0);
    }
    assert forall|i: int| 0 <= i < nd.len() implies id_bytes_of((#[trigger] nd[i])[0].1)
        == id_bytes_of(cd[i][0].1) by {
        if id_bytes_of(cd[i][0].1) == idb {
            assert(nd[i] == record_doc(idb, instant_of(cd[i][1].1), upd, payload));
        }
    }
    assert forall|c: int, i: int|
        0 <= c < newv.len() && 0 <= i < newv[c].1.len() implies doc_wf(#[trigger] newv[c].1[i])
        && record_doc_shape(newv[c].1[i]) && id_from_ctr(
        id_bytes_of(newv[c].1[i][0].1),
        next_ctr,
    ) && instant_of(newv[c].1[i][2].1) <= new_clock by {
        if c == w {
            assert(newv[c].1 == nd);
            assert(id_from_ctr(id_bytes_of(cd[i][0].1), next_ctr)) by {
                assert(oldv[w].1[i] == cd[i]);
            }
            if id_bytes_of(cd[i][0].1) == idb {
                assert(nd[i] == record_doc(idb, instant_of(cd[i][1].1), upd, payload));
                assert(crate::document::value_view_wf(cd[i][0].1));
                assert(idb.len() == 12);
                assert(instant_of(cd[i][1].1) <= instant_of(cd[i][2].1) <= old_clock);
                lemma_record_doc_wf(idb, instant_of(cd[i][1].1), upd, payload);
            } else {
                assert(nd[i] == cd[i]);
            }
            assert(id_bytes_of(newv[c].1[i][0].1) == id_bytes_of(cd[i][0].1));
        } else {
            assert(newv[c] == oldv[c]);
            assert(id_from_ctr(id_bytes_of(oldv[c].1[i][0].1), next_ctr));
        }
    }
    assert forall|c: int, i: int, j: int|
        0 <= c < newv.len() && 0 <= i < j < newv[c].1.len() implies id_bytes_of(
        (#[trigger] newv[c].1[i])[0].1,
    ) != id_bytes_of((#[trigger] newv[c].1[j])[0].1) by {
        if c == w {
            assert(id_bytes_of(nd[i][0].1) == id_bytes_of(cd[i][0].1));
            assert(id_bytes_of(nd[j][0].1) == id_bytes_of(cd[j][0].1));
        } else {
            assert(newv[c] == oldv[c]);
        }
    }
}

/// Relies on `bson::DateTime::now` for the clock reading, in
/// milliseconds since the Unix epoch; nothing is promised of the value.
#[verifier::external_body]
fn now_millis() -> i64 {
    bson::DateTime::now().timestamp_millis()
}

/// One stage of an aggregation pipeline. The pipeline's stages run in
/// order over a collection's documents.
#[derive(Debug)]
pub enum PipelineStage {
    /// Keep only the documents matching the filter.
    Match(Document),
    /// Order the documents by one key.
    Sort(String, crate::entity::SortingDirection),
    /// Keep only the first so many documents.
    Limit(usize),
}

/// The mathematical shape of a pipeline stage.
pub enum StageView {
    /// Keep only the documents matching the filter.
    Match(DocView),
    /// Order the documents by one key, ascending where the flag is true.
    Sort(Seq<char>, bool),
    /// Keep only the first so many documents.
    Limit(int),
}

impl View for PipelineStage {
    type V = StageView;

    open spec fn view(&self) -> StageView {
        match self {
            PipelineStage::Match(f) => StageView::Match(f@),
            PipelineStage::Sort(k, dir) => StageView::Sort(
                k@,
                *dir == crate::entity::SortingDirection::Ascending,
            ),
            PipelineStage::Limit(l) => StageView::Limit(*l as int),
        }
    }
}

/// What one stage leaves of the documents.
pub open spec fn apply_stage(docs: Seq<DocView>, s: StageView) -> Seq<DocView> {
    match s {
        StageView::Match(f) => filter_spec(docs, f),
        StageView::Sort(k, asc) => insort(docs, k, asc),
        StageView::Limit(l) => if l < docs.len() {
            docs.take(l)
        } else {
            docs
        },
    }
}

/// What a pipeline leaves of the documents: the stages applied in order.
pub open spec fn run_pipeline(docs: Seq<DocView>, stages: Seq<StageView>) -> Seq<DocView>
    decreases stages.len(),
{
    if stages.len() == 0 {
        docs
    } else {
        run_pipeline(apply_stage(docs, stages[0]), stages.drop_first())
    }
}

/// The views of a sequence of pipeline stages.
pub open spec fn stage_views(stages: Seq<PipelineStage>) -> Seq<StageView> {
    stages.map_values(|s: PipelineStage| s@)
}

/// The documents of `docs` matching `filter`, checked one by one.
fn filter_exec(docs: &Vec<Document>, filter: &Document) -> (r: Vec<Document>)
    requires
        forall|i: int| 0 <= i < docs@.len() ==> (#[trigger] docs@[i]).wf(),
        filter.wf(),
    ensures
        views_of(r@) =~= filter_spec(views_of(docs@), filter@),
        forall|i: int| 0 <= i < r@.len() ==> (#[trigger] r@[i]).wf(),
{
    let ghost cd = views_of(docs@);
    let n = docs.len();
    let mut out: Vec<Document> = Vec::new();
    let mut i: usize = 0;
    while i < n
        invariant
            0 <= i <= n,
            n == docs@.len(),
            cd =~= views_of(docs@),
            filter.wf(),
            forall|m: int| 0 <= m < n ==> (#[trigger] docs@[m]).wf(),
            views_of(out@) =~= filter_spec(cd.subrange(0, i as int), filter@),
            forall|m: int| 0 <= m < out@.len() ==> (#[trigger] out@[m]).wf(),
        decreases n - i,
    {
        let d = &docs[i];
        proof {
            assert(cd[i as int] == d@);
            assert(cd.subrange(0, i as int + 1).drop_last() =~= cd.subrange(0, i as int));
            assert(cd.subrange(0, i as int + 1).last() == d@);
        }
        if matches_filter_exec(d, filter) {
            out.push(d.duplicate());
        }
        proof {
            assert(views_of(out@) =~= filter_spec(cd.subrange(0, i as int + 1), filter@));
        }
        i += 1;
    }
    proof {
        assert(cd.subrange(0, n as int) =~= cd);
    }
    out
}

/// One named collection and its documents, in insertion order.
#[derive(Debug)]
pub struct Collection {
    name: String,
    docs: Vec<Document>,
}

/// An in-memory document store: named collections of stored documents.
/// The store draws identifiers from a private counter, so no two
/// documents it ever held share one, and stamps documents with a clock
/// that never runs backwards.
#[derive(Debug)]
pub struct Store {
    collections: Vec<Collection>,
    next_ctr: u64,
    clock: i64,
}

impl View for Store {
    type V = StoreView;

    closed spec fn view(&self) -> StoreView {
        self.collections@.map(
            |i: int, c: Collection| (c.name@, c.docs@.map(|j: int, d: Document| d@)),
        )
    }
}

/// Whether no two documents of one collection share an identifier.
pub open spec fn store_ids_unique(s: StoreView) -> bool {
    forall|c: int, i: int, j: int|
        0 <= c < s.len() && 0 <= i < j < s[c].1.len() ==> id_bytes_of(
            (#[trigger] s[c].1[i])[0].1,
        ) != id_bytes_of((#[trigger] s[c].1[j])[0].1)
}

/// The store's internal invariant over its shape, identifier counter and
/// clock: shapes well formed, identifiers unique and drawn from counter
/// values below the next, every timestamp at or before the clock.
spec fn store_inv_core(s: StoreView, next_ctr: u64, clock: i64) -> bool {
    &&& store_view_wf(s)
    &&& store_ids_unique(s)
    &&& forall|c: int, i: int|
        0 <= c < s.len() && 0 <= i < s[c].1.len() ==> id_from_ctr(
            id_bytes_of((#[trigger] s[c].1[i])[0].1),
            next_ctr,
        )
    &&& forall|c: int, i: int|
        0 <= c < s.len() && 0 <= i < s[c].1.len() ==> instant_of((#[trigger] s[c].1[i])[2].1)
            <= clock
}

impl Store {
    /// The store's internal invariant; every operation keeps it.
    pub closed spec fn inv(&self) -> bool {
        store_inv_core(self@, self.next_ctr, self.clock)
    }

    /// Whether the identifier space is not exhausted; fresh stores have
    /// room for more documents than can be held in memory.
    pub closed spec fn idspace_ok(&self) -> bool {
        self.next_ctr < u64::MAX
    }

    /// A well-formed view with unique identifiers follows from the
    /// invariant.
    pub proof fn lemma_inv_view(&self)
        requires
            self.inv(),
        ensures
            store_view_wf(self@),
            store_ids_unique(self@),
    {
    }

    /// The empty store.
    pub fn new() -> (r: Store)
        ensures
            r@ =~= Seq::<(Seq<char>, Seq<DocView>)>::empty(),
            r.inv(),
            r.idspace_ok(),
    {
        Store { collections: Vec::new(), next_ctr: 0, clock: 0 }
    }

    /// The position of collection `name`, if the store has it.
    fn coll_index(&self, name: &str) -> (r: Option<usize>)
        requires
            colls_unique(self@),
        ensures
            r is Some <==> coll_has(self@, name@),
            r is Some ==> coll_key_at(self@, name@, r->0 as int),
    {
        let mut i: usize = 0;
        while i < self.collections.len()
            invariant
                0 <= i <= self@.len(),
                self@.len() == self.collections@.len(),
                forall|j: int| 0 <= j < i ==> (#[trigger] self@[j]).0 != name@,
            decreases self@.len() - i,
        {
            if str_eq(self.collections[i].name.as_str(), name) {
                proof {
                    assert(coll_key_at(self@, name@, i as int));
                }
                return Some(i);
            }
            i += 1;
        }
        proof {
            if coll_has(self@, name@) {
                let w = choose|w: int| coll_key_at(self@, name@, w);
                assert(self@[w].0 != name@);
            }
        }
        None
    }

    /// An identical, independent copy; the unit a transaction snapshots.
    pub fn snapshot(&self) -> (r: Store)
        requires
            self.inv(),
        ensures
            r@ =~= self@,
            r.inv(),
            r.idspace_ok() == self.idspace_ok(),
    {
        let mut collections: Vec<Collection> = Vec::new();
        let mut i: usize = 0;
        while i < self.collections.len()
            invariant
                0 <= i <= self.collections@.len(),
                collections@.len() == i,
                forall|j: int|
                    0 <= j < i ==> (#[trigger] collections@[j]).name@
                        == self.collections@[j].name@ && collections@[j].docs@.map(
                        |jj: int, d: Document| d@,
                    ) =~= self.collections@[j].docs@.map(|jj: int, d: Document| d@),
            decreases self.collections@.len() - i,
        {
            let c = &self.collections[i];
            let mut docs: Vec<Document> = Vec::new();
            let mut j: usize = 0;
            while j < c.docs.len()
                invariant
                    0 <= j <= c.docs@.len(),
                    docs@.len() == j,
                    forall|m: int| 0 <= m < j ==> (#[trigger] docs@[m])@ == c.docs@[m]@,
                decreases c.docs@.len() - j,
            {
                docs.push(c.docs[j].duplicate());
                j += 1;
            }
            proof {
                assert(docs@.map(|jj: int, d: Document| d@) =~= c.docs@.map(
                    |jj: int, d: Document| d@,
                ));
            }
            collections.push(Collection { name: c.name.clone(), docs });
            i += 1;
        }
        let r = Store { collections, next_ctr: self.next_ctr, clock: self.clock };
        proof {
            assert(r@ =~= self@);
        }
        r
    }

    /// Creates a document: gives it a fresh identifier the collection has
    /// never held, stamps creation and update with one instant, and
    /// appends it. Fails only when the identifier space is exhausted.
    pub fn insert_doc(&mut self, name: &str, payload: &Document) -> (r: Result<
        (ObjectId, DateTime),
        Error,
    >)
        requires
            old(self).inv(),
            payload_wf(payload@),
        ensures
            final(self).inv(),
            r is Ok <==> old(self).idspace_ok(),
            r is Err ==> final(self)@ == old(self)@ && (r matches Err(Error::Store(_))),
            r is Ok ==> {
                &&& r->Ok_0.0.wf()
                &&& final(self)@ =~= coll_upsert(
                    old(self)@,
                    name@,
                    coll_docs(old(self)@, name@).push(
                        record_doc(r->Ok_0.0@, r->Ok_0.1@, r->Ok_0.1@, payload@),
                    ),
                )
                &&& forall|i: int|
                    0 <= i < coll_docs(old(self)@, name@).len() ==> id_bytes_of(
                        (#[trigger] coll_docs(old(self)@, name@)[i])[0].1,
                    ) != r->Ok_0.0@
            },
    {
        if self.next_ctr == u64::MAX {
            return Err(Error::Store("identifier space exhausted".to_owned()));
        }
        let ctr = self.next_ctr;
        self.next_ctr = ctr + 1;
        let id = make_id(ctr);
        let now = now_millis();
        if now > self.clock {
            self.clock = now;
        }
        let t = DateTime::from_millis(self.clock);
        let oid = ObjectId::from_bytes(id);
        let doc = stored_doc(&oid, t, t, payload);
        let ghost old_view = old(self)@;
        let found = self.coll_index(name);
        match found {
            Some(ci) => {
                let mut coll = self.collections.remove(ci);
                coll.docs.push(doc);
                self.collections.insert(ci, coll);
                proof {
                    let w = choose|w: int| coll_key_at(old_view, name@, w);
                    assert(w == ci as int);
                    assert(self@ =~~= coll_upsert(
                        old_view,
                        name@,
                        coll_docs(old_view, name@).push(record_doc(oid@, t@, t@, payload@)),
                    ));
                }
            },
            None => {
                let mut docs: Vec<Document> = Vec::new();
                docs.push(doc);
                let mut coll_name = String::new();
                coll_name.append(name);
                self.collections.push(Collection { name: coll_name, docs });
                proof {
                    assert(coll_docs(old_view, name@) =~= Seq::<DocView>::empty());
                    assert(self@ =~~= coll_upsert(
                        old_view,
                        name@,
                        coll_docs(old_view, name@).push(record_doc(oid@, t@, t@, payload@)),
                    ));
                }
            },
        }
        proof {
            let newd = record_doc(oid@, t@, t@, payload@);
            assert(id_bytes_of(newd[0].1) == ctr_bytes(ctr));
            lemma_upsert_inv(
                old_view,
                self@,
                name@,
                newd,
                old(self).next_ctr,
                self.next_ctr,
                old(self).clock,
                self.clock,
                ctr,
            );
            assert forall|i: int| 0 <= i < coll_docs(old_view, name@).len() implies id_bytes_of(
                (#[trigger] coll_docs(old_view, name@)[i])[0].1,
            ) != oid@ by {
                let w = choose|w: int| coll_key_at(old_view, name@, w);
                let wc: u64 = choose|wc: u64|
                    wc < old(self).next_ctr && id_bytes_of(coll_docs(old_view, name@)[i][0].1)
                        == ctr_bytes(wc);
                if id_bytes_of(coll_docs(old_view, name@)[i][0].1) == oid@ {
                    lemma_ctr_bytes_injective(wc, ctr);
                }
            }
        }
        Ok((oid, t))
    }

    /// The documents of collection `name` matching `filter`, sorted where
    /// a key and direction are given, cut where a limit is given.
    pub fn find_docs(
        &self,
        name: &str,
        filter: &Document,
        sort: Option<(&str, bool)>,
        limit: Option<usize>,
    ) -> (r: Vec<Document>)
        requires
            self.inv(),
            filter.wf(),
        ensures
            views_of(r@) =~= find_spec(
                coll_docs(self@, name@),
                filter@,
                match sort {
                    Some((k, asc)) => Some((k@, asc)),
                    None => None,
                },
                match limit {
                    Some(l) => Some(l as int),
                    None => None,
                },
            ),
            forall|i: int| 0 <= i < r@.len() ==> (#[trigger] r@[i]).wf(),
    {
        let found = self.coll_index(name);
        let mut matches: Vec<Document> = Vec::new();
        match found {
            Some(ci) => {
                let coll = &self.collections[ci];
                proof {
                    let w = choose|w: int| coll_key_at(self@, name@, w);
                    assert(w == ci as int);
                    assert(coll_docs(self@, name@) =~= coll.docs@.map(|j: int, d: Document| d@));
                    assert forall|m: int| 0 <= m < coll.docs@.len() implies (
                    #[trigger] coll.docs@[m]).wf() by {
                        assert(doc_wf(self@[ci as int].1[m]));
                        assert(self@[ci as int].1[m] == coll.docs@[m]@);
                    }
                }
                let ghost cd = coll_docs(self@, name@);
                let n = coll.docs.len();
                let mut i: usize = 0;
                while i < n
                    invariant
                        0 <= i <= n,
                        n == coll.docs@.len(),
                        cd =~= coll.docs@.map(|j: int, d: Document| d@),
                        filter.wf(),
                        forall|m: int| 0 <= m < n ==> (#[trigger] coll.docs@[m]).wf(),
                        views_of(matches@) =~= filter_spec(cd.subrange(0, i as int), filter@),
                        forall|m: int| 0 <= m < matches@.len() ==> (#[trigger] matches@[m]).wf(),
                    decreases n - i,
                {
                    let d = &coll.docs[i];
                    proof {
                        assert(cd[i as int] == d@);
                        assert(cd.subrange(0, i as int + 1).drop_last() =~= cd.subrange(
                            0,
                            i as int,
                        ));
                        assert(cd.subrange(0, i as int + 1).last() == d@);
                    }
                    if matches_filter_exec(d, filter) {
                        matches.push(d.duplicate());
                    }
                    proof {
                        assert(views_of(matches@) =~= filter_spec(
                            cd.subrange(0, i as int + 1),
                            filter@,
                        ));
                    }
                    i += 1;
                }
                proof {
                    assert(cd.subrange(0, n as int) =~= cd);
                }
            },
            None => {
                proof {
                    assert(coll_docs(self@, name@) =~= Seq::<DocView>::empty());
                }
            },
        }
        let mut out = match sort {
            Some((k, asc)) => sort_docs(&matches, k, asc),
            None => matches,
        };
        match limit {
            Some(l) => {
                let ghost pre = out@;
                out.truncate(l);
                proof {
                    if l < pre.len() {
                        assert(views_of(out@) =~= views_of(pre).take(l as int));
                    }
                }
            },
            None => {},
        }
        out
    }

    /// Copies of the documents of collection `name`, in insertion order.
    fn docs_of(&self, name: &str) -> (r: Vec<Document>)
        requires
            self.inv(),
        ensures
            views_of(r@) =~= coll_docs(self@, name@),
            forall|i: int| 0 <= i < r@.len() ==> (#[trigger] r@[i]).wf(),
    {
        let found = self.coll_index(name);
        let mut out: Vec<Document> = Vec::new();
        match found {
            Some(ci) => {
                let coll = &self.collections[ci];
                proof {
                    let w = choose|w: int| coll_key_at(self@, name@, w);
                    assert(w == ci as int);
                    assert(coll_docs(self@, name@) =~= coll.docs@.map(|j: int, d: Document| d@));
                    assert forall|m: int| 0 <= m < coll.docs@.len() implies (
                    #[trigger] coll.docs@[m]).wf() by {
                        assert(doc_wf(self@[ci as int].1[m]));
                        assert(self@[ci as int].1[m] == coll.docs@[m]@);
                    }
                }
                let n = coll.docs.len();
                let mut i: usize = 0;
                while i < n
                    invariant
                        0 <= i <= n,
                        n == coll.docs@.len(),
                        forall|m: int| 0 <= m < n ==> (#[trigger] coll.docs@[m]).wf(),
                        out@.len() == i,
                        forall|m: int| 0 <= m < i ==> (#[trigger] out@[m])@ == coll.docs@[m]@,
                        forall|m: int| 0 <= m < out@.len() ==> (#[trigger] out@[m]).wf(),
                    decreases n - i,
                {
                    out.push(coll.docs[i].duplicate());
                    i += 1;
                }
                proof {
                    assert(views_of(out@) =~= coll_docs(self@, name@));
                }
            },
            None => {
                proof {
                    assert(coll_docs(self@, name@) =~= Seq::<DocView>::empty());
                }
            },
        }
        out
    }

    /// Runs an aggregation pipeline over collection `name`: each stage in
    /// order, starting from the collection's documents.
    pub fn aggregate_docs(&self, name: &str, stages: &Vec<PipelineStage>) -> (r: Vec<Document>)
        requires
            self.inv(),
            forall|i: int|
                0 <= i < stages@.len() ==> ((#[trigger] stages@[i]) matches PipelineStage::Match(
                    f,
                ) ==> f.wf()),
        ensures
            views_of(r@) =~= run_pipeline(coll_docs(self@, name@), stage_views(stages@)),
            forall|i: int| 0 <= i < r@.len() ==> (#[trigger] r@[i]).wf(),
    {
        let ghost all = stage_views(stages@);
        let mut cur = self.docs_of(name);
        let n = stages.len();
        let mut i: usize = 0;
        proof {
            assert(all.skip(0) =~= all);
        }
        while i < n
            invariant
                0 <= i <= n,
                n == stages@.len(),
                all == stage_views(stages@),
                forall|m: int|
                    0 <= m < n ==> ((#[trigger] stages@[m]) matches PipelineStage::Match(f)
                        ==> f.wf()),
                run_pipeline(coll_docs(self@, name@), all) == run_pipeline(
                    views_of(cur@),
                    all.skip(i as int),
                ),
                forall|m: int| 0 <= m < cur@.len() ==> (#[trigger] cur@[m]).wf(),
            decreases n - i,
        {
            let ghost rem = all.skip(i as int);
            let ghost vb = views_of(cur@);
            proof {
                assert(rem[0] == stages@[i as int]@);
                assert(rem.drop_first() =~= all.skip(i as int + 1));
            }
            let stage = &stages[i];
            let next = match stage {
                PipelineStage::Match(f) => filter_exec(&cur, f),
                PipelineStage::Sort(k, dir) => {
                    let asc = match dir {
                        crate::entity::SortingDirection::Ascending => true,
                        crate::entity::SortingDirection::Descending => false,
                    };
                    sort_docs(&cur, k.as_str(), asc)
                },
                PipelineStage::Limit(l) => {
                    let mut cut = cur;
                    let ghost pre = cut@;
                    cut.truncate(*l);
                    proof {
                        if *l < pre.len() {
                            assert(views_of(cut@) =~= views_of(pre).take(*l as int));
                        }
                        assert(views_of(cut@) =~= apply_stage(views_of(pre), rem[0]));
                    }
                    cut
                },
            };
            proof {
                assert(views_of(next@) =~= apply_stage(vb, rem[0]));
            }
            cur = next;
            proof {
                assert(run_pipeline(vb, rem) == run_pipeline(
                    apply_stage(vb, rem[0]),
                    rem.drop_first(),
                ));
                assert(run_pipeline(coll_docs(self@, name@), all) == run_pipeline(
                    views_of(cur@),
                    all.skip(i as int + 1),
                ));
            }
            i += 1;
        }
        proof {
            assert(all.skip(n as int) =~= Seq::<StageView>::empty());
        }
        cur
    }

    /// Removes every document of collection `name` whose identifier is
    /// `id` (by identifier uniqueness, at most one); says whether any
    /// was there.
    pub fn delete_doc(&mut self, name: &str, id: &ObjectId) -> (r: bool)
        requires
            old(self).inv(),
        ensures
            final(self).inv(),
            r == has_doc_id(coll_docs(old(self)@, name@), id@),
            final(self)@ =~= if coll_has(old(self)@, name@) {
                coll_upsert(old(self)@, name@, without_id(coll_docs(old(self)@, name@), id@))
            } else {
                old(self)@
            },
    {
        let ghost old_view = old(self)@;
        let found = self.coll_index(name);
        match found {
            Some(ci) => {
                let mut coll = self.collections.remove(ci);
                let ghost cd = coll_docs(old_view, name@);
                proof {
                    let w = choose|w: int| coll_key_at(old_view, name@, w);
                    assert(w == ci as int);
                    assert(cd =~= coll.docs@.map(|j: int, d: Document| d@));
                    assert forall|m: int| 0 <= m < coll.docs@.len() implies (
                    #[trigger] coll.docs@[m]).wf() && record_doc_shape(coll.docs@[m]@) by {
                        assert(doc_wf(old_view[ci as int].1[m]) && record_doc_shape(
                            old_view[ci as int].1[m],
                        ));
                        assert(old_view[ci as int].1[m] == coll.docs@[m]@);
                    }
                }
                let n = coll.docs.len();
                let mut kept: Vec<Document> = Vec::new();
                let mut hit = false;
                let mut i: usize = 0;
                while i < n
                    invariant
                        0 <= i <= n,
                        n == coll.docs@.len(),
                        cd =~= coll.docs@.map(|j: int, d: Document| d@),
                        forall|m: int|
                            0 <= m < n ==> (#[trigger] coll.docs@[m]).wf() && record_doc_shape(
                                coll.docs@[m]@,
                            ),
                        views_of(kept@) =~= without_id(cd.subrange(0, i as int), id@),
                        hit == has_doc_id(cd.subrange(0, i as int), id@),
                        forall|m: int| 0 <= m < kept@.len() ==> (#[trigger] kept@[m]).wf(),
                    decreases n - i,
                {
                    let d = &coll.docs[i];
                    proof {
                        assert(cd[i as int] == d@);
                        assert(cd.subrange(0, i as int + 1).drop_last() =~= cd.subrange(
                            0,
                            i as int,
                        ));
                        assert(cd.subrange(0, i as int + 1).last() == d@);
                    }
                    let ghost sub0 = cd.subrange(0, i as int);
                    let ghost sub1 = cd.subrange(0, i as int + 1);
                    if doc_id_matches(d, id) {
                        hit = true;
                        proof {
                            assert(doc_id_at(sub1, id@, i as int));
                        }
                    } else {
                        kept.push(d.duplicate());
                        proof {
                            if has_doc_id(sub1, id@) {
                                let w = choose|w: int| doc_id_at(sub1, id@, w);
                                if w < i {
                                    assert(doc_id_at(sub0, id@, w));
                                }
                            }
                            if has_doc_id(sub0, id@) {
                                let w = choose|w: int| doc_id_at(sub0, id@, w);
                                assert(doc_id_at(sub1, id@, w));
                            }
                        }
                    }
                    proof {
                        assert(views_of(kept@) =~= without_id(
                            cd.subrange(0, i as int + 1),
                            id@,
                        ));
                    }
                    i += 1;
                }
                proof {
                    assert(cd.subrange(0, n as int) =~= cd);
                }
                coll.docs = kept;
                self.collections.insert(ci, coll);
                proof {
                    let w = choose|w: int| coll_key_at(old_view, name@, w);
                    assert(w == ci as int);
                    assert(self@ =~~= coll_upsert(old_view, name@, without_id(cd, id@)));
                    lemma_without_id_subseq(cd, id@);
                    lemma_shrunk_inv(
                        old_view,
                        self@,
                        name@,
                        id@,
                        old(self).next_ctr,
                        old(self).clock,
                    );
                }
                hit
            },
            None => {
                proof {
                    assert(coll_docs(old_view, name@) =~= Seq::<DocView>::empty());
                }
                false
            },
        }
    }

    /// Rewrites the payload of the document carrying `id`: the identifier
    /// and creation instant stay, the update instant is stamped anew.
    /// Fails with `NotFound` where no document carries `id`.
    pub fn replace_doc(&mut self, name: &str, id: &ObjectId, payload: &Document) -> (r: Result<
        (DateTime, DateTime),
        Error,
    >)
        requires
            old(self).inv(),
            payload_wf(payload@),
        ensures
            final(self).inv(),
            r is Ok <==> has_doc_id(coll_docs(old(self)@, name@), id@),
            r is Err ==> final(self)@ == old(self)@ && (r matches Err(Error::NotFound)),
            r is Ok ==> {
                &&& r->Ok_0.0@ <= r->Ok_0.1@
                &&& final(self)@ =~= coll_upsert(
                    old(self)@,
                    name@,
                    replaced_docs(coll_docs(old(self)@, name@), id@, r->Ok_0.1@, payload@),
                )
                &&& forall|i: int|
                    doc_id_at(coll_docs(old(self)@, name@), id@, i) ==> r->Ok_0.0@ == instant_of(
                        coll_docs(old(self)@, name@)[i][1].1,
                    )
            },
    {
        let ghost old_view = old(self)@;
        let found = self.coll_index(name);
        let ci = match found {
            Some(ci) => ci,
            None => {
                proof {
                    assert(coll_docs(old_view, name@) =~= Seq::<DocView>::empty());
                }
                return Err(Error::NotFound);
            },
        };
        let now = now_millis();
        if now > self.clock {
            self.clock = now;
        }
        let t = DateTime::from_millis(self.clock);
        let mut coll = self.collections.remove(ci);
        let ghost cd = coll_docs(old_view, name@);
        proof {
            let w = choose|w: int| coll_key_at(old_view, name@, w);
            assert(w == ci as int);
            assert(cd =~= coll.docs@.map(|j: int, d: Document| d@));
            assert forall|m: int| 0 <= m < coll.docs@.len() implies (
            #[trigger] coll.docs@[m]).wf() && record_doc_shape(coll.docs@[m]@) && instant_of(
                coll.docs@[m]@[2].1,
            ) <= t@ by {
                assert(doc_wf(old_view[ci as int].1[m]) && record_doc_shape(
                    old_view[ci as int].1[m],
                ) && instant_of(old_view[ci as int].1[m][2].1) <= old(self).clock);
                assert(old_view[ci as int].1[m] == coll.docs@[m]@);
            }
            assert forall|i: int, j: int| 0 <= i < j < cd.len() implies id_bytes_of(
                (#[trigger] cd[i])[0].1,
            ) != id_bytes_of((#[trigger] cd[j])[0].1) by {
                assert(old_view[ci as int].1[i] == cd[i]);
                assert(old_view[ci as int].1[j] == cd[j]);
            }
        }
        let n = coll.docs.len();
        let mut next: Vec<Document> = Vec::new();
        let mut hit = false;
        let mut created = t;
        let mut i: usize = 0;
        while i < n
            invariant
                0 <= i <= n,
                n == coll.docs@.len(),
                cd =~= coll.docs@.map(|j: int, d: Document| d@),
                payload_wf(payload@),
                doc_ids_unique(cd),
                forall|m: int|
                    0 <= m < n ==> (#[trigger] coll.docs@[m]).wf() && record_doc_shape(
                        coll.docs@[m]@,
                    ) && instant_of(coll.docs@[m]@[2].1) <= t@,
                next@.len() == i,
                forall|m: int|
                    0 <= m < i ==> (#[trigger] next@[m])@ == replaced_docs(cd, id@, t@, payload@)[m],
                forall|m: int| 0 <= m < i ==> (#[trigger] next@[m]).wf(),
                hit == has_doc_id(cd.subrange(0, i as int), id@),
                hit ==> forall|m: int|
                    doc_id_at(cd.subrange(0, i as int), id@, m) ==> created@ == instant_of(
                        cd[m][1].1,
                    ),
            decreases n - i,
        {
            let d = &coll.docs[i];
            let ghost sub0 = cd.subrange(0, i as int);
            let ghost sub1 = cd.subrange(0, i as int + 1);
            proof {
                assert(cd[i as int] == d@);
            }
            if doc_id_matches(d, id) {
                let (_, v1) = d.entry_at(1);
                let c = match v1 {
                    Value::Instant(c) => *c,
                    _ => {
                        proof {
                            assert(false);
                        }
                        t
                    },
                };
                proof {
                    assert(instant_of(d@[1].1) <= instant_of(d@[2].1) <= t@);
                    assert(crate::document::value_view_wf(d@[0].1));
                    assert(id@.len() == 12);
                }
                let nd = stored_doc(id, c, t, payload);
                next.push(nd);
                proof {
                    if hit {
                        let m = choose|m: int| doc_id_at(sub0, id@, m);
                        assert(doc_id_at(cd, id@, m));
                        assert(doc_id_at(cd, id@, i as int));
                        assert(false);
                    }
                }
                hit = true;
                created = c;
                proof {
                    assert(doc_id_at(sub1, id@, i as int));
                    assert forall|m: int| doc_id_at(sub1, id@, m) implies created@ == instant_of(
                        cd[m][1].1,
                    ) by {
                        if m != i {
                            assert(doc_ids_unique(cd));
                            assert(id_bytes_of(cd[m][0].1) == id_bytes_of(cd[i as int][0].1));
                            assert(false);
                        }
                    }
                }
            } else {
                next.push(d.duplicate());
                proof {
                    if has_doc_id(sub1, id@) {
                        let w = choose|w: int| doc_id_at(sub1, id@, w);
                        if w < i {
                            assert(doc_id_at(sub0, id@, w));
                        }
                    }
                    if has_doc_id(sub0, id@) {
                        let w = choose|w: int| doc_id_at(sub0, id@, w);
                        assert(doc_id_at(sub1, id@, w));
                    }
                    assert forall|m: int| hit && doc_id_at(sub1, id@, m) implies created@
                        == instant_of(cd[m][1].1) by {
                        assert(doc_id_at(sub0, id@, m));
                    }
                }
            }
            i += 1;
        }
        proof {
            assert(cd.subrange(0, n as int) =~= cd);
        }
        if !hit {
            self.collections.insert(ci, coll);
            proof {
                let w = choose|w: int| coll_key_at(old_view, name@, w);
                assert(w == ci as int);
                assert(self@ =~= old_view);
                assert(store_inv_core(old_view, old(self).next_ctr, old(self).clock));
                assert forall|c: int, m: int|
                    0 <= c < self@.len() && 0 <= m < self@[c].1.len() implies instant_of(
                    (#[trigger] self@[c].1[m])[2].1,
                ) <= self.clock by {
                    assert(instant_of(old_view[c].1[m][2].1) <= old(self).clock);
                }
            }
            return Err(Error::NotFound);
        }
        coll.docs = next;
        self.collections.insert(ci, coll);
        proof {
            let w = choose|w: int| coll_key_at(old_view, name@, w);
            assert(w == ci as int);
            assert(views_of(self.collections@[ci as int].docs@) =~= replaced_docs(
                cd,
                id@,
                t@,
                payload@,
            ));
            assert(self@ =~~= coll_upsert(old_view, name@, replaced_docs(cd, id@, t@, payload@)));
            lemma_replaced_inv(
                old_view,
                self@,
                name@,
                id@,
                t@,
                payload@,
                old(self).next_ctr,
                old(self).clock,
                self.clock,
            );
        }
        Ok((created, t))
    }
}

/// The stored document with the given envelope and payload.
fn stored_doc(id: &ObjectId, created: DateTime, updated: DateTime, payload: &Document) -> (d:
    Document)
    requires
        id.wf(),
        created@ <= updated@,
        payload_wf(payload@),
    ensures
        d@ =~= record_doc(id@, created@, updated@, payload@),
        d.wf(),
        record_doc_shape(d@),
{
    let mut d = Document::new();
    proof {
        crate::entity::lemma_reserved_distinct();
    }
    d.insert("_id".to_owned(), Value::Id(id.duplicate()));
    d.insert("created_at".to_owned(), Value::Instant(created));
    d.insert("updated_at".to_owned(), Value::Instant(updated));
    proof {
        assert(d@ =~= record_doc(id@, created@, updated@, payload@.subrange(0, 0)));
    }
    let n = payload.len();
    let mut i: usize = 0;
    while i < n
        invariant
            0 <= i <= n,
            n == payload@.len(),
            payload_wf(payload@),
            id.wf(),
            created@ <= updated@,
            d.wf(),
            d@ =~= record_doc(id@, created@, updated@, payload@.subrange(0, i as int)),
        decreases n - i,
    {
        let (k, v) = payload.entry_at(i);
        proof {
            assert(!reserved_key(payload@[i as int].0));
            assert forall|j: int| 0 <= j < d@.len() implies (#[trigger] d@[j]).0 != k@ by {
                if j >= 3 {
                    assert(d@[j].0 == payload@[j - 3].0);
                }
            }
            assert(!doc_has_key(d@, k@));
        }
        d.insert(k.clone(), v.duplicate());
        proof {
            assert(d@ =~= record_doc(id@, created@, updated@, payload@.subrange(0, i as int + 1)));
        }
        i += 1;
    }
    proof {
        assert(payload@.subrange(0, n as int) =~= payload@);
    }
    d
}

/// The twelve identifier bytes for counter `c`.
fn make_id(c: u64) -> (r: Vec<u8>)
    ensures
        r@ =~= ctr_bytes(c),
{
    let mut r: Vec<u8> = Vec::new();
    r.push(0);
    r.push(0);
    r.push(0);
    r.push(0);
    r.push((c >> 56) as u8);
    r.push((c >> 48) as u8);
    r.push((c >> 40) as u8);
    r.push((c >> 32) as u8);
    r.push((c >> 24) as u8);
    r.push((c >> 16) as u8);
    r.push((c >> 8) as u8);
    r.push(c as u8);
    r
}

} // verus!
