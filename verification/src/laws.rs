//! The laws the layer keeps, stated over the same specifications its
//! contracts use, and proved once for every store state and input.

use vstd::prelude::*;
use crate::document::{doc_has_key, doc_key_at, doc_wf, lemma_doc_get_at, DocView, ValueView};
use crate::entity::{Entity, EntityConditions};
use crate::record::{
    id_bytes_of, instant_of, record_doc, record_doc_ok, record_doc_shape, record_payload,
    Record,
};
use crate::store::{
    coll_docs, coll_has, coll_upsert, doc_id_at, filter_spec, find_spec, has_doc_id,
    lemma_coll_upsert_docs, lemma_filter_spec_sound, lemma_record_doc_wf, matches_filter,
    store_view_wf, StoreView,
};
use crate::order::{
    doc_le, insort, lemma_insort_multiset, lemma_insort_sorted, sorted_by_key,
};
use crate::user::{User, UserConditions};

verus! {

broadcast use vstd::string::group_string_axioms;

/// The identifier-equality filter a lookup by identifier queries with.
pub open spec fn id_filter(rid: Seq<u8>) -> DocView {
    seq![("_id"@, ValueView::Id(rid))]
}

/// An absent conditions field constrains nothing and adds no key: the
/// all-absent conditions encode to the empty document (which matches
/// every record), and the encoded document binds exactly the keys of the
/// present fields.
pub proof fn lemma_conditions_exact_keys(c: UserConditions)
    ensures
        (c.email is None && c.phone is None) ==> c.spec_into_document() =~= Seq::<
            (Seq<char>, ValueView),
        >::empty(),
        c.spec_into_document().len() == (if c.email is Some {
            1int
        } else {
            0int
        }) + (if c.phone is Some {
            1int
        } else {
            0int
        }),
        doc_has_key(c.spec_into_document(), "email"@) <==> c.email is Some,
        doc_has_key(c.spec_into_document(), "phone"@) <==> c.phone is Some,
        forall|k: Seq<char>|
            doc_has_key(c.spec_into_document(), k) ==> (k == "email"@ || k == "phone"@),
{
    reveal_strlit("email");
    reveal_strlit("phone");
    assert("email"@[0] == 'e');
    assert("phone"@[0] == 'p');
    let d = c.spec_into_document();
    if c.email is Some {
        assert(doc_key_at(d, "email"@, 0));
    }
    if c.phone is Some {
        assert(doc_key_at(d, "phone"@, d.len() - 1));
    }
    if doc_has_key(d, "email"@) {
        let w = choose|w: int| doc_key_at(d, "email"@, w);
        assert(c.email is Some);
    }
    if doc_has_key(d, "phone"@) {
        let w = choose|w: int| doc_key_at(d, "phone"@, w);
        assert(c.phone is Some);
    }
    assert forall|k: Seq<char>| doc_has_key(d, k) implies (k == "email"@ || k == "phone"@) by {
        let w = choose|w: int| doc_key_at(d, k, w);
    }
}

/// The store half of the timestamp order: every document of every
/// reachable store records a creation instant no later than its update
/// instant.
pub proof fn lemma_timestamps_ordered(v: StoreView, c: int, i: int)
    requires
        store_view_wf(v),
        0 <= c < v.len(),
        0 <= i < v[c].1.len(),
    ensures
        instant_of(v[c].1[i][1].1) <= instant_of(v[c].1[i][2].1),
{
    assert(record_doc_shape(v[c].1[i]));
}

/// The record half of the timestamp order: every well-formed record —
/// and every operation of this layer returns only well-formed records —
/// was created no later than it was last updated.
pub proof fn lemma_record_timestamps<E: Entity>(r: Record<E>)
    requires
        r.wf(),
    ensures
        r.spec_created_at() <= r.spec_updated_at(),
{
}

/// Encoding what a stored document decodes to yields the document again:
/// the codec is the identity on its own output.
pub proof fn lemma_codec_round_trip(rid: Seq<u8>, created: int, updated: int, u: User)
    requires
        rid.len() == 12,
        created <= updated,
        u.inv(),
    ensures
        ({
            let d = record_doc(rid, created, updated, u.spec_encode());
            &&& record_doc_ok::<User>(d)
            &&& record_doc(
                id_bytes_of(d[0].1),
                instant_of(d[1].1),
                instant_of(d[2].1),
                User::spec_canon(record_payload(d)),
            ) == d
        }),
{
    let d = record_doc(rid, created, updated, u.spec_encode());
    u.lemma_encode_wf();
    lemma_record_doc_wf(rid, created, updated, u.spec_encode());
    assert(record_payload(d) =~= u.spec_encode());
    u.lemma_decode_encode();
    assert(record_doc(
        id_bytes_of(d[0].1),
        instant_of(d[1].1),
        instant_of(d[2].1),
        User::spec_canon(record_payload(d)),
    ) =~= d);
}

/// A stored document matches the identifier filter exactly when it
/// carries that identifier.
pub proof fn lemma_id_filter_match(d: DocView, rid: Seq<u8>)
    requires
        doc_wf(d),
        record_doc_shape(d),
    ensures
        matches_filter(d, id_filter(rid)) <==> id_bytes_of(d[0].1) == rid,
{
    lemma_doc_get_at(d, 0);
    let f = id_filter(rid);
    assert(f[0] == ("_id"@, ValueView::Id(rid)));
    assert(d[0].1 == ValueView::Id(d[0].1->Id_0));
    assert(id_bytes_of(d[0].1) == d[0].1->Id_0);
    if matches_filter(d, f) {
        assert(crate::document::doc_get(d, (#[trigger] f[0]).0) == Some(f[0].1));
    }
    if id_bytes_of(d[0].1) == rid {
        assert forall|i: int|
            0 <= i < f.len() implies crate::document::doc_get(d, (#[trigger] f[i]).0) == Some(
            f[i].1,
        ) by {
            assert(i == 0);
        }
    }
}

/// A filter nothing matches selects nothing.
pub proof fn lemma_no_match_empty(docs: Seq<DocView>, f: DocView)
    requires
        forall|i: int| 0 <= i < docs.len() ==> !matches_filter(#[trigger] docs[i], f),
    ensures
        filter_spec(docs, f) =~= Seq::<DocView>::empty(),
{
    lemma_filter_spec_sound(docs, f);
    if filter_spec(docs, f).len() > 0 {
        let x = filter_spec(docs, f)[0];
        let w = choose|w: int| 0 <= w < docs.len() && docs[w] == x;
        assert(false);
    }
}

/// After a successful insert, the lookup by the returned identifier
/// finds exactly the inserted record: the one document the filter
/// selects is the inserted one, it decodes, its identifier is the
/// returned one, and its payload encodes the inserted entity.
pub proof fn lemma_get_after_insert(v0: StoreView, v1: StoreView, rid: Seq<u8>, t: int, u: User)
    requires
        store_view_wf(v0),
        u.inv(),
        rid.len() == 12,
        !has_doc_id(coll_docs(v0, User::spec_name()), rid),
        v1 == coll_upsert(
            v0,
            User::spec_name(),
            coll_docs(v0, User::spec_name()).push(record_doc(rid, t, t, u.spec_encode())),
        ),
    ensures
        ({
            let docs = find_spec(
                coll_docs(v1, User::spec_name()),
                id_filter(rid),
                None::<(Seq<char>, bool)>,
                Some(1int),
            );
            &&& docs.len() == 1
            &&& docs[0] == record_doc(rid, t, t, u.spec_encode())
            &&& record_doc_ok::<User>(docs[0])
            &&& id_bytes_of(docs[0][0].1) == rid
            &&& User::spec_canon(record_payload(docs[0])) == u.spec_encode()
        }),
{
    let n = User::spec_name();
    let cd0 = coll_docs(v0, n);
    let newd = record_doc(rid, t, t, u.spec_encode());
    u.lemma_encode_wf();
    lemma_record_doc_wf(rid, t, t, u.spec_encode());
    lemma_coll_upsert_docs(v0, n, cd0.push(newd));
    let cd1 = coll_docs(v1, n);
    assert(cd1 == cd0.push(newd));
    assert forall|i: int| 0 <= i < cd0.len() implies !matches_filter(
        #[trigger] cd0[i],
        id_filter(rid),
    ) by {
        if coll_has(v0, n) {
            let w = choose|w: int| crate::store::coll_key_at(v0, n, w);
            assert(doc_wf(v0[w].1[i]) && record_doc_shape(v0[w].1[i]));
            lemma_id_filter_match(cd0[i], rid);
            if id_bytes_of(cd0[i][0].1) == rid {
                assert(doc_id_at(cd0, rid, i));
            }
        } else {
            assert(cd0 =~= Seq::<DocView>::empty());
        }
    }
    lemma_no_match_empty(cd0, id_filter(rid));
    lemma_id_filter_match(newd, rid);
    assert(cd1.drop_last() =~= cd0);
    assert(cd1.last() == newd);
    assert(filter_spec(cd1, id_filter(rid)) =~= seq![newd]);
    assert(record_payload(newd) =~= u.spec_encode());
    u.lemma_decode_encode();
}

/// Conditions matching no stored document select nothing, whatever the
/// sort order: the one-record query then owes `NotFound`, and the
/// optional query owes an empty success — those outcomes stand in the
/// two queries' own contracts, keyed to this empty result.
pub proof fn lemma_zero_matches_empty(v: StoreView, f: DocView, sort: Option<(Seq<char>, bool)>)
    requires
        forall|i: int|
            0 <= i < coll_docs(v, User::spec_name()).len() ==> !matches_filter(
                #[trigger] coll_docs(v, User::spec_name())[i],
                f,
            ),
    ensures
        find_spec(coll_docs(v, User::spec_name()), f, sort, Some(1int)).len() == 0,
{
    lemma_no_match_empty(coll_docs(v, User::spec_name()), f);
}

/// A find ordered by a key returns its records in that order, whatever
/// the filter and limit.
pub proof fn lemma_find_sorted(
    docs: Seq<DocView>,
    f: DocView,
    k: Seq<char>,
    asc: bool,
    limit: Option<int>,
)
    requires
        (limit matches Some(l) ==> l >= 0),
    ensures
        sorted_by_key(find_spec(docs, f, Some((k, asc)), limit), k, asc),
{
    let m = filter_spec(docs, f);
    lemma_insort_sorted(m, k, asc);
    let s = insort(m, k, asc);
    let r = find_spec(docs, f, Some((k, asc)), limit);
    assert forall|i: int, j: int| 0 <= i < j < r.len() implies doc_le(
        #[trigger] r[i],
        #[trigger] r[j],
        k,
        asc,
    ) by {
        match limit {
            Option::Some(l) => {
                if l < s.len() {
                    assert(r == s.take(l));
                    assert(r[i] == s.subrange(0, l)[i]);
                    assert(r[j] == s.subrange(0, l)[j]);
                } else {
                    assert(r == s);
                }
            },
            Option::None => {
                assert(r == s);
            },
        }
        assert(r[i] == s[i] && r[j] == s[j]);
    }
}

/// An uncut find returns exactly the matching documents: every returned
/// document matches the filter and was stored, and every stored document
/// matching the filter is returned.
pub proof fn lemma_find_complete(docs: Seq<DocView>, f: DocView, sort: Option<(Seq<char>, bool)>)
    ensures
        ({
            let r = find_spec(docs, f, sort, None::<int>);
            &&& forall|i: int| 0 <= i < r.len() ==> matches_filter(#[trigger] r[i], f)
            &&& forall|i: int| 0 <= i < r.len() ==> docs.contains(#[trigger] r[i])
            &&& forall|i: int|
                0 <= i < docs.len() && matches_filter(#[trigger] docs[i], f) ==> r.contains(
                    docs[i],
                )
        }),
{
    broadcast use vstd::seq_lib::group_to_multiset_ensures;

    let m = filter_spec(docs, f);
    let r = find_spec(docs, f, sort, None::<int>);
    lemma_filter_spec_sound(docs, f);
    match sort {
        Option::Some((k, asc)) => {
            lemma_insort_multiset(m, k, asc);
            assert(r == insort(m, k, asc));
            assert(r.to_multiset() =~= m.to_multiset());
            assert forall|i: int| 0 <= i < r.len() implies matches_filter(#[trigger] r[i], f)
                && docs.contains(r[i]) by {
                assert(r.to_multiset().contains(r[i]));
                assert(m.to_multiset().contains(r[i]));
                let w = choose|w: int| 0 <= w < m.len() && m[w] == r[i];
            }
            assert forall|i: int|
                0 <= i < docs.len() && matches_filter(#[trigger] docs[i], f) implies r.contains(
                docs[i],
            ) by {
                assert(m.contains(docs[i]));
                assert(m.to_multiset().contains(docs[i]));
                assert(r.to_multiset().contains(docs[i]));
            }
        },
        Option::None => {
            assert(r == m);
        },
    }
}

/// What a rolled-back transaction inserted is invisible: on error,
/// `transact` restores the store it started from, and an identifier
/// absent from that store is selected by nothing, so its lookup owes
/// `NotFound`.
pub proof fn lemma_rollback_lookup(v: StoreView, rid: Seq<u8>)
    requires
        store_view_wf(v),
        !has_doc_id(coll_docs(v, User::spec_name()), rid),
    ensures
        find_spec(
            coll_docs(v, User::spec_name()),
            id_filter(rid),
            None::<(Seq<char>, bool)>,
            Some(1int),
        ).len() == 0,
{
    let n = User::spec_name();
    let cd = coll_docs(v, n);
    assert forall|i: int| 0 <= i < cd.len() implies !matches_filter(
        #[trigger] cd[i],
        id_filter(rid),
    ) by {
        if coll_has(v, n) {
            let w = choose|w: int| crate::store::coll_key_at(v, n, w);
            assert(doc_wf(v[w].1[i]) && record_doc_shape(v[w].1[i]));
            lemma_id_filter_match(cd[i], rid);
            if id_bytes_of(cd[i][0].1) == rid {
                assert(doc_id_at(cd, rid, i));
            }
        } else {
            assert(cd =~= Seq::<DocView>::empty());
        }
    }
    lemma_no_match_empty(cd, id_filter(rid));
}

} // verus!


