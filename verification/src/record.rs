//! Typed identifiers and the persisted envelope around an entity.

use vstd::prelude::*;
use core::marker::PhantomData;
use crate::document::{
    doc_keys_unique, doc_values_wf, doc_wf, DocView, Document, Value, ValueView,
};
use crate::entity::{payload_wf, Entity};
use crate::object_id::ObjectId;
use crate::scalars::{str_eq, DateTime};
use crate::DecodeError;

verus! {

broadcast use vstd::string::group_string_axioms;

/// The bytes of an identifier value, empty for any other kind.
pub open spec fn id_bytes_of(v: ValueView) -> Seq<u8> {
    match v {
        ValueView::Id(b) => b,
        _ => Seq::empty(),
    }
}

/// The count behind an instant value, zero for any other kind.
pub open spec fn instant_of(v: ValueView) -> int {
    match v {
        ValueView::Instant(t) => t,
        _ => 0,
    }
}

/// A typed identifier: the native object identifier of one record of the
/// entity `E`. The parameter keeps identifiers of different entities
/// apart: an `EntityId<E>` is never interchangeable with an
/// `EntityId<F>`. Its view is the identifier's byte sequence.
#[derive(Debug)]
#[verifier::reject_recursive_types(E)]
pub struct EntityId<E> {
    oid: ObjectId,
    entity: PhantomData<E>,
}

impl<E> View for EntityId<E> {
    type V = Seq<u8>;

    closed spec fn view(&self) -> Seq<u8> {
        self.oid@
    }
}

impl<E> EntityId<E> {
    /// Whether the identifier holds exactly twelve bytes.
    pub open spec fn wf(&self) -> bool {
        self@.len() == 12
    }

    /// Types a native object identifier.
    pub fn from_object_id(oid: ObjectId) -> (r: EntityId<E>)
        requires
            oid.wf(),
        ensures
            r@ == oid@,
            r.wf(),
    {
        EntityId { oid, entity: PhantomData }
    }

    /// Parses the 24-digit hexadecimal form; `None` on anything else.
    pub fn parse_str(s: &str) -> (r: Option<EntityId<E>>)
        ensures
            r is Some <==> (s@.len() == 24 && forall|i: int|
                0 <= i < s@.len() ==> crate::object_id::is_hex_digit(#[trigger] s@[i])),
            r is Some ==> r->0@ == crate::object_id::bytes_of_hex(s@) && r->0.wf(),
    {
        match ObjectId::parse_str(s) {
            Some(oid) => Some(EntityId { oid, entity: PhantomData }),
            None => None,
        }
    }

    /// The lowercase 24-digit hexadecimal form.
    pub fn to_hex(&self) -> (r: String)
        requires
            self.wf(),
        ensures
            r@ == crate::object_id::hex_of(self@),
    {
        self.oid.to_hex()
    }

    /// Whether two identifiers name the same record.
    pub fn same_as(&self, other: &EntityId<E>) -> (r: bool)
        ensures
            r == (self@ == other@),
    {
        self.oid.same_as(&other.oid)
    }

    /// An identical copy.
    pub fn duplicate(&self) -> (r: EntityId<E>)
        ensures
            r@ == self@,
    {
        EntityId { oid: self.oid.duplicate(), entity: PhantomData }
    }

    /// The untyped identifier underneath.
    pub fn as_object_id(&self) -> (r: &ObjectId)
        ensures
            r@ == self@,
    {
        &self.oid
    }
}

/// Whether `d` has the envelope shape the store gives every document it
/// keeps: the identifier and both timestamps first, creation no later
/// than update.
pub open spec fn record_doc_shape(d: DocView) -> bool {
    &&& d.len() >= 3
    &&& d[0].0 == "_id"@
    &&& d[0].1 is Id
    &&& id_bytes_of(d[0].1).len() == 12
    &&& d[1].0 == "created_at"@
    &&& d[1].1 is Instant
    &&& d[2].0 == "updated_at"@
    &&& d[2].1 is Instant
    &&& instant_of(d[1].1) <= instant_of(d[2].1)
}

/// The payload entries of a stored document: everything after the
/// envelope trio.
pub open spec fn record_payload(d: DocView) -> DocView {
    d.subrange(3, d.len() as int)
}

/// Whether `d` decodes as a record of `E`: the envelope shape holds and
/// the payload decodes.
pub open spec fn record_doc_ok<E: Entity>(d: DocView) -> bool {
    record_doc_shape(d) && E::spec_decodable(record_payload(d))
}

/// The stored document with envelope fields `id`, `created`, `updated`
/// and payload `p`.
pub open spec fn record_doc(id: Seq<u8>, created: int, updated: int, p: DocView) -> DocView {
    seq![
        ("_id"@, ValueView::Id(id)),
        ("created_at"@, ValueView::Instant(created)),
        ("updated_at"@, ValueView::Instant(updated)),
    ] + p
}

/// The persisted envelope of one entity value: its identifier, its
/// creation and update instants, and the payload itself. The store sets
/// the identifier and both instants; application code never does.
#[derive(Debug)]
#[verifier::reject_recursive_types(E)]
pub struct Record<E: Entity> {
    id: EntityId<E>,
    created_at: DateTime,
    updated_at: DateTime,
    entity: E,
}

impl<E: Entity> Record<E> {
    /// The identifier's bytes.
    pub closed spec fn spec_id(&self) -> Seq<u8> {
        self.id@
    }

    /// The creation instant.
    pub closed spec fn spec_created_at(&self) -> int {
        self.created_at@
    }

    /// The update instant.
    pub closed spec fn spec_updated_at(&self) -> int {
        self.updated_at@
    }

    /// The payload.
    pub closed spec fn spec_entity(&self) -> E {
        self.entity
    }

    /// A record is well formed when its identifier is and its creation
    /// instant is no later than its update instant.
    pub open spec fn wf(&self) -> bool {
        &&& self.spec_id().len() == 12
        &&& self.spec_created_at() <= self.spec_updated_at()
    }

    /// Builds the envelope; only the store layer has reason to.
    pub(crate) fn assemble(
        id: EntityId<E>,
        created_at: DateTime,
        updated_at: DateTime,
        entity: E,
    ) -> (r: Record<E>)
        requires
            id.wf(),
            created_at@ <= updated_at@,
        ensures
            r.spec_id() == id@,
            r.spec_created_at() == created_at@,
            r.spec_updated_at() == updated_at@,
            r.spec_entity() == entity,
            r.wf(),
    {
        Record { id, created_at, updated_at, entity }
    }

    /// The record's identifier.
    pub fn id(&self) -> (r: &EntityId<E>)
        ensures
            r@ == self.spec_id(),
    {
        &self.id
    }

    /// When the record was created.
    pub fn created_at(&self) -> (r: DateTime)
        ensures
            r@ == self.spec_created_at(),
    {
        self.created_at
    }

    /// When the record was last updated.
    pub fn updated_at(&self) -> (r: DateTime)
        ensures
            r@ == self.spec_updated_at(),
    {
        self.updated_at
    }

    /// The entity payload.
    pub fn entity(&self) -> (r: &E)
        ensures
            *r == self.spec_entity(),
    {
        &self.entity
    }

    /// The stored document this record encodes to.
    pub open spec fn spec_to_document(&self) -> DocView {
        record_doc(
            self.spec_id(),
            self.spec_created_at(),
            self.spec_updated_at(),
            self.spec_entity().spec_encode(),
        )
    }

    /// Encodes the record as the document the store keeps for it.
    pub fn to_document(&self) -> (d: Document)
        requires
            self.wf(),
        ensures
            d@ == self.spec_to_document(),
            d.wf(),
    {
        let mut d = Document::new();
        proof {
            crate::entity::lemma_reserved_distinct();
        }
        let oid = ObjectId::from_bytes(id_bytes_vec(&self.id));
        d.insert("_id".to_owned(), Value::Id(oid));
        d.insert("created_at".to_owned(), Value::Instant(self.created_at));
        d.insert("updated_at".to_owned(), Value::Instant(self.updated_at));
        let payload = self.entity.to_document();
        proof {
            self.entity.lemma_encode_wf();
            assert(d@ =~= record_doc(
                self.spec_id(),
                self.spec_created_at(),
                self.spec_updated_at(),
                payload@.subrange(0, 0),
            ));
        }
        let mut i: usize = 0;
        let n = payload.len();
        while i < n
            invariant
                0 <= i <= n,
                n == payload@.len(),
                payload_wf(payload@),
                d.wf(),
                d@ =~= record_doc(
                    self.spec_id(),
                    self.spec_created_at(),
                    self.spec_updated_at(),
                    payload@.subrange(0, i as int),
                ),
            decreases n - i,
        {
            let (k, v) = payload.entry_at(i);
            proof {
                assert(!crate::entity::reserved_key(payload@[i as int].0));
                reveal_strlit("_id");
                reveal_strlit("created_at");
                reveal_strlit("updated_at");
                assert forall|j: int| 0 <= j < d@.len() implies (#[trigger] d@[j]).0 != k@ by {
                    if j >= 3 {
                        assert(d@[j].0 == payload@[j - 3].0);
                    }
                }
                assert(!crate::document::doc_has_key(d@, k@));
            }
            d.insert(k.clone(), v.duplicate());
            proof {
                assert(d@ =~= record_doc(
                    self.spec_id(),
                    self.spec_created_at(),
                    self.spec_updated_at(),
                    payload@.subrange(0, i as int + 1),
                ));
            }
            i += 1;
        }
        proof {
            assert(payload@.subrange(0, n as int) =~= payload@);
            assert(d@ =~= self.spec_to_document());
        }
        d
    }

    /// Decodes a stored document into a record; a typed error where the
    /// shape is wrong, never a panic.
    pub fn from_document(d: &Document) -> (r: Result<Record<E>, DecodeError>)
        requires
            d.wf(),
        ensures
            r is Ok <==> record_doc_ok::<E>(d@),
            r is Ok ==> {
                &&& r->Ok_0.spec_id() == id_bytes_of(d@[0].1)
                &&& r->Ok_0.spec_created_at() == instant_of(d@[1].1)
                &&& r->Ok_0.spec_updated_at() == instant_of(d@[2].1)
                &&& r->Ok_0.spec_entity().inv()
                &&& r->Ok_0.spec_entity().spec_encode() == E::spec_canon(record_payload(d@))
                &&& r->Ok_0.wf()
            },
    {
        if d.len() < 3 {
            return Err(DecodeError::MissingField("_id".to_owned()));
        }
        let (k0, v0) = d.entry_at(0);
        if !str_eq(k0.as_str(), "_id") {
            return Err(DecodeError::MissingField("_id".to_owned()));
        }
        let oid = match v0 {
            Value::Id(o) => o.duplicate(),
            _ => {
                return Err(DecodeError::WrongType("_id".to_owned()));
            },
        };
        let (k1, v1) = d.entry_at(1);
        if !str_eq(k1.as_str(), "created_at") {
            return Err(DecodeError::MissingField("created_at".to_owned()));
        }
        let created_at = match v1 {
            Value::Instant(t) => *t,
            _ => {
                return Err(DecodeError::WrongType("created_at".to_owned()));
            },
        };
        let (k2, v2) = d.entry_at(2);
        if !str_eq(k2.as_str(), "updated_at") {
            return Err(DecodeError::MissingField("updated_at".to_owned()));
        }
        let updated_at = match v2 {
            Value::Instant(t) => *t,
            _ => {
                return Err(DecodeError::WrongType("updated_at".to_owned()));
            },
        };
        if !created_at.le(&updated_at) {
            return Err(DecodeError::InvalidValue("updated_at".to_owned()));
        }
        let payload = d.tail_from(3);
        proof {
            assert(payload@ =~= record_payload(d@));
            assert forall|i: int, j: int|
                0 <= i < j < payload@.len() implies (#[trigger] payload@[i]).0 != (
            #[trigger] payload@[j]).0 by {
                assert(d@[i + 3].0 == payload@[i].0);
                assert(d@[j + 3].0 == payload@[j].0);
            }
            assert forall|i: int|
                0 <= i < payload@.len() implies crate::document::value_view_wf(
                (#[trigger] payload@[i]).1,
            ) by {
                assert(d@[i + 3].1 == payload@[i].1);
            }
        }
        let entity = match E::from_document(&payload) {
            Ok(e) => e,
            Err(e) => {
                return Err(e);
            },
        };
        proof {
            assert(oid@.len() == 12);
        }
        let id = EntityId::from_object_id(oid.duplicate());
        Ok(Record { id, created_at, updated_at, entity })
    }

    /// The same envelope around a new payload; `save` then makes the
    /// store match it.
    pub fn with_entity(self, entity: E) -> (r: Record<E>)
        ensures
            r.spec_id() == self.spec_id(),
            r.spec_created_at() == self.spec_created_at(),
            r.spec_updated_at() == self.spec_updated_at(),
            r.spec_entity() == entity,
            self.wf() ==> r.wf(),
    {
        Record { id: self.id, created_at: self.created_at, updated_at: self.updated_at, entity }
    }

    /// A copy whose identifier, instants and payload equal this record's.
    pub fn duplicate(&self) -> (r: Record<E>)
        ensures
            r.spec_id() == self.spec_id(),
            r.spec_created_at() == self.spec_created_at(),
            r.spec_updated_at() == self.spec_updated_at(),
            r.spec_entity() == self.spec_entity(),
    {
        Record {
            id: self.id.duplicate(),
            created_at: self.created_at,
            updated_at: self.updated_at,
            entity: self.entity.duplicate(),
        }
    }
}

/// The identifier's bytes as a fresh vector.
fn id_bytes_vec<E>(id: &EntityId<E>) -> (r: Vec<u8>)
    ensures
        r@ == id@,
{
    id.oid.duplicate().into_bytes()
}

} // verus!
