//! The capability contract every persisted type implements: a stable
//! collection name, a document codec, and typed condition and sorting
//! vocabularies bound at compile time.

use vstd::prelude::*;
use crate::document::{doc_wf, DocView, Document, Value, ValueView};
use crate::DecodeError;

verus! {

broadcast use vstd::string::group_string_axioms;

/// The direction of a sort order.
#[derive(Debug, Clone, Copy, PartialEq, Eq, Structural)]
pub enum SortingDirection {
    /// Smallest first.
    Ascending,
    /// Largest first.
    Descending,
}

impl SortingDirection {
    /// The value a direction encodes to: `1` ascending, `-1` descending.
    pub open spec fn spec_value(self) -> ValueView {
        match self {
            SortingDirection::Ascending => ValueView::Int32(1),
            SortingDirection::Descending => ValueView::Int32(-1),
        }
    }

    /// Encodes the direction as its native value.
    pub fn to_value(self) -> (v: Value)
        ensures
            v@ == self.spec_value(),
            v.wf(),
    {
        match self {
            SortingDirection::Ascending => Value::Int32(1),
            SortingDirection::Descending => Value::Int32(-1),
        }
    }
}

/// Whether `k` is one of the keys the store itself writes on every
/// document; entity payloads must keep clear of them.
pub open spec fn reserved_key(k: Seq<char>) -> bool {
    k == "_id"@ || k == "created_at"@ || k == "updated_at"@
}

/// The three reserved keys are distinct, and each is reserved.
pub proof fn lemma_reserved_distinct()
    ensures
        "_id"@ != "created_at"@,
        "_id"@ != "updated_at"@,
        "created_at"@ != "updated_at"@,
        reserved_key("_id"@),
        reserved_key("created_at"@),
        reserved_key("updated_at"@),
{
    reveal_strlit("_id");
    reveal_strlit("created_at");
    reveal_strlit("updated_at");
    assert("_id"@.len() == 3);
    assert("created_at"@.len() == 10);
    assert("updated_at"@.len() == 10);
    assert("created_at"@[0] == 'c');
    assert("updated_at"@[0] == 'u');
}

/// Whether `d` is fit to be an entity payload: well formed and free of
/// reserved keys.
pub open spec fn payload_wf(d: DocView) -> bool {
    &&& doc_wf(d)
    &&& forall|i: int| 0 <= i < d.len() ==> !reserved_key((#[trigger] d[i]).0)
}

/// Whether `d` has the shape a sorting descriptor encodes to: empty
/// (store-defined order) or a single key mapped to `1` or `-1`.
pub open spec fn sorting_doc_wf(d: DocView) -> bool {
    &&& doc_wf(d)
    &&& d.len() <= 1
    &&& d.len() == 1 ==> (d[0].1 == ValueView::Int32(1) || d[0].1 == ValueView::Int32(-1))
}

/// A typed predicate over one entity's documents. Each field is
/// independently present or absent; an absent field constrains nothing.
pub trait EntityConditions: Sized {
    /// The query document the conditions encode to.
    spec fn spec_into_document(self) -> DocView;

    /// Encodes the conditions as a native query document, inserting only
    /// the present fields.
    fn into_document(self) -> (d: Document)
        ensures
            d@ == self.spec_into_document(),
            d.wf(),
    ;
}

/// A typed ordering directive over one entity's sortable fields.
pub trait EntitySorting: Sized {
    /// The sort document the directive encodes to.
    spec fn spec_into_document(self) -> DocView;

    /// Encodes the directive as a native sort document: one key mapped to
    /// `1` (ascending) or `-1` (descending), or empty for store-defined
    /// order.
    fn into_document(self) -> (d: Document)
        ensures
            d@ == self.spec_into_document(),
            sorting_doc_wf(d@),
    ;
}

/// The marker conditions that constrain nothing: they encode to the empty
/// document and match every record.
#[derive(Debug, Clone, Copy, PartialEq, Eq, Structural)]
pub struct EmptyConditions;

impl EntityConditions for EmptyConditions {
    open spec fn spec_into_document(self) -> DocView {
        Seq::empty()
    }

    fn into_document(self) -> (d: Document) {
        let d = Document::new();
        proof {
            assert(d@ =~= self.spec_into_document());
        }
        d
    }
}

/// The marker sorting that prescribes nothing: it encodes to the empty
/// document and leaves the store-defined order.
#[derive(Debug, Clone, Copy, PartialEq, Eq, Structural)]
pub struct EmptySorting;

impl EntitySorting for EmptySorting {
    open spec fn spec_into_document(self) -> DocView {
        Seq::empty()
    }

    fn into_document(self) -> (d: Document) {
        let d = Document::new();
        proof {
            assert(d@ =~= self.spec_into_document());
        }
        d
    }
}

/// A persisted domain type: named, codable, and bound to its query
/// vocabulary. The conditions and sorting types are associated, so one
/// entity's vocabulary cannot be used against another entity.
pub trait Entity: Sized {
    /// The typed predicate vocabulary of this entity.
    type Conditions: EntityConditions;

    /// The typed ordering vocabulary of this entity.
    type Sorting: EntitySorting;

    /// The stable collection name.
    spec fn spec_name() -> Seq<char>;

    /// The entity's own invariant: what its typed fields guarantee of
    /// their contents. Decoded entities satisfy it, and encodings of
    /// entities that satisfy it decode.
    spec fn inv(&self) -> bool;

    /// The document this entity value encodes to.
    spec fn spec_encode(&self) -> DocView;

    /// Whether a payload document has the shape and content that decode
    /// as this entity.
    spec fn spec_decodable(d: DocView) -> bool;

    /// The encoding of what a decodable payload decodes to: the payload
    /// brought to the encoder's own field order.
    spec fn spec_canon(d: DocView) -> DocView;

    /// The collection name is never empty.
    proof fn lemma_name_nonempty()
        ensures
            Self::spec_name().len() > 0,
    ;

    /// Every encoding is a well-formed payload.
    proof fn lemma_encode_wf(&self)
        ensures
            payload_wf(self.spec_encode()),
    ;

    /// The encoding of a valid entity decodes, and is its own canonical
    /// form.
    proof fn lemma_decode_encode(&self)
        requires
            self.inv(),
        ensures
            Self::spec_decodable(self.spec_encode()),
            Self::spec_canon(self.spec_encode()) == self.spec_encode(),
    ;

    /// The stable collection name.
    fn collection_name() -> (r: String)
        ensures
            r@ == Self::spec_name(),
    ;

    /// Encodes the entity as its payload document.
    fn to_document(&self) -> (d: Document)
        ensures
            d@ == self.spec_encode(),
    ;

    /// Decodes a payload document; a typed error where the shape is
    /// wrong, never a panic.
    fn from_document(d: &Document) -> (r: Result<Self, DecodeError>)
        requires
            d.wf(),
        ensures
            r is Ok <==> Self::spec_decodable(d@),
            r is Ok ==> r->Ok_0.inv() && r->Ok_0.spec_encode() == Self::spec_canon(d@),
    ;

    /// An identical copy.
    fn duplicate(&self) -> (r: Self)
        ensures
            r == *self,
    ;
}

} // verus!
