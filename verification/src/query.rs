//! Lazily executed query builders: each one describes a lookup, and
//! executing it against a context runs one store operation and decodes
//! the returned documents into typed records.

use vstd::prelude::*;
use core::marker::PhantomData;
use crate::context::{EntityContext, EntityServices};
use crate::document::{DocView, Document, Value, ValueView};
use crate::entity::{Entity, EntityConditions, EntitySorting};
use crate::record::{
    id_bytes_of, instant_of, record_doc_ok, record_payload, EntityId, Record,
};
use crate::store::{coll_docs, find_spec, run_pipeline, stage_views, PipelineStage, StoreView};
use crate::Error;

verus! {

broadcast use vstd::string::group_string_axioms;

/// What a query selects: records matching typed conditions, or the one
/// record with a given identifier.
#[verifier::reject_recursive_types(E)]
pub enum Selector<E: Entity> {
    /// The records matching the conditions.
    Conditions(E::Conditions),
    /// The record with this identifier.
    Id(EntityId<E>),
}

impl<E: Entity> Selector<E> {
    /// An identifier selector holds twelve bytes, as every constructed
    /// identifier does.
    pub open spec fn wf(&self) -> bool {
        match self {
            Selector::Conditions(_) => true,
            Selector::Id(id) => id.wf(),
        }
    }

    /// The filter document the selector encodes to.
    pub open spec fn spec_doc(&self) -> DocView {
        match self {
            Selector::Conditions(c) => c.spec_into_document(),
            Selector::Id(id) => seq![("_id"@, ValueView::Id(id@))],
        }
    }

    /// Encodes the selector as its filter document.
    fn into_document(self) -> (d: Document)
        requires
            self.wf(),
        ensures
            d@ == self.spec_doc(),
            d.wf(),
    {
        match self {
            Selector::Conditions(c) => c.into_document(),
            Selector::Id(id) => {
                let mut d = Document::new();
                d.insert("_id".to_owned(), Value::Id(id.as_object_id().duplicate()));
                proof {
                    assert(d@ =~= seq![("_id"@, ValueView::Id(id@))]);
                }
                d
            },
        }
    }
}

/// The sort key and direction a sorting descriptor encodes to; none
/// where it leaves the store-defined order.
pub open spec fn sort_spec<T: EntitySorting>(s: Option<T>) -> Option<(Seq<char>, bool)> {
    match s {
        Option::None => None,
        Option::Some(srt) => {
            let d = srt.spec_into_document();
            if d.len() == 1 {
                Some((d[0].0, d[0].1 == ValueView::Int32(1)))
            } else {
                None
            }
        },
    }
}

/// The shape of an encoded sort pair.
pub open spec fn pair_view(r: Option<(String, bool)>) -> Option<(Seq<char>, bool)> {
    match r {
        Option::Some((k, asc)) => Some((k@, asc)),
        Option::None => None,
    }
}

/// Encodes a sorting descriptor as its key and direction.
fn sort_pair<T: EntitySorting>(s: Option<T>) -> (r: Option<(String, bool)>)
    ensures
        pair_view(r) == sort_spec(s),
{
    match s {
        Option::Some(srt) => {
            let d = srt.into_document();
            if d.len() == 1 {
                let (k, v) = d.entry_at(0);
                let asc = match v {
                    Value::Int32(x) => *x == 1,
                    _ => {
                        proof {
                            assert(false);
                        }
                        false
                    },
                };
                Some((k.clone(), asc))
            } else {
                None
            }
        },
        Option::None => None,
    }
}

/// Whether `r` is what `d` decodes to.
pub open spec fn decodes_to<E: Entity>(d: DocView, r: Record<E>) -> bool {
    &&& record_doc_ok::<E>(d)
    &&& r.spec_id() == id_bytes_of(d[0].1)
    &&& r.spec_created_at() == instant_of(d[1].1)
    &&& r.spec_updated_at() == instant_of(d[2].1)
    &&& r.spec_entity().inv()
    &&& r.spec_entity().spec_encode() == E::spec_canon(record_payload(d))
    &&& r.wf()
}

/// What one find against store contents `view` returns, before decoding.
pub open spec fn find_result<E: Entity>(
    view: StoreView,
    sel: Selector<E>,
    sort: Option<(Seq<char>, bool)>,
    limit: Option<int>,
) -> Seq<DocView> {
    find_spec(coll_docs(view, E::spec_name()), sel.spec_doc(), sort, limit)
}

/// Decodes each document into a record; one bad document fails the whole
/// batch, and no partial result escapes.
fn decode_docs<E: Entity>(docs: &Vec<Document>) -> (r: Result<Vec<Record<E>>, Error>)
    requires
        forall|i: int| 0 <= i < docs@.len() ==> (#[trigger] docs@[i]).wf(),
    ensures
        r is Ok <==> (forall|i: int|
            0 <= i < docs@.len() ==> record_doc_ok::<E>((#[trigger] docs@[i])@)),
        r is Ok ==> r->Ok_0@.len() == docs@.len() && (forall|i: int|
            0 <= i < docs@.len() ==> decodes_to(docs@[i]@, #[trigger] r->Ok_0@[i])),
        r is Err ==> (r matches Err(Error::Decode(_))),
{
    let n = docs.len();
    let mut out: Vec<Record<E>> = Vec::new();
    let mut i: usize = 0;
    while i < n
        invariant
            0 <= i <= n,
            n == docs@.len(),
            forall|m: int| 0 <= m < n ==> (#[trigger] docs@[m]).wf(),
            out@.len() == i,
            forall|m: int| 0 <= m < i ==> record_doc_ok::<E>((#[trigger] docs@[m])@),
            forall|m: int| 0 <= m < i ==> decodes_to(docs@[m]@, #[trigger] out@[m]),
        decreases n - i,
    {
        match Record::<E>::from_document(&docs[i]) {
            Ok(rec) => {
                out.push(rec);
            },
            Err(e) => {
                return Err(Error::Decode(e));
            },
        }
        i += 1;
    }
    Ok(out)
}

/// The integer form of an optional length cut.
pub open spec fn limit_spec(l: Option<usize>) -> Option<int> {
    match l {
        Option::Some(x) => Some(x as int),
        Option::None => None,
    }
}

/// Whether every match stage of a pipeline carries a well-formed filter.
pub open spec fn pipeline_wf(p: Seq<PipelineStage>) -> bool {
    forall|i: int| 0 <= i < p.len() ==> ((#[trigger] p[i]) matches PipelineStage::Match(f) ==> f.wf())
}

/// What one aggregation against store contents `view` returns, before
/// decoding.
pub open spec fn aggregate_result<E: Entity>(view: StoreView, pipeline: Seq<PipelineStage>) -> Seq<
    DocView,
> {
    run_pipeline(coll_docs(view, E::spec_name()), stage_views(pipeline))
}

/// A lazily executed query for every record matching a selector, in a
/// chosen order, optionally cut to a length.
#[verifier::reject_recursive_types(E)]
pub struct FindQuery<E: Entity> {
    /// What the query selects.
    pub selector: Selector<E>,
    /// The order records come back in; none leaves the store-defined
    /// (insertion) order.
    pub sorting: Option<E::Sorting>,
    /// How many records to return at most.
    pub limit: Option<usize>,
}

/// A lazily executed query for exactly one record: the first match after
/// sorting. Zero matches fail with `NotFound`; more than one are cut to
/// the first, never an error.
#[verifier::reject_recursive_types(E)]
pub struct FindOneQuery<E: Entity> {
    /// What the query selects.
    pub selector: Selector<E>,
    /// The order that decides which match is first.
    pub sorting: Option<E::Sorting>,
}

/// Like [`FindOneQuery`], but zero matches are an empty result, not an
/// error.
#[verifier::reject_recursive_types(E)]
pub struct MaybeFindOneQuery<E: Entity> {
    /// What the query selects.
    pub selector: Selector<E>,
    /// The order that decides which match is first.
    pub sorting: Option<E::Sorting>,
}

impl<E: Entity> FindQuery<E> {
    /// Whether the query's selector is well formed.
    pub open spec fn wf(&self) -> bool {
        self.selector.wf()
    }

    /// The query for every record matching `conditions`.
    pub fn new(conditions: E::Conditions) -> (q: FindQuery<E>)
        ensures
            q.selector == Selector::<E>::Conditions(conditions),
            q.sorting is None,
            q.limit is None,
            q.wf(),
    {
        FindQuery { selector: Selector::Conditions(conditions), sorting: None, limit: None }
    }

    /// The same query, ordered by `sorting`.
    pub fn sorted_by(self, sorting: E::Sorting) -> (q: FindQuery<E>)
        ensures
            q.selector == self.selector,
            q.sorting == Some(sorting),
            q.limit == self.limit,
    {
        FindQuery { selector: self.selector, sorting: Some(sorting), limit: self.limit }
    }

    /// The same query, cut to the first `limit` records.
    pub fn with_limit(self, limit: usize) -> (q: FindQuery<E>)
        ensures
            q.selector == self.selector,
            q.sorting == self.sorting,
            q.limit == Some(limit),
    {
        FindQuery { selector: self.selector, sorting: self.sorting, limit: Some(limit) }
    }

    /// Runs the query: one store operation, then decoding. A single
    /// undecodable document fails the whole query with a decode error.
    pub fn load<S: EntityServices>(self, ctx: &EntityContext<S>) -> (r: Result<
        Vec<Record<E>>,
        Error,
    >)
        requires
            ctx.inv(),
            self.wf(),
        ensures
            ({
                let docs = find_result(
                    ctx.store_view(),
                    self.selector,
                    sort_spec(self.sorting),
                    limit_spec(self.limit),
                );
                &&& (r is Ok <==> (forall|i: int|
                    0 <= i < docs.len() ==> record_doc_ok::<E>(#[trigger] docs[i])))
                &&& (r is Ok ==> r->Ok_0@.len() == docs.len() && (forall|i: int|
                    0 <= i < docs.len() ==> decodes_to(docs[i], #[trigger] r->Ok_0@[i])))
                &&& (r is Err ==> (r matches Err(Error::Decode(_))))
            }),
    {
        let ghost sel = self.selector;
        let ghost srt = self.sorting;
        let ghost lim = self.limit;
        let FindQuery { selector, sorting, limit } = self;
        let docs = run_find::<E, S>(ctx, selector, sorting, limit);
        proof {
            lemma_views_index(docs@);
        }
        decode_docs(&docs)
    }
}

impl<E: Entity> FindOneQuery<E> {
    /// Whether the query's selector is well formed.
    pub open spec fn wf(&self) -> bool {
        self.selector.wf()
    }

    /// The query for the one record matching `conditions`.
    pub fn new(conditions: E::Conditions) -> (q: FindOneQuery<E>)
        ensures
            q.selector == Selector::<E>::Conditions(conditions),
            q.sorting is None,
            q.wf(),
    {
        FindOneQuery { selector: Selector::Conditions(conditions), sorting: None }
    }

    /// The query for the record with identifier `id`.
    pub fn by_id(id: EntityId<E>) -> (q: FindOneQuery<E>)
        requires
            id.wf(),
        ensures
            q.selector == Selector::<E>::Id(id),
            q.sorting is None,
            q.wf(),
    {
        FindOneQuery { selector: Selector::Id(id), sorting: None }
    }

    /// The same query, ordered by `sorting`; the first record after the
    /// sort is the one returned.
    pub fn sorted_by(self, sorting: E::Sorting) -> (q: FindOneQuery<E>)
        ensures
            q.selector == self.selector,
            q.sorting == Some(sorting),
    {
        FindOneQuery { selector: self.selector, sorting: Some(sorting) }
    }

    /// The same query, with zero matches an empty result instead of an
    /// error.
    pub fn optional(self) -> (q: MaybeFindOneQuery<E>)
        ensures
            q.selector == self.selector,
            q.sorting == self.sorting,
    {
        MaybeFindOneQuery { selector: self.selector, sorting: self.sorting }
    }

    /// Runs the query: the first match after sorting, `NotFound` where
    /// nothing matches, a decode error where the match cannot be decoded.
    pub fn load<S: EntityServices>(self, ctx: &EntityContext<S>) -> (r: Result<Record<E>, Error>)
        requires
            ctx.inv(),
            self.wf(),
        ensures
            ({
                let docs = find_result(
                    ctx.store_view(),
                    self.selector,
                    sort_spec(self.sorting),
                    Some(1int),
                );
                &&& ((r matches Err(Error::NotFound)) <==> docs.len() == 0)
                &&& (r is Ok <==> docs.len() > 0 && record_doc_ok::<E>(docs[0]))
                &&& (r is Ok ==> decodes_to(docs[0], r->Ok_0))
                &&& ((r matches Err(Error::Decode(_))) <==> docs.len() > 0 && !record_doc_ok::<
                E,
                >(docs[0]))
            }),
    {
        let FindOneQuery { selector, sorting } = self;
        let docs = run_find::<E, S>(ctx, selector, sorting, Some(1));
        proof {
            lemma_views_index(docs@);
        }
        if docs.len() == 0 {
            Err(Error::NotFound)
        } else {
            match Record::<E>::from_document(&docs[0]) {
                Ok(rec) => Ok(rec),
                Err(e) => Err(Error::Decode(e)),
            }
        }
    }
}

impl<E: Entity> MaybeFindOneQuery<E> {
    /// Whether the query's selector is well formed.
    pub open spec fn wf(&self) -> bool {
        self.selector.wf()
    }

    /// Runs the query: the first match after sorting, or an empty result
    /// where nothing matches; only a decode failure is an error.
    pub fn load<S: EntityServices>(self, ctx: &EntityContext<S>) -> (r: Result<
        Option<Record<E>>,
        Error,
    >)
        requires
            ctx.inv(),
            self.wf(),
        ensures
            ({
                let docs = find_result(
                    ctx.store_view(),
                    self.selector,
                    sort_spec(self.sorting),
                    Some(1int),
                );
                &&& ((r matches Ok(o) && o is None) <==> docs.len() == 0)
                &&& ((r matches Ok(o) && o is Some) <==> docs.len() > 0 && record_doc_ok::<E>(
                    docs[0],
                ))
                &&& ((r matches Ok(o) && o is Some) ==> decodes_to(docs[0], r->Ok_0->0))
                &&& (r is Err <==> docs.len() > 0 && !record_doc_ok::<E>(docs[0]))
                &&& (r is Err ==> (r matches Err(Error::Decode(_))))
            }),
    {
        let MaybeFindOneQuery { selector, sorting } = self;
        let docs = run_find::<E, S>(ctx, selector, sorting, Some(1));
        proof {
            lemma_views_index(docs@);
        }
        if docs.len() == 0 {
            Ok(None)
        } else {
            match Record::<E>::from_document(&docs[0]) {
                Ok(rec) => Ok(Some(rec)),
                Err(e) => Err(Error::Decode(e)),
            }
        }
    }
}

/// One find against the store: encode the selector and sorting, run it.
fn run_find<E: Entity, S: EntityServices>(
    ctx: &EntityContext<S>,
    selector: Selector<E>,
    sorting: Option<E::Sorting>,
    limit: Option<usize>,
) -> (docs: Vec<Document>)
    requires
        ctx.inv(),
        selector.wf(),
    ensures
        views_of_docs(docs@) =~= find_result(
            ctx.store_view(),
            selector,
            sort_spec(sorting),
            limit_spec(limit),
        ),
        forall|i: int| 0 <= i < docs@.len() ==> (#[trigger] docs@[i]).wf(),
{
    let ghost sel = selector;
    let filter = selector.into_document();
    let pair = sort_pair(sorting);
    let name = E::collection_name();
    let sort_arg: Option<(&str, bool)> = match &pair {
        Option::Some((k, asc)) => Some((k.as_str(), *asc)),
        Option::None => None,
    };
    let docs = ctx.store().find_docs(name.as_str(), &filter, sort_arg, limit);
    proof {
        assert(match sort_arg {
            Option::Some((k, asc)) => Some((k@, asc)),
            Option::None => None::<(Seq<char>, bool)>,
        } == sort_spec(sorting));
        assert(match limit {
            Option::Some(l) => Some(l as int),
            Option::None => None::<int>,
        } == limit_spec(limit));
    }
    docs
}

/// The views of a sequence of documents; how the store reports results.
pub open spec fn views_of_docs(v: Seq<Document>) -> Seq<DocView> {
    crate::order::views_of(v)
}

/// Each view in the sequence is its document's view.
proof fn lemma_views_index(v: Seq<Document>)
    ensures
        views_of_docs(v).len() == v.len(),
        forall|i: int| 0 <= i < v.len() ==> views_of_docs(v)[i] == (#[trigger] v[i])@,
{
}

/// A lazily executed aggregation: a pipeline of stages over one entity's
/// collection, whose final shape must still decode as that entity.
#[verifier::reject_recursive_types(E)]
pub struct AggregateQuery<E: Entity> {
    /// The stages, run in order.
    pub pipeline: Vec<PipelineStage>,
    /// Ties the pipeline to the entity its results decode as.
    pub entity: PhantomData<E>,
}

/// A lazily executed aggregation returning exactly one record: the first
/// the pipeline leaves. Zero fail with `NotFound`.
#[verifier::reject_recursive_types(E)]
pub struct AggregateOneQuery<E: Entity> {
    /// The stages, run in order.
    pub pipeline: Vec<PipelineStage>,
    /// Ties the pipeline to the entity its results decode as.
    pub entity: PhantomData<E>,
}

/// Like [`AggregateOneQuery`], but zero results are an empty result, not
/// an error.
#[verifier::reject_recursive_types(E)]
pub struct MaybeAggregateOneQuery<E: Entity> {
    /// The stages, run in order.
    pub pipeline: Vec<PipelineStage>,
    /// Ties the pipeline to the entity its results decode as.
    pub entity: PhantomData<E>,
}

impl<E: Entity> AggregateQuery<E> {
    /// Whether every match stage carries a well-formed filter.
    pub open spec fn wf(&self) -> bool {
        pipeline_wf(self.pipeline@)
    }

    /// The aggregation running `pipeline` over this entity's collection.
    pub fn new(pipeline: Vec<PipelineStage>) -> (q: AggregateQuery<E>)
        ensures
            q.pipeline == pipeline,
    {
        AggregateQuery { pipeline, entity: PhantomData }
    }

    /// Runs the pipeline and decodes what it leaves. A single
    /// undecodable document fails the whole query with a decode error.
    pub fn load<S: EntityServices>(self, ctx: &EntityContext<S>) -> (r: Result<
        Vec<Record<E>>,
        Error,
    >)
        requires
            ctx.inv(),
            self.wf(),
        ensures
            ({
                let docs = aggregate_result::<E>(ctx.store_view(), self.pipeline@);
                &&& (r is Ok <==> (forall|i: int|
                    0 <= i < docs.len() ==> record_doc_ok::<E>(#[trigger] docs[i])))
                &&& (r is Ok ==> r->Ok_0@.len() == docs.len() && (forall|i: int|
                    0 <= i < docs.len() ==> decodes_to(docs[i], #[trigger] r->Ok_0@[i])))
                &&& (r is Err ==> (r matches Err(Error::Decode(_))))
            }),
    {
        let name = E::collection_name();
        let docs = ctx.store().aggregate_docs(name.as_str(), &self.pipeline);
        proof {
            lemma_views_index(docs@);
        }
        let r = decode_docs(&docs);
        proof {
            let agg = aggregate_result::<E>(ctx.store_view(), self.pipeline@);
            assert(views_of_docs(docs@) == agg);
            if r is Ok {
                assert forall|i: int| 0 <= i < agg.len() implies record_doc_ok::<E>(
                    #[trigger] agg[i],
                ) by {
                    assert(agg[i] == docs@[i]@);
                    assert(record_doc_ok::<E>(docs@[i]@));
                }
                assert forall|i: int| 0 <= i < agg.len() implies decodes_to(
                    agg[i],
                    #[trigger] r->Ok_0@[i],
                ) by {
                    assert(agg[i] == docs@[i]@);
                    assert(decodes_to(docs@[i]@, r->Ok_0@[i]));
                }
            } else {
                assert(!(forall|i: int|
                    0 <= i < docs@.len() ==> record_doc_ok::<E>((#[trigger] docs@[i])@)));
                let w = choose|w: int|
                    0 <= w < docs@.len() && !record_doc_ok::<E>((#[trigger] docs@[w])@);
                assert(agg[w] == docs@[w]@);
                assert(!record_doc_ok::<E>(agg[w]));
            }
        }
        r
    }
}

impl<E: Entity> AggregateOneQuery<E> {
    /// Whether every match stage carries a well-formed filter.
    pub open spec fn wf(&self) -> bool {
        pipeline_wf(self.pipeline@)
    }

    /// The aggregation expecting exactly one result from `pipeline`.
    pub fn new(pipeline: Vec<PipelineStage>) -> (q: AggregateOneQuery<E>)
        ensures
            q.pipeline == pipeline,
    {
        AggregateOneQuery { pipeline, entity: PhantomData }
    }

    /// The same aggregation, with zero results an empty result instead
    /// of an error.
    pub fn optional(self) -> (q: MaybeAggregateOneQuery<E>)
        ensures
            q.pipeline == self.pipeline,
    {
        MaybeAggregateOneQuery { pipeline: self.pipeline, entity: PhantomData }
    }

    /// Runs the pipeline: the first record it leaves, `NotFound` where it
    /// leaves none.
    pub fn load<S: EntityServices>(self, ctx: &EntityContext<S>) -> (r: Result<Record<E>, Error>)
        requires
            ctx.inv(),
            self.wf(),
        ensures
            ({
                let docs = aggregate_result::<E>(ctx.store_view(), self.pipeline@);
                &&& ((r matches Err(Error::NotFound)) <==> docs.len() == 0)
                &&& (r is Ok <==> docs.len() > 0 && record_doc_ok::<E>(docs[0]))
                &&& (r is Ok ==> decodes_to(docs[0], r->Ok_0))
                &&& ((r matches Err(Error::Decode(_))) <==> docs.len() > 0 && !record_doc_ok::<
                E,
                >(docs[0]))
            }),
    {
        let name = E::collection_name();
        let docs = ctx.store().aggregate_docs(name.as_str(), &self.pipeline);
        proof {
            lemma_views_index(docs@);
        }
        if docs.len() == 0 {
            Err(Error::NotFound)
        } else {
            match Record::<E>::from_document(&docs[0]) {
                Ok(rec) => Ok(rec),
                Err(e) => Err(Error::Decode(e)),
            }
        }
    }
}

impl<E: Entity> MaybeAggregateOneQuery<E> {
    /// Whether every match stage carries a well-formed filter.
    pub open spec fn wf(&self) -> bool {
        pipeline_wf(self.pipeline@)
    }

    /// The aggregation expecting at most one result from `pipeline`.
    pub fn new(pipeline: Vec<PipelineStage>) -> (q: MaybeAggregateOneQuery<E>)
        ensures
            q.pipeline == pipeline,
    {
        MaybeAggregateOneQuery { pipeline, entity: PhantomData }
    }

    /// Runs the pipeline: the first record it leaves, or an empty result
    /// where it leaves none.
    pub fn load<S: EntityServices>(self, ctx: &EntityContext<S>) -> (r: Result<
        Option<Record<E>>,
        Error,
    >)
        requires
            ctx.inv(),
            self.wf(),
        ensures
            ({
                let docs = aggregate_result::<E>(ctx.store_view(), self.pipeline@);
                &&& ((r matches Ok(o) && o is None) <==> docs.len() == 0)
                &&& ((r matches Ok(o) && o is Some) <==> docs.len() > 0 && record_doc_ok::<E>(
                    docs[0],
                ))
                &&& ((r matches Ok(o) && o is Some) ==> decodes_to(docs[0], r->Ok_0->0))
                &&& (r is Err <==> docs.len() > 0 && !record_doc_ok::<E>(docs[0]))
                &&& (r is Err ==> (r matches Err(Error::Decode(_))))
            }),
    {
        let name = E::collection_name();
        let docs = ctx.store().aggregate_docs(name.as_str(), &self.pipeline);
        proof {
            lemma_views_index(docs@);
        }
        if docs.len() == 0 {
            Ok(None)
        } else {
            match Record::<E>::from_document(&docs[0]) {
                Ok(rec) => Ok(Some(rec)),
                Err(e) => Err(Error::Decode(e)),
            }
        }
    }
}

} // verus!
