//! The execution environment of the entity layer: a service bundle, a
//! store, and a scoped transaction operation.

use vstd::prelude::*;
use crate::document::DocView;
use crate::entity::Entity;
use crate::record::{record_doc, EntityId, Record};
use crate::store::{coll_docs, coll_has, coll_upsert, has_doc_id, replaced_docs, without_id, Store, StoreView};
use crate::Error;

verus! {

/// The externally supplied bundle a context carries (configuration and
/// the like); the entity layer itself only passes it through.
pub trait EntityServices: Sized {

}

/// The execution environment query builders run against: the service
/// bundle and the store, with transaction scoping. Creating and updating
/// records goes through the context, which lets the store set
/// identifiers and timestamps.
#[derive(Debug)]
pub struct EntityContext<S: EntityServices> {
    services: S,
    store: Store,
    in_transaction: bool,
}

impl<S: EntityServices> EntityContext<S> {
    /// The store's contents.
    pub closed spec fn store_view(&self) -> StoreView {
        self.store@
    }

    /// The context is valid whenever its store is.
    pub closed spec fn inv(&self) -> bool {
        self.store.inv()
    }

    /// Whether the store can still hand out fresh identifiers.
    pub closed spec fn can_insert(&self) -> bool {
        self.store.idspace_ok()
    }

    /// Whether this context runs inside a transaction scope.
    pub closed spec fn spec_in_transaction(&self) -> bool {
        self.in_transaction
    }

    /// The service bundle.
    pub closed spec fn spec_services(&self) -> S {
        self.services
    }

    /// A context over an empty store, outside any transaction.
    pub fn new(services: S) -> (r: EntityContext<S>)
        ensures
            r.inv(),
            r.can_insert(),
            r.store_view() =~= Seq::<(Seq<char>, Seq<DocView>)>::empty(),
            !r.spec_in_transaction(),
            r.spec_services() == services,
    {
        EntityContext { services, store: Store::new(), in_transaction: false }
    }

    /// A context over an existing store, outside any transaction.
    pub fn with_store(services: S, store: Store) -> (r: EntityContext<S>)
        requires
            store.inv(),
        ensures
            r.inv(),
            r.store_view() == store@,
            r.can_insert() == store.idspace_ok(),
            !r.spec_in_transaction(),
            r.spec_services() == services,
    {
        EntityContext { services, store, in_transaction: false }
    }

    /// The service bundle.
    pub fn services(&self) -> (r: &S)
        ensures
            *r == self.spec_services(),
    {
        &self.services
    }

    /// Everything the store holds is well shaped: collection names
    /// unique, every document of the stored form, no identifier shared.
    pub proof fn lemma_view_wf(&self)
        requires
            self.inv(),
        ensures
            crate::store::store_view_wf(self.store_view()),
            crate::store::store_ids_unique(self.store_view()),
    {
        self.store.lemma_inv_view();
    }

    /// The store.
    pub fn store(&self) -> (r: &Store)
        ensures
            r@ == self.store_view(),
            self.inv() ==> r.inv(),
    {
        &self.store
    }

    /// Creates a record of `entity`: the store gives it an identifier no
    /// record of this entity ever had and one instant as both creation
    /// and update time. Fails only when the identifier space is
    /// exhausted.
    pub fn insert<E: Entity>(&mut self, entity: E) -> (r: Result<Record<E>, Error>)
        requires
            old(self).inv(),
        ensures
            final(self).inv(),
            final(self).spec_in_transaction() == old(self).spec_in_transaction(),
            final(self).spec_services() == old(self).spec_services(),
            r is Ok <==> old(self).can_insert(),
            r is Err ==> final(self).store_view() == old(self).store_view() && (r matches Err(
                Error::Store(_),
            )),
            r is Ok ==> {
                &&& r->Ok_0.wf()
                &&& r->Ok_0.spec_entity() == entity
                &&& r->Ok_0.spec_created_at() == r->Ok_0.spec_updated_at()
                &&& !has_doc_id(
                    coll_docs(old(self).store_view(), E::spec_name()),
                    r->Ok_0.spec_id(),
                )
                &&& final(self).store_view() == coll_upsert(
                    old(self).store_view(),
                    E::spec_name(),
                    coll_docs(old(self).store_view(), E::spec_name()).push(
                        record_doc(
                            r->Ok_0.spec_id(),
                            r->Ok_0.spec_created_at(),
                            r->Ok_0.spec_updated_at(),
                            entity.spec_encode(),
                        ),
                    ),
                )
            },
    {
        let payload = entity.to_document();
        proof {
            entity.lemma_encode_wf();
        }
        let name = E::collection_name();
        match self.store.insert_doc(name.as_str(), &payload) {
            Ok((oid, t)) => {
                proof {
                    if has_doc_id(coll_docs(old(self).store_view(), E::spec_name()), oid@) {
                        let w = choose|w: int|
                            crate::store::doc_id_at(
                                coll_docs(old(self).store_view(), E::spec_name()),
                                oid@,
                                w,
                            );
                        assert(false);
                    }
                }
                let id = EntityId::from_object_id(oid);
                Ok(Record::assemble(id, t, t, entity))
            },
            Err(e) => Err(e),
        }
    }

    /// Rewrites the stored payload of `record` from its current entity
    /// value: the identifier and creation instant stay, the update
    /// instant is stamped anew. Returns the record as now stored. Fails
    /// with `NotFound` where the identifier no longer names a stored
    /// record.
    pub fn save<E: Entity>(&mut self, record: &Record<E>) -> (r: Result<Record<E>, Error>)
        requires
            old(self).inv(),
        ensures
            final(self).inv(),
            final(self).spec_in_transaction() == old(self).spec_in_transaction(),
            final(self).spec_services() == old(self).spec_services(),
            r is Ok <==> has_doc_id(
                coll_docs(old(self).store_view(), E::spec_name()),
                record.spec_id(),
            ),
            r is Err ==> final(self).store_view() == old(self).store_view() && (r matches Err(
                Error::NotFound,
            )),
            r is Ok ==> {
                &&& r->Ok_0.wf()
                &&& r->Ok_0.spec_id() == record.spec_id()
                &&& r->Ok_0.spec_entity() == record.spec_entity()
                &&& r->Ok_0.spec_created_at() <= r->Ok_0.spec_updated_at()
                &&& final(self).store_view() == coll_upsert(
                    old(self).store_view(),
                    E::spec_name(),
                    replaced_docs(
                        coll_docs(old(self).store_view(), E::spec_name()),
                        record.spec_id(),
                        r->Ok_0.spec_updated_at(),
                        record.spec_entity().spec_encode(),
                    ),
                )
            },
    {
        let entity = record.entity().duplicate();
        let payload = entity.to_document();
        proof {
            entity.lemma_encode_wf();
        }
        let name = E::collection_name();
        let oid = record.id().as_object_id();
        match self.store.replace_doc(name.as_str(), oid, &payload) {
            Ok((created, updated)) => {
                proof {
                    assert(record.spec_id().len() == 12) by {
                        let cd = coll_docs(old(self).store_view(), E::spec_name());
                        let w = choose|w: int| crate::store::doc_id_at(cd, record.spec_id(), w);
                        old(self).store.lemma_inv_view();
                        let ci = choose|ci: int|
                            crate::store::coll_key_at(
                                old(self).store_view(),
                                E::spec_name(),
                                ci,
                            );
                        assert(crate::document::doc_wf(cd[w]));
                    }
                }
                Ok(Record::assemble(record.id().duplicate(), created, updated, entity))
            },
            Err(e) => Err(e),
        }
    }

    /// Destroys the record `id` names: a later lookup of it returns
    /// nothing, never a stale record. Fails with `NotFound` where no
    /// stored record has the identifier.
    pub fn delete<E: Entity>(&mut self, id: &EntityId<E>) -> (r: Result<(), Error>)
        requires
            old(self).inv(),
        ensures
            final(self).inv(),
            final(self).spec_in_transaction() == old(self).spec_in_transaction(),
            final(self).spec_services() == old(self).spec_services(),
            r is Ok <==> has_doc_id(coll_docs(old(self).store_view(), E::spec_name()), id@),
            r is Err ==> final(self).store_view() == old(self).store_view() && (r matches Err(
                Error::NotFound,
            )),
            r is Ok ==> final(self).store_view() == coll_upsert(
                old(self).store_view(),
                E::spec_name(),
                without_id(coll_docs(old(self).store_view(), E::spec_name()), id@),
            ),
    {
        let name = E::collection_name();
        let hit = self.store.delete_doc(name.as_str(), id.as_object_id());
        if hit {
            Ok(())
        } else {
            proof {
                let oldv = old(self).store_view();
                let n = E::spec_name();
                if coll_has(oldv, n) {
                    let cd = coll_docs(oldv, n);
                    crate::store::lemma_without_id_absent(cd, id@);
                    let w = choose|w: int| crate::store::coll_key_at(oldv, n, w);
                    assert(coll_upsert(oldv, n, without_id(cd, id@)) =~~= oldv);
                } else {
                    assert(coll_docs(oldv, n) =~= Seq::<DocView>::empty());
                }
            }
            Err(Error::NotFound)
        }
    }

    /// Runs the unit of work `f` inside a transaction scope. If `f`
    /// fails, every change it made through the context is rolled back
    /// and its error is handed through unchanged; if it succeeds, its
    /// changes are kept (the in-memory commit itself cannot fail; a
    /// backend whose commit can fail reports that as
    /// `TransactionAborted`). Called inside a transaction scope, it
    /// reuses that scope: it never opens a second, independent
    /// transaction, and leaves rollback to the outermost scope.
    pub fn transact<T, F: FnOnce(EntityContext<S>) -> (EntityContext<S>, Result<T, Error>)>(
        self,
        f: F,
    ) -> (r: (EntityContext<S>, Result<T, Error>))
        requires
            self.inv(),
            forall|c: EntityContext<S>| c.inv() ==> call_requires(f, (c,)),
            forall|c: EntityContext<S>, out: (EntityContext<S>, Result<T, Error>)|
                call_ensures(f, (c,), out) ==> out.0.inv(),
        ensures
            r.0.inv(),
            !self.spec_in_transaction() ==> !r.0.spec_in_transaction(),
            !self.spec_in_transaction() && r.1 is Err ==> r.0.store_view()
                == self.store_view(),
            exists|c: EntityContext<S>, mid: EntityContext<S>|
                {
                    &&& c.inv()
                    &&& c.store_view() == self.store_view()
                    &&& c.spec_in_transaction()
                    &&& c.spec_services() == self.spec_services()
                    &&& #[trigger] call_ensures(f, (c,), (mid, r.1))
                    &&& ((r.1 is Ok || self.spec_in_transaction()) ==> r.0.store_view()
                        == mid.store_view())
                },
    {
        let in_txn = self.in_transaction;
        let snap = if !in_txn {
            Some(self.store.snapshot())
        } else {
            None
        };
        let EntityContext { services, store, in_transaction: _ } = self;
        let arg = EntityContext { services, store, in_transaction: true };
        let ghost arg0 = arg;
        proof {
            assert(arg0.inv());
        }
        let (mut mid, res) = f(arg);
        let ghost mid0 = mid;
        if !in_txn {
            mid.in_transaction = false;
            if res.is_err() {
                match snap {
                    Some(s) => {
                        mid.store = s;
                    },
                    None => {},
                }
            }
        }
        proof {
            assert(call_ensures(f, (arg0,), (mid0, res)));
            if res is Ok || in_txn {
                assert(mid.store_view() == mid0.store_view());
            }
        }
        (mid, res)
    }
}

} // verus!
