//! The user entity: a handle, a display name, an email address and a
//! phone number, with its typed conditions and sort orders.

use vstd::prelude::*;
use crate::document::{
    doc_get, doc_has_key, DocView, Document, Value, ValueView, lemma_doc_get_at,
};
use crate::entity::{
    payload_wf, reserved_key, Entity, EntityConditions, EntitySorting, SortingDirection,
};
use crate::query::{FindOneQuery, FindQuery, Selector};
use crate::record::EntityId;
use crate::scalars::{valid_email, valid_handle, valid_phone, Email, Handle, Phone};
use crate::DecodeError;

verus! {

broadcast use vstd::string::group_string_axioms;

/// The typed identifier of a stored user.
pub type UserId = EntityId<User>;

/// A user: handle, display name, email address and phone number.
#[derive(Debug)]
pub struct User {
    /// The unique short name the user goes by.
    pub handle: Handle,
    /// The display name.
    pub name: String,
    /// The email address.
    pub email: Email,
    /// The phone number.
    pub phone: Phone,
}

/// The string bound to `k` in `d`, if `d` binds `k` to a string.
pub open spec fn str_field(d: DocView, k: Seq<char>) -> Option<Seq<char>> {
    match doc_get(d, k) {
        Some(v) => match v {
            ValueView::Str(s) => Some(s),
            _ => None,
        },
        None => None,
    }
}

/// The four user keys are distinct, and none is reserved.
proof fn lemma_user_keys()
    ensures
        "handle"@ != "name"@,
        "handle"@ != "email"@,
        "handle"@ != "phone"@,
        "name"@ != "email"@,
        "name"@ != "phone"@,
        "email"@ != "phone"@,
        !reserved_key("handle"@),
        !reserved_key("name"@),
        !reserved_key("email"@),
        !reserved_key("phone"@),
{
    reveal_strlit("handle");
    reveal_strlit("name");
    reveal_strlit("email");
    reveal_strlit("phone");
    reveal_strlit("_id");
    reveal_strlit("created_at");
    reveal_strlit("updated_at");
    assert("handle"@.len() == 6);
    assert("name"@.len() == 4);
    assert("email"@.len() == 5);
    assert("phone"@.len() == 5);
    assert("_id"@.len() == 3);
    assert("created_at"@.len() == 10);
    assert("updated_at"@.len() == 10);
    assert("email"@[0] == 'e');
    assert("phone"@[0] == 'p');
}

impl Entity for User {
    type Conditions = UserConditions;

    type Sorting = UserSorting;

    open spec fn spec_name() -> Seq<char> {
        "User"@
    }

    open spec fn inv(&self) -> bool {
        &&& valid_handle(self.handle@)
        &&& valid_email(self.email@)
        &&& valid_phone(self.phone@)
    }

    open spec fn spec_encode(&self) -> DocView {
        seq![
            ("handle"@, ValueView::Str(self.handle@)),
            ("name"@, ValueView::Str(self.name@)),
            ("email"@, ValueView::Str(self.email@)),
            ("phone"@, ValueView::Str(self.phone@)),
        ]
    }

    open spec fn spec_decodable(d: DocView) -> bool {
        &&& (str_field(d, "handle"@) matches Some(s) && valid_handle(s))
        &&& str_field(d, "name"@) is Some
        &&& (str_field(d, "email"@) matches Some(s) && valid_email(s))
        &&& (str_field(d, "phone"@) matches Some(s) && valid_phone(s))
    }

    open spec fn spec_canon(d: DocView) -> DocView {
        seq![
            ("handle"@, ValueView::Str(str_field(d, "handle"@)->0)),
            ("name"@, ValueView::Str(str_field(d, "name"@)->0)),
            ("email"@, ValueView::Str(str_field(d, "email"@)->0)),
            ("phone"@, ValueView::Str(str_field(d, "phone"@)->0)),
        ]
    }

    proof fn lemma_name_nonempty() {
        reveal_strlit("User");
        assert("User"@.len() == 4);
    }

    proof fn lemma_encode_wf(&self) {
        lemma_user_keys();
        let d = self.spec_encode();
        assert forall|i: int| 0 <= i < d.len() implies !reserved_key((#[trigger] d[i]).0) by {
            assert(d[i].0 == "handle"@ || d[i].0 == "name"@ || d[i].0 == "email"@ || d[i].0
                == "phone"@);
        }
    }

    proof fn lemma_decode_encode(&self) {
        lemma_user_keys();
        let d = self.spec_encode();
        lemma_doc_get_at(d, 0);
        lemma_doc_get_at(d, 1);
        lemma_doc_get_at(d, 2);
        lemma_doc_get_at(d, 3);
        assert(Self::spec_canon(d) =~= d);
    }

    fn collection_name() -> (r: String) {
        "User".to_owned()
    }

    fn to_document(&self) -> (d: Document) {
        proof {
            lemma_user_keys();
        }
        let mut d = Document::new();
        d.insert("handle".to_owned(), Value::Str(self.handle.duplicate().into_string()));
        d.insert("name".to_owned(), Value::Str(self.name.clone()));
        d.insert("email".to_owned(), Value::Str(self.email.duplicate().into_string()));
        d.insert("phone".to_owned(), Value::Str(self.phone.duplicate().into_string()));
        proof {
            assert(d@ =~= self.spec_encode());
        }
        d
    }

    fn from_document(d: &Document) -> (r: Result<User, DecodeError>) {
        let handle = match d.get("handle") {
            Some(v) => match v {
                Value::Str(s) => match Handle::parse(s.clone()) {
                    Some(h) => h,
                    None => {
                        return Err(DecodeError::InvalidValue("handle".to_owned()));
                    },
                },
                _ => {
                    return Err(DecodeError::WrongType("handle".to_owned()));
                },
            },
            None => {
                return Err(DecodeError::MissingField("handle".to_owned()));
            },
        };
        let name = match d.get("name") {
            Some(v) => match v {
                Value::Str(s) => s.clone(),
                _ => {
                    return Err(DecodeError::WrongType("name".to_owned()));
                },
            },
            None => {
                return Err(DecodeError::MissingField("name".to_owned()));
            },
        };
        let email = match d.get("email") {
            Some(v) => match v {
                Value::Str(s) => match Email::parse(s.clone()) {
                    Some(e) => e,
                    None => {
                        return Err(DecodeError::InvalidValue("email".to_owned()));
                    },
                },
                _ => {
                    return Err(DecodeError::WrongType("email".to_owned()));
                },
            },
            None => {
                return Err(DecodeError::MissingField("email".to_owned()));
            },
        };
        let phone = match d.get("phone") {
            Some(v) => match v {
                Value::Str(s) => match Phone::parse(s.clone()) {
                    Some(p) => p,
                    None => {
                        return Err(DecodeError::InvalidValue("phone".to_owned()));
                    },
                },
                _ => {
                    return Err(DecodeError::WrongType("phone".to_owned()));
                },
            },
            None => {
                return Err(DecodeError::MissingField("phone".to_owned()));
            },
        };
        let u = User { handle, name, email, phone };
        proof {
            assert(u.spec_encode() =~= Self::spec_canon(d@));
        }
        Ok(u)
    }

    fn duplicate(&self) -> (r: User) {
        User {
            handle: self.handle.duplicate(),
            name: self.name.clone(),
            email: self.email.duplicate(),
            phone: self.phone.duplicate(),
        }
    }
}

impl User {
    /// A builder for every user matching `conditions`.
    pub fn find(conditions: UserConditions) -> (q: FindQuery<User>)
        ensures
            q.selector == Selector::<User>::Conditions(conditions),
            q.sorting is None,
            q.limit is None,
            q.wf(),
    {
        FindQuery::new(conditions)
    }

    /// A builder for the one user matching `conditions`.
    pub fn find_one(conditions: UserConditions) -> (q: FindOneQuery<User>)
        ensures
            q.selector == Selector::<User>::Conditions(conditions),
            q.sorting is None,
            q.wf(),
    {
        FindOneQuery::new(conditions)
    }

    /// A builder for the user with identifier `id`.
    pub fn get(id: UserId) -> (q: FindOneQuery<User>)
        requires
            id.wf(),
        ensures
            q.selector == Selector::<User>::Id(id),
            q.sorting is None,
            q.wf(),
    {
        FindOneQuery::by_id(id)
    }

    /// A builder running an aggregation pipeline over the user
    /// collection.
    pub fn aggregate(pipeline: Vec<crate::store::PipelineStage>) -> (q: crate::query::AggregateQuery<User>)
        ensures
            q.pipeline == pipeline,
    {
        crate::query::AggregateQuery::new(pipeline)
    }

    /// A builder for the one user with email address `email`.
    pub fn find_by_email(email: Email) -> (q: FindOneQuery<User>)
        ensures
            q.selector == (Selector::<User>::Conditions(
                UserConditions { email: Some(email), phone: None },
            )),
            q.sorting is None,
            q.wf(),
    {
        User::find_one(UserConditions { email: Some(email), phone: None })
    }
}

/// The optional-field predicate over users: each field present or
/// absent, an absent field constraining nothing.
#[derive(Debug)]
pub struct UserConditions {
    /// Matches users with exactly this email address.
    pub email: Option<Email>,
    /// Matches users with exactly this phone number.
    pub phone: Option<Phone>,
}

impl UserConditions {
    /// Conditions matching every user.
    pub fn any() -> (r: UserConditions)
        ensures
            r.email is None,
            r.phone is None,
    {
        UserConditions { email: None, phone: None }
    }

    /// The same conditions, also requiring this email address.
    pub fn with_email(self, email: Email) -> (r: UserConditions)
        ensures
            r.email == Some(email),
            r.phone == self.phone,
    {
        UserConditions { email: Some(email), phone: self.phone }
    }

    /// The same conditions, also requiring this phone number.
    pub fn with_phone(self, phone: Phone) -> (r: UserConditions)
        ensures
            r.email == self.email,
            r.phone == Some(phone),
    {
        UserConditions { email: self.email, phone: Some(phone) }
    }
}

impl EntityConditions for UserConditions {
    open spec fn spec_into_document(self) -> DocView {
        let base = Seq::<(Seq<char>, ValueView)>::empty();
        let with_email = if self.email is Some {
            base.push(("email"@, ValueView::Str(self.email->0@)))
        } else {
            base
        };
        if self.phone is Some {
            with_email.push(("phone"@, ValueView::Str(self.phone->0@)))
        } else {
            with_email
        }
    }

    fn into_document(self) -> (d: Document) {
        proof {
            lemma_user_keys();
        }
        let UserConditions { email, phone } = self;
        let mut d = Document::new();
        match email {
            Some(email) => {
                d.insert("email".to_owned(), Value::Str(email.into_string()));
            },
            None => {},
        }
        match phone {
            Some(phone) => {
                proof {
                    if doc_has_key(d@, "phone"@) {
                        let w = choose|w: int| crate::document::doc_key_at(d@, "phone"@, w);
                    }
                }
                d.insert("phone".to_owned(), Value::Str(phone.into_string()));
            },
            None => {},
        }
        proof {
            assert(d@ =~= self.spec_into_document());
        }
        d
    }
}

/// The sort orders a user query can ask for.
#[derive(Debug, Clone, Copy, PartialEq, Eq, Structural)]
pub enum UserSorting {
    /// By display name, in the given direction.
    Name(SortingDirection),
}

impl EntitySorting for UserSorting {
    open spec fn spec_into_document(self) -> DocView {
        match self {
            UserSorting::Name(direction) => seq![("name"@, direction.spec_value())],
        }
    }

    fn into_document(self) -> (d: Document) {
        let mut d = Document::new();
        match self {
            UserSorting::Name(direction) => {
                d.insert("name".to_owned(), direction.to_value());
            },
        }
        proof {
            assert(d@ =~= self.spec_into_document());
        }
        d
    }
}

} // verus!
