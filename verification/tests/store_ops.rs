//! The entity context and query builders, run against the store on
//! concrete scenarios.

use template_api::context::EntityContext;
use template_api::document::Value;
use template_api::entity::{
    EmptyConditions, EmptySorting, EntityConditions, EntitySorting, SortingDirection,
};
use template_api::record::Record;
use template_api::services::{Config, Services, Settings};
use template_api::store::PipelineStage;
use template_api::user::{User, UserConditions, UserSorting};
use template_api::Error;
use url::Url;

fn services() -> Services {
    let settings = Settings::new(
        Url::parse("http://localhost:3000").unwrap(),
        Url::parse("https://api.example.com").unwrap(),
        Url::parse("http://localhost:8080").unwrap(),
        Url::parse("https://www.example.com").unwrap(),
    );
    Services::new(Config { settings })
}

fn context() -> EntityContext<Services> {
    EntityContext::new(services())
}

fn user(handle: &str, name: &str, email: &str, phone: &str) -> User {
    User {
        handle: template_api::scalars::Handle::parse(handle.to_owned()).unwrap(),
        name: name.to_owned(),
        email: template_api::scalars::Email::parse(email.to_owned()).unwrap(),
        phone: template_api::scalars::Phone::parse(phone.to_owned()).unwrap(),
    }
}

fn ada() -> User {
    user("ada", "Ada Lovelace", "a@example.com", "+15550100100")
}

fn grace() -> User {
    user("grace", "Grace Hopper", "g@example.com", "+15550100101")
}

fn edsger() -> User {
    user("edsger", "Edsger Dijkstra", "e@example.com", "+15550100102")
}

#[test]
fn get_after_insert_returns_the_record() {
    let mut ctx = context();
    let rec = ctx.insert(ada()).unwrap();
    let got = User::get(rec.id().duplicate()).load(&ctx).unwrap();
    assert!(got.id().same_as(rec.id()));
    assert_eq!(got.entity().handle.as_str(), "ada");
    assert_eq!(got.entity().name, "Ada Lovelace");
    assert_eq!(got.entity().email.as_str(), "a@example.com");
    assert_eq!(got.entity().phone.as_str(), "+15550100100");
    assert_eq!(
        got.created_at().timestamp_millis(),
        rec.created_at().timestamp_millis()
    );
}

#[test]
fn timestamps_are_ordered() {
    let mut ctx = context();
    let rec = ctx.insert(ada()).unwrap();
    assert!(rec.created_at().le(&rec.updated_at()));
    let created_first = rec.created_at().timestamp_millis();
    let updated = ctx
        .save(&rec.with_entity(user(
            "ada",
            "Ada King",
            "a@example.com",
            "+15550100100",
        )))
        .unwrap();
    assert!(updated.created_at().le(&updated.updated_at()));
    assert_eq!(updated.created_at().timestamp_millis(), created_first);
    let got = User::get(updated.id().duplicate()).load(&ctx).unwrap();
    assert_eq!(got.entity().name, "Ada King");
    assert!(got.created_at().le(&got.updated_at()));
}

#[test]
fn empty_conditions_match_everything() {
    let mut ctx = context();
    ctx.insert(ada()).unwrap();
    ctx.insert(grace()).unwrap();
    ctx.insert(edsger()).unwrap();
    let conditions = UserConditions::any();
    assert!(conditions.email.is_none() && conditions.phone.is_none());
    let all = User::find(conditions).load(&ctx).unwrap();
    assert_eq!(all.len(), 3);
}

#[test]
fn present_conditions_restrict() {
    let mut ctx = context();
    ctx.insert(ada()).unwrap();
    ctx.insert(grace()).unwrap();
    let email = template_api::scalars::Email::parse("g@example.com".to_owned()).unwrap();
    let only = User::find(UserConditions {
        email: Some(email),
        phone: None,
    })
    .load(&ctx)
    .unwrap();
    assert_eq!(only.len(), 1);
    assert_eq!(only[0].entity().handle.as_str(), "grace");
}

#[test]
fn find_by_email_scenario() {
    let mut ctx = context();
    let inserted = ctx.insert(ada()).unwrap();
    let email = template_api::scalars::Email::parse("a@example.com".to_owned()).unwrap();
    let found = User::find_by_email(email).load(&ctx).unwrap();
    assert!(found.id().same_as(inserted.id()));
    assert_eq!(found.entity().email.as_str(), "a@example.com");

    let other = template_api::scalars::Email::parse("b@example.com".to_owned()).unwrap();
    match User::find_by_email(other).load(&ctx) {
        Err(Error::NotFound) => {}
        other => panic!("expected a not-found failure, got {:?}", other.map(|_| ())),
    }
}

#[test]
fn maybe_find_one_turns_not_found_into_none() {
    let mut ctx = context();
    ctx.insert(ada()).unwrap();
    let missing = template_api::scalars::Email::parse("b@example.com".to_owned()).unwrap();
    let nothing = User::find_by_email(missing).optional().load(&ctx).unwrap();
    assert!(nothing.is_none());
    let there = template_api::scalars::Email::parse("a@example.com".to_owned()).unwrap();
    let some = User::find_by_email(there).optional().load(&ctx).unwrap();
    assert!(some.is_some());
}

#[test]
fn sorting_orders_records() {
    let mut ctx = context();
    ctx.insert(grace()).unwrap();
    ctx.insert(ada()).unwrap();
    ctx.insert(edsger()).unwrap();
    let up = User::find(UserConditions::any())
        .sorted_by(UserSorting::Name(SortingDirection::Ascending))
        .load(&ctx)
        .unwrap();
    let names: Vec<&str> = up.iter().map(|r| r.entity().name.as_str()).collect();
    assert_eq!(names, vec!["Ada Lovelace", "Edsger Dijkstra", "Grace Hopper"]);
    let down = User::find(UserConditions::any())
        .sorted_by(UserSorting::Name(SortingDirection::Descending))
        .load(&ctx)
        .unwrap();
    let names: Vec<&str> = down.iter().map(|r| r.entity().name.as_str()).collect();
    assert_eq!(names, vec!["Grace Hopper", "Edsger Dijkstra", "Ada Lovelace"]);
}

#[test]
fn find_one_picks_first_after_sort() {
    let mut ctx = context();
    ctx.insert(grace()).unwrap();
    ctx.insert(ada()).unwrap();
    let first = User::find_one(UserConditions::any())
        .sorted_by(UserSorting::Name(SortingDirection::Ascending))
        .load(&ctx)
        .unwrap();
    assert_eq!(first.entity().name, "Ada Lovelace");
}

#[test]
fn limit_cuts_the_result() {
    let mut ctx = context();
    ctx.insert(ada()).unwrap();
    ctx.insert(grace()).unwrap();
    ctx.insert(edsger()).unwrap();
    let two = User::find(UserConditions::any())
        .with_limit(2)
        .load(&ctx)
        .unwrap();
    assert_eq!(two.len(), 2);
    let many = User::find(UserConditions::any())
        .with_limit(10)
        .load(&ctx)
        .unwrap();
    assert_eq!(many.len(), 3);
}

#[test]
fn delete_makes_lookups_fail() {
    let mut ctx = context();
    let rec = ctx.insert(ada()).unwrap();
    let id = rec.id().duplicate();
    ctx.delete::<User>(&id).unwrap();
    match User::get(id.duplicate()).load(&ctx) {
        Err(Error::NotFound) => {}
        other => panic!("expected a not-found failure, got {:?}", other.map(|_| ())),
    }
    match ctx.delete::<User>(&id) {
        Err(Error::NotFound) => {}
        other => panic!("expected a not-found failure, got {:?}", other),
    }
}

#[test]
fn save_of_a_deleted_record_fails() {
    let mut ctx = context();
    let rec = ctx.insert(ada()).unwrap();
    ctx.delete::<User>(&rec.id().duplicate()).unwrap();
    match ctx.save(&rec) {
        Err(Error::NotFound) => {}
        other => panic!("expected a not-found failure, got {:?}", other.map(|_| ())),
    }
}

#[test]
fn aggregation_pipeline_runs_in_order() {
    let mut ctx = context();
    ctx.insert(grace()).unwrap();
    ctx.insert(ada()).unwrap();
    ctx.insert(edsger()).unwrap();
    let pipeline = vec![
        PipelineStage::Sort("name".to_owned(), SortingDirection::Descending),
        PipelineStage::Limit(2),
    ];
    let top = User::aggregate(pipeline).load(&ctx).unwrap();
    let names: Vec<&str> = top.iter().map(|r| r.entity().name.as_str()).collect();
    assert_eq!(names, vec!["Grace Hopper", "Edsger Dijkstra"]);
}

#[test]
fn aggregation_match_stage_filters() {
    let mut ctx = context();
    ctx.insert(ada()).unwrap();
    ctx.insert(grace()).unwrap();
    let mut filter = template_api::document::Document::new();
    filter.insert(
        "email".to_owned(),
        template_api::document::Value::Str("g@example.com".to_owned()),
    );
    let pipeline = vec![PipelineStage::Match(filter)];
    let one =
        template_api::query::AggregateOneQuery::<User>::new(pipeline).load(&ctx).unwrap();
    assert_eq!(one.entity().handle.as_str(), "grace");

    let mut none_filter = template_api::document::Document::new();
    none_filter.insert(
        "email".to_owned(),
        template_api::document::Value::Str("nobody@example.com".to_owned()),
    );
    let none = template_api::query::AggregateOneQuery::<User>::new(vec![PipelineStage::Match(
        none_filter,
    )])
    .optional()
    .load(&ctx)
    .unwrap();
    assert!(none.is_none());
}

#[test]
fn rolled_back_insert_is_invisible() {
    let mut ctx = context();
    ctx.insert(grace()).unwrap();
    let (ctx, result): (_, Result<(), Error>) = ctx.transact(|mut inner| {
        let rec = inner.insert(ada()).unwrap();
        let id = rec.id().duplicate();
        // The insert is visible inside the transaction scope.
        assert!(User::get(id).load(&inner).is_ok());
        (inner, Err(Error::Store("abort the unit of work".to_owned())))
    });
    assert!(result.is_err());
    // After rollback, only the record from before the transaction remains.
    let all = User::find(UserConditions::any()).load(&ctx).unwrap();
    assert_eq!(all.len(), 1);
    assert_eq!(all[0].entity().handle.as_str(), "grace");
}

#[test]
fn committed_insert_stays_visible() {
    let ctx = context();
    let (ctx, result): (_, Result<Record<User>, Error>) = ctx.transact(|mut inner| {
        let r = inner.insert(ada());
        (inner, r)
    });
    let rec = result.unwrap();
    let got = User::get(rec.id().duplicate()).load(&ctx).unwrap();
    assert!(got.id().same_as(rec.id()));
}

#[test]
fn nested_transact_reuses_the_scope() {
    let ctx = context();
    let (ctx, result): (_, Result<(), Error>) = ctx.transact(|inner| {
        // The inner transact reuses the open scope: its error does not
        // roll back on its own, the outermost scope decides.
        let (inner, nested): (_, Result<(), Error>) = inner.transact(|mut innermost| {
            innermost.insert(ada()).unwrap();
            (innermost, Err(Error::Store("inner failure".to_owned())))
        });
        assert!(nested.is_err());
        // The inner insert is still visible inside the outer scope.
        let seen = User::find(UserConditions::any()).load(&inner).unwrap();
        assert_eq!(seen.len(), 1);
        (inner, Ok(()))
    });
    assert!(result.is_ok());
    let all = User::find(UserConditions::any()).load(&ctx).unwrap();
    assert_eq!(all.len(), 1);
}

#[test]
fn fluent_conditions_and_both_fields() {
    let mut ctx = context();
    ctx.insert(ada()).unwrap();
    ctx.insert(grace()).unwrap();
    let email = template_api::scalars::Email::parse("a@example.com".to_owned()).unwrap();
    let phone = template_api::scalars::Phone::parse("+15550100100".to_owned()).unwrap();
    let both = UserConditions::any().with_email(email).with_phone(phone);
    let found = User::find(both).load(&ctx).unwrap();
    assert_eq!(found.len(), 1);
    assert_eq!(found[0].entity().handle.as_str(), "ada");

    // Matching email but mismatching phone: both fields constrain.
    let email = template_api::scalars::Email::parse("a@example.com".to_owned()).unwrap();
    let phone = template_api::scalars::Phone::parse("+15550100999".to_owned()).unwrap();
    let none = User::find(UserConditions::any().with_email(email).with_phone(phone))
        .load(&ctx)
        .unwrap();
    assert!(none.is_empty());
}

#[test]
fn sorting_direction_encodes_to_plus_and_minus_one() {
    let up = UserSorting::Name(SortingDirection::Ascending).into_document();
    match up.get("name") {
        Some(Value::Int32(n)) => assert_eq!(*n, 1),
        other => panic!("expected an integer direction, got {:?}", other),
    }
    let down = UserSorting::Name(SortingDirection::Descending).into_document();
    match down.get("name") {
        Some(Value::Int32(n)) => assert_eq!(*n, -1),
        other => panic!("expected an integer direction, got {:?}", other),
    }
}

#[test]
fn empty_markers_encode_to_empty_documents() {
    assert!(EntityConditions::into_document(EmptyConditions).is_empty());
    assert!(EntitySorting::into_document(EmptySorting).is_empty());
}

#[test]
fn services_share_settings() {
    let services = services();
    let again = services.clone();
    assert_eq!(
        services.settings().api_url.as_str(),
        again.settings().api_url.as_str()
    );
}
