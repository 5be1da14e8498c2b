use membership_token::attrs::Attributes;
use membership_token::contract::MembershipTokenContract;
use membership_token::values::{value_eq, Error, MembershipStatus, MetadataValue};

fn tid(b: u8) -> Vec<u8> {
    vec![b; 32]
}

fn s(text: &str) -> String {
    String::from(text)
}

fn text(v: &str) -> MetadataValue {
    MetadataValue::Text(String::from(v))
}

fn admin_contract() -> MembershipTokenContract {
    let mut c = MembershipTokenContract::new();
    c.set_admin(s("admin"), s("admin")).unwrap();
    c
}

#[test]
fn issue_requires_admin_slot() {
    let mut c = MembershipTokenContract::new();
    let r = c.issue_token(tid(1), s("alice"), 1000, s("admin"), 0);
    assert_eq!(r.unwrap_err(), Error::AdminNotSet);
}

#[test]
fn issue_requires_admin_caller() {
    let mut c = admin_contract();
    let r = c.issue_token(tid(1), s("alice"), 1000, s("mallory"), 0);
    assert_eq!(r.unwrap_err(), Error::Unauthorized);
    assert_eq!(c.get_token(&tid(1), 0).unwrap_err(), Error::NotFound);
}

#[test]
fn issue_succeeds_exactly_once_per_id() {
    let mut c = admin_contract();
    assert!(c.issue_token(tid(1), s("alice"), 1000, s("admin"), 0).is_ok());
    let again = c.issue_token(tid(1), s("bob"), 2000, s("admin"), 0);
    assert_eq!(again.unwrap_err(), Error::AlreadyExists);
    let t = c.get_token(&tid(1), 0).unwrap();
    assert_eq!(t.id, tid(1));
    assert_eq!(t.user, s("alice"));
    assert_eq!(t.status, MembershipStatus::Active);
    assert_eq!(t.issue_date, 0);
    assert_eq!(t.expiry_date, 1000);
}

#[test]
fn issue_with_past_expiry_fails_and_stores_nothing() {
    let mut c = admin_contract();
    let r = c.issue_token(tid(1), s("alice"), 100, s("admin"), 100);
    assert_eq!(r.unwrap_err(), Error::InvalidExpiry);
    assert_eq!(c.get_token(&tid(1), 100).unwrap_err(), Error::NotFound);
}

#[test]
fn transfer_changes_owner_and_gates_on_current_owner() {
    let mut c = admin_contract();
    c.issue_token(tid(1), s("alice"), 1000, s("admin"), 0).unwrap();
    let by_other = c.transfer_token(&tid(1), s("carol"), s("bob"));
    assert_eq!(by_other.unwrap_err(), Error::Unauthorized);
    c.transfer_token(&tid(1), s("bob"), s("alice")).unwrap();
    assert_eq!(c.get_token(&tid(1), 5).unwrap().user, s("bob"));
}

#[test]
fn transfer_of_missing_token_fails() {
    let mut c = admin_contract();
    let r = c.transfer_token(&tid(9), s("bob"), s("alice"));
    assert_eq!(r.unwrap_err(), Error::NotFound);
}

#[test]
fn read_past_expiry_reports_expired() {
    let mut c = admin_contract();
    c.issue_token(tid(1), s("alice"), 10, s("admin"), 0).unwrap();
    assert!(c.get_token(&tid(1), 10).is_ok());
    assert_eq!(c.get_token(&tid(1), 11).unwrap_err(), Error::Expired);
}

#[test]
fn metadata_round_trip_and_reindexing() {
    let mut c = admin_contract();
    c.issue_token(tid(1), s("alice"), 1000, s("admin"), 0).unwrap();

    let mut attrs = Attributes::new();
    attrs.set(s("tier"), text("gold"));
    c.set_token_metadata(tid(1), s("desc"), attrs, s("alice"), 1).unwrap();

    let m = c.get_token_metadata(&tid(1)).unwrap();
    assert_eq!(m.version, 1);
    assert_eq!(m.attributes.len(), 1);
    assert_eq!(m.description, s("desc"));
    assert_eq!(m.last_updated, 1);
    assert_eq!(m.updated_by, s("alice"));
    assert!(value_eq(m.attributes.get(&s("tier")).unwrap(), &text("gold")));

    let mut attrs2 = Attributes::new();
    attrs2.set(s("tier"), text("platinum"));
    c.set_token_metadata(tid(1), s("desc"), attrs2, s("alice"), 2).unwrap();

    let m2 = c.get_token_metadata(&tid(1)).unwrap();
    assert_eq!(m2.version, 2);
    assert_eq!(c.query_tokens_by_attribute(&s("tier"), &text("gold")).len(), 0);
    let hits = c.query_tokens_by_attribute(&s("tier"), &text("platinum"));
    assert_eq!(hits.len(), 1);
    assert_eq!(hits[0], tid(1));
}

#[test]
fn set_metadata_rejects_empty_attribute_key() {
    let mut c = admin_contract();
    c.issue_token(tid(1), s("alice"), 1000, s("admin"), 0).unwrap();
    let mut attrs = Attributes::new();
    attrs.set(s(""), text("gold"));
    let r = c.set_token_metadata(tid(1), s("desc"), attrs, s("alice"), 1);
    assert_eq!(r.unwrap_err(), Error::ValidationFailed);
    assert_eq!(c.get_token_metadata(&tid(1)).unwrap_err(), Error::MetadataNotFound);
}

#[test]
fn set_metadata_requires_token() {
    let mut c = admin_contract();
    let r = c.set_token_metadata(tid(7), s("desc"), Attributes::new(), s("alice"), 1);
    assert_eq!(r.unwrap_err(), Error::NotFound);
}

#[test]
fn update_metadata_without_prior_metadata_fails() {
    let mut c = admin_contract();
    c.issue_token(tid(1), s("alice"), 1000, s("admin"), 0).unwrap();
    let mut updates = Attributes::new();
    updates.set(s("tier"), text("silver"));
    let r = c.update_token_metadata(tid(1), updates, s("alice"), 2);
    assert_eq!(r.unwrap_err(), Error::MetadataNotFound);
}

#[test]
fn update_metadata_merges_and_reindexes() {
    let mut c = admin_contract();
    c.issue_token(tid(1), s("alice"), 1000, s("admin"), 0).unwrap();
    let mut attrs = Attributes::new();
    attrs.set(s("tier"), text("gold"));
    attrs.set(s("region"), text("west"));
    c.set_token_metadata(tid(1), s("desc"), attrs, s("alice"), 1).unwrap();

    let mut updates = Attributes::new();
    updates.set(s("tier"), text("silver"));
    updates.set(s("level"), MetadataValue::Number(5));
    c.update_token_metadata(tid(1), updates, s("alice"), 2).unwrap();

    let m = c.get_token_metadata(&tid(1)).unwrap();
    assert_eq!(m.version, 2);
    assert!(value_eq(m.attributes.get(&s("tier")).unwrap(), &text("silver")));
    assert!(value_eq(m.attributes.get(&s("region")).unwrap(), &text("west")));
    assert!(value_eq(
        m.attributes.get(&s("level")).unwrap(),
        &MetadataValue::Number(5)
    ));
    assert_eq!(c.query_tokens_by_attribute(&s("tier"), &text("gold")).len(), 0);
    assert_eq!(c.query_tokens_by_attribute(&s("tier"), &text("silver")), vec![tid(1)]);
    assert_eq!(
        c.query_tokens_by_attribute(&s("level"), &MetadataValue::Number(5)),
        vec![tid(1)]
    );
}

#[test]
fn update_metadata_is_owner_only() {
    let mut c = admin_contract();
    c.issue_token(tid(1), s("alice"), 1000, s("admin"), 0).unwrap();
    c.set_token_metadata(tid(1), s("desc"), Attributes::new(), s("alice"), 1).unwrap();
    let mut updates = Attributes::new();
    updates.set(s("tier"), text("silver"));
    let r = c.update_token_metadata(tid(1), updates, s("admin"), 2);
    assert_eq!(r.unwrap_err(), Error::Unauthorized);
}

#[test]
fn remove_attributes_clears_map_and_index() {
    let mut c = admin_contract();
    c.issue_token(tid(1), s("alice"), 1000, s("admin"), 0).unwrap();
    let mut attrs = Attributes::new();
    attrs.set(s("tier"), text("gold"));
    attrs.set(s("region"), text("west"));
    c.set_token_metadata(tid(1), s("desc"), attrs, s("alice"), 1).unwrap();

    c.remove_metadata_attributes(tid(1), vec![s("tier")], s("alice"), 2).unwrap();
    let m = c.get_token_metadata(&tid(1)).unwrap();
    assert_eq!(m.version, 2);
    assert!(m.attributes.get(&s("tier")).is_none());
    assert!(m.attributes.get(&s("region")).is_some());
    assert_eq!(c.query_tokens_by_attribute(&s("tier"), &text("gold")).len(), 0);
    assert_eq!(c.query_tokens_by_attribute(&s("region"), &text("west")), vec![tid(1)]);

    // removing a key the token never held is a no-op, not an error
    c.remove_metadata_attributes(tid(1), vec![s("missing")], s("alice"), 3).unwrap();
    let m2 = c.get_token_metadata(&tid(1)).unwrap();
    assert_eq!(m2.version, 3);
    assert!(m2.attributes.get(&s("region")).is_some());
}

#[test]
fn history_keeps_set_and_update_deltas_only() {
    let mut c = admin_contract();
    c.issue_token(tid(1), s("alice"), 1000, s("admin"), 0).unwrap();
    assert_eq!(c.get_metadata_history(&tid(1)).len(), 0);

    let mut attrs = Attributes::new();
    attrs.set(s("tier"), text("gold"));
    c.set_token_metadata(tid(1), s("desc"), attrs, s("alice"), 1).unwrap();

    let mut updates = Attributes::new();
    updates.set(s("tier"), text("silver"));
    c.update_token_metadata(tid(1), updates, s("alice"), 2).unwrap();

    c.remove_metadata_attributes(tid(1), vec![s("tier")], s("alice"), 3).unwrap();

    let h = c.get_metadata_history(&tid(1));
    assert_eq!(h.len(), 2);
    assert_eq!(h[0].version, 1);
    assert_eq!(h[0].timestamp, 1);
    assert_eq!(h[0].updated_by, s("alice"));
    assert!(value_eq(h[0].changes.get(&s("tier")).unwrap(), &text("gold")));
    assert_eq!(h[1].version, 2);
    assert!(value_eq(h[1].changes.get(&s("tier")).unwrap(), &text("silver")));
}

#[test]
fn query_of_unknown_pair_is_empty() {
    let c = admin_contract();
    assert_eq!(c.query_tokens_by_attribute(&s("tier"), &text("gold")).len(), 0);
}

#[test]
fn index_tracks_many_tokens_per_bucket() {
    let mut c = admin_contract();
    c.issue_token(tid(1), s("alice"), 1000, s("admin"), 0).unwrap();
    c.issue_token(tid(2), s("bob"), 1000, s("admin"), 0).unwrap();
    let mut a1 = Attributes::new();
    a1.set(s("tier"), text("gold"));
    c.set_token_metadata(tid(1), s("one"), a1, s("alice"), 1).unwrap();
    let mut a2 = Attributes::new();
    a2.set(s("tier"), text("gold"));
    c.set_token_metadata(tid(2), s("two"), a2, s("bob"), 1).unwrap();

    let hits = c.query_tokens_by_attribute(&s("tier"), &text("gold"));
    assert_eq!(hits.len(), 2);
    assert!(hits.contains(&tid(1)));
    assert!(hits.contains(&tid(2)));

    c.remove_metadata_attributes(tid(1), vec![s("tier")], s("alice"), 2).unwrap();
    assert_eq!(c.query_tokens_by_attribute(&s("tier"), &text("gold")), vec![tid(2)]);
}

#[test]
fn full_scenario_issue_set_update_query_transfer() {
    let mut c = admin_contract();
    let now = 50u64;
    c.issue_token(tid(1), s("alice"), now + 1000, s("admin"), now).unwrap();

    let mut attrs = Attributes::new();
    attrs.set(s("tier"), text("gold"));
    c.set_token_metadata(tid(1), s("desc"), attrs, s("alice"), now).unwrap();
    assert_eq!(c.get_token_metadata(&tid(1)).unwrap().version, 1);

    let mut updates = Attributes::new();
    updates.set(s("tier"), text("silver"));
    c.update_token_metadata(tid(1), updates, s("alice"), now + 1).unwrap();
    assert_eq!(c.get_token_metadata(&tid(1)).unwrap().version, 2);
    assert_eq!(c.query_tokens_by_attribute(&s("tier"), &text("gold")).len(), 0);
    assert_eq!(c.query_tokens_by_attribute(&s("tier"), &text("silver")), vec![tid(1)]);

    c.transfer_token(&tid(1), s("bob"), s("alice")).unwrap();
    assert_eq!(c.get_token(&tid(1), now).unwrap().user, s("bob"));
    let again = c.transfer_token(&tid(1), s("carol"), s("alice"));
    assert_eq!(again.unwrap_err(), Error::Unauthorized);
}

#[test]
fn set_admin_is_self_attested_and_overwrites() {
    let mut c = MembershipTokenContract::new();
    let wrong = c.set_admin(s("admin"), s("mallory"));
    assert_eq!(wrong.unwrap_err(), Error::Unauthorized);
    c.set_admin(s("admin"), s("admin")).unwrap();
    c.set_admin(s("root"), s("root")).unwrap();
    let stale = c.issue_token(tid(1), s("alice"), 1000, s("admin"), 0);
    assert_eq!(stale.unwrap_err(), Error::Unauthorized);
    assert!(c.issue_token(tid(1), s("alice"), 1000, s("root"), 0).is_ok());
}
