use contacts::contacts_integrity::{
    validate_create_private_contacts_entry, validate_delete_private_contacts_entry,
    validate_update_private_contacts_entry, Contact, PrivateContactsEntry, Profile,
};
use contacts::contacts_event::ContactsError;
use contacts::hash::RawHash;
use contacts::private_contacts_entry::{
    query_private_contacts_entries, query_undeleted_private_contacts_entries,
    PrivateContactsRecord,
};
use contacts::private_event_integrity::{
    validate_create_private_event, validate_delete_private_event, validate_update_private_event,
};
use contacts::private_event_sourcing::{PrivateEventEntry, ValidationOutcome};

fn hash(n: u8) -> RawHash {
    let mut bytes = vec![0x84, 0x29, 0x24];
    bytes.extend(std::iter::repeat(n).take(36));
    RawHash::new(bytes)
}

fn profile_entry(name: &str) -> PrivateContactsEntry {
    PrivateContactsEntry::SetMyProfile(Profile { name: name.to_string(), avatar: None, custom_fields: vec![] })
}

fn name_of(e: &PrivateContactsEntry) -> String {
    match e {
        PrivateContactsEntry::SetMyProfile(p) => p.name.clone(),
        PrivateContactsEntry::AddContact(c)
        | PrivateContactsEntry::OutgoingContactRequest(c)
        | PrivateContactsEntry::IncomingContactRequest(c) => c.profile.name.clone(),
    }
}

#[test]
fn private_events_can_be_created_but_never_changed() {
    let e = PrivateEventEntry(vec![1]);
    assert!(matches!(validate_create_private_event(&e), ValidationOutcome::Valid));
    assert!(matches!(
        validate_update_private_event(&e),
        ValidationOutcome::Invalid(r) if r == "PrivateEvents cannot be updated"
    ));
    assert!(matches!(
        validate_delete_private_event(),
        ValidationOutcome::Invalid(r) if r == "PrivateEvents cannot be deleted"
    ));
}

#[test]
fn private_contacts_entries_can_be_created_but_not_updated() {
    let e = profile_entry("me");
    assert!(matches!(validate_create_private_contacts_entry(&e), ValidationOutcome::Valid));
    assert!(matches!(
        validate_update_private_contacts_entry(&e),
        ValidationOutcome::Invalid(r) if r == "PrivateContactsEntries cannot be updated"
    ));
}

#[test]
fn only_the_author_may_delete_a_private_contacts_entry() {
    assert!(matches!(validate_delete_private_contacts_entry(&hash(1), &hash(1)), ValidationOutcome::Valid));
    assert!(matches!(
        validate_delete_private_contacts_entry(&hash(1), &hash(2)),
        ValidationOutcome::Invalid(r) if r == "PrivateContactsEntries can only be deleted by their authors"
    ));
}

#[test]
fn private_contacts_records_are_collected_by_action_hash() {
    let contact = Contact {
        agents: vec![hash(9)],
        profile: Profile { name: "alice".to_string(), avatar: None, custom_fields: vec![] },
    };
    let m = query_private_contacts_entries(vec![
        PrivateContactsRecord { action_hash: hash(2), entry: Some(Ok(PrivateContactsEntry::AddContact(contact))) },
        PrivateContactsRecord { action_hash: hash(1), entry: Some(Ok(profile_entry("me"))) },
    ])
    .unwrap();
    let names: Vec<String> = m.into_values().iter().map(name_of).collect();
    assert_eq!(names, vec!["me", "alice"]);
}

#[test]
fn a_private_contacts_record_without_entry_stops_the_query() {
    let r = query_private_contacts_entries(vec![
        PrivateContactsRecord { action_hash: hash(1), entry: None },
        PrivateContactsRecord { action_hash: hash(2), entry: Some(Err(ContactsError::Host("bad".to_string()))) },
    ]);
    assert!(matches!(r, Err(ContactsError::RecordWithoutEntry)));
    let r = query_private_contacts_entries(vec![PrivateContactsRecord {
        action_hash: hash(2),
        entry: Some(Err(ContactsError::Host("bad".to_string()))),
    }]);
    assert!(matches!(r, Err(ContactsError::Host(m)) if m == "bad"));
}

#[test]
fn deleted_private_contacts_entries_are_left_out() {
    let m = query_private_contacts_entries(vec![
        PrivateContactsRecord { action_hash: hash(1), entry: Some(Ok(profile_entry("a"))) },
        PrivateContactsRecord { action_hash: hash(2), entry: Some(Ok(profile_entry("b"))) },
        PrivateContactsRecord { action_hash: hash(3), entry: Some(Ok(profile_entry("c"))) },
    ])
    .unwrap();
    let kept = query_undeleted_private_contacts_entries(m, &vec![hash(2), hash(7), hash(2)]);
    let names: Vec<String> = kept.into_values().iter().map(name_of).collect();
    assert_eq!(names, vec!["a", "c"]);
}
