use contacts::all_contacts::query_all_contacts;
use contacts::contacts_event::{Contact, ContactsError, ContactsEvent, Profile};
use contacts::event_order::{events_in_timestamp_order, timestamp_order};
use contacts::hash::RawHash;
use contacts::ordered_map::OrderedMap;
use contacts::private_event_sourcing::{PrivateEventContent, SignedEvent};
use contacts::profile::{query_my_profile, set_my_profile};
use contacts::share_contact_request::{
    accept_share_contact_request, build_my_contact, cancel_share_contact_request,
    reject_share_contact_request, send_share_contact_request,
};

fn hash(n: u8) -> RawHash {
    let mut bytes = vec![0x84, 0x21, 0x24];
    bytes.extend(std::iter::repeat(n).take(36));
    RawHash::new(bytes)
}

fn profile(name: &str) -> Profile {
    Profile { name: name.to_string(), avatar: None, custom_fields: vec![] }
}

fn contact(name: &str, agent: u8) -> Contact {
    Contact { agents: vec![hash(agent)], profile: profile(name) }
}

fn event(timestamp: i64, content: ContactsEvent) -> SignedEvent<ContactsEvent> {
    SignedEvent { event: PrivateEventContent { timestamp, content } }
}

fn log(events: Vec<(u8, i64, ContactsEvent)>) -> OrderedMap<SignedEvent<ContactsEvent>> {
    OrderedMap::from_entries(
        events.into_iter().map(|(h, ts, content)| (hash(h), event(ts, content))).collect(),
    )
}

fn names(contacts: &[Contact]) -> Vec<String> {
    contacts.iter().map(|c| c.profile.name.clone()).collect()
}

#[test]
fn added_contacts_are_listed_in_hash_order() {
    let events = log(vec![
        (30, 1, ContactsEvent::ContactAdded(contact("carol", 3))),
        (10, 2, ContactsEvent::ContactAdded(contact("alice", 1))),
        (20, 3, ContactsEvent::SetMyProfile(profile("me"))),
        (25, 4, ContactsEvent::ContactAdded(contact("bob", 2))),
    ]);
    let all = query_all_contacts(&events);
    assert_eq!(names(&all), vec!["alice", "bob", "carol"]);
    assert_eq!(all[0].agents[0].bytes, hash(1).bytes);
}

#[test]
fn removed_contacts_are_not_listed() {
    let events = log(vec![
        (10, 1, ContactsEvent::ContactAdded(contact("alice", 1))),
        (20, 2, ContactsEvent::ContactAdded(contact("bob", 2))),
        // The removal's hash sorts before the contact it removes.
        (5, 3, ContactsEvent::ContactRemoved { contact_added_hash: hash(20) }),
    ]);
    assert_eq!(names(&query_all_contacts(&events)), vec!["alice"]);
}

#[test]
fn the_latest_update_of_a_contact_wins() {
    let events = log(vec![
        (10, 1, ContactsEvent::ContactAdded(contact("alice", 1))),
        (40, 5, ContactsEvent::ContactUpdated { contact_added_hash: hash(10), new_contact: contact("alice v2", 1) }),
        (50, 9, ContactsEvent::ContactUpdated { contact_added_hash: hash(10), new_contact: contact("alice v3", 1) }),
        (60, 7, ContactsEvent::ContactUpdated { contact_added_hash: hash(10), new_contact: contact("alice v4", 1) }),
    ]);
    assert_eq!(names(&query_all_contacts(&events)), vec!["alice v3"]);
}

#[test]
fn updates_with_equal_timestamps_apply_in_hash_order() {
    let events = log(vec![
        (10, 1, ContactsEvent::ContactAdded(contact("alice", 1))),
        (70, 5, ContactsEvent::ContactUpdated { contact_added_hash: hash(10), new_contact: contact("second", 1) }),
        (60, 5, ContactsEvent::ContactUpdated { contact_added_hash: hash(10), new_contact: contact("first", 1) }),
    ]);
    assert_eq!(names(&query_all_contacts(&events)), vec!["second"]);
}

#[test]
fn updates_of_unknown_or_removed_contacts_add_nothing() {
    let events = log(vec![
        (10, 1, ContactsEvent::ContactAdded(contact("alice", 1))),
        (11, 2, ContactsEvent::ContactRemoved { contact_added_hash: hash(10) }),
        (12, 3, ContactsEvent::ContactUpdated { contact_added_hash: hash(10), new_contact: contact("ghost", 1) }),
        (13, 4, ContactsEvent::ContactUpdated { contact_added_hash: hash(99), new_contact: contact("nobody", 9) }),
    ]);
    assert!(query_all_contacts(&events).is_empty());
}

#[test]
fn a_log_without_contacts_lists_none() {
    let events = log(vec![(1, 1, ContactsEvent::SetMyProfile(profile("me")))]);
    assert!(query_all_contacts(&events).is_empty());
    assert!(query_all_contacts(&OrderedMap::new()).is_empty());
}

#[test]
fn timestamp_order_is_stable() {
    assert_eq!(timestamp_order(&vec![5, 3, 5, 1, 3]), vec![3, 1, 4, 0, 2]);
    assert_eq!(timestamp_order(&vec![]), Vec::<usize>::new());
    let events = log(vec![
        (1, 9, ContactsEvent::SetMyProfile(profile("a"))),
        (2, -4, ContactsEvent::SetMyProfile(profile("b"))),
        (3, 9, ContactsEvent::SetMyProfile(profile("c"))),
    ]);
    assert_eq!(events_in_timestamp_order(&events), vec![1, 0, 2]);
}

#[test]
fn my_profile_is_the_latest_set() {
    let events = log(vec![
        (1, 30, ContactsEvent::SetMyProfile(profile("newest"))),
        (2, 10, ContactsEvent::SetMyProfile(profile("oldest"))),
        (3, 20, ContactsEvent::SetMyProfile(profile("middle"))),
        (4, 99, ContactsEvent::ContactAdded(contact("alice", 1))),
    ]);
    assert_eq!(query_my_profile(&events).unwrap().name, "newest");
}

#[test]
fn my_profile_ties_go_to_the_greater_hash() {
    let events = log(vec![
        (8, 30, ContactsEvent::SetMyProfile(profile("later hash"))),
        (2, 30, ContactsEvent::SetMyProfile(profile("earlier hash"))),
    ]);
    assert_eq!(query_my_profile(&events).unwrap().name, "later hash");
}

#[test]
fn writing_a_newer_profile_is_read_back() {
    let mut events = log(vec![(5, 100, ContactsEvent::SetMyProfile(profile("old")))]);
    let mut p = profile("new");
    p.avatar = Some("avatar.png".to_string());
    p.custom_fields = vec![("city".to_string(), "Lisbon".to_string())];
    events.insert(hash(1), event(200, ContactsEvent::SetMyProfile(p)));
    let mine = query_my_profile(&events).unwrap();
    assert_eq!(mine.name, "new");
    assert_eq!(mine.avatar.as_deref(), Some("avatar.png"));
    assert_eq!(mine.custom_fields, vec![("city".to_string(), "Lisbon".to_string())]);
}

#[test]
fn no_profile_without_a_profile_event() {
    let events = log(vec![(4, 99, ContactsEvent::ContactAdded(contact("alice", 1)))]);
    assert!(query_my_profile(&events).is_none());
}

#[test]
fn setting_my_profile_makes_the_event() {
    let event = set_my_profile(profile("me")).unwrap();
    assert!(matches!(event, ContactsEvent::SetMyProfile(p) if p.name == "me"));
}

#[test]
fn my_contact_needs_a_profile() {
    assert!(build_my_contact(None, vec![hash(1)]).is_none());
    let c = build_my_contact(Some(profile("me")), vec![hash(1), hash(2)]).unwrap();
    assert_eq!(c.agents.len(), 2);
    assert_eq!(c.profile.name, "me");
}

#[test]
fn sharing_a_contact_before_having_a_profile_is_refused() {
    let r = send_share_contact_request(None, contact("peer", 2));
    assert!(matches!(r, Err(ContactsError::NoProfile)));
}

#[test]
fn sharing_a_contact_makes_the_request_event() {
    let me = build_my_contact(Some(profile("me")), vec![hash(1)]);
    let r = send_share_contact_request(me, contact("peer", 2)).unwrap();
    match r {
        ContactsEvent::ShareContactRequest { from, to } => {
            assert_eq!(from.profile.name, "me");
            assert_eq!(to.profile.name, "peer");
        }
        _ => panic!("not a share contact request"),
    }
}

#[test]
fn answering_a_share_contact_request_makes_its_event() {
    assert!(matches!(
        accept_share_contact_request(hash(3)),
        Ok(ContactsEvent::AcceptShareContactRequest(h)) if h.bytes == hash(3).bytes
    ));
    assert!(matches!(
        reject_share_contact_request(hash(4)),
        Ok(ContactsEvent::RejectShareContactRequest(h)) if h.bytes == hash(4).bytes
    ));
    assert!(matches!(
        cancel_share_contact_request(hash(5)),
        Ok(ContactsEvent::CancelShareContactRequest(h)) if h.bytes == hash(5).bytes
    ));
}

#[test]
fn copies_keep_every_field() {
    let mut p = profile("me");
    p.avatar = Some("a".to_string());
    p.custom_fields = vec![("k".to_string(), "v".to_string())];
    let c = Contact { agents: vec![hash(1), hash(2)], profile: p };
    let d = c.duplicate();
    assert_eq!(d.agents.len(), 2);
    assert_eq!(d.agents[1].bytes, hash(2).bytes);
    assert_eq!(d.profile.avatar.as_deref(), Some("a"));
    assert_eq!(d.profile.custom_fields, c.profile.custom_fields);
    assert!(ContactsEvent::ContactAdded(d).recipients().is_empty());
}

#[test]
fn events_that_touch_no_added_contact_change_nothing() {
    let base = vec![
        (10, 1, ContactsEvent::ContactAdded(contact("alice", 1))),
        (20, 2, ContactsEvent::ContactAdded(contact("bob", 2))),
        (30, 3, ContactsEvent::ContactUpdated { contact_added_hash: hash(20), new_contact: contact("bobby", 2) }),
    ];
    let before = names(&query_all_contacts(&log(base)));
    let after = names(&query_all_contacts(&log(vec![
        (10, 1, ContactsEvent::ContactAdded(contact("alice", 1))),
        (20, 2, ContactsEvent::ContactAdded(contact("bob", 2))),
        (30, 3, ContactsEvent::ContactUpdated { contact_added_hash: hash(20), new_contact: contact("bobby", 2) }),
        (5, 99, ContactsEvent::SetMyProfile(profile("me"))),
        (15, 99, ContactsEvent::ContactRemoved { contact_added_hash: hash(77) }),
        (25, 99, ContactsEvent::ContactUpdated { contact_added_hash: hash(78), new_contact: contact("x", 9) }),
        (35, 99, ContactsEvent::AcceptShareContactRequest(hash(10))),
    ])));
    assert_eq!(before, vec!["alice", "bobby"]);
    assert_eq!(after, before);
}
