use contacts::contacts_event::{ContactsEvent, Profile};
use contacts::hash::RawHash;
use contacts::ordered_map::OrderedMap;
use contacts::private_event_sourcing::{
    check_is_linked_device, check_validation_outcome, create_private_event,
    new_private_event_entries, plan_received_entry, query_private_event,
    receive_private_event_from_linked_device, receive_private_events_from_linked_device,
    plan_received_entries, ReceivedEntry,
    query_private_event_entries, query_private_event_entry, query_private_events, EntryToCreate,
    PrivateEvent, PrivateEventEntry, PrivateEventError, PrivateEventRecord, ValidationOutcome,
};
use hdi::prelude::UnresolvedDependencies;

fn hash(n: u8) -> RawHash {
    let mut bytes = vec![0x84, 0x21, 0x24];
    bytes.extend(std::iter::repeat(n).take(36));
    RawHash::new(bytes)
}

fn entry(b: u8) -> PrivateEventEntry {
    PrivateEventEntry(vec![b, b])
}

fn no_dependencies() -> UnresolvedDependencies {
    UnresolvedDependencies::Hashes(vec![])
}

#[test]
fn only_valid_events_may_be_created() {
    assert!(check_validation_outcome(ValidationOutcome::Valid).is_ok());
    assert!(matches!(
        check_validation_outcome(ValidationOutcome::Invalid("bad".to_string())),
        Err(PrivateEventError::ValidationFailed(ValidationOutcome::Invalid(r))) if r == "bad"
    ));
    assert!(matches!(
        check_validation_outcome(ValidationOutcome::UnresolvedDependencies(no_dependencies())),
        Err(PrivateEventError::ValidationFailed(ValidationOutcome::UnresolvedDependencies(_)))
    ));
}

#[test]
fn contacts_events_validate_and_are_created_unchanged() {
    let profile = Profile { name: "me".to_string(), avatar: None, custom_fields: vec![] };
    let event = ContactsEvent::SetMyProfile(profile);
    assert!(matches!(event.validate(), Ok(ValidationOutcome::Valid)));
    let created = create_private_event(event).unwrap();
    assert!(matches!(created, ContactsEvent::SetMyProfile(p) if p.name == "me"));
}

#[test]
fn only_linked_devices_are_accepted() {
    let devices = vec![hash(1), hash(2)];
    assert!(check_is_linked_device(&hash(2), &devices).is_ok());
    assert!(matches!(
        check_is_linked_device(&hash(3), &devices),
        Err(PrivateEventError::NotALinkedDevice)
    ));
    assert!(check_is_linked_device(&hash(1), &vec![]).is_err());
}

#[test]
fn received_events_are_committed_by_their_validation() {
    assert!(matches!(
        plan_received_entry(ValidationOutcome::Valid, entry(1)),
        Ok(EntryToCreate::PrivateEvent(e)) if e.0 == vec![1, 1]
    ));
    assert!(matches!(
        plan_received_entry(ValidationOutcome::UnresolvedDependencies(no_dependencies()), entry(2)),
        Ok(EntryToCreate::AwaitingDependencies { event, unresolved_dependencies })
            if event.0 == vec![2, 2] && unresolved_dependencies == no_dependencies()
    ));
    assert!(matches!(
        plan_received_entry(ValidationOutcome::Invalid("no".to_string()), entry(3)),
        Err(PrivateEventError::InvalidPrivateEvent(r)) if r == "no"
    ));
}

#[test]
fn entries_already_held_are_skipped() {
    let incoming = OrderedMap::from_entries(vec![(hash(3), entry(3)), (hash(1), entry(1)), (hash(2), entry(2))]);
    let mine = OrderedMap::from_entries(vec![(hash(2), entry(9))]);
    let new = new_private_event_entries(incoming, &mine);
    assert_eq!(new.len(), 2);
    assert_eq!(new[0].0.bytes, hash(1).bytes);
    assert_eq!(new[1].0.bytes, hash(3).bytes);
    assert_eq!(new[1].1 .0, vec![3, 3]);
}

fn record(h: Option<u8>, e: Option<Result<u8, &str>>) -> PrivateEventRecord {
    PrivateEventRecord {
        entry_hash: h.map(hash),
        entry: e.map(|r| r.map(entry).map_err(|m| PrivateEventError::Host(m.to_string()))),
    }
}

#[test]
fn records_are_collected_by_entry_hash() {
    let m = query_private_event_entries(vec![
        record(Some(5), Some(Ok(5))),
        record(Some(1), Some(Ok(1))),
        record(Some(5), Some(Ok(7))),
    ])
    .unwrap();
    assert_eq!(m.len(), 2);
    assert_eq!(m.get(&hash(5)).unwrap().0, vec![7, 7]);
    assert_eq!(m.entry(0).1 .0, vec![1, 1]);
}

#[test]
fn a_record_without_entry_hash_stops_the_query() {
    let r = query_private_event_entries(vec![
        record(Some(1), Some(Ok(1))),
        record(None, Some(Ok(2))),
        record(Some(3), None),
    ]);
    assert!(matches!(r, Err(PrivateEventError::RecordWithoutEntryHash)));
}

#[test]
fn a_record_without_entry_stops_the_query() {
    let r = query_private_event_entries(vec![record(Some(3), None), record(None, None)]);
    assert!(matches!(r, Err(PrivateEventError::RecordWithoutEntry)));
}

#[test]
fn an_unreadable_entry_stops_the_query() {
    let r = query_private_event_entries(vec![record(Some(3), Some(Err("garbled")))]);
    assert!(matches!(r, Err(PrivateEventError::Host(m)) if m == "garbled"));
    assert_eq!(query_private_event_entries(vec![]).unwrap().len(), 0);
}

#[test]
fn an_entry_fetched_by_hash() {
    assert!(matches!(query_private_event_entry(None), Ok(None)));
    assert!(matches!(query_private_event_entry(Some(None)), Err(PrivateEventError::RecordWithoutEntry)));
    assert!(matches!(
        query_private_event_entry(Some(Some(Err(PrivateEventError::Host("x".to_string()))))),
        Err(PrivateEventError::Host(_))
    ));
    assert!(matches!(query_private_event_entry(Some(Some(Ok(entry(4))))), Ok(Some(e)) if e.0 == vec![4, 4]));
}

#[test]
fn unreadable_events_are_left_out() {
    let decoded = OrderedMap::from_entries(vec![(hash(1), Some(10)), (hash(2), None), (hash(3), Some(30))]);
    let events = query_private_events(decoded);
    assert_eq!(events.len(), 2);
    assert_eq!(events.into_values(), vec![10, 30]);
}

#[test]
fn an_event_fetched_by_hash() {
    assert!(matches!(query_private_event::<u8>(None), Ok(None)));
    assert!(matches!(query_private_event(Some(Ok(7u8))), Ok(Some(7))));
    assert!(matches!(
        query_private_event::<u8>(Some(Err(PrivateEventError::Host("bad".to_string())))),
        Err(PrivateEventError::Host(_))
    ));
}

#[test]
fn an_event_from_an_unlinked_device_is_refused() {
    let event = ContactsEvent::AcceptShareContactRequest(hash(7));
    let r = receive_private_event_from_linked_device(&hash(3), &vec![hash(1)], Ok(event));
    assert!(matches!(r, Err(PrivateEventError::NotALinkedDevice)));
    let r = receive_private_events_from_linked_device(
        &hash(3),
        &vec![hash(1)],
        OrderedMap::from_entries(vec![(hash(5), entry(5))]),
        &OrderedMap::new(),
    );
    assert!(matches!(r, Err(PrivateEventError::NotALinkedDevice)));
}

#[test]
fn an_event_from_a_linked_device_is_validated() {
    let event = ContactsEvent::AcceptShareContactRequest(hash(7));
    let (event, outcome) =
        receive_private_event_from_linked_device(&hash(1), &vec![hash(1)], Ok(event)).unwrap();
    assert!(matches!(outcome, ValidationOutcome::Valid));
    assert!(matches!(event, ContactsEvent::AcceptShareContactRequest(h) if h.bytes == hash(7).bytes));
    let unreadable: Result<ContactsEvent, PrivateEventError> = Err(PrivateEventError::Host("garbled".to_string()));
    let r = receive_private_event_from_linked_device(&hash(1), &vec![hash(1)], unreadable);
    assert!(matches!(r, Err(PrivateEventError::Host(m)) if m == "garbled"));
}

#[test]
fn events_from_a_linked_device_skip_those_held() {
    let new = receive_private_events_from_linked_device(
        &hash(1),
        &vec![hash(2), hash(1)],
        OrderedMap::from_entries(vec![(hash(5), entry(5)), (hash(4), entry(4))]),
        &OrderedMap::from_entries(vec![(hash(5), entry(5))]),
    )
    .unwrap();
    assert_eq!(new.len(), 1);
    assert_eq!(new[0].0.bytes, hash(4).bytes);
}

fn received(n: u8, validation: Result<ValidationOutcome, PrivateEventError>) -> ReceivedEntry {
    ReceivedEntry { entry_hash: hash(n), entry: entry(n), validation }
}

#[test]
fn received_entries_are_planned_in_order() {
    let (plans, failure) = plan_received_entries(vec![
        received(1, Ok(ValidationOutcome::Valid)),
        received(2, Ok(ValidationOutcome::UnresolvedDependencies(no_dependencies()))),
    ]);
    assert!(failure.is_none());
    assert_eq!(plans.len(), 2);
    assert!(matches!(&plans[0], EntryToCreate::PrivateEvent(e) if e.0 == vec![1, 1]));
    assert!(matches!(&plans[1], EntryToCreate::AwaitingDependencies { event, .. } if event.0 == vec![2, 2]));
}

#[test]
fn planning_stops_at_the_first_invalid_entry() {
    let (plans, failure) = plan_received_entries(vec![
        received(1, Ok(ValidationOutcome::Valid)),
        received(2, Ok(ValidationOutcome::Invalid("forged".to_string()))),
        received(3, Ok(ValidationOutcome::Valid)),
    ]);
    assert_eq!(plans.len(), 1);
    assert!(matches!(failure, Some(PrivateEventError::InvalidPrivateEvent(r)) if r == "forged"));
}

#[test]
fn planning_stops_at_the_first_unreadable_entry() {
    let (plans, failure) = plan_received_entries(vec![
        received(1, Err(PrivateEventError::Host("garbled".to_string()))),
        received(2, Ok(ValidationOutcome::Valid)),
    ]);
    assert!(plans.is_empty());
    assert!(matches!(failure, Some(PrivateEventError::Host(m)) if m == "garbled"));
    let (plans, failure) = plan_received_entries(vec![]);
    assert!(plans.is_empty() && failure.is_none());
}

#[test]
fn received_entries_already_held_change_nothing() {
    let mine = OrderedMap::from_entries(vec![(hash(2), entry(2)), (hash(8), entry(8))]);
    let plain = new_private_event_entries(
        OrderedMap::from_entries(vec![(hash(3), entry(3))]),
        &mine,
    );
    let with_held = new_private_event_entries(
        OrderedMap::from_entries(vec![(hash(8), entry(99)), (hash(3), entry(3)), (hash(2), entry(7))]),
        &mine,
    );
    assert_eq!(plain.len(), 1);
    assert_eq!(with_held.len(), 1);
    assert_eq!(with_held[0].0.bytes, plain[0].0.bytes);
    assert_eq!(with_held[0].1 .0, plain[0].1 .0);
}

#[test]
fn nothing_remains_once_every_key_is_held() {
    let mine = OrderedMap::from_entries(vec![(hash(2), entry(2)), (hash(3), entry(3))]);
    let new = new_private_event_entries(
        OrderedMap::from_entries(vec![(hash(3), entry(3)), (hash(2), entry(2))]),
        &mine,
    );
    assert!(new.is_empty());
}

#[test]
fn a_committed_entry_is_read_back() {
    let m = query_private_event_entries(vec![
        record(Some(4), Some(Ok(4))),
        record(Some(9), Some(Ok(9))),
    ])
    .unwrap();
    assert_eq!(m.get(&hash(9)).unwrap().0, vec![9, 9]);
    assert_eq!(m.get(&hash(4)).unwrap().0, vec![4, 4]);
}
