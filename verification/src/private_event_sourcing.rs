use vstd::prelude::*;

use crate::hash::{bytes_lt, AgentPubKey, EntryHash};
use crate::ordered_map::{
    entries_map, has_key, keys_ascending, lemma_ascending_determined,
    law_last_pair_wins, lemma_entries_map_at, lemma_map_insert_at, pairs_map, view_entries,
    OrderedMap,
};

verus! {

/// The private event entry committed to the source chain: a private event in
/// its serialized form.
#[derive(Debug)]
pub struct PrivateEventEntry(pub Vec<u8>);

/// What a validation of a private event concluded.
#[derive(Debug)]
pub enum ValidationOutcome {
    Valid,
    Invalid(String),
    UnresolvedDependencies(hdi::prelude::UnresolvedDependencies),
}

/// The dependencies that a validation could not resolve yet: carried through
/// as the validation named them.
#[verifier::external_type_specification]
#[verifier::external_body]
pub struct ExUnresolvedDependencies(hdi::prelude::UnresolvedDependencies);

/// Why an operation on private events stopped.
#[derive(Debug)]
pub enum PrivateEventError {
    /// The event did not validate; the outcome of its validation.
    ValidationFailed(ValidationOutcome),
    /// The agent that sent events is not one of my linked devices.
    NotALinkedDevice,
    /// A received event was found invalid, for the given reason.
    InvalidPrivateEvent(String),
    /// A private event record held no entry hash.
    RecordWithoutEntryHash,
    /// A private event record held no entry.
    RecordWithoutEntry,
    /// The host, or the (de)serialization of an event, failed with this message.
    Host(String),
}

/// The content of a private event and when it was created.
#[derive(Debug)]
pub struct PrivateEventContent<T> {
    /// Microseconds since the UNIX epoch.
    pub timestamp: i64,
    pub content: T,
}

/// A private event together with its signature's payload.
#[derive(Debug)]
pub struct SignedEvent<T> {
    pub event: PrivateEventContent<T>,
}

/// An event that can be stored privately and shared with linked devices.
pub trait PrivateEvent: Sized {
    /// What `validate` concludes of this event.
    spec fn validation(&self) -> Result<ValidationOutcome, PrivateEventError>;

    /// Validates this event.
    fn validate(&self) -> (r: Result<ValidationOutcome, PrivateEventError>)
        ensures
            r == self.validation(),
    ;
}

/// The entry to commit for a private event received from a linked device.
#[derive(Debug)]
pub enum EntryToCreate<E> {
    /// The event validated: commit it as a private event.
    PrivateEvent(E),
    /// The event waits for dependencies: commit it as awaiting them.
    AwaitingDependencies { event: E, unresolved_dependencies: hdi::prelude::UnresolvedDependencies },
}

/// The error that a validation outcome raises before an event is created:
/// none when the event is valid.
pub open spec fn validation_error(outcome: ValidationOutcome) -> Option<PrivateEventError> {
    match outcome {
        ValidationOutcome::Valid => None,
        _ => Some(PrivateEventError::ValidationFailed(outcome)),
    }
}

/// An event may be created only when its validation found it valid.
pub fn check_validation_outcome(outcome: ValidationOutcome) -> (r: Result<(), PrivateEventError>)
    ensures
        r is Ok <==> validation_error(outcome) is None,
        r matches Err(e) ==> Some(e) == validation_error(outcome),
        r is Ok <==> outcome is Valid,
        r matches Err(e) ==> e == PrivateEventError::ValidationFailed(outcome),
{
    match outcome {
        ValidationOutcome::Valid => Ok(()),
        _ => Err(PrivateEventError::ValidationFailed(outcome)),
    }
}

/// Validates an event that is about to be created, handing it back for
/// serialization and creation when it is valid.
pub fn create_private_event<T: PrivateEvent>(event: T) -> (r: Result<T, PrivateEventError>)
    ensures
        match event.validation() {
            Err(e) => r == Err::<T, PrivateEventError>(e),
            Ok(outcome) => match validation_error(outcome) {
                None => r == Ok::<T, PrivateEventError>(event),
                Some(e) => r == Err::<T, PrivateEventError>(e),
            },
        },
        event.validation() matches Ok(ValidationOutcome::Valid) ==> r == Ok::<T, PrivateEventError>(event),
        r matches Ok(e) ==> e == event && event.validation() matches Ok(ValidationOutcome::Valid),
        event.validation() matches Err(e) ==> r == Err::<T, PrivateEventError>(e),
        event.validation() is Ok && !(event.validation()->Ok_0 is Valid) ==> r == Err::<
            T,
            PrivateEventError,
        >(PrivateEventError::ValidationFailed(event.validation()->Ok_0)),
{
    let outcome = match event.validate() {
        Ok(outcome) => outcome,
        Err(e) => return Err(e),
    };
    match check_validation_outcome(outcome) {
        Ok(()) => Ok(event),
        Err(e) => Err(e),
    }
}

/// Whether `agent` is one of `devices`.
pub open spec fn is_linked_device(agent: Seq<u8>, devices: Seq<AgentPubKey>) -> bool {
    exists|i: int| 0 <= i < devices.len() && #[trigger] devices[i]@ == agent
}

/// Accepts an agent only when it is one of my linked devices.
pub fn check_is_linked_device(agent: &AgentPubKey, my_devices: &Vec<AgentPubKey>) -> (r: Result<
    (),
    PrivateEventError,
>)
    ensures
        r is Ok <==> is_linked_device(agent@, my_devices@),
        r matches Err(e) ==> e == PrivateEventError::NotALinkedDevice,
        forall|i: int| 0 <= i < my_devices@.len() && #[trigger] my_devices@[i]@ == agent@ ==> r is Ok,
        r is Ok ==> exists|i: int| 0 <= i < my_devices@.len() && #[trigger] my_devices@[i]@ == agent@,
{
    let n = my_devices.len();
    for i in 0..n
        invariant
            n == my_devices@.len(),
            forall|j: int| 0 <= j < i ==> my_devices@[j]@ != agent@,
    {
        if my_devices[i].same_as(agent) {
            return Ok(());
        }
    }
    Err(PrivateEventError::NotALinkedDevice)
}

/// Of the entries received from a linked device, those I already hold are
/// skipped, and every other one is processed.
pub proof fn law_held_entries_skipped(
    incoming: Seq<(Seq<u8>, PrivateEventEntry)>,
    mine: Map<Seq<u8>, PrivateEventEntry>,
)
    ensures
        forall|i: int|
            0 <= i < unseen_entries(incoming, mine).len() ==> !mine.dom().contains(
                #[trigger] unseen_entries(incoming, mine)[i].0,
            ),
        forall|i: int|
            0 <= i < incoming.len() && !mine.dom().contains(#[trigger] incoming[i].0)
                ==> unseen_entries(incoming, mine).contains(incoming[i]),
{
    let pred = |e: (Seq<u8>, PrivateEventEntry)| !mine.dom().contains(e.0);
    assert forall|i: int| 0 <= i < unseen_entries(incoming, mine).len() implies !mine.dom().contains(
        #[trigger] unseen_entries(incoming, mine)[i].0,
    ) by {
        incoming.lemma_filter_pred(pred, i);
    }
    assert forall|i: int| 0 <= i < incoming.len() && !mine.dom().contains(#[trigger] incoming[i].0)
        implies unseen_entries(incoming, mine).contains(incoming[i]) by {
        incoming.lemma_filter_contains(pred, i);
    }
}

/// Every entry still to process is one of the received entries.
proof fn lemma_unseen_keys(
    incoming: Seq<(Seq<u8>, PrivateEventEntry)>,
    mine: Map<Seq<u8>, PrivateEventEntry>,
)
    ensures
        forall|y: int|
            0 <= y < unseen_entries(incoming, mine).len() ==> exists|i: int|
                0 <= i < incoming.len() && incoming[i] == #[trigger] unseen_entries(incoming, mine)[y],
    decreases incoming.len(),
{
    reveal_with_fuel(Seq::<_>::filter, 1);
    if incoming.len() > 0 {
        let t = incoming.drop_last();
        lemma_unseen_keys(t, mine);
        let u = unseen_entries(incoming, mine);
        let ut = unseen_entries(t, mine);
        assert forall|y: int| 0 <= y < u.len() implies exists|i: int|
            0 <= i < incoming.len() && incoming[i] == #[trigger] u[y] by {
            if y < ut.len() {
                assert(u[y] == ut[y]);
                let i = choose|i: int| 0 <= i < t.len() && t[i] == #[trigger] ut[y];
                assert(incoming[i] == t[i]);
            } else {
                assert(u[y] == incoming.last());
                assert(incoming[incoming.len() - 1] == u[y]);
            }
        }
    }
}

/// The entries still to process keep ascending keys, and are the received
/// entries whose keys I do not hold.
proof fn lemma_unseen_ascending(
    incoming: Seq<(Seq<u8>, PrivateEventEntry)>,
    mine: Map<Seq<u8>, PrivateEventEntry>,
)
    requires
        keys_ascending(incoming),
    ensures
        keys_ascending(unseen_entries(incoming, mine)),
        entries_map(unseen_entries(incoming, mine)) == entries_map(incoming).restrict(
            entries_map(incoming).dom().filter(|k: Seq<u8>| !mine.dom().contains(k)),
        ),
    decreases incoming.len(),
{
    reveal_with_fuel(Seq::<_>::filter, 1);
    let u = unseen_entries(incoming, mine);
    let target = entries_map(incoming).restrict(
        entries_map(incoming).dom().filter(|k: Seq<u8>| !mine.dom().contains(k)),
    );
    if incoming.len() == 0 {
        assert(entries_map(u) =~= target);
    } else {
        let t = incoming.drop_last();
        let last = incoming.last();
        assert(keys_ascending(t)) by {
            assert forall|i: int, j: int| 0 <= i < j < t.len() implies #[trigger] bytes_lt(
                t[i].0,
                t[j].0,
            ) by {
                assert(t[i] == incoming[i] && t[j] == incoming[j]);
            }
        }
        lemma_unseen_ascending(t, mine);
        lemma_unseen_keys(t, mine);
        let ut = unseen_entries(t, mine);
        assert(t.insert(t.len() as int, last) =~= incoming);
        lemma_map_insert_at(t, t.len() as int, last);
        let tt = entries_map(t).restrict(entries_map(t).dom().filter(|k: Seq<u8>| !mine.dom().contains(k)));
        if !mine.dom().contains(last.0) {
            assert(u == ut.push(last));
            assert(keys_ascending(u)) by {
                assert forall|y1: int, y2: int| 0 <= y1 < y2 < u.len() implies #[trigger] bytes_lt(
                    u[y1].0,
                    u[y2].0,
                ) by {
                    assert(u[y1] == ut[y1]);
                    let i = choose|i: int| 0 <= i < t.len() && t[i] == #[trigger] ut[y1];
                    assert(t[i] == incoming[i]);
                    if y2 == ut.len() {
                        assert(bytes_lt(incoming[i].0, incoming[incoming.len() - 1].0));
                    } else {
                        assert(u[y2] == ut[y2]);
                    }
                }
            }
            assert(ut.insert(ut.len() as int, last) =~= u);
            lemma_map_insert_at(ut, ut.len() as int, last);
            assert(entries_map(u) =~= target);
        } else {
            assert(u == ut);
            assert(entries_map(u) =~= target);
        }
    }
}

/// Received entries whose keys I already hold change nothing: two batches
/// that agree on every key I do not hold leave the same entries to process.
pub proof fn law_held_entries_change_nothing(
    a: Seq<(Seq<u8>, PrivateEventEntry)>,
    b: Seq<(Seq<u8>, PrivateEventEntry)>,
    mine: Map<Seq<u8>, PrivateEventEntry>,
)
    requires
        keys_ascending(a),
        keys_ascending(b),
        forall|k: Seq<u8>|
            !mine.dom().contains(k) ==> (#[trigger] entries_map(a).dom().contains(k) <==> entries_map(
                b,
            ).dom().contains(k)),
        forall|k: Seq<u8>|
            !mine.dom().contains(k) && #[trigger] entries_map(a).dom().contains(k) ==> entries_map(a)[k]
                == entries_map(b)[k],
    ensures
        unseen_entries(a, mine) == unseen_entries(b, mine),
{
    lemma_unseen_ascending(a, mine);
    lemma_unseen_ascending(b, mine);
    let ma = entries_map(unseen_entries(a, mine));
    let mb = entries_map(unseen_entries(b, mine));
    assert(ma =~= mb);
    lemma_ascending_determined(unseen_entries(a, mine), unseen_entries(b, mine));
}

/// Once every received key is among mine, nothing remains to process.
pub proof fn law_nothing_left_when_all_held(
    incoming: Seq<(Seq<u8>, PrivateEventEntry)>,
    mine: Map<Seq<u8>, PrivateEventEntry>,
)
    requires
        forall|i: int| 0 <= i < incoming.len() ==> mine.dom().contains(#[trigger] incoming[i].0),
    ensures
        unseen_entries(incoming, mine).len() == 0,
{
    let u = unseen_entries(incoming, mine);
    if u.len() > 0 {
        lemma_unseen_keys(incoming, mine);
        let i = choose|i: int| 0 <= i < incoming.len() && incoming[i] == #[trigger] u[0];
        assert(mine.dom().contains(incoming[i].0));
        let pred = |e: (Seq<u8>, PrivateEventEntry)| !mine.dom().contains(e.0);
        incoming.lemma_filter_pred(pred, 0);
    }
}

/// What to commit for a received event, given the outcome of its validation.
pub open spec fn received_entry_plan<E>(outcome: ValidationOutcome, entry: E) -> Result<
    EntryToCreate<E>,
    PrivateEventError,
> {
    match outcome {
        ValidationOutcome::Valid => Ok(EntryToCreate::PrivateEvent(entry)),
        ValidationOutcome::UnresolvedDependencies(deps) => Ok(
            EntryToCreate::AwaitingDependencies { event: entry, unresolved_dependencies: deps },
        ),
        ValidationOutcome::Invalid(reason) => Err(PrivateEventError::InvalidPrivateEvent(reason)),
    }
}

/// Decides what to commit for an event received from a linked device: a valid
/// event is committed, one with unresolved dependencies waits for them, and an
/// invalid one is refused.
pub fn plan_received_entry<E>(outcome: ValidationOutcome, entry: E) -> (r: Result<
    EntryToCreate<E>,
    PrivateEventError,
>)
    ensures
        r == received_entry_plan(outcome, entry),
        outcome is Valid ==> r == Ok::<EntryToCreate<E>, PrivateEventError>(EntryToCreate::PrivateEvent(entry)),
        outcome matches ValidationOutcome::UnresolvedDependencies(d) ==> r == Ok::<
            EntryToCreate<E>,
            PrivateEventError,
        >(EntryToCreate::AwaitingDependencies { event: entry, unresolved_dependencies: d }),
        outcome matches ValidationOutcome::Invalid(reason) ==> r == Err::<EntryToCreate<E>, PrivateEventError>(
            PrivateEventError::InvalidPrivateEvent(reason),
        ),
{
    match outcome {
        ValidationOutcome::Valid => Ok(EntryToCreate::PrivateEvent(entry)),
        ValidationOutcome::UnresolvedDependencies(unresolved_dependencies) => Ok(
            EntryToCreate::AwaitingDependencies { event: entry, unresolved_dependencies },
        ),
        ValidationOutcome::Invalid(reason) => Err(PrivateEventError::InvalidPrivateEvent(reason)),
    }
}

/// An entry received from a linked device, with what reading and validating
/// its event concluded: the outcome of the validation, or the error that
/// stopped reading or validating it.
#[derive(Debug)]
pub struct ReceivedEntry {
    pub entry_hash: EntryHash,
    pub entry: PrivateEventEntry,
    pub validation: Result<ValidationOutcome, PrivateEventError>,
}

/// What to commit for a received entry, or why it is refused.
pub open spec fn received_plan(r: ReceivedEntry) -> Result<
    EntryToCreate<PrivateEventEntry>,
    PrivateEventError,
> {
    match r.validation {
        Err(e) => Err(e),
        Ok(outcome) => received_entry_plan(outcome, r.entry),
    }
}

/// Decides what to commit for the entries received from a linked device, in
/// their order: the plans of the entries before the first one that cannot be
/// read, cannot be validated or is invalid, and that entry's error, if there
/// is one. The entries before it are committed; it and those after it are not.
pub fn plan_received_entries(received: Vec<ReceivedEntry>) -> (r: (
    Vec<EntryToCreate<PrivateEventEntry>>,
    Option<PrivateEventError>,
))
    ensures
        r.0@.len() <= received@.len(),
        forall|i: int|
            0 <= i < r.0@.len() ==> received_plan(received@[i]) == Ok::<
                EntryToCreate<PrivateEventEntry>,
                PrivateEventError,
            >(#[trigger] r.0@[i]),
        match r.1 {
            None => r.0@.len() == received@.len(),
            Some(e) => r.0@.len() < received@.len() && received_plan(received@[r.0@.len() as int])
                == Err::<EntryToCreate<PrivateEventEntry>, PrivateEventError>(e),
        },
        forall|i: int|
            #![trigger r.0@[i]]
            0 <= i < r.0@.len() ==> match received@[i].validation {
                Ok(ValidationOutcome::Valid) => r.0@[i] == EntryToCreate::PrivateEvent(received@[i].entry),
                Ok(ValidationOutcome::UnresolvedDependencies(d)) => r.0@[i]
                    == EntryToCreate::AwaitingDependencies {
                    event: received@[i].entry,
                    unresolved_dependencies: d,
                },
                _ => false,
            },
        r.1 matches Some(e) ==> match received@[r.0@.len() as int].validation {
            Err(e2) => e == e2,
            Ok(ValidationOutcome::Invalid(reason)) => e == PrivateEventError::InvalidPrivateEvent(reason),
            _ => false,
        },
{
    let ghost all = received@;
    let mut plans: Vec<EntryToCreate<PrivateEventEntry>> = Vec::new();
    for r in it: received
        invariant
            all == it.seq(),
            plans@.len() == it.index(),
            forall|i: int|
                0 <= i < plans@.len() ==> received_plan(all[i]) == Ok::<
                    EntryToCreate<PrivateEventEntry>,
                    PrivateEventError,
                >(#[trigger] plans@[i]),
    {
        let ghost i = it.index();
        assert(r == all[i as int]);
        let ReceivedEntry { entry_hash: _, entry, validation } = r;
        let outcome = match validation {
            Ok(outcome) => outcome,
            Err(e) => return (plans, Some(e)),
        };
        match plan_received_entry(outcome, entry) {
            Ok(plan) => plans.push(plan),
            Err(e) => return (plans, Some(e)),
        }
    }
    (plans, None)
}

/// The received entries that I do not hold yet, in key order.
pub open spec fn unseen_entries(
    incoming: Seq<(Seq<u8>, PrivateEventEntry)>,
    mine: Map<Seq<u8>, PrivateEventEntry>,
) -> Seq<(Seq<u8>, PrivateEventEntry)> {
    incoming.filter(|e: (Seq<u8>, PrivateEventEntry)| !mine.dom().contains(e.0))
}

/// The entries received from a linked device that are to be processed: those
/// whose hash is not among my own entries, in key order.
pub fn new_private_event_entries(
    incoming: OrderedMap<PrivateEventEntry>,
    mine: &OrderedMap<PrivateEventEntry>,
) -> (r: Vec<(EntryHash, PrivateEventEntry)>)
    ensures
        view_entries(r@) == unseen_entries(incoming@, mine.as_map()),
        keys_ascending(view_entries(r@)),
        forall|y: int| 0 <= y < r@.len() ==> !mine.as_map().dom().contains(#[trigger] r@[y].0@),
        forall|y: int| 0 <= y < r@.len() ==> incoming@.contains(#[trigger] view_entries(r@)[y]),
        forall|i: int|
            0 <= i < incoming@.len() && !mine.as_map().dom().contains(#[trigger] incoming@[i].0)
                ==> view_entries(r@).contains(incoming@[i]),
{
    proof {
        use_type_invariant(&incoming);
        lemma_unseen_ascending(incoming@, mine.as_map());
        lemma_unseen_keys(incoming@, mine.as_map());
        law_held_entries_skipped(incoming@, mine.as_map());
    }
    let ghost all = incoming@;
    let ghost pred = |e: (Seq<u8>, PrivateEventEntry)| !mine.as_map().dom().contains(e.0);
    let pairs = incoming.into_entries();
    let mut r: Vec<(EntryHash, PrivateEventEntry)> = Vec::new();
    proof {
        assert(all.take(0) =~= Seq::<(Seq<u8>, PrivateEventEntry)>::empty());
        assert(view_entries(r@) =~= all.take(0).filter(pred)) by {
            reveal_with_fuel(Seq::<_>::filter, 1);
        }
    }
    for pair in it: pairs
        invariant
            all == view_entries(it.seq()),
            view_entries(r@) == all.take(it.index() as int).filter(pred),
            pred == (|e: (Seq<u8>, PrivateEventEntry)| !mine.as_map().dom().contains(e.0)),
    {
        let ghost i = it.index();
        assert(pair == it.seq()[i as int]);
        assert(all[i as int] == (pair.0@, pair.1));
        let (hash, entry) = pair;
        proof {
            assert(all.take(i + 1).drop_last() =~= all.take(i as int));
            reveal_with_fuel(Seq::<_>::filter, 1);
        }
        if !mine.contains_key(&hash) {
            r.push((hash, entry));
            assert(view_entries(r@) =~= all.take(i + 1).filter(pred));
        } else {
            assert(view_entries(r@) =~= all.take(i + 1).filter(pred));
        }
    }
    assert(all.take(all.len() as int) =~= all);
    proof {
        assert forall|y: int| 0 <= y < r@.len() implies !mine.as_map().dom().contains(#[trigger] r@[y].0@) by {
            assert(view_entries(r@)[y] == (r@[y].0@, r@[y].1));
        }
    }
    r
}

/// An agent is one of my linked devices exactly when it is some device of
/// the list, wherever it stands there: every listed device is accepted, and
/// an agent that no device of the list equals is not.
pub proof fn law_every_listed_device_is_linked(agent: Seq<u8>, devices: Seq<AgentPubKey>)
    ensures
        forall|i: int| 0 <= i < devices.len() ==> is_linked_device(#[trigger] devices[i]@, devices),
        (forall|i: int| 0 <= i < devices.len() ==> #[trigger] devices[i]@ != agent) ==> !is_linked_device(
            agent,
            devices,
        ),
{
    assert forall|i: int| 0 <= i < devices.len() implies is_linked_device(#[trigger] devices[i]@, devices) by {
        assert(devices[i]@ == devices[i]@);
    }
}

/// The first steps of receiving one private event from a linked device: the
/// sender must be one of my linked devices, the event must have been read from
/// its entry, and its validation must conclude. Hands back the event and the
/// outcome of its validation, from which [`plan_received_entry`] decides what
/// to commit once the event is serialized again.
pub fn receive_private_event_from_linked_device<T: PrivateEvent>(
    provenance: &AgentPubKey,
    my_devices: &Vec<AgentPubKey>,
    private_event: Result<T, PrivateEventError>,
) -> (r: Result<(T, ValidationOutcome), PrivateEventError>)
    ensures
        !is_linked_device(provenance@, my_devices@) ==> r == Err::<(T, ValidationOutcome), PrivateEventError>(
            PrivateEventError::NotALinkedDevice,
        ),
        is_linked_device(provenance@, my_devices@) ==> r == match private_event {
            Err(e) => Err(e),
            Ok(event) => match event.validation() {
                Err(e) => Err(e),
                Ok(outcome) => Ok((event, outcome)),
            },
        },
        (exists|i: int| 0 <= i < my_devices@.len() && #[trigger] my_devices@[i]@ == provenance@)
            ==> r == match private_event {
            Err(e) => Err(e),
            Ok(event) => match event.validation() {
                Err(e) => Err(e),
                Ok(outcome) => Ok((event, outcome)),
            },
        },
        (forall|i: int| 0 <= i < my_devices@.len() ==> #[trigger] my_devices@[i]@ != provenance@)
            ==> r == Err::<(T, ValidationOutcome), PrivateEventError>(
            PrivateEventError::NotALinkedDevice,
        ),
{
    match check_is_linked_device(provenance, my_devices) {
        Ok(()) => {},
        Err(e) => return Err(e),
    }
    let private_event = match private_event {
        Ok(event) => event,
        Err(e) => return Err(e),
    };
    match private_event.validate() {
        Ok(outcome) => Ok((private_event, outcome)),
        Err(e) => Err(e),
    }
}

/// The first step of receiving private events from a linked device: the
/// sender must be one of my linked devices; the entries to process are then
/// those I do not hold yet, in key order.
pub fn receive_private_events_from_linked_device(
    provenance: &AgentPubKey,
    my_devices: &Vec<AgentPubKey>,
    private_event_entries: OrderedMap<PrivateEventEntry>,
    my_private_event_entries: &OrderedMap<PrivateEventEntry>,
) -> (r: Result<Vec<(EntryHash, PrivateEventEntry)>, PrivateEventError>)
    ensures
        !is_linked_device(provenance@, my_devices@) ==> r matches Err(
            PrivateEventError::NotALinkedDevice,
        ),
        is_linked_device(provenance@, my_devices@) ==> (r matches Ok(entries) && view_entries(
            entries@,
        ) == unseen_entries(private_event_entries@, my_private_event_entries.as_map())),
        forall|i: int|
            0 <= i < my_devices@.len() && #[trigger] my_devices@[i]@ == provenance@ ==> r is Ok,
        r is Ok ==> exists|i: int|
            0 <= i < my_devices@.len() && #[trigger] my_devices@[i]@ == provenance@,
        r matches Err(e) ==> e == PrivateEventError::NotALinkedDevice,
        r matches Ok(entries) ==> {
            &&& keys_ascending(view_entries(entries@))
            &&& forall|y: int|
                0 <= y < entries@.len() ==> !my_private_event_entries.as_map().dom().contains(
                    #[trigger] entries@[y].0@,
                )
            &&& forall|y: int|
                0 <= y < entries@.len() ==> private_event_entries@.contains(
                    #[trigger] view_entries(entries@)[y],
                )
            &&& forall|i: int|
                0 <= i < private_event_entries@.len()
                    && !my_private_event_entries.as_map().dom().contains(
                    #[trigger] private_event_entries@[i].0,
                ) ==> view_entries(entries@).contains(private_event_entries@[i])
        },
{
    match check_is_linked_device(provenance, my_devices) {
        Ok(()) => {},
        Err(e) => return Err(e),
    }
    Ok(new_private_event_entries(private_event_entries, my_private_event_entries))
}

/// What a private event record holds that the queries read: the hash of its
/// entry, and its entry read as a private event entry, when it has them.
#[derive(Debug)]
pub struct PrivateEventRecord {
    pub entry_hash: Option<EntryHash>,
    pub entry: Option<Result<PrivateEventEntry, PrivateEventError>>,
}

/// Why a record cannot be read as a private event entry, if it cannot.
pub open spec fn record_error(r: PrivateEventRecord) -> Option<PrivateEventError> {
    match r.entry_hash {
        None => Some(PrivateEventError::RecordWithoutEntryHash),
        Some(_) => match r.entry {
            None => Some(PrivateEventError::RecordWithoutEntry),
            Some(Err(e)) => Some(e),
            Some(Ok(_)) => None,
        },
    }
}

/// The pair that a readable record contributes: its entry under its entry hash.
pub open spec fn record_pair(r: PrivateEventRecord) -> (Seq<u8>, PrivateEventEntry) {
    (r.entry_hash->Some_0@, r.entry->Some_0->Ok_0)
}

/// A record's entry is what the query gives under its entry hash, unless a
/// later record holds the same hash: what a commit wrote, the query reads back.
pub proof fn law_record_entry_is_queried(records: Seq<PrivateEventRecord>, i: int)
    requires
        0 <= i < records.len(),
        forall|j: int| 0 <= j < records.len() ==> #[trigger] record_error(records[j]) is None,
        forall|j: int|
            i < j < records.len() ==> #[trigger] record_pair(records[j]).0 != record_pair(records[i]).0,
    ensures
        pairs_map(records.map_values(|x: PrivateEventRecord| record_pair(x))).dom().contains(
            record_pair(records[i]).0,
        ),
        pairs_map(records.map_values(|x: PrivateEventRecord| record_pair(x)))[record_pair(
            records[i],
        ).0] == record_pair(records[i]).1,
{
    let p = records.map_values(|x: PrivateEventRecord| record_pair(x));
    assert forall|j: int| i < j < p.len() implies #[trigger] p[j].0 != p[i].0 by {
        assert(p[j] == record_pair(records[j]));
    }
    law_last_pair_wins(p, i);
}

/// No record after the one at position `i` holds its entry hash.
pub open spec fn is_last_with_entry_hash(records: Seq<PrivateEventRecord>, i: int) -> bool {
    forall|j: int|
        i < j < records.len() ==> #[trigger] records[j].entry_hash->Some_0@ != records[i].entry_hash->Some_0@
}

/// The entries that private event records hold, keyed by entry hash; the
/// first record that cannot be read stops the collection with its error.
pub fn query_private_event_entries(records: Vec<PrivateEventRecord>) -> (r: Result<
    OrderedMap<PrivateEventEntry>,
    PrivateEventError,
>)
    ensures
        r matches Ok(m) ==> {
            &&& forall|i: int| 0 <= i < records@.len() ==> #[trigger] record_error(records@[i]) is None
            &&& m.as_map() == pairs_map(records@.map_values(|x: PrivateEventRecord| record_pair(x)))
        },
        r is Ok <==> forall|i: int|
            0 <= i < records@.len() ==> (#[trigger] records@[i]).entry_hash is Some && (
            records@[i].entry matches Some(Ok(_))),
        r matches Ok(m) ==> forall|i: int|
            0 <= i < records@.len() && #[trigger] is_last_with_entry_hash(records@, i) ==> {
                &&& records@[i].entry_hash is Some
                &&& m.as_map().dom().contains(records@[i].entry_hash->Some_0@)
                &&& records@[i].entry == Some(
                    Ok::<PrivateEventEntry, PrivateEventError>(m.as_map()[records@[i].entry_hash->Some_0@]),
                )
            },
        r matches Err(e) ==> exists|i: int|
            0 <= i < records@.len() && #[trigger] record_error(records@[i]) == Some(e) && forall|j: int|
                0 <= j < i ==> #[trigger] record_error(records@[j]) is None,
{
    let ghost all = records@;
    let ghost pairs_view = records@.map_values(|x: PrivateEventRecord| record_pair(x));
    let mut pairs: Vec<(EntryHash, PrivateEventEntry)> = Vec::new();
    for record in it: records
        invariant
            all == it.seq(),
            pairs_view == all.map_values(|x: PrivateEventRecord| record_pair(x)),
            forall|j: int| 0 <= j < it.index() ==> #[trigger] record_error(all[j]) is None,
            view_entries(pairs@) == pairs_view.take(it.index() as int),
    {
        let ghost i = it.index();
        assert(record == all[i as int]);
        let PrivateEventRecord { entry_hash, entry } = record;
        let hash = match entry_hash {
            Some(hash) => hash,
            None => {
                assert(record_error(all[i as int]) == Some(PrivateEventError::RecordWithoutEntryHash));
                return Err(PrivateEventError::RecordWithoutEntryHash);
            },
        };
        let entry = match entry {
            Some(Ok(entry)) => entry,
            Some(Err(e)) => {
                assert(record_error(all[i as int]) == Some(e));
                return Err(e);
            },
            None => {
                assert(record_error(all[i as int]) == Some(PrivateEventError::RecordWithoutEntry));
                return Err(PrivateEventError::RecordWithoutEntry);
            },
        };
        assert(pairs_view[i as int] == record_pair(all[i as int]));
        assert(record_pair(all[i as int]) == (hash@, entry));
        let ghost before = pairs@;
        pairs.push((hash, entry));
        assert(view_entries(pairs@) =~= view_entries(before).push(pairs_view[i as int]));
        assert(view_entries(pairs@) =~= pairs_view.take(i + 1));
    }
    assert(pairs_view.take(pairs_view.len() as int) =~= pairs_view);
    let m = OrderedMap::from_entries(pairs);
    proof {
        assert forall|i: int| 0 <= i < all.len() implies (#[trigger] all[i]).entry_hash is Some && (
        all[i].entry matches Some(Ok(_))) by {
            assert(record_error(all[i]) is None);
        }
        assert forall|i: int| 0 <= i < all.len() && #[trigger] is_last_with_entry_hash(all, i) implies {
            &&& all[i].entry_hash is Some
            &&& m.as_map().dom().contains(all[i].entry_hash->Some_0@)
            &&& all[i].entry == Some(
                Ok::<PrivateEventEntry, PrivateEventError>(m.as_map()[all[i].entry_hash->Some_0@]),
            )
        } by {
            assert(record_error(all[i]) is None);
            assert forall|j: int| i < j < all.len() implies #[trigger] record_pair(all[j]).0 != record_pair(all[i]).0 by {
                assert(record_error(all[j]) is None);
                assert(all[j].entry_hash->Some_0@ != all[i].entry_hash->Some_0@);
            }
            law_record_entry_is_queried(all, i);
        }
    }
    Ok(m)
}

/// The entry of a record fetched by hash: none when no record was found, and
/// an error when the record holds no entry or its entry cannot be read.
pub fn query_private_event_entry(
    record: Option<Option<Result<PrivateEventEntry, PrivateEventError>>>,
) -> (r: Result<Option<PrivateEventEntry>, PrivateEventError>)
    ensures
        r == match record {
            None => Ok(None),
            Some(None) => Err(PrivateEventError::RecordWithoutEntry),
            Some(Some(Err(e))) => Err(e),
            Some(Some(Ok(entry))) => Ok(Some(entry)),
        },
{
    match record {
        None => Ok(None),
        Some(None) => Err(PrivateEventError::RecordWithoutEntry),
        Some(Some(Err(e))) => Err(e),
        Some(Some(Ok(entry))) => Ok(Some(entry)),
    }
}

/// The events of the map that could be read, under their hashes.
pub open spec fn readable_events<T>(decoded: Map<Seq<u8>, Option<T>>) -> Map<Seq<u8>, T> {
    Map::new(|k: Seq<u8>| decoded.dom().contains(k) && decoded[k] is Some, |k: Seq<u8>| decoded[k]->Some_0)
}

/// The private events, keyed by entry hash, that their entries could be read
/// as; entries that could not be read are left out.
pub fn query_private_events<T>(decoded: OrderedMap<Option<T>>) -> (r: OrderedMap<T>)
    ensures
        r.as_map() == readable_events(decoded.as_map()),
        forall|k: Seq<u8>|
            #[trigger] r.as_map().dom().contains(k) <==> (decoded.as_map().dom().contains(k)
                && decoded.as_map()[k] is Some),
        forall|k: Seq<u8>|
            #[trigger] r.as_map().dom().contains(k) ==> decoded.as_map()[k] == Some(r.as_map()[k]),
{
    proof {
        use_type_invariant(&decoded);
    }
    let ghost all = decoded@;
    let entries = decoded.into_entries();
    let mut r: OrderedMap<T> = OrderedMap::new();
    proof {
        assert(r.as_map() =~= Map::empty());
    }
    for pair in it: entries
        invariant
            all == view_entries(it.seq()),
            keys_ascending(all),
            r.as_map() == Map::new(
                |k: Seq<u8>| exists|j: int| 0 <= j < it.index() && #[trigger] all[j].0 == k && all[j].1 is Some,
                |k: Seq<u8>| entries_map(all)[k]->Some_0,
            ),
    {
        let ghost i = it.index();
        assert(pair == it.seq()[i as int]);
        assert(all[i as int] == (pair.0@, pair.1));
        let (hash, value) = pair;
        proof {
            lemma_entries_map_at(all, i as int);
        }
        match value {
            Some(v) => {
                r.insert(hash, v);
            },
            None => {},
        }
        let ghost target = Map::new(
            |k: Seq<u8>| exists|j: int| 0 <= j < i + 1 && #[trigger] all[j].0 == k && all[j].1 is Some,
            |k: Seq<u8>| entries_map(all)[k]->Some_0,
        );
        assert forall|k: Seq<u8>| #[trigger] r.as_map().dom().contains(k) <==> target.dom().contains(k) by {
            if target.dom().contains(k) {
                let j = choose|j: int| 0 <= j < i + 1 && #[trigger] all[j].0 == k && all[j].1 is Some;
                if j == i {
                } else {
                    assert(exists|j2: int| 0 <= j2 < i && #[trigger] all[j2].0 == k && all[j2].1 is Some);
                }
            }
        }
        assert(r.as_map() =~= target);
    }
    proof {
        let m = decoded.as_map();
        assert forall|k: Seq<u8>| #[trigger] r.as_map().dom().contains(k) <==> readable_events(m).dom().contains(k) by {
            if readable_events(m).dom().contains(k) {
                assert(has_key(all, k));
                let j = choose|j: int| 0 <= j < all.len() && #[trigger] all[j].0 == k;
                lemma_entries_map_at(all, j);
            }
            if r.as_map().dom().contains(k) {
                let j = choose|j: int| 0 <= j < all.len() && #[trigger] all[j].0 == k && all[j].1 is Some;
                lemma_entries_map_at(all, j);
            }
        }
        assert(r.as_map() =~= readable_events(m));
    }
    r
}

/// The event that an entry fetched by hash could be read as: none when no
/// entry was found.
pub fn query_private_event<T>(decoded: Option<Result<T, PrivateEventError>>) -> (r: Result<
    Option<T>,
    PrivateEventError,
>)
    ensures
        r == match decoded {
            None => Ok(None),
            Some(Err(e)) => Err(e),
            Some(Ok(event)) => Ok(Some(event)),
        },
{
    match decoded {
        None => Ok(None),
        Some(Err(e)) => Err(e),
        Some(Ok(event)) => Ok(Some(event)),
    }
}

} // verus!
