use vstd::prelude::*;

use crate::contacts_event::{Contact, ContactView, ContactsEvent};
use crate::event_order::{
    event_timestamps, events_in_timestamp_order, is_timestamp_order, lists_position, precedes,
    lemma_precedes_strict_total,
};
use crate::hash::{
    bytes_lt, lemma_bytes_lt_asymmetric, lemma_bytes_lt_irreflexive, lemma_bytes_lt_transitive,
};
use crate::ordered_map::{
    entries_map, entry_values, has_key, key_index, keys_ascending, lemma_ascending_determined,
    lemma_entries_map_at, lemma_map_insert_at, OrderedMap,
};
use crate::private_event_sourcing::SignedEvent;

verus! {

/// The contacts event log, keyed by entry hash (as bytes), in key order.
pub type ContactsLog = Seq<(Seq<u8>, SignedEvent<ContactsEvent>)>;

/// The event at position `i` adds a contact.
pub open spec fn adds_contact(s: ContactsLog, i: int) -> bool {
    s[i].1.event.content is ContactAdded
}

/// The contact that the event at position `i` adds.
pub open spec fn added_contact(s: ContactsLog, i: int) -> ContactView {
    match s[i].1.event.content {
        ContactsEvent::ContactAdded(c) => c@,
        _ => arbitrary(),
    }
}

/// The event at position `j` removes the contact named `k`.
pub open spec fn removes_contact(s: ContactsLog, j: int, k: Seq<u8>) -> bool {
    match s[j].1.event.content {
        ContactsEvent::ContactRemoved { contact_added_hash } => contact_added_hash@ == k,
        _ => false,
    }
}

/// The event at position `j` updates the contact named `k`.
pub open spec fn updates_contact(s: ContactsLog, j: int, k: Seq<u8>) -> bool {
    match s[j].1.event.content {
        ContactsEvent::ContactUpdated { contact_added_hash, .. } => contact_added_hash@ == k,
        _ => false,
    }
}

/// The contact that the update at position `j` puts in place.
pub open spec fn updated_contact(s: ContactsLog, j: int) -> ContactView {
    match s[j].1.event.content {
        ContactsEvent::ContactUpdated { new_contact, .. } => new_contact@,
        _ => arbitrary(),
    }
}

/// Some event of the log removes the contact named `k`.
pub open spec fn is_removed(s: ContactsLog, k: Seq<u8>) -> bool {
    exists|j: int| 0 <= j < s.len() && #[trigger] removes_contact(s, j, k)
}

/// Some event of the log updates the contact named `k`.
pub open spec fn is_updated(s: ContactsLog, k: Seq<u8>) -> bool {
    exists|j: int| 0 <= j < s.len() && #[trigger] updates_contact(s, j, k)
}

/// The update at position `j` is the latest update of the contact named `k`:
/// every other update of it precedes it by timestamp, ties broken by key order.
pub open spec fn is_latest_update(s: ContactsLog, j: int, k: Seq<u8>) -> bool {
    &&& 0 <= j < s.len()
    &&& updates_contact(s, j, k)
    &&& forall|j2: int|
        0 <= j2 < s.len() && j2 != j && #[trigger] updates_contact(s, j2, k) ==> precedes(
            event_timestamps(s),
            j2,
            j,
        )
}

/// The contact added at position `i` as it currently stands: the latest update
/// of it, if it was ever updated.
pub open spec fn current_contact(s: ContactsLog, i: int) -> ContactView {
    if is_updated(s, s[i].0) {
        updated_contact(s, choose|j: int| is_latest_update(s, j, s[i].0))
    } else {
        added_contact(s, i)
    }
}

/// The contacts shown among the first `n` events, under the hash of the event
/// that added them: those added and never removed, as they currently stand.
pub open spec fn shown_contacts(s: ContactsLog, n: int) -> Seq<(Seq<u8>, ContactView)>
    decreases n,
{
    if n <= 0 {
        Seq::empty()
    } else if adds_contact(s, n - 1) && !is_removed(s, s[n - 1].0) {
        shown_contacts(s, n - 1).push((s[n - 1].0, current_contact(s, n - 1)))
    } else {
        shown_contacts(s, n - 1)
    }
}

/// All contacts of the log, in the order of the hashes of the events that
/// added them.
pub open spec fn all_contacts(s: ContactsLog) -> Seq<ContactView> {
    entry_values(shown_contacts(s, s.len() as int))
}

/// The contacts of a map, as views.
pub open spec fn contact_views(m: Map<Seq<u8>, Contact>) -> Map<Seq<u8>, ContactView> {
    Map::new(|k: Seq<u8>| m.dom().contains(k), |k: Seq<u8>| m[k]@)
}

/// The contacts added by the first `i` events, under their hashes.
spec fn added_map(s: ContactsLog, i: int) -> Map<Seq<u8>, ContactView> {
    Map::new(
        |k: Seq<u8>| exists|x: int| 0 <= x < i && #[trigger] s[x].0 == k && adds_contact(s, x),
        |k: Seq<u8>| added_contact(s, key_index(s, k)),
    )
}

/// The contacts added by the log that none of its first `i` events removes.
spec fn kept_map(s: ContactsLog, i: int) -> Map<Seq<u8>, ContactView> {
    Map::new(
        |k: Seq<u8>|
            added_map(s, s.len() as int).dom().contains(k) && !(exists|j: int|
                0 <= j < i && #[trigger] removes_contact(s, j, k)),
        |k: Seq<u8>| added_map(s, s.len() as int)[k],
    )
}

/// Some event among the first `x` of `order` updates the contact named `k`.
spec fn updated_before(s: ContactsLog, order: Seq<usize>, x: int, k: Seq<u8>) -> bool {
    exists|y: int| 0 <= y < x && #[trigger] updates_contact(s, order[y] as int, k)
}

/// The event at `y` is the last among the first `x` of `order` that updates
/// the contact named `k`.
spec fn is_last_update_before(s: ContactsLog, order: Seq<usize>, x: int, y: int, k: Seq<u8>) -> bool {
    &&& 0 <= y < x
    &&& updates_contact(s, order[y] as int, k)
    &&& forall|y2: int| 0 <= y2 < x && #[trigger] updates_contact(s, order[y2] as int, k) ==> y2 <= y
}

/// The contacts kept, each replaced by the last of its updates among the
/// first `x` events of `order`.
spec fn updated_so_far(s: ContactsLog, order: Seq<usize>, x: int, m: Map<Seq<u8>, ContactView>) -> bool {
    &&& m.dom() == kept_map(s, s.len() as int).dom()
    &&& forall|k: Seq<u8>| #[trigger] m.dom().contains(k) ==> {
        if updated_before(s, order, x, k) {
            exists|y: int| #[trigger] is_last_update_before(s, order, x, y, k) && m[k] == updated_contact(s, order[y] as int)
        } else {
            m[k] == added_map(s, s.len() as int)[k]
        }
    }
}

/// All contacts of a contacts event log, as they currently stand: each
/// contact added and never removed, replaced by the latest of its updates.
pub fn query_all_contacts(contacts_events: &OrderedMap<SignedEvent<ContactsEvent>>) -> (r: Vec<
    Contact,
>)
    ensures
        r@.map_values(|c: Contact| c@) == all_contacts(contacts_events@),
        r@.len() == shown_contacts(contacts_events@, contacts_events@.len() as int).len(),
        forall|y: int|
            0 <= y < r@.len() ==> #[trigger] r@[y]@ == shown_contacts(
                contacts_events@,
                contacts_events@.len() as int,
            )[y].1,
{
    proof {
        use_type_invariant(contacts_events);
    }
    let ghost s = contacts_events@;
    let n = contacts_events.len();
    let mut contacts_addeds: OrderedMap<Contact> = OrderedMap::new();
    proof {
        assert(contact_views(contacts_addeds.as_map()) =~= added_map(s, 0));
    }
    for i in 0..n
        invariant
            n == s.len(),
            s == contacts_events@,
            keys_ascending(s),
            contact_views(contacts_addeds.as_map()) == added_map(s, i as int),
    {
        let e = contacts_events.entry(i);
        proof {
            lemma_entries_map_at(s, i as int);
        }
        match &e.1.event.content {
            ContactsEvent::ContactAdded(contact) => {
                let ghost before = contacts_addeds.as_map();
                let key = e.0.duplicate();
                let value = contact.duplicate();
                contacts_addeds.insert(key, value);
                proof {
                    let next = added_map(s, i + 1);
                    assert forall|k: Seq<u8>| #[trigger] contact_views(contacts_addeds.as_map()).dom().contains(k)
                        <==> next.dom().contains(k) by {
                        if next.dom().contains(k) {
                            let x = choose|x: int| 0 <= x < i + 1 && #[trigger] s[x].0 == k && adds_contact(s, x);
                            if x < i {
                                assert(added_map(s, i as int).dom().contains(k));
                            }
                        }
                        if contact_views(contacts_addeds.as_map()).dom().contains(k) && k != s[i as int].0 {
                            assert(added_map(s, i as int).dom().contains(k));
                        }
                    }
                    assert(added_contact(s, i as int) == contact@);
                    assert forall|k: Seq<u8>| #[trigger] next.dom().contains(k) implies contact_views(
                        contacts_addeds.as_map(),
                    )[k] == next[k] by {
                        if k != s[i as int].0 {
                            assert(added_map(s, i as int).dom().contains(k));
                            assert(contact_views(before).dom().contains(k));
                            assert(contacts_addeds.as_map()[k] == before[k]);
                            assert(contact_views(before)[k] == before[k]@);
                            assert(contact_views(before) == added_map(s, i as int));
                            assert(added_map(s, i as int)[k] == next[k]);
                        } else {
                            assert(contacts_addeds.as_map()[k] == value);
                            assert(key_index(s, k) == i);
                            assert(next[k] == added_contact(s, i as int));
                        }
                    }
                    assert(contact_views(contacts_addeds.as_map()) =~= next);
                }
            },
            _ => {
                proof {
                    let next = added_map(s, i + 1);
                    assert forall|k: Seq<u8>| #[trigger] next.dom().contains(k) implies added_map(s, i as int).dom().contains(k) by {
                        let x = choose|x: int| 0 <= x < i + 1 && #[trigger] s[x].0 == k && adds_contact(s, x);
                        assert(x != i);
                    }
                    assert(contact_views(contacts_addeds.as_map()) =~= next);
                }
            },
        }
    }
    proof {
        assert(contact_views(contacts_addeds.as_map()) =~= kept_map(s, 0));
    }
    for i in 0..n
        invariant
            n == s.len(),
            s == contacts_events@,
            keys_ascending(s),
            contact_views(contacts_addeds.as_map()) == kept_map(s, i as int),
    {
        let e = contacts_events.entry(i);
        let ghost before = contacts_addeds.as_map();
        match &e.1.event.content {
            ContactsEvent::ContactRemoved { contact_added_hash } => {
                contacts_addeds.remove(contact_added_hash);
                proof {
                    let next = kept_map(s, i + 1);
                    assert forall|k: Seq<u8>| #[trigger] contact_views(contacts_addeds.as_map()).dom().contains(k)
                        <==> next.dom().contains(k) by {
                        if next.dom().contains(k) {
                            assert(kept_map(s, i as int).dom().contains(k));
                            assert(!removes_contact(s, i as int, k));
                        }
                        if contact_views(contacts_addeds.as_map()).dom().contains(k) {
                            assert(kept_map(s, i as int).dom().contains(k));
                            assert(!removes_contact(s, i as int, k));
                            if exists|j: int| 0 <= j < i + 1 && #[trigger] removes_contact(s, j, k) {
                                let j = choose|j: int| 0 <= j < i + 1 && #[trigger] removes_contact(s, j, k);
                                assert(j != i);
                            }
                        }
                    }
                    assert forall|k: Seq<u8>| #[trigger] next.dom().contains(k) implies contact_views(
                        contacts_addeds.as_map(),
                    )[k] == next[k] by {
                        assert(kept_map(s, i as int).dom().contains(k));
                        assert(contact_views(before).dom().contains(k));
                        assert(contact_views(before)[k] == before[k]@);
                        assert(!removes_contact(s, i as int, k));
                        assert(k != contact_added_hash@);
                        assert(contacts_addeds.as_map()[k] == before[k]);
                        assert(kept_map(s, i as int)[k] == next[k]);
                    }
                    assert(contact_views(contacts_addeds.as_map()) =~= next);
                }
            },
            _ => {
                proof {
                    let next = kept_map(s, i + 1);
                    assert forall|k: Seq<u8>| #[trigger] kept_map(s, i as int).dom().contains(k)
                        implies next.dom().contains(k) by {
                        if exists|j: int| 0 <= j < i + 1 && #[trigger] removes_contact(s, j, k) {
                            let j = choose|j: int| 0 <= j < i + 1 && #[trigger] removes_contact(s, j, k);
                            assert(j != i);
                        }
                    }
                    assert(contact_views(contacts_addeds.as_map()) =~= next);
                }
            },
        }
    }
    let order = events_in_timestamp_order(contacts_events);
    proof {
        assert(updated_so_far(s, order@, 0, contact_views(contacts_addeds.as_map())));
    }
    for x in 0..n
        invariant
            n == s.len(),
            s == contacts_events@,
            keys_ascending(s),
            is_timestamp_order(event_timestamps(s), order@),
            updated_so_far(s, order@, x as int, contact_views(contacts_addeds.as_map())),
    {
        let i = order[x];
        let e = contacts_events.entry(i);
        let ghost before = contact_views(contacts_addeds.as_map());
        match &e.1.event.content {
            ContactsEvent::ContactUpdated { contact_added_hash, new_contact } => {
                if contacts_addeds.contains_key(contact_added_hash) {
                    let key = contact_added_hash.duplicate();
                    let value = new_contact.duplicate();
                    contacts_addeds.insert(key, value);
                    proof {
                        let m = contact_views(contacts_addeds.as_map());
                        let h = contact_added_hash@;
                        assert(m.dom() =~= before.dom());
                        assert forall|k: Seq<u8>| #[trigger] m.dom().contains(k) implies {
                            if updated_before(s, order@, x + 1, k) {
                                exists|y: int| #[trigger] is_last_update_before(s, order@, x + 1, y, k) && m[k] == updated_contact(s, order@[y] as int)
                            } else {
                                m[k] == added_map(s, s.len() as int)[k]
                            }
                        } by {
                            if k == h {
                                assert(updates_contact(s, order@[x as int] as int, k));
                                assert(is_last_update_before(s, order@, x + 1, x as int, k));
                                assert(m[k] == value@);
                            } else {
                                assert(!updates_contact(s, order@[x as int] as int, k));
                                assert(m[k] == before[k]);
                                if updated_before(s, order@, x + 1, k) {
                                    let y0 = choose|y: int| 0 <= y < x + 1 && #[trigger] updates_contact(s, order@[y] as int, k);
                                    assert(updated_before(s, order@, x as int, k));
                                    let y = choose|y: int| #[trigger] is_last_update_before(s, order@, x as int, y, k) && before[k] == updated_contact(s, order@[y] as int);
                                    assert(is_last_update_before(s, order@, x + 1, y, k));
                                } else {
                                    if updated_before(s, order@, x as int, k) {
                                        let y0 = choose|y: int| 0 <= y < x && #[trigger] updates_contact(s, order@[y] as int, k);
                                        assert(updated_before(s, order@, x + 1, k));
                                    }
                                }
                            }
                        }
                    }
                } else {
                    proof {
                        lemma_unchanged_step(s, order@, x as int, before, Some(contact_added_hash@));
                    }
                }
            },
            _ => {
                proof {
                    lemma_unchanged_step(s, order@, x as int, before, None);
                }
            },
        }
    }
    proof {
        use_type_invariant(&contacts_addeds);
        lemma_final_contacts(s, order@, contact_views(contacts_addeds.as_map()));
        lemma_shown_contacts(s, n as int);
        lemma_contact_views_entries(contacts_addeds@);
        lemma_ascending_determined(
            contacts_addeds@.map_values(|e: (Seq<u8>, Contact)| (e.0, e.1@)),
            shown_contacts(s, n as int),
        );
    }
    let r = contacts_addeds.into_values();
    proof {
        let w = contacts_addeds@.map_values(|e: (Seq<u8>, Contact)| (e.0, e.1@));
        assert(r@.map_values(|c: Contact| c@) =~= entry_values(w));
        let shown = shown_contacts(s, n as int);
        assert(r@.map_values(|c: Contact| c@).len() == entry_values(shown).len());
        assert forall|y: int| 0 <= y < r@.len() implies #[trigger] r@[y]@ == shown[y].1 by {
            assert(r@.map_values(|c: Contact| c@)[y] == entry_values(shown)[y]);
        }
    }
    r
}

/// A contact is shown exactly when an event of the log added it and no event
/// removed it, and it is shown as it currently stands.
pub proof fn law_contact_shown_iff_added_and_not_removed(s: ContactsLog, k: Seq<u8>)
    requires
        keys_ascending(s),
    ensures
        has_key(shown_contacts(s, s.len() as int), k) <==> (exists|i: int|
            0 <= i < s.len() && #[trigger] s[i].0 == k && adds_contact(s, i)) && !is_removed(s, k),
        has_key(shown_contacts(s, s.len() as int), k) ==> entries_map(
            shown_contacts(s, s.len() as int),
        )[k] == current_contact(s, key_index(s, k)),
{
    lemma_shown_contacts(s, s.len() as int);
    assert(entries_map(shown_contacts(s, s.len() as int)).dom().contains(k) == has_key(
        shown_contacts(s, s.len() as int),
        k,
    ));
}

/// All contacts come out in the ascending order of the hashes of the events
/// that added them.
pub proof fn law_contacts_in_key_order(s: ContactsLog)
    requires
        keys_ascending(s),
    ensures
        keys_ascending(shown_contacts(s, s.len() as int)),
{
    lemma_shown_contacts(s, s.len() as int);
}

/// An update newer than every other event of the log is what its contact
/// shows as.
pub proof fn law_newest_update_wins(s: ContactsLog, i: int, j: int)
    requires
        0 <= i < s.len(),
        0 <= j < s.len(),
        adds_contact(s, i),
        updates_contact(s, j, s[i].0),
        forall|x: int|
            0 <= x < s.len() && x != j ==> #[trigger] s[x].1.event.timestamp < s[j].1.event.timestamp,
    ensures
        current_contact(s, i) == updated_contact(s, j),
{
    let ts = event_timestamps(s);
    let k = s[i].0;
    assert forall|j2: int| 0 <= j2 < s.len() && j2 != j && #[trigger] updates_contact(s, j2, k) implies precedes(ts, j2, j) by {
        assert(s[j2].1.event.timestamp < s[j].1.event.timestamp);
    }
    assert(is_latest_update(s, j, k));
    assert(is_updated(s, k));
    let jc = choose|j: int| is_latest_update(s, j, k);
    assert(is_latest_update(s, jc, k));
    if jc != j {
        lemma_precedes_strict_total(ts, jc, j);
        assert(precedes(ts, jc, j));
        assert(precedes(ts, j, jc));
    }
}

/// A contact that some event of the log removes is never shown, whatever
/// else the log holds.
pub proof fn law_removed_contact_not_shown(s: ContactsLog, j: int)
    requires
        keys_ascending(s),
        0 <= j < s.len(),
        s[j].1.event.content is ContactRemoved,
    ensures
        forall|y: int|
            0 <= y < shown_contacts(s, s.len() as int).len() ==> #[trigger] shown_contacts(
                s,
                s.len() as int,
            )[y].0 != s[j].1.event.content->ContactRemoved_contact_added_hash@,
{
    let k = s[j].1.event.content->ContactRemoved_contact_added_hash@;
    let shown = shown_contacts(s, s.len() as int);
    assert(removes_contact(s, j, k));
    law_contact_shown_iff_added_and_not_removed(s, k);
    assert forall|y: int| 0 <= y < shown.len() implies #[trigger] shown[y].0 != k by {
        if shown[y].0 == k {
            assert(has_key(shown, k));
        }
    }
}

/// Every contact shown was added by an event of the log, under that event's
/// hash.
pub proof fn law_shown_contact_was_added(s: ContactsLog)
    requires
        keys_ascending(s),
    ensures
        forall|y: int|
            0 <= y < shown_contacts(s, s.len() as int).len() ==> exists|i: int|
                0 <= i < s.len() && #[trigger] s[i].0 == #[trigger] shown_contacts(
                    s,
                    s.len() as int,
                )[y].0 && s[i].1.event.content is ContactAdded,
{
    let shown = shown_contacts(s, s.len() as int);
    assert forall|y: int| 0 <= y < shown.len() implies exists|i: int|
        0 <= i < s.len() && #[trigger] s[i].0 == #[trigger] shown[y].0 && s[i].1.event.content is ContactAdded by {
        let k = shown[y].0;
        assert(has_key(shown, k));
        law_contact_shown_iff_added_and_not_removed(s, k);
    }
}

/// A contact added by an event that no event of the log updates or removes is
/// shown as it was added, under the hash of the event that added it.
pub proof fn law_untouched_contact_shown_as_added(s: ContactsLog, i: int)
    requires
        keys_ascending(s),
        0 <= i < s.len(),
        s[i].1.event.content is ContactAdded,
        forall|j: int|
            0 <= j < s.len() ==> !((#[trigger] s[j].1.event.content is ContactRemoved)
                && s[j].1.event.content->ContactRemoved_contact_added_hash@ == s[i].0),
        forall|j: int|
            0 <= j < s.len() ==> !((#[trigger] s[j].1.event.content is ContactUpdated)
                && s[j].1.event.content->ContactUpdated_contact_added_hash@ == s[i].0),
    ensures
        exists|y: int|
            0 <= y < shown_contacts(s, s.len() as int).len() && #[trigger] shown_contacts(
                s,
                s.len() as int,
            )[y] == (s[i].0, s[i].1.event.content->ContactAdded_0@),
{
    let k = s[i].0;
    let shown = shown_contacts(s, s.len() as int);
    assert(!is_removed(s, k)) by {
        if is_removed(s, k) {
            let j = choose|j: int| 0 <= j < s.len() && #[trigger] removes_contact(s, j, k);
            assert(s[j].1.event.content is ContactRemoved);
        }
    }
    assert(!is_updated(s, k)) by {
        if is_updated(s, k) {
            let j = choose|j: int| 0 <= j < s.len() && #[trigger] updates_contact(s, j, k);
            assert(s[j].1.event.content is ContactUpdated);
        }
    }
    assert(s[i].0 == k && adds_contact(s, i));
    law_contact_shown_iff_added_and_not_removed(s, k);
    lemma_entries_map_at(s, i);
    let y = key_index(shown, k);
    law_contacts_in_key_order(s);
    lemma_entries_map_at(shown, y);
    assert(shown[y] == (k, s[i].1.event.content->ContactAdded_0@));
}

/// A contact added by an event and never removed shows as the update of it
/// that is newer than every other update of it.
pub proof fn law_contact_shown_as_newest_update(s: ContactsLog, i: int, j: int)
    requires
        keys_ascending(s),
        0 <= i < s.len(),
        0 <= j < s.len(),
        s[i].1.event.content is ContactAdded,
        s[j].1.event.content is ContactUpdated,
        s[j].1.event.content->ContactUpdated_contact_added_hash@ == s[i].0,
        forall|x: int|
            0 <= x < s.len() ==> !((#[trigger] s[x].1.event.content is ContactRemoved)
                && s[x].1.event.content->ContactRemoved_contact_added_hash@ == s[i].0),
        forall|x: int|
            0 <= x < s.len() && x != j && (#[trigger] s[x].1.event.content is ContactUpdated)
                && s[x].1.event.content->ContactUpdated_contact_added_hash@ == s[i].0
                ==> s[x].1.event.timestamp < s[j].1.event.timestamp,
    ensures
        exists|y: int|
            0 <= y < shown_contacts(s, s.len() as int).len() && #[trigger] shown_contacts(
                s,
                s.len() as int,
            )[y] == (s[i].0, s[j].1.event.content->new_contact@),
{
    let k = s[i].0;
    let shown = shown_contacts(s, s.len() as int);
    let ts = event_timestamps(s);
    assert(!is_removed(s, k)) by {
        if is_removed(s, k) {
            let x = choose|x: int| 0 <= x < s.len() && #[trigger] removes_contact(s, x, k);
            assert(s[x].1.event.content is ContactRemoved);
        }
    }
    assert(updates_contact(s, j, k));
    assert forall|j2: int| 0 <= j2 < s.len() && j2 != j && #[trigger] updates_contact(s, j2, k) implies precedes(ts, j2, j) by {
        assert(s[j2].1.event.content is ContactUpdated);
        assert(s[j2].1.event.timestamp < s[j].1.event.timestamp);
    }
    assert(is_latest_update(s, j, k));
    assert(is_updated(s, k));
    let jc = choose|j: int| is_latest_update(s, j, k);
    assert(is_latest_update(s, jc, k));
    if jc != j {
        lemma_precedes_strict_total(ts, jc, j);
        assert(precedes(ts, jc, j));
        assert(precedes(ts, j, jc));
    }
    assert(s[i].0 == k && adds_contact(s, i));
    law_contact_shown_iff_added_and_not_removed(s, k);
    lemma_entries_map_at(s, i);
    let y = key_index(shown, k);
    law_contacts_in_key_order(s);
    lemma_entries_map_at(shown, y);
    assert(shown[y] == (k, s[j].1.event.content->new_contact@));
}

/// Some event of the log adds the contact named `k`.
pub open spec fn is_added(s: ContactsLog, k: Seq<u8>) -> bool {
    exists|i: int| 0 <= i < s.len() && #[trigger] s[i].0 == k && adds_contact(s, i)
}

/// An event with this content touches no contact added in `s`: it adds no
/// contact, and updates or removes none of those that `s` adds.
pub open spec fn leaves_contacts_alone(s: ContactsLog, c: ContactsEvent) -> bool {
    match c {
        ContactsEvent::ContactAdded(_) => false,
        ContactsEvent::ContactUpdated { contact_added_hash, .. } => !is_added(s, contact_added_hash@),
        ContactsEvent::ContactRemoved { contact_added_hash } => !is_added(s, contact_added_hash@),
        _ => true,
    }
}

/// The keyed event `e` is one of the log's.
pub open spec fn in_log(s: ContactsLog, e: (Seq<u8>, SignedEvent<ContactsEvent>)) -> bool {
    exists|i: int| 0 <= i < s.len() && #[trigger] s[i] == e
}

/// Events that add no contact and touch no added contact leave the contacts
/// unchanged: if `s2` holds every event of `s`, and each other event of `s2`
/// leaves the contacts of `s` alone, both logs show the same contacts in the
/// same order.
pub proof fn law_untouching_events_change_nothing(s: ContactsLog, s2: ContactsLog)
    requires
        keys_ascending(s),
        keys_ascending(s2),
        forall|i: int| 0 <= i < s.len() ==> in_log(s2, #[trigger] s[i]),
        forall|j: int|
            0 <= j < s2.len() ==> in_log(s, #[trigger] s2[j]) || leaves_contacts_alone(
                s,
                s2[j].1.event.content,
            ),
    ensures
        all_contacts(s2) == all_contacts(s),
{
    let n = s.len() as int;
    let n2 = s2.len() as int;
    let m = shown_map(s, n);
    let m2 = shown_map(s2, n2);
    assert forall|k: Seq<u8>| is_added(s, k) implies #[trigger] is_added(s2, k) by {
        let i = choose|i: int| 0 <= i < s.len() && #[trigger] s[i].0 == k && adds_contact(s, i);
        assert(in_log(s2, s[i]));
        let j = choose|j: int| 0 <= j < s2.len() && #[trigger] s2[j] == s[i];
        assert(s2[j].0 == k && adds_contact(s2, j));
    }
    assert forall|k: Seq<u8>| is_added(s2, k) implies #[trigger] is_added(s, k) by {
        let j = choose|j: int| 0 <= j < s2.len() && #[trigger] s2[j].0 == k && adds_contact(s2, j);
        if !in_log(s, s2[j]) {
            assert(leaves_contacts_alone(s, s2[j].1.event.content));
        }
        let i = choose|i: int| 0 <= i < s.len() && #[trigger] s[i] == s2[j];
        assert(s[i].0 == k && adds_contact(s, i));
    }
    assert forall|k: Seq<u8>| is_added(s, k) implies (#[trigger] is_removed(s2, k) <==> is_removed(s, k)) by {
        if is_removed(s2, k) {
            let j = choose|j: int| 0 <= j < s2.len() && #[trigger] removes_contact(s2, j, k);
            if !in_log(s, s2[j]) {
                assert(leaves_contacts_alone(s, s2[j].1.event.content));
            }
            let i = choose|i: int| 0 <= i < s.len() && #[trigger] s[i] == s2[j];
            assert(removes_contact(s, i, k));
        }
        if is_removed(s, k) {
            let i = choose|i: int| 0 <= i < s.len() && #[trigger] removes_contact(s, i, k);
            assert(in_log(s2, s[i]));
            let j = choose|j: int| 0 <= j < s2.len() && #[trigger] s2[j] == s[i];
            assert(removes_contact(s2, j, k));
        }
    }
    assert forall|k: Seq<u8>| #[trigger] m.dom().contains(k) <==> m2.dom().contains(k) by {
        if m.dom().contains(k) {
            let x = choose|x: int| 0 <= x < n && #[trigger] s[x].0 == k && adds_contact(s, x) && !is_removed(s, k);
            assert(is_added(s, k));
            assert(is_added(s2, k));
            let j = choose|j: int| 0 <= j < s2.len() && #[trigger] s2[j].0 == k && adds_contact(s2, j);
            assert(m2.dom().contains(k));
        }
        if m2.dom().contains(k) {
            let x = choose|x: int| 0 <= x < n2 && #[trigger] s2[x].0 == k && adds_contact(s2, x) && !is_removed(s2, k);
            assert(is_added(s2, k));
            assert(is_added(s, k));
            let i = choose|i: int| 0 <= i < s.len() && #[trigger] s[i].0 == k && adds_contact(s, i);
            assert(m.dom().contains(k));
        }
    }
    assert forall|k: Seq<u8>| #[trigger] m.dom().contains(k) implies m[k] == m2[k] by {
        let x = choose|x: int| 0 <= x < n && #[trigger] s[x].0 == k && adds_contact(s, x) && !is_removed(s, k);
        assert(is_added(s, k));
        lemma_current_contact_kept(s, s2, x);
    }
    assert(m =~= m2);
    lemma_shown_contacts(s, n);
    lemma_shown_contacts(s2, n2);
    lemma_ascending_determined(shown_contacts(s, n), shown_contacts(s2, n2));
}

/// In ascending entries, a smaller key stands earlier.
proof fn lemma_key_order_is_position_order(s: ContactsLog, p: int, q: int)
    requires
        keys_ascending(s),
        0 <= p < s.len(),
        0 <= q < s.len(),
        bytes_lt(s[p].0, s[q].0),
    ensures
        p < q,
{
    if p == q {
        lemma_bytes_lt_irreflexive(s[p].0);
    } else if q < p {
        assert(bytes_lt(s[q].0, s[p].0));
        lemma_bytes_lt_asymmetric(s[q].0, s[p].0);
    }
}

/// Some update of the contact named `k` is the latest, once it is updated at
/// all, among the first `n` events.
proof fn lemma_latest_update_exists(s: ContactsLog, k: Seq<u8>, n: int)
    requires
        0 <= n <= s.len(),
        exists|j: int| 0 <= j < n && #[trigger] updates_contact(s, j, k),
    ensures
        exists|j: int|
            0 <= j < n && updates_contact(s, j, k) && forall|j2: int|
                0 <= j2 < n && j2 != j && #[trigger] updates_contact(s, j2, k) ==> precedes(
                    event_timestamps(s),
                    j2,
                    j,
                ),
    decreases n,
{
    let ts = event_timestamps(s);
    if exists|j: int| 0 <= j < n - 1 && #[trigger] updates_contact(s, j, k) {
        lemma_latest_update_exists(s, k, n - 1);
        let b = choose|j: int|
            0 <= j < n - 1 && updates_contact(s, j, k) && forall|j2: int|
                0 <= j2 < n - 1 && j2 != j && #[trigger] updates_contact(s, j2, k) ==> precedes(
                    ts,
                    j2,
                    j,
                );
        if updates_contact(s, n - 1, k) && precedes(ts, b, n - 1) {
            assert forall|j2: int| 0 <= j2 < n && j2 != n - 1 && #[trigger] updates_contact(s, j2, k)
                implies precedes(ts, j2, n - 1) by {
                if j2 != b {
                    assert(precedes(ts, j2, b));
                }
            }
        } else {
            if updates_contact(s, n - 1, k) {
                lemma_precedes_strict_total(ts, b, n - 1);
            }
            assert forall|j2: int| 0 <= j2 < n && j2 != b && #[trigger] updates_contact(s, j2, k)
                implies precedes(ts, j2, b) by {}
        }
    } else {
        let j = choose|j: int| 0 <= j < n && #[trigger] updates_contact(s, j, k);
        assert(j == n - 1);
        assert forall|j2: int| 0 <= j2 < n && j2 != n - 1 && #[trigger] updates_contact(s, j2, k)
            implies precedes(ts, j2, n - 1) by {}
    }
}

/// A contact added in `s` stands the same in `s2` when `s2` adds only events
/// that leave the contacts of `s` alone.
proof fn lemma_current_contact_kept(s: ContactsLog, s2: ContactsLog, x: int)
    requires
        keys_ascending(s),
        keys_ascending(s2),
        forall|i: int| 0 <= i < s.len() ==> in_log(s2, #[trigger] s[i]),
        forall|j: int|
            0 <= j < s2.len() ==> in_log(s, #[trigger] s2[j]) || leaves_contacts_alone(
                s,
                s2[j].1.event.content,
            ),
        0 <= x < s.len(),
        adds_contact(s, x),
    ensures
        current_contact(s, key_index(s, s[x].0)) == current_contact(s2, key_index(s2, s[x].0)),
{
    let k = s[x].0;
    let ts = event_timestamps(s);
    let ts2 = event_timestamps(s2);
    assert(is_added(s, k));
    lemma_entries_map_at(s, x);
    assert(in_log(s2, s[x]));
    let x2 = choose|j: int| 0 <= j < s2.len() && #[trigger] s2[j] == s[x];
    lemma_entries_map_at(s2, x2);
    assert(key_index(s, k) == x);
    assert(key_index(s2, k) == x2);
    // Every update of `k` in `s2` is one of `s`, and the other way round.
    assert forall|j2: int| 0 <= j2 < s2.len() && #[trigger] updates_contact(s2, j2, k) implies in_log(s, s2[j2]) by {
        if !in_log(s, s2[j2]) {
            assert(leaves_contacts_alone(s, s2[j2].1.event.content));
        }
    }
    if is_updated(s, k) {
        let j0 = choose|j: int| 0 <= j < s.len() && #[trigger] updates_contact(s, j, k);
        lemma_latest_update_exists(s, k, s.len() as int);
        let j = choose|j: int|
            0 <= j < s.len() && updates_contact(s, j, k) && forall|j2: int|
                0 <= j2 < s.len() && j2 != j && #[trigger] updates_contact(s, j2, k) ==> precedes(
                    ts,
                    j2,
                    j,
                );
        assert(is_latest_update(s, j, k));
        let jc = choose|j: int| is_latest_update(s, j, k);
        if jc != j {
            lemma_precedes_strict_total(ts, jc, j);
        }
        assert(in_log(s2, s[j]));
        let j2 = choose|q: int| 0 <= q < s2.len() && #[trigger] s2[q] == s[j];
        assert(updates_contact(s2, j2, k));
        assert forall|q: int| 0 <= q < s2.len() && q != j2 && #[trigger] updates_contact(s2, q, k) implies precedes(ts2, q, j2) by {
            assert(in_log(s, s2[q]));
            let p = choose|p: int| 0 <= p < s.len() && #[trigger] s[p] == s2[q];
            assert(updates_contact(s, p, k));
            if p == j {
                lemma_entries_map_at(s2, q);
                lemma_entries_map_at(s2, j2);
            }
            assert(precedes(ts, p, j));
            if ts[p] == ts[j] {
                assert(bytes_lt(s[p].0, s[j].0));
                lemma_key_order_is_position_order(s2, q, j2);
            }
        }
        assert(is_latest_update(s2, j2, k));
        assert(is_updated(s2, k));
        let jc2 = choose|q: int| is_latest_update(s2, q, k);
        if jc2 != j2 {
            lemma_precedes_strict_total(ts2, jc2, j2);
        }
    } else {
        if is_updated(s2, k) {
            let q = choose|q: int| 0 <= q < s2.len() && #[trigger] updates_contact(s2, q, k);
            assert(in_log(s, s2[q]));
            let p = choose|p: int| 0 <= p < s.len() && #[trigger] s[p] == s2[q];
            assert(updates_contact(s, p, k));
        }
    }
}

/// The map of the contacts shown among the first `n` events.
spec fn shown_map(s: ContactsLog, n: int) -> Map<Seq<u8>, ContactView> {
    Map::new(
        |k: Seq<u8>|
            exists|x: int| 0 <= x < n && #[trigger] s[x].0 == k && adds_contact(s, x) && !is_removed(s, k),
        |k: Seq<u8>| current_contact(s, key_index(s, k)),
    )
}

/// The contacts shown among the first `n` events have ascending keys, all
/// below the key of the next event, and describe the map of those contacts.
proof fn lemma_shown_contacts(s: ContactsLog, n: int)
    requires
        keys_ascending(s),
        0 <= n <= s.len(),
    ensures
        keys_ascending(shown_contacts(s, n)),
        n < s.len() ==> forall|y: int|
            0 <= y < shown_contacts(s, n).len() ==> bytes_lt(#[trigger] shown_contacts(s, n)[y].0, s[n].0),
        entries_map(shown_contacts(s, n)) == shown_map(s, n),
    decreases n,
{
    if n == 0 {
        assert(entries_map(shown_contacts(s, n)) =~= shown_map(s, n));
    } else {
        lemma_shown_contacts(s, n - 1);
        let prev = shown_contacts(s, n - 1);
        lemma_entries_map_at(s, n - 1);
        if adds_contact(s, n - 1) && !is_removed(s, s[n - 1].0) {
            let e = (s[n - 1].0, current_contact(s, n - 1));
            let cur = prev.push(e);
            assert(prev.insert(prev.len() as int, e) =~= cur);
            assert(keys_ascending(cur)) by {
                assert forall|y1: int, y2: int| 0 <= y1 < y2 < cur.len() implies #[trigger] bytes_lt(
                    cur[y1].0,
                    cur[y2].0,
                ) by {
                    if y2 == prev.len() {
                        assert(cur[y1] == prev[y1]);
                    } else {
                        assert(cur[y1] == prev[y1] && cur[y2] == prev[y2]);
                    }
                }
            }
            lemma_map_insert_at(prev, prev.len() as int, e);
            if n < s.len() {
                assert(bytes_lt(s[n - 1].0, s[n].0));
                assert forall|y: int| 0 <= y < cur.len() implies bytes_lt(#[trigger] cur[y].0, s[n].0) by {
                    if y < prev.len() {
                        assert(cur[y] == prev[y]);
                        lemma_bytes_lt_transitive(prev[y].0, s[n - 1].0, s[n].0);
                    }
                }
            }
            assert forall|k: Seq<u8>| #[trigger] shown_map(s, n).dom().contains(k) <==> entries_map(
                cur,
            ).dom().contains(k) by {
                if shown_map(s, n).dom().contains(k) && k != s[n - 1].0 {
                    let x = choose|x: int|
                        0 <= x < n && #[trigger] s[x].0 == k && adds_contact(s, x) && !is_removed(s, k);
                    assert(shown_map(s, n - 1).dom().contains(k));
                }
                if entries_map(cur).dom().contains(k) && k != s[n - 1].0 {
                    assert(shown_map(s, n - 1).dom().contains(k));
                }
            }
            assert(entries_map(cur) =~= shown_map(s, n));
        } else {
            if n < s.len() {
                assert(bytes_lt(s[n - 1].0, s[n].0));
                assert forall|y: int| 0 <= y < prev.len() implies bytes_lt(#[trigger] prev[y].0, s[n].0) by {
                    lemma_bytes_lt_transitive(prev[y].0, s[n - 1].0, s[n].0);
                }
            }
            assert forall|k: Seq<u8>| #[trigger] shown_map(s, n).dom().contains(k) implies shown_map(
                s,
                n - 1,
            ).dom().contains(k) by {
                let x = choose|x: int|
                    0 <= x < n && #[trigger] s[x].0 == k && adds_contact(s, x) && !is_removed(s, k);
                assert(x != n - 1);
            }
            assert(entries_map(prev) =~= shown_map(s, n));
        }
    }
}

/// After the update pass, the contacts kept are those shown, as they
/// currently stand.
proof fn lemma_final_contacts(s: ContactsLog, order: Seq<usize>, m: Map<Seq<u8>, ContactView>)
    requires
        keys_ascending(s),
        is_timestamp_order(event_timestamps(s), order),
        updated_so_far(s, order, s.len() as int, m),
    ensures
        m == shown_map(s, s.len() as int),
{
    let n = s.len() as int;
    let target = shown_map(s, n);
    assert forall|k: Seq<u8>| #[trigger] m.dom().contains(k) <==> target.dom().contains(k) by {
        if m.dom().contains(k) {
            assert(kept_map(s, n).dom().contains(k));
            assert(added_map(s, n).dom().contains(k));
            let x = choose|x: int| 0 <= x < n && #[trigger] s[x].0 == k && adds_contact(s, x);
            if is_removed(s, k) {
                let j = choose|j: int| 0 <= j < n && #[trigger] removes_contact(s, j, k);
                assert(exists|j2: int| 0 <= j2 < n && #[trigger] removes_contact(s, j2, k));
            }
        }
        if target.dom().contains(k) {
            let x = choose|x: int| 0 <= x < n && #[trigger] s[x].0 == k && adds_contact(s, x) && !is_removed(s, k);
            assert(added_map(s, n).dom().contains(k));
            if exists|j: int| 0 <= j < n && #[trigger] removes_contact(s, j, k) {
                let j = choose|j: int| 0 <= j < n && #[trigger] removes_contact(s, j, k);
                assert(is_removed(s, k));
            }
            assert(kept_map(s, n).dom().contains(k));
        }
    }
    assert forall|k: Seq<u8>| #[trigger] m.dom().contains(k) implies m[k] == target[k] by {
        assert(kept_map(s, n).dom().contains(k));
        assert(added_map(s, n).dom().contains(k));
        let x = choose|x: int| 0 <= x < n && #[trigger] s[x].0 == k && adds_contact(s, x);
        lemma_entries_map_at(s, x);
        let i = key_index(s, k);
        assert(i == x);
        let ts = event_timestamps(s);
        if updated_before(s, order, n, k) {
            let y = choose|y: int| #[trigger] is_last_update_before(s, order, n, y, k) && m[k] == updated_contact(s, order[y] as int);
            let j = order[y] as int;
            assert(order[y] < n);
            assert(is_updated(s, k));
            assert forall|j2: int| 0 <= j2 < n && j2 != j && #[trigger] updates_contact(s, j2, k) implies precedes(ts, j2, j) by {
                assert(lists_position(order, j2));
                let y2 = choose|y2: int| 0 <= y2 < order.len() && #[trigger] order[y2] == j2;
                assert(updates_contact(s, order[y2] as int, k));
                assert(y2 <= y);
                assert(y2 != y);
                assert(precedes(ts, order[y2] as int, order[y] as int));
            }
            assert(is_latest_update(s, j, k));
            let jc = choose|j: int| is_latest_update(s, j, k);
            assert(is_latest_update(s, jc, k));
            if jc != j {
                lemma_precedes_strict_total(ts, jc, j);
                assert(precedes(ts, jc, j));
                assert(precedes(ts, j, jc));
            }
            assert(current_contact(s, i) == updated_contact(s, j));
        } else {
            if is_updated(s, k) {
                let j = choose|j: int| 0 <= j < n && #[trigger] updates_contact(s, j, k);
                assert(lists_position(order, j));
                let y = choose|y: int| 0 <= y < order.len() && #[trigger] order[y] == j;
                assert(updates_contact(s, order[y] as int, k));
                assert(updated_before(s, order, n, k));
            }
            assert(current_contact(s, i) == added_contact(s, i));
        }
    }
    assert(m =~= target);
}

/// Ordered contacts, taken as views, keep their ascending keys and describe
/// the map of the contacts' views.
proof fn lemma_contact_views_entries(a: Seq<(Seq<u8>, Contact)>)
    requires
        keys_ascending(a),
    ensures
        keys_ascending(a.map_values(|e: (Seq<u8>, Contact)| (e.0, e.1@))),
        entries_map(a.map_values(|e: (Seq<u8>, Contact)| (e.0, e.1@))) == contact_views(entries_map(a)),
{
    let w = a.map_values(|e: (Seq<u8>, Contact)| (e.0, e.1@));
    assert(keys_ascending(w)) by {
        assert forall|i: int, j: int| 0 <= i < j < w.len() implies #[trigger] bytes_lt(w[i].0, w[j].0) by {
            assert(w[i].0 == a[i].0 && w[j].0 == a[j].0);
        }
    }
    let t = contact_views(entries_map(a));
    assert forall|k: Seq<u8>| #[trigger] entries_map(w).dom().contains(k) <==> t.dom().contains(k) by {
        if has_key(w, k) {
            let i = key_index(w, k);
            assert(a[i].0 == k);
        }
        if has_key(a, k) {
            let i = key_index(a, k);
            assert(w[i].0 == k);
        }
    }
    assert forall|k: Seq<u8>| #[trigger] t.dom().contains(k) implies entries_map(w)[k] == t[k] by {
        let i = key_index(a, k);
        lemma_entries_map_at(a, i);
        assert(w[i] == (a[i].0, a[i].1@));
        lemma_entries_map_at(w, i);
    }
    assert(entries_map(w) =~= t);
}

/// A step of the update pass that changes no contact keeps the invariant:
/// the event at `order[x]` updates no kept contact (`h` is the contact it
/// updates, if any).
proof fn lemma_unchanged_step(
    s: ContactsLog,
    order: Seq<usize>,
    x: int,
    m: Map<Seq<u8>, ContactView>,
    h: Option<Seq<u8>>,
)
    requires
        0 <= x < order.len(),
        updated_so_far(s, order, x, m),
        forall|k: Seq<u8>| #[trigger] updates_contact(s, order[x] as int, k) ==> h == Some(k),
        h matches Some(k) ==> !m.dom().contains(k),
    ensures
        updated_so_far(s, order, x + 1, m),
{
    assert forall|k: Seq<u8>| #[trigger] m.dom().contains(k) implies {
        if updated_before(s, order, x + 1, k) {
            exists|y: int| #[trigger] is_last_update_before(s, order, x + 1, y, k) && m[k] == updated_contact(s, order[y] as int)
        } else {
            m[k] == added_map(s, s.len() as int)[k]
        }
    } by {
        assert(!updates_contact(s, order[x] as int, k));
        if updated_before(s, order, x + 1, k) {
            let y0 = choose|y: int| 0 <= y < x + 1 && #[trigger] updates_contact(s, order[y] as int, k);
            assert(updated_before(s, order, x, k));
            let y = choose|y: int| #[trigger] is_last_update_before(s, order, x, y, k) && m[k] == updated_contact(s, order[y] as int);
            assert(is_last_update_before(s, order, x + 1, y, k));
        } else {
            if updated_before(s, order, x, k) {
                let y0 = choose|y: int| 0 <= y < x && #[trigger] updates_contact(s, order[y] as int, k);
                assert(updated_before(s, order, x + 1, k));
            }
        }
    }
}

} // verus!
