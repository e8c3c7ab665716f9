use vstd::prelude::*;

use crate::all_contacts::ContactsLog;
use crate::contacts_event::{ContactsEvent, Profile, ProfileView};
use crate::event_order::{
    event_timestamps, events_in_timestamp_order, is_timestamp_order, lemma_precedes_strict_total,
    lists_position, precedes,
};
use crate::ordered_map::OrderedMap;
use crate::private_event_sourcing::{create_private_event, PrivateEventError, SignedEvent};

verus! {

/// The event at position `i` sets my profile.
pub open spec fn sets_profile(s: ContactsLog, i: int) -> bool {
    s[i].1.event.content is SetMyProfile
}

/// The profile that the event at position `i` sets.
pub open spec fn profile_set_at(s: ContactsLog, i: int) -> ProfileView {
    match s[i].1.event.content {
        ContactsEvent::SetMyProfile(p) => p@,
        _ => arbitrary(),
    }
}

/// The event at position `i` is the latest that sets my profile: every other
/// such event precedes it by timestamp, ties broken by key order.
pub open spec fn is_latest_profile(s: ContactsLog, i: int) -> bool {
    &&& 0 <= i < s.len()
    &&& sets_profile(s, i)
    &&& forall|j: int|
        0 <= j < s.len() && j != i && #[trigger] sets_profile(s, j) ==> precedes(
            event_timestamps(s),
            j,
            i,
        )
}

/// My profile: the one the latest profile event sets, if any event does.
pub open spec fn my_profile(s: ContactsLog) -> Option<ProfileView> {
    if exists|i: int| 0 <= i < s.len() && #[trigger] sets_profile(s, i) {
        Some(profile_set_at(s, choose|i: int| is_latest_profile(s, i)))
    } else {
        None
    }
}

/// The profile I set last, from the contacts event log.
pub fn query_my_profile(contacts_events: &OrderedMap<SignedEvent<ContactsEvent>>) -> (r: Option<
    Profile,
>)
    ensures
        match r {
            Some(p) => my_profile(contacts_events@) == Some(p@),
            None => my_profile(contacts_events@) == None::<ProfileView>,
        },
        r is None <==> forall|i: int|
            0 <= i < contacts_events@.len() ==> !(#[trigger] contacts_events@[i].1.event.content is SetMyProfile),
        r matches Some(p) ==> exists|i: int|
            0 <= i < contacts_events@.len() && (#[trigger] contacts_events@[i].1.event.content is SetMyProfile)
                && contacts_events@[i].1.event.content->SetMyProfile_0@ == p@ && forall|j: int|
                0 <= j < contacts_events@.len() && j != i
                    && (#[trigger] contacts_events@[j].1.event.content is SetMyProfile) ==> (
                contacts_events@[j].1.event.timestamp < contacts_events@[i].1.event.timestamp || (
                contacts_events@[j].1.event.timestamp == contacts_events@[i].1.event.timestamp && j < i)),
{
    proof {
        use_type_invariant(contacts_events);
    }
    let ghost s = contacts_events@;
    let n = contacts_events.len();
    let order = events_in_timestamp_order(contacts_events);
    let mut last: Option<usize> = None;
    for x in 0..n
        invariant
            n == s.len(),
            s == contacts_events@,
            is_timestamp_order(event_timestamps(s), order@),
            match last {
                None => forall|y: int| 0 <= y < x ==> !#[trigger] sets_profile(s, order@[y] as int),
                Some(b) => b < x && sets_profile(s, order@[b as int] as int) && forall|y: int|
                    0 <= y < x && #[trigger] sets_profile(s, order@[y] as int) ==> y <= b,
            },
    {
        let e = contacts_events.entry(order[x]);
        match &e.1.event.content {
            ContactsEvent::SetMyProfile(_) => {
                last = Some(x);
            },
            _ => {},
        }
    }
    let ts = Ghost(event_timestamps(s));
    match last {
        None => {
            proof {
                if exists|i: int| 0 <= i < s.len() && #[trigger] sets_profile(s, i) {
                    let i = choose|i: int| 0 <= i < s.len() && #[trigger] sets_profile(s, i);
                    assert(lists_position(order@, i));
                    let y = choose|y: int| 0 <= y < order@.len() && #[trigger] order@[y] == i;
                    assert(sets_profile(s, order@[y] as int));
                }
                assert forall|i: int| 0 <= i < s.len() implies !(#[trigger] s[i].1.event.content is SetMyProfile) by {
                    if s[i].1.event.content is SetMyProfile {
                        assert(sets_profile(s, i));
                    }
                }
            }
            None
        },
        Some(b) => {
            let i = order[b];
            let e = contacts_events.entry(i);
            let r = match &e.1.event.content {
                ContactsEvent::SetMyProfile(p) => p.duplicate(),
                _ => {
                    proof {
                        assert(false);
                    }
                    Profile { name: String::new(), avatar: None, custom_fields: Vec::new() }
                },
            };
            proof {
                let ts = ts@;
                assert forall|j: int| 0 <= j < s.len() && j != i && #[trigger] sets_profile(s, j) implies precedes(
                    ts,
                    j,
                    i as int,
                ) by {
                    assert(lists_position(order@, j));
                    let y = choose|y: int| 0 <= y < order@.len() && #[trigger] order@[y] == j;
                    assert(sets_profile(s, order@[y] as int));
                    assert(y != b);
                    assert(precedes(ts, order@[y] as int, order@[b as int] as int));
                }
                assert(is_latest_profile(s, i as int));
                let ic = choose|i: int| is_latest_profile(s, i);
                assert(is_latest_profile(s, ic));
                if ic != i {
                    lemma_precedes_strict_total(ts, ic, i as int);
                    assert(precedes(ts, ic, i as int));
                    assert(precedes(ts, i as int, ic));
                }
                assert forall|j: int|
                    0 <= j < s.len() && j != i && (#[trigger] s[j].1.event.content is SetMyProfile) implies (
                    s[j].1.event.timestamp < s[i as int].1.event.timestamp || (s[j].1.event.timestamp
                        == s[i as int].1.event.timestamp && j < i)) by {
                    assert(sets_profile(s, j));
                    assert(precedes(ts, j, i as int));
                }
                assert(s[i as int].1.event.content->SetMyProfile_0@ == r@);
            }
            Some(r)
        },
    }
}

/// What a read gives back of a write: once an event that sets my profile is
/// added to the log with a timestamp newer than every event already there, my
/// profile is the one it sets.
pub proof fn law_newest_profile_is_mine(s: ContactsLog, p: int, e: (Seq<u8>, SignedEvent<ContactsEvent>), profile: Profile)
    requires
        0 <= p <= s.len(),
        e.1.event.content == ContactsEvent::SetMyProfile(profile),
        forall|x: int| 0 <= x < s.len() ==> #[trigger] s[x].1.event.timestamp < e.1.event.timestamp,
    ensures
        my_profile(s.insert(p, e)) == Some(profile@),
{
    let t = s.insert(p, e);
    let ts = event_timestamps(t);
    assert(sets_profile(t, p));
    assert forall|j: int| 0 <= j < t.len() && j != p && #[trigger] sets_profile(t, j) implies precedes(ts, j, p) by {
        if j < p {
            assert(t[j] == s[j]);
        } else {
            assert(t[j] == s[j - 1]);
        }
    }
    assert(is_latest_profile(t, p));
    let ic = choose|i: int| is_latest_profile(t, i);
    assert(is_latest_profile(t, ic));
    if ic != p {
        lemma_precedes_strict_total(ts, ic, p);
        assert(precedes(ts, ic, p));
        assert(precedes(ts, p, ic));
    }
}

/// Without an event that sets my profile, I have none.
pub proof fn law_no_profile_without_event(s: ContactsLog)
    requires
        forall|i: int| 0 <= i < s.len() ==> !#[trigger] sets_profile(s, i),
    ensures
        my_profile(s) == None::<ProfileView>,
{
}

/// The event that sets my profile, once validated.
pub fn set_my_profile(profile: Profile) -> (r: Result<ContactsEvent, PrivateEventError>)
    ensures
        r == Ok::<ContactsEvent, PrivateEventError>(ContactsEvent::SetMyProfile(profile)),
{
    create_private_event(ContactsEvent::SetMyProfile(profile))
}

} // verus!
