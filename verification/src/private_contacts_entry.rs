use vstd::prelude::*;

use crate::contacts_event::ContactsError;
use crate::contacts_integrity::PrivateContactsEntry;
use crate::hash::ActionHash;
use crate::ordered_map::{law_last_pair_wins, pairs_map, view_entries, OrderedMap};

verus! {

/// What a record that creates a private contacts entry holds that the query
/// reads: its action hash, and its entry read as a private contacts entry
/// when it has an entry.
#[derive(Debug)]
pub struct PrivateContactsRecord {
    pub action_hash: ActionHash,
    pub entry: Option<Result<PrivateContactsEntry, ContactsError>>,
}

/// Why a record cannot be read as a private contacts entry, if it cannot.
pub open spec fn contacts_record_error(r: PrivateContactsRecord) -> Option<ContactsError> {
    match r.entry {
        None => Some(ContactsError::RecordWithoutEntry),
        Some(Err(e)) => Some(e),
        Some(Ok(_)) => None,
    }
}

/// The pair that a readable record contributes: its entry under its action
/// hash.
pub open spec fn contacts_record_pair(r: PrivateContactsRecord) -> (Seq<u8>, PrivateContactsEntry) {
    (r.action_hash@, r.entry->Some_0->Ok_0)
}

/// No record after the one at position `i` holds its action hash.
pub open spec fn is_last_with_hash(records: Seq<PrivateContactsRecord>, i: int) -> bool {
    forall|j: int| i < j < records.len() ==> #[trigger] records[j].action_hash@ != records[i].action_hash@
}

/// The private contacts entries that records hold, keyed by action hash; the
/// first record that cannot be read stops the collection with its error.
pub fn query_private_contacts_entries(records: Vec<PrivateContactsRecord>) -> (r: Result<
    OrderedMap<PrivateContactsEntry>,
    ContactsError,
>)
    ensures
        r matches Ok(m) ==> {
            &&& forall|i: int|
                0 <= i < records@.len() ==> #[trigger] contacts_record_error(records@[i]) is None
            &&& m.as_map() == pairs_map(
                records@.map_values(|x: PrivateContactsRecord| contacts_record_pair(x)),
            )
        },
        r is Ok <==> forall|i: int|
            0 <= i < records@.len() ==> ((#[trigger] records@[i]).entry matches Some(Ok(_))),
        r matches Ok(m) ==> forall|i: int|
            0 <= i < records@.len() && #[trigger] is_last_with_hash(records@, i) ==> {
                &&& m.as_map().dom().contains(records@[i].action_hash@)
                &&& records@[i].entry == Some(
                    Ok::<PrivateContactsEntry, ContactsError>(m.as_map()[records@[i].action_hash@]),
                )
            },
        r matches Err(e) ==> exists|i: int|
            0 <= i < records@.len() && #[trigger] contacts_record_error(records@[i]) == Some(e)
                && forall|j: int| 0 <= j < i ==> #[trigger] contacts_record_error(records@[j]) is None,
{
    let ghost all = records@;
    let ghost pairs_view = records@.map_values(|x: PrivateContactsRecord| contacts_record_pair(x));
    let mut pairs: Vec<(ActionHash, PrivateContactsEntry)> = Vec::new();
    for record in it: records
        invariant
            all == it.seq(),
            pairs_view == all.map_values(|x: PrivateContactsRecord| contacts_record_pair(x)),
            forall|j: int| 0 <= j < it.index() ==> #[trigger] contacts_record_error(all[j]) is None,
            view_entries(pairs@) == pairs_view.take(it.index() as int),
    {
        let ghost i = it.index();
        assert(record == all[i as int]);
        let PrivateContactsRecord { action_hash, entry } = record;
        let entry = match entry {
            Some(Ok(entry)) => entry,
            Some(Err(e)) => {
                assert(contacts_record_error(all[i as int]) == Some(e));
                return Err(e);
            },
            None => {
                assert(contacts_record_error(all[i as int]) == Some(ContactsError::RecordWithoutEntry));
                return Err(ContactsError::RecordWithoutEntry);
            },
        };
        assert(pairs_view[i as int] == contacts_record_pair(all[i as int]));
        assert(contacts_record_pair(all[i as int]) == (action_hash@, entry));
        let ghost before = pairs@;
        pairs.push((action_hash, entry));
        assert(view_entries(pairs@) =~= view_entries(before).push(pairs_view[i as int]));
        assert(view_entries(pairs@) =~= pairs_view.take(i + 1));
    }
    assert(pairs_view.take(pairs_view.len() as int) =~= pairs_view);
    let m = OrderedMap::from_entries(pairs);
    proof {
        assert forall|i: int| 0 <= i < all.len() implies ((#[trigger] all[i]).entry matches Some(Ok(_))) by {
            assert(contacts_record_error(all[i]) is None);
        }
        assert forall|i: int| 0 <= i < all.len() && #[trigger] is_last_with_hash(all, i) implies {
            &&& m.as_map().dom().contains(all[i].action_hash@)
            &&& all[i].entry == Some(Ok::<PrivateContactsEntry, ContactsError>(m.as_map()[all[i].action_hash@]))
        } by {
            assert(contacts_record_error(all[i]) is None);
            let e = all[i].entry->Some_0->Ok_0;
            law_contacts_record_entry_is_queried(all, i, e);
        }
    }
    Ok(m)
}

/// `k` is one of the deleted action hashes.
pub open spec fn is_deleted(deleted: Seq<ActionHash>, k: Seq<u8>) -> bool {
    exists|i: int| 0 <= i < deleted.len() && #[trigger] deleted[i]@ == k
}

/// The private contacts entries that no delete action deletes.
pub fn query_undeleted_private_contacts_entries(
    entries: OrderedMap<PrivateContactsEntry>,
    deleted_addresses: &Vec<ActionHash>,
) -> (r: OrderedMap<PrivateContactsEntry>)
    ensures
        r.as_map() == entries.as_map().remove_keys(
            Set::new(|k: Seq<u8>| is_deleted(deleted_addresses@, k)),
        ),
        forall|i: int|
            0 <= i < deleted_addresses@.len() ==> !r.as_map().dom().contains(
                #[trigger] deleted_addresses@[i]@,
            ),
        forall|k: Seq<u8>|
            #[trigger] r.as_map().dom().contains(k) <==> (entries.as_map().dom().contains(k)
                && forall|i: int| 0 <= i < deleted_addresses@.len() ==> #[trigger] deleted_addresses@[i]@ != k),
        forall|k: Seq<u8>| #[trigger] r.as_map().dom().contains(k) ==> r.as_map()[k] == entries.as_map()[k],
{
    let mut entries = entries;
    let ghost initial = entries.as_map();
    let n = deleted_addresses.len();
    for i in 0..n
        invariant
            n == deleted_addresses@.len(),
            entries.as_map() == initial.remove_keys(
                Set::new(|k: Seq<u8>| is_deleted(deleted_addresses@.take(i as int), k)),
            ),
    {
        entries.remove(&deleted_addresses[i]);
        proof {
            let d = deleted_addresses@;
            assert forall|k: Seq<u8>| #[trigger] is_deleted(d.take(i + 1), k) <==> (is_deleted(
                d.take(i as int),
                k,
            ) || k == d[i as int]@) by {
                if is_deleted(d.take(i + 1), k) {
                    let j = choose|j: int| 0 <= j < i + 1 && #[trigger] d.take(i + 1)[j]@ == k;
                    if j < i {
                        assert(d.take(i as int)[j] == d.take(i + 1)[j]);
                    }
                }
                if is_deleted(d.take(i as int), k) {
                    let j = choose|j: int| 0 <= j < i && #[trigger] d.take(i as int)[j]@ == k;
                    assert(d.take(i + 1)[j] == d.take(i as int)[j]);
                }
                if k == d[i as int]@ {
                    assert(d.take(i + 1)[i as int] == d[i as int]);
                }
            }
            assert(entries.as_map() =~= initial.remove_keys(
                Set::new(|k: Seq<u8>| is_deleted(deleted_addresses@.take(i + 1), k)),
            ));
        }
    }
    proof {
        assert(deleted_addresses@.take(n as int) =~= deleted_addresses@);
        law_deleted_addresses(deleted_addresses@);
    }
    entries
}

/// An address is deleted exactly when some delete action names it, wherever
/// that action stands: every named address is deleted, and one that no action
/// names is not.
pub proof fn law_deleted_addresses(deleted: Seq<ActionHash>)
    ensures
        forall|i: int| 0 <= i < deleted.len() ==> is_deleted(deleted, #[trigger] deleted[i]@),
        forall|k: Seq<u8>|
            (forall|i: int| 0 <= i < deleted.len() ==> #[trigger] deleted[i]@ != k) ==> !is_deleted(
                deleted,
                k,
            ),
{
    assert forall|i: int| 0 <= i < deleted.len() implies is_deleted(deleted, #[trigger] deleted[i]@) by {
        assert(deleted[i]@ == deleted[i]@);
    }
}

/// A readable record's entry is what the query gives under its action hash,
/// unchanged, unless a later record holds the same action hash.
pub proof fn law_contacts_record_entry_is_queried(
    records: Seq<PrivateContactsRecord>,
    i: int,
    e: PrivateContactsEntry,
)
    requires
        0 <= i < records.len(),
        records[i].entry == Some(Ok::<PrivateContactsEntry, ContactsError>(e)),
        forall|j: int|
            i < j < records.len() ==> #[trigger] records[j].action_hash@ != records[i].action_hash@,
    ensures
        pairs_map(records.map_values(|x: PrivateContactsRecord| contacts_record_pair(x))).dom().contains(
            records[i].action_hash@,
        ),
        pairs_map(records.map_values(|x: PrivateContactsRecord| contacts_record_pair(x)))[records[i].action_hash@]
            == e,
{
    let p = records.map_values(|x: PrivateContactsRecord| contacts_record_pair(x));
    assert(p[i] == contacts_record_pair(records[i]));
    assert forall|j: int| i < j < p.len() implies #[trigger] p[j].0 != p[i].0 by {
        assert(p[j] == contacts_record_pair(records[j]));
    }
    law_last_pair_wins(p, i);
}

} // verus!
