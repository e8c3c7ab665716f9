use vstd::prelude::*;

use crate::contacts_event::{Contact, ContactsError, ContactsEvent, Profile};
use crate::hash::{AgentPubKey, EntryHash};
use crate::private_event_sourcing::{create_private_event, PrivateEventError};

verus! {

/// My contact: all my agents with my profile, once I have a profile.
pub fn build_my_contact(my_profile: Option<Profile>, agents: Vec<AgentPubKey>) -> (r: Option<
    Contact,
>)
    ensures
        r == match my_profile {
            None => None,
            Some(profile) => Some(Contact { agents, profile }),
        },
{
    match my_profile {
        None => None,
        Some(profile) => Some(Contact { agents, profile }),
    }
}

/// The event that asks a peer to share contacts with me; refused until I
/// have a profile.
pub fn send_share_contact_request(my_contact: Option<Contact>, peer_contact: Contact) -> (r: Result<
    ContactsEvent,
    ContactsError,
>)
    ensures
        r == match my_contact {
            None => Err(ContactsError::NoProfile),
            Some(from) => Ok(ContactsEvent::ShareContactRequest { from, to: peer_contact }),
        },
{
    let my_contact = match my_contact {
        None => return Err(ContactsError::NoProfile),
        Some(c) => c,
    };
    match create_private_event(ContactsEvent::ShareContactRequest { from: my_contact, to: peer_contact }) {
        Ok(event) => Ok(event),
        Err(e) => Err(ContactsError::PrivateEvent(e)),
    }
}

/// The event that accepts the share contact request with this hash.
pub fn accept_share_contact_request(share_contact_request: EntryHash) -> (r: Result<
    ContactsEvent,
    PrivateEventError,
>)
    ensures
        r == Ok::<ContactsEvent, PrivateEventError>(
            ContactsEvent::AcceptShareContactRequest(share_contact_request),
        ),
{
    create_private_event(ContactsEvent::AcceptShareContactRequest(share_contact_request))
}

/// The event that rejects the share contact request with this hash.
pub fn reject_share_contact_request(share_contact_request: EntryHash) -> (r: Result<
    ContactsEvent,
    PrivateEventError,
>)
    ensures
        r == Ok::<ContactsEvent, PrivateEventError>(
            ContactsEvent::RejectShareContactRequest(share_contact_request),
        ),
{
    create_private_event(ContactsEvent::RejectShareContactRequest(share_contact_request))
}

/// The event that cancels the share contact request with this hash.
pub fn cancel_share_contact_request(share_contact_request: EntryHash) -> (r: Result<
    ContactsEvent,
    PrivateEventError,
>)
    ensures
        r == Ok::<ContactsEvent, PrivateEventError>(
            ContactsEvent::CancelShareContactRequest(share_contact_request),
        ),
{
    create_private_event(ContactsEvent::CancelShareContactRequest(share_contact_request))
}

} // verus!
