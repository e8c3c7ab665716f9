use vstd::prelude::*;

use crate::hash::{AgentPubKey, EntryHash, RawHash};
use crate::private_event_sourcing::{PrivateEvent, PrivateEventError, ValidationOutcome};

verus! {

/// A profile: a name, an optional avatar and further named fields, as
/// name-value pairs that the library carries without reading or reordering
/// them.
#[derive(Debug)]
pub struct Profile {
    pub name: String,
    pub avatar: Option<String>,
    pub custom_fields: Vec<(String, String)>,
}

/// A contact: the agents of a person and their profile.
#[derive(Debug)]
pub struct Contact {
    pub agents: Vec<AgentPubKey>,
    pub profile: Profile,
}

/// The events of the contacts log.
#[derive(Debug)]
pub enum ContactsEvent {
    /// Sets my own profile.
    SetMyProfile(Profile),
    /// Asks a peer to exchange contacts.
    ShareContactRequest { from: Contact, to: Contact },
    /// Accepts the share contact request with this entry hash.
    AcceptShareContactRequest(EntryHash),
    /// Rejects the share contact request with this entry hash.
    RejectShareContactRequest(EntryHash),
    /// Cancels the share contact request with this entry hash.
    CancelShareContactRequest(EntryHash),
    /// Adds a contact; the event's own entry hash names it from then on.
    ContactAdded(Contact),
    /// Replaces the contact added by the event with this entry hash.
    ContactUpdated { contact_added_hash: EntryHash, new_contact: Contact },
    /// Removes the contact added by the event with this entry hash.
    ContactRemoved { contact_added_hash: EntryHash },
}

/// Why an operation of the contacts zome stopped.
#[derive(Debug)]
pub enum ContactsError {
    /// A contact can only be shared once I have a profile.
    NoProfile,
    /// A private contacts entry record held no entry.
    RecordWithoutEntry,
    /// Creating or reading a private event failed.
    PrivateEvent(PrivateEventError),
    /// The host, or the (de)serialization of an entry, failed with this message.
    Host(String),
}

/// A profile as text.
pub struct ProfileView {
    pub name: Seq<char>,
    pub avatar: Option<Seq<char>>,
    pub custom_fields: Seq<(Seq<char>, Seq<char>)>,
}

/// A contact as its agents' keys and its profile as text.
pub struct ContactView {
    pub agents: Seq<Seq<u8>>,
    pub profile: ProfileView,
}

impl View for Profile {
    type V = ProfileView;

    open spec fn view(&self) -> ProfileView {
        ProfileView {
            name: self.name@,
            avatar: match self.avatar {
                Some(a) => Some(a@),
                None => None,
            },
            custom_fields: self.custom_fields@.map_values(|f: (String, String)| (f.0@, f.1@)),
        }
    }
}

impl View for Contact {
    type V = ContactView;

    open spec fn view(&self) -> ContactView {
        ContactView {
            agents: self.agents@.map_values(|a: RawHash| a@),
            profile: self.profile@,
        }
    }
}

impl Profile {
    /// A copy of this profile.
    pub fn duplicate(&self) -> (p: Profile)
        ensures
            p@ == self@,
    {
        let avatar = match &self.avatar {
            Some(a) => Some(a.clone()),
            None => None,
        };
        let mut custom_fields: Vec<(String, String)> = Vec::new();
        let n = self.custom_fields.len();
        for i in 0..n
            invariant
                n == self.custom_fields@.len(),
                custom_fields@ == self.custom_fields@.take(i as int),
        {
            let f = &self.custom_fields[i];
            custom_fields.push((f.0.clone(), f.1.clone()));
            assert(custom_fields@ =~= self.custom_fields@.take(i + 1));
        }
        assert(custom_fields@ =~= self.custom_fields@);
        let p = Profile { name: self.name.clone(), avatar, custom_fields };
        assert(p@.custom_fields =~= self@.custom_fields);
        p
    }
}

impl Contact {
    /// A copy of this contact.
    pub fn duplicate(&self) -> (c: Contact)
        ensures
            c@ == self@,
    {
        let mut agents: Vec<AgentPubKey> = Vec::new();
        let n = self.agents.len();
        for i in 0..n
            invariant
                n == self.agents@.len(),
                agents@.len() == i,
                forall|j: int| 0 <= j < i ==> #[trigger] agents@[j]@ == self.agents@[j]@,
        {
            agents.push(self.agents[i].duplicate());
        }
        let c = Contact { agents, profile: self.profile.duplicate() };
        assert(c@.agents =~= self@.agents);
        c
    }
}

impl PrivateEvent for ContactsEvent {
    /// Every contacts event is valid.
    open spec fn validation(&self) -> Result<ValidationOutcome, PrivateEventError> {
        Ok(ValidationOutcome::Valid)
    }

    fn validate(&self) -> (r: Result<ValidationOutcome, PrivateEventError>)
        ensures
            r matches Ok(ValidationOutcome::Valid),
    {
        Ok(ValidationOutcome::Valid)
    }
}

/// Every contacts event is valid, whatever its kind: validating one never
/// refuses it, never waits on dependencies and never fails.
pub proof fn law_every_contacts_event_is_valid(e: ContactsEvent)
    ensures
        e.validation() matches Ok(ValidationOutcome::Valid),
{
}

impl ContactsEvent {
    /// The agents, besides my own devices, that an event is sent to: none.
    pub fn recipients(&self) -> (r: Vec<AgentPubKey>)
        ensures
            r@.len() == 0,
    {
        Vec::new()
    }
}

} // verus!
