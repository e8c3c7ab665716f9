use vstd::prelude::*;

use crate::hash::AgentPubKey;
use crate::private_event_sourcing::ValidationOutcome;

verus! {

/// A profile as the private contacts entries hold it: a name, an optional
/// avatar and further named fields, as name-value pairs that the library
/// carries without reading or reordering them.
#[derive(Debug)]
pub struct Profile {
    pub name: String,
    pub avatar: Option<String>,
    pub custom_fields: Vec<(String, String)>,
}

/// A contact as the private contacts entries hold it.
#[derive(Debug)]
pub struct Contact {
    pub agents: Vec<AgentPubKey>,
    pub profile: Profile,
}

/// An entry of my private contacts.
#[derive(Debug)]
pub enum PrivateContactsEntry {
    SetMyProfile(Profile),
    AddContact(Contact),
    OutgoingContactRequest(Contact),
    IncomingContactRequest(Contact),
}

/// Any private contacts entry may be created.
pub fn validate_create_private_contacts_entry(_entry: &PrivateContactsEntry) -> (r: ValidationOutcome)
    ensures
        r is Valid,
{
    ValidationOutcome::Valid
}

/// No private contacts entry may be updated.
pub fn validate_update_private_contacts_entry(_entry: &PrivateContactsEntry) -> (r: ValidationOutcome)
    ensures
        r matches ValidationOutcome::Invalid(reason) && reason@
            == "PrivateContactsEntries cannot be updated"@,
{
    ValidationOutcome::Invalid(String::from_str("PrivateContactsEntries cannot be updated"))
}

/// A private contacts entry may be deleted by its author only: `author` is
/// the agent that deletes, `create_author` the one that created the entry.
pub fn validate_delete_private_contacts_entry(
    author: &AgentPubKey,
    create_author: &AgentPubKey,
) -> (r: ValidationOutcome)
    ensures
        author@ == create_author@ ==> r is Valid,
        author@ != create_author@ ==> (r matches ValidationOutcome::Invalid(reason) && reason@
            == "PrivateContactsEntries can only be deleted by their authors"@),
{
    if !author.same_as(create_author) {
        return ValidationOutcome::Invalid(
            String::from_str("PrivateContactsEntries can only be deleted by their authors"),
        );
    }
    ValidationOutcome::Valid
}

} // verus!
