use vstd::prelude::*;

use crate::private_event_sourcing::{PrivateEventEntry, ValidationOutcome};

verus! {

/// Any private event entry may be created.
pub fn validate_create_private_event(_event: &PrivateEventEntry) -> (r: ValidationOutcome)
    ensures
        r is Valid,
{
    ValidationOutcome::Valid
}

/// No private event entry may be updated.
pub fn validate_update_private_event(_event: &PrivateEventEntry) -> (r: ValidationOutcome)
    ensures
        r matches ValidationOutcome::Invalid(reason) && reason@ == "PrivateEvents cannot be updated"@,
{
    ValidationOutcome::Invalid(String::from_str("PrivateEvents cannot be updated"))
}

/// No private event entry may be deleted.
pub fn validate_delete_private_event() -> (r: ValidationOutcome)
    ensures
        r matches ValidationOutcome::Invalid(reason) && reason@ == "PrivateEvents cannot be deleted"@,
{
    ValidationOutcome::Invalid(String::from_str("PrivateEvents cannot be deleted"))
}

} // verus!
