//! Contacts and private event sourcing for Holochain zomes: the rules that
//! turn a private event log into contacts and a profile, the ordered maps the
//! queries build, and the decisions taken on events received from linked
//! devices.
pub mod hash;
pub mod ordered_map;
pub mod private_event_sourcing;
pub mod event_order;
pub mod contacts_event;
pub mod all_contacts;
pub mod profile;
pub mod share_contact_request;
pub mod private_event_integrity;
pub mod contacts_integrity;
pub mod private_contacts_entry;
