# contacts

The logic of two Holochain zomes, verified with Verus: a private event
sourcing zome, which keeps an agent's events private on its source chain and
shares them with the agent's linked devices, and a contacts zome built on it,
which keeps a profile and a list of contacts as such events.

## Layout

- `src/` — the verified library.
  - `hash.rs`: Holochain hashes as bytes, and their (lexicographic) order.
  - `ordered_map.rs`: a map keyed by hashes, kept in ascending key order.
  - `event_order.rs`: the stable order of events by timestamp.
  - `private_event_sourcing.rs`: private events, their validation, what is
    committed for events received from linked devices, and the queries that
    collect private event entries.
  - `private_event_integrity.rs`, `contacts_integrity.rs`: the validation
    rules of the entries.
  - `contacts_event.rs`: profiles, contacts and the contacts events.
  - `all_contacts.rs`, `profile.rs`: the contacts and the profile that the
    event log describes.
  - `share_contact_request.rs`: the events about sharing contacts.
  - `private_contacts_entry.rs`: the private contacts entries and their
    deletions.
- `tests/` — tests of the library on concrete values.
- `app/` — the zome functions: they read the source chain and the network
  through `hdk`, convert what they read, let the library decide, and write
  what it decided.
