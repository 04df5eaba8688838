//! The reaper: one periodic, idempotent sweep over the two shared
//! directories.
//!
//! The reaper removes closed rooms from the registry and disconnected
//! connections (and then-empty room entries) from the connection index.  It
//! never sets `closed` itself and never touches a room's own state: the
//! closing transition belongs to the room alone, so a sweep cannot race it.

use vstd::prelude::*;

use crate::conn::{swept_entries, ConnectionIndex, IndexEntryView};
use crate::registry::{open_rooms, lemma_open_rooms_sub, RoomRegistry};
use crate::room::RoomModel;

verus! {

/// One reaper pass: the room sweep and the connection sweep, two
/// independent read-then-remove walks.
pub fn reap(registry: &mut RoomRegistry, index: &mut ConnectionIndex)
    requires
        old(registry).wf(),
        old(index).wf(),
    ensures
        final(registry).wf(),
        final(index).wf(),
        final(registry)@.rooms == open_rooms(old(registry)@.rooms),
        final(registry)@.used_connection_ids == old(registry)@.used_connection_ids,
        final(registry)@.capacity == old(registry)@.capacity,
        final(index)@ == swept_entries(old(index)@),
{
    registry.remove_closed_rooms();
    index.remove_disconnected();
}

/// Reaper correctness: a room survives the sweep if and only if it is
/// registered and not closed — exactly the closed rooms are removed, and
/// the survivors keep their registry order.
pub proof fn lemma_reap_exactly_closed(rooms: Seq<RoomModel>)
    ensures
        forall|r: RoomModel| #[trigger]
            open_rooms(rooms).contains(r) <==> (rooms.contains(r) && !r.closed),
{
    lemma_open_rooms_sub(rooms);
    assert forall|r: RoomModel| #[trigger]
        open_rooms(rooms).contains(r) <==> (rooms.contains(r) && !r.closed) by {
        if open_rooms(rooms).contains(r) {
            let j = choose|j: int|
                0 <= j < open_rooms(rooms).len() && open_rooms(rooms)[j] == r;
            assert(rooms.contains(open_rooms(rooms)[j]));
        }
        if rooms.contains(r) && !r.closed {
            let j = choose|j: int| 0 <= j < rooms.len() && rooms[j] == r;
            assert(open_rooms(rooms).contains(rooms[j]));
        }
    }
}

} // verus!
