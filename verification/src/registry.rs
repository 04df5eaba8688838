//! The process-wide room registry: room identifier to live room, with
//! atomic create-or-attach and registry-checked connection identifiers.
//!
//! A join resolves its room in one step against the registry state: it
//! attaches to the open room of that identifier if one is there, and
//! otherwise creates exactly one fresh instance — also when a closed
//! instance of the same identifier is still awaiting the reaper, since a
//! closed room never reopens.  Connection identifiers are drawn from a
//! random source and checked unique against every identifier granted so
//! far, with a deterministic fallback on collision.

use vstd::prelude::*;

use crate::msg::{views_of, Message, MessageView};
use crate::queue::OutboundQueue;
use crate::room::{
    accepts, has_member, lemma_member_index, member_index, model_wf, output_matches, popped_front,
    popped_model, step, step_join, CommandOutput, CommandView, MemberView, Room, RoomCommand,
    RoomModel,
};

verus! {

/// Relies on `rand::random`: draws a value from the thread-local generator.
/// Nothing is assumed of the value; the registry checks uniqueness itself.
pub assume_specification<T>[ rand::random::<T> ]() -> (r: T)
    where
        rand::distr::StandardUniform: rand::distr::Distribution<T>,
;

/// Mathematical image of a [`RoomRegistry`].
pub ghost struct RegistryView {
    pub rooms: Seq<RoomModel>,
    pub used_connection_ids: Seq<u64>,
    pub capacity: nat,
}

/// Why a join was rejected; nothing is created for a rejected join.
#[derive(Debug, PartialEq, Eq, Structural)]
pub enum JoinError {
    /// The join request carried an empty room identifier.
    EmptyRoomId,
    /// The join request carried an empty username.
    EmptyUsername,
    /// Every fallback connection identifier is taken.
    IdsExhausted,
}

/// What a successful join grants.
#[derive(Debug)]
pub struct JoinGrant {
    /// The fresh, registry-checked-unique connection identifier.
    pub connection_id: u64,
    /// Whether this join created the room rather than attaching to it.
    pub created: bool,
}

/// Whether an open (not closed) room with this identifier is registered.
pub open spec fn has_open_room(rooms: Seq<RoomModel>, room_id: Seq<char>) -> bool {
    exists|i: int|
        0 <= i < rooms.len() && (#[trigger] rooms[i]).room_id == room_id && !rooms[i].closed
}

/// The index of the open room with this identifier.
pub open spec fn open_room_index(rooms: Seq<RoomModel>, room_id: Seq<char>) -> int {
    choose|i: int|
        0 <= i < rooms.len() && (#[trigger] rooms[i]).room_id == room_id && !rooms[i].closed
}

/// Whether any room instance with this identifier is registered.
pub open spec fn has_room_id(rooms: Seq<RoomModel>, room_id: Seq<char>) -> bool {
    exists|i: int| 0 <= i < rooms.len() && (#[trigger] rooms[i]).room_id == room_id
}

/// The index of the room instance with this identifier.
pub open spec fn room_id_index(rooms: Seq<RoomModel>, room_id: Seq<char>) -> int {
    choose|i: int| 0 <= i < rooms.len() && (#[trigger] rooms[i]).room_id == room_id
}

/// The state of a brand-new room instance, its log seeded from the durable
/// history and that history counted as already persisted.
pub open spec fn fresh_room(room_id: Seq<char>, backlog: Seq<MessageView>, capacity: nat) -> RoomModel {
    RoomModel {
        room_id,
        members: Seq::empty(),
        log: backlog,
        persisted_offset: backlog.len() as int,
        closed: false,
        capacity,
    }
}

/// Room identifiers appear at most once.
pub open spec fn unique_room_ids(rooms: Seq<RoomModel>) -> bool {
    forall|i: int, j: int|
        0 <= i < j < rooms.len() ==> (#[trigger] rooms[i]).room_id != (#[trigger] rooms[j]).room_id
}

/// The directory of live rooms and the granted connection identifiers.
pub struct RoomRegistry {
    rooms: Vec<Room>,
    used_connection_ids: Vec<u64>,
    queue_capacity: usize,
}

impl View for RoomRegistry {
    type V = RegistryView;

    closed spec fn view(&self) -> RegistryView {
        RegistryView {
            rooms: self.rooms@.map_values(|r: Room| r@),
            used_connection_ids: self.used_connection_ids@,
            capacity: self.queue_capacity as nat,
        }
    }
}

impl RoomRegistry {
    /// The registry invariant: every room is well formed and was built for
    /// this registry's queue bound, room identifiers are unique, and every
    /// member of every room carries a granted identifier.
    pub closed spec fn wf(&self) -> bool {
        &&& self.queue_capacity >= 1
        &&& forall|i: int|
            0 <= i < self.rooms@.len() ==> (#[trigger] self.rooms@[i]).wf() && self.rooms@[i]@.capacity
                == self.queue_capacity as nat
        &&& unique_room_ids(self@.rooms)
        &&& forall|i: int, k: int|
            0 <= i < self@.rooms.len() && 0 <= k < self@.rooms[i].members.len()
                ==> self@.used_connection_ids.contains(
                (#[trigger] self@.rooms[i].members[k]).connection_id,
            )
    }

    /// An empty registry whose rooms will bound every outbound queue at
    /// `queue_capacity`.
    pub fn new(queue_capacity: usize) -> (reg: RoomRegistry)
        requires
            queue_capacity >= 1,
        ensures
            reg.wf(),
            reg@.rooms == Seq::<RoomModel>::empty(),
            reg@.used_connection_ids == Seq::<u64>::empty(),
            reg@.capacity == queue_capacity as nat,
    {
        let reg = RoomRegistry { rooms: Vec::new(), used_connection_ids: Vec::new(), queue_capacity };
        proof {
            assert(reg@.rooms =~= Seq::<RoomModel>::empty());
        }
        reg
    }

    /// The position of the room with this identifier, if any is registered.
    fn find_room(&self, room_id: &String) -> (r: Option<usize>)
        requires
            self.wf(),
        ensures
            match r {
                Some(i) => i < self@.rooms.len() && self@.rooms[i as int].room_id == room_id@
                    && i as int == room_id_index(self@.rooms, room_id@),
                None => !has_room_id(self@.rooms, room_id@),
            },
    {
        let ghost rooms = self@.rooms;
        let n = self.rooms.len();
        let mut i: usize = 0;
        while i < n
            invariant
                n == rooms.len(),
                i <= n,
                self.wf(),
                rooms == self@.rooms,
                forall|j: int| 0 <= j < i ==> (#[trigger] rooms[j]).room_id != room_id@,
            decreases n - i,
        {
            if self.rooms[i].room_id().eq(room_id) {
                proof {
                    assert(rooms[i as int].room_id == room_id@);
                    let k = room_id_index(rooms, room_id@);
                    assert(0 <= k < rooms.len() && rooms[k].room_id == room_id@);
                    assert(k == i as int);
                }
                return Some(i);
            }
            i += 1;
        }
        None
    }

    /// Whether this connection identifier was granted before.
    fn id_used(&self, connection_id: u64) -> (b: bool)
        ensures
            b == self@.used_connection_ids.contains(connection_id),
    {
        let n = self.used_connection_ids.len();
        let mut i: usize = 0;
        while i < n
            invariant
                n == self.used_connection_ids@.len(),
                i <= n,
                forall|j: int| 0 <= j < i ==> self.used_connection_ids@[j] != connection_id,
            decreases n - i,
        {
            if self.used_connection_ids[i] == connection_id {
                return true;
            }
            i += 1;
        }
        false
    }

    /// Grants a fresh connection identifier: the random candidate when it
    /// was never granted, and otherwise one past the largest granted
    /// identifier.  Fails only when that fallback is itself taken, which
    /// requires `u64::MAX` to be granted already.
    fn allocate_connection_id(&mut self) -> (r: Option<u64>)
        requires
            old(self).wf(),
        ensures
            final(self).wf(),
            final(self)@.rooms == old(self)@.rooms,
            final(self)@.capacity == old(self)@.capacity,
            match r {
                Some(id) => !old(self)@.used_connection_ids.contains(id)
                    && final(self)@.used_connection_ids == old(self)@.used_connection_ids.push(id),
                None => old(self)@.used_connection_ids.contains(u64::MAX)
                    && *final(self) == *old(self),
            },
    {
        let candidate = rand::random::<u64>();
        if !self.id_used(candidate) {
            self.used_connection_ids.push(candidate);
            proof {
                assert(self@.rooms == old(self)@.rooms);
                assert forall|i: int, k: int|
                    0 <= i < self@.rooms.len() && 0 <= k < self@.rooms[i].members.len() implies self@.used_connection_ids.contains(
                    (#[trigger] self@.rooms[i].members[k]).connection_id,
                ) by {
                    let cid = self@.rooms[i].members[k].connection_id;
                    assert(old(self)@.used_connection_ids.contains(cid));
                    let w = choose|j: int|
                        0 <= j < old(self)@.used_connection_ids.len()
                            && old(self)@.used_connection_ids[j] == cid;
                    assert(self@.used_connection_ids[w] == cid);
                }
            }
            return Some(candidate);
        }
        let ghost used = self@.used_connection_ids;
        let n = self.used_connection_ids.len();
        let mut mx: u64 = 0;
        let mut i: usize = 0;
        proof {
            assert(used.contains(candidate));
            assert(n > 0);
        }
        let mut seen: bool = false;
        while i < n
            invariant
                n == self.used_connection_ids@.len(),
                used == self.used_connection_ids@,
                i <= n,
                forall|j: int| 0 <= j < i ==> (#[trigger] used[j]) <= mx,
                seen ==> used.contains(mx),
                !seen ==> mx == 0 && i == 0,
                i > 0 ==> seen,
            decreases n - i,
        {
            if !seen || self.used_connection_ids[i] > mx {
                mx = self.used_connection_ids[i];
                seen = true;
                proof {
                    assert(used[i as int] == mx);
                }
            }
            i += 1;
        }
        if mx == u64::MAX {
            proof {
                assert(used.contains(u64::MAX));
            }
            return None;
        }
        let fresh = mx + 1;
        proof {
            assert(forall|j: int| 0 <= j < used.len() ==> (#[trigger] used[j]) != fresh);
            if used.contains(fresh) {
                let w = choose|j: int| 0 <= j < used.len() && used[j] == fresh;
                assert(used[w] != fresh);
            }
        }
        self.used_connection_ids.push(fresh);
        proof {
            assert(self@.rooms == old(self)@.rooms);
            assert forall|i: int, k: int|
                0 <= i < self@.rooms.len() && 0 <= k < self@.rooms[i].members.len() implies self@.used_connection_ids.contains(
                (#[trigger] self@.rooms[i].members[k]).connection_id,
            ) by {
                let cid = self@.rooms[i].members[k].connection_id;
                assert(old(self)@.used_connection_ids.contains(cid));
                let w = choose|j: int|
                    0 <= j < old(self)@.used_connection_ids.len()
                        && old(self)@.used_connection_ids[j] == cid;
                assert(self@.used_connection_ids[w] == cid);
            }
        }
        Some(fresh)
    }
}

/// With unique room identifiers there is at most one instance per
/// identifier: the two index functions agree, and openness is openness of
/// that one instance.
pub proof fn lemma_room_indices(rooms: Seq<RoomModel>, room_id: Seq<char>)
    requires
        unique_room_ids(rooms),
    ensures
        has_room_id(rooms, room_id) ==> {
            let k = room_id_index(rooms, room_id);
            &&& 0 <= k < rooms.len()
            &&& rooms[k].room_id == room_id
            &&& forall|i: int|
                0 <= i < rooms.len() && (#[trigger] rooms[i]).room_id == room_id ==> i == k
        },
        has_open_room(rooms, room_id) <==> (has_room_id(rooms, room_id) && !rooms[room_id_index(
            rooms,
            room_id,
        )].closed),
        has_open_room(rooms, room_id) ==> open_room_index(rooms, room_id) == room_id_index(
            rooms,
            room_id,
        ),
{
    if has_room_id(rooms, room_id) {
        let k = room_id_index(rooms, room_id);
        assert(0 <= k < rooms.len() && rooms[k].room_id == room_id);
    }
    if has_open_room(rooms, room_id) {
        let k2 = open_room_index(rooms, room_id);
        assert(0 <= k2 < rooms.len() && rooms[k2].room_id == room_id && !rooms[k2].closed);
    }
}

impl RoomRegistry {
    /// Create-or-attach, the single serialization point of the join race:
    /// a join attaches to the open room of its identifier if one is
    /// registered, and otherwise registers exactly one brand-new instance —
    /// also over a closed instance still awaiting the reaper, which is
    /// replaced, never reopened.  The new member is granted a fresh
    /// connection identifier and, through the room's own Join command,
    /// receives the room's entire current log on its queue.  `backlog` is
    /// the durable history loaded for this room identifier; it seeds the
    /// log only when the join creates the instance.
    pub fn join_or_create(&mut self, room_id: String, username: String, backlog: Vec<Message>) -> (r:
        Result<JoinGrant, JoinError>)
        requires
            old(self).wf(),
        ensures
            final(self).wf(),
            final(self)@.capacity == old(self)@.capacity,
            (r matches Err(JoinError::EmptyRoomId)) <==> room_id@.len() == 0,
            (r matches Err(JoinError::EmptyUsername)) <==> (room_id@.len() > 0 && username@.len()
                == 0),
            r matches Err(JoinError::IdsExhausted) ==> old(self)@.used_connection_ids.contains(
                u64::MAX,
            ),
            r is Err ==> *final(self) == *old(self),
            room_id@.len() > 0 && username@.len() > 0 && !old(self)@.used_connection_ids.contains(
                u64::MAX,
            ) ==> r is Ok,
            r matches Ok(g) ==> {
                let rooms0 = old(self)@.rooms;
                let joined_existing = step_join(
                    rooms0[open_room_index(rooms0, room_id@)],
                    g.connection_id,
                    username@,
                );
                let joined_fresh = step_join(
                    fresh_room(room_id@, views_of(backlog@), old(self)@.capacity),
                    g.connection_id,
                    username@,
                );
                &&& !old(self)@.used_connection_ids.contains(g.connection_id)
                &&& final(self)@.used_connection_ids == old(self)@.used_connection_ids.push(
                    g.connection_id,
                )
                &&& g.created == !has_open_room(rooms0, room_id@)
                &&& (has_open_room(rooms0, room_id@) ==> final(self)@.rooms == rooms0.update(
                    open_room_index(rooms0, room_id@),
                    joined_existing,
                ) && accepts(
                    rooms0[open_room_index(rooms0, room_id@)],
                    CommandView::Join { connection_id: g.connection_id, username: username@ },
                ))
                &&& (!has_open_room(rooms0, room_id@) && has_room_id(rooms0, room_id@)
                    ==> final(self)@.rooms == rooms0.update(
                    room_id_index(rooms0, room_id@),
                    joined_fresh,
                ))
                &&& (!has_room_id(rooms0, room_id@) ==> final(self)@.rooms == rooms0.push(
                    joined_fresh,
                ))
            },
    {
        if room_id.as_str().is_empty() {
            return Err(JoinError::EmptyRoomId);
        }
        if username.as_str().is_empty() {
            return Err(JoinError::EmptyUsername);
        }
        let connection_id = match self.allocate_connection_id() {
            None => {
                return Err(JoinError::IdsExhausted);
            },
            Some(id) => id,
        };
        let ghost rooms0 = old(self)@.rooms;
        let ghost used1 = self@.used_connection_ids;
        proof {
            lemma_room_indices(rooms0, room_id@);
            assert(used1.contains(connection_id)) by {
                assert(used1[used1.len() - 1] == connection_id);
            }
        }
        let found = self.find_room(&room_id);
        match found {
            Some(i) => {
                let ghost k = i as int;
                let attach = !self.rooms[i].is_closed();
                let mut room = if attach {
                    self.rooms.remove(i)
                } else {
                    let _replaced = self.rooms.remove(i);
                    Room::new(room_id, backlog, self.queue_capacity)
                };
                proof {
                    if attach {
                        assert(room@ == rooms0[k]);
                        if has_member(room@.members, connection_id) {
                            lemma_member_index(room@.members, connection_id);
                            let w = member_index(room@.members, connection_id);
                            assert(old(self)@.used_connection_ids.contains(
                                rooms0[k].members[w].connection_id,
                            ));
                        }
                    }
                }
                let _joined = room.add_user(connection_id, username);
                self.rooms.insert(i, room);
                proof {
                    assert(self.rooms@.len() == rooms0.len());
                    assert(forall|j: int|
                        0 <= j < rooms0.len() && j != k ==> #[trigger] self.rooms@[j]@ == rooms0[j]);
                    if attach {
                        assert(self@.rooms =~= rooms0.update(
                            k,
                            step_join(rooms0[k], connection_id, username@),
                        ));
                    } else {
                        assert(self@.rooms =~= rooms0.update(
                            k,
                            step_join(
                                fresh_room(room_id@, views_of(backlog@), old(self)@.capacity),
                                connection_id,
                                username@,
                            ),
                        ));
                    }
                    self.lemma_wf_after_update(rooms0, used1, k, connection_id);
                }
                Ok(JoinGrant { connection_id, created: !attach })
            },
            None => {
                let mut room = Room::new(room_id, backlog, self.queue_capacity);
                let _joined = room.add_user(connection_id, username);
                self.rooms.push(room);
                proof {
                    assert(forall|j: int|
                        0 <= j < rooms0.len() ==> #[trigger] self.rooms@[j]@ == rooms0[j]);
                    assert(self@.rooms =~= rooms0.push(
                        step_join(
                            fresh_room(room_id@, views_of(backlog@), old(self)@.capacity),
                            connection_id,
                            username@,
                        ),
                    ));
                    self.lemma_wf_after_update(rooms0, used1, rooms0.len() as int, connection_id);
                }
                Ok(JoinGrant { connection_id, created: true })
            },
        }
    }

    /// Re-establishes the registry invariant after one room, at `k`, was
    /// joined by the freshly granted `connection_id` (every other room
    /// untouched, the granted identifiers extended by exactly that one).
    proof fn lemma_wf_after_update(
        &self,
        rooms0: Seq<RoomModel>,
        used1: Seq<u64>,
        k: int,
        connection_id: u64,
    )
        requires
            self.queue_capacity >= 1,
            forall|i: int|
                0 <= i < self.rooms@.len() ==> (#[trigger] self.rooms@[i]).wf()
                    && self.rooms@[i]@.capacity == self.queue_capacity as nat,
            self@.used_connection_ids == used1,
            used1.contains(connection_id),
            0 <= k < self@.rooms.len(),
            self@.rooms.len() == rooms0.len() || self@.rooms.len() == rooms0.len() + 1,
            forall|j: int|
                0 <= j < self@.rooms.len() && j != k ==> #[trigger] self@.rooms[j] == rooms0[j],
            unique_room_ids(rooms0),
            self@.rooms.len() == rooms0.len() ==> self@.rooms[k].room_id == rooms0[k].room_id,
            self@.rooms.len() == rooms0.len() + 1 ==> k == rooms0.len() && !has_room_id(
                rooms0,
                self@.rooms[k].room_id,
            ),
            forall|i: int, kk: int|
                0 <= i < rooms0.len() && 0 <= kk < rooms0[i].members.len() ==> used1.contains(
                    (#[trigger] rooms0[i].members[kk]).connection_id,
                ),
            forall|kk: int|
                0 <= kk < self@.rooms[k].members.len() ==> (#[trigger] self@.rooms[k].members[kk]).connection_id
                    == connection_id || (exists|w: int|
                    0 <= w < rooms0.len() && 0 <= kk < rooms0[w].members.len() && rooms0[w].members[kk]
                        == self@.rooms[k].members[kk] && w == k),
        ensures
            self.wf(),
    {
        assert(unique_room_ids(self@.rooms));
        assert forall|i: int, kk: int|
            0 <= i < self@.rooms.len() && 0 <= kk < self@.rooms[i].members.len() implies self@.used_connection_ids.contains(
            (#[trigger] self@.rooms[i].members[kk]).connection_id,
        ) by {
            if i != k {
                assert(self@.rooms[i] == rooms0[i]);
                assert(used1.contains(rooms0[i].members[kk].connection_id));
            } else {
                if self@.rooms[k].members[kk].connection_id == connection_id {
                } else {
                    let w = choose|w: int|
                        0 <= w < rooms0.len() && 0 <= kk < rooms0[w].members.len() && rooms0[w].members[kk]
                            == self@.rooms[k].members[kk] && w == k;
                    assert(used1.contains(rooms0[w].members[kk].connection_id));
                }
            }
        }
    }
}

/// The granted identifiers after routing command `c`: a join's identifier
/// is recorded as granted if it was not yet, everything else changes
/// nothing.
pub open spec fn used_after(used: Seq<u64>, c: CommandView, routed: bool) -> Seq<u64> {
    match c {
        CommandView::Join { connection_id, .. } => {
            if routed && !used.contains(connection_id) {
                used.push(connection_id)
            } else {
                used
            }
        },
        _ => used,
    }
}

impl RoomRegistry {
    /// Records an identifier as granted, so a join routed directly to a
    /// room keeps the registry's uniqueness check honest.
    fn note_used(&mut self, connection_id: u64)
        requires
            old(self).wf(),
        ensures
            final(self).wf(),
            final(self)@.rooms == old(self)@.rooms,
            final(self)@.capacity == old(self)@.capacity,
            final(self)@.used_connection_ids == if old(self)@.used_connection_ids.contains(
                connection_id,
            ) {
                old(self)@.used_connection_ids
            } else {
                old(self)@.used_connection_ids.push(connection_id)
            },
    {
        if !self.id_used(connection_id) {
            self.used_connection_ids.push(connection_id);
            proof {
                assert(self@.rooms == old(self)@.rooms);
                assert forall|i: int, k: int|
                    0 <= i < self@.rooms.len() && 0 <= k < self@.rooms[i].members.len() implies self@.used_connection_ids.contains(
                    (#[trigger] self@.rooms[i].members[k]).connection_id,
                ) by {
                    let cid = self@.rooms[i].members[k].connection_id;
                    assert(old(self)@.used_connection_ids.contains(cid));
                    let w = choose|j: int|
                        0 <= j < old(self)@.used_connection_ids.len()
                            && old(self)@.used_connection_ids[j] == cid;
                    assert(self@.used_connection_ids[w] == cid);
                }
            }
        }
    }

    /// Routes one command to the room registered under this identifier and
    /// applies it there; a command for an unregistered room is dropped.
    /// This is the pump behind each room's command queue: within one room,
    /// commands take effect strictly in the order they are routed.
    pub fn apply_to_room(&mut self, room_id: &String, cmd: RoomCommand) -> (out: Option<
        CommandOutput,
    >)
        requires
            old(self).wf(),
        ensures
            final(self).wf(),
            final(self)@.capacity == old(self)@.capacity,
            !has_room_id(old(self)@.rooms, room_id@) ==> out is None && *final(self) == *old(self),
            has_room_id(old(self)@.rooms, room_id@) ==> {
                let k = room_id_index(old(self)@.rooms, room_id@);
                &&& (out matches Some(o) && output_matches(old(self)@.rooms[k], cmd@, o))
                &&& final(self)@.rooms == old(self)@.rooms.update(
                    k,
                    step(old(self)@.rooms[k], cmd@),
                )
                &&& final(self)@.used_connection_ids == used_after(
                    old(self)@.used_connection_ids,
                    cmd@,
                    true,
                )
            },
    {
        let ghost rooms0 = self@.rooms;
        proof {
            lemma_room_indices(rooms0, room_id@);
        }
        let found = self.find_room(room_id);
        match found {
            None => None,
            Some(i) => {
                let ghost k = i as int;
                match &cmd {
                    RoomCommand::Join { connection_id, .. } => {
                        let cid = *connection_id;
                        self.note_used(cid);
                    },
                    _ => {},
                }
                let ghost used1 = self@.used_connection_ids;
                let ghost cv = cmd@;
                proof {
                    match cv {
                        CommandView::Join { connection_id, .. } => {
                            if !old(self)@.used_connection_ids.contains(connection_id) {
                                assert(used1[used1.len() - 1] == connection_id);
                            }
                            assert(used1.contains(connection_id));
                        },
                        _ => {},
                    }
                }
                let mut room = self.rooms.remove(i);
                let ghost m0 = room@;
                proof {
                    room.lemma_wf_model();
                }
                let out = room.apply(cmd);
                self.rooms.insert(i, room);
                proof {
                    assert(m0 == rooms0[k]);
                    assert(model_wf(m0));
                    assert(forall|j: int|
                        0 <= j < rooms0.len() && j != k ==> #[trigger] self.rooms@[j]@ == rooms0[j]);
                    assert(self@.rooms =~= rooms0.update(k, step(m0, cv)));
                    assert(self@.used_connection_ids == used1);
                    self.lemma_wf_after_step(rooms0, used1, k, cv);
                }
                Some(out)
            },
        }
    }

    /// Re-establishes the registry invariant after one registered room, at
    /// `k`, took one command whose join identifier, if any, was recorded.
    proof fn lemma_wf_after_step(
        &self,
        rooms0: Seq<RoomModel>,
        used1: Seq<u64>,
        k: int,
        c: CommandView,
    )
        requires
            self.queue_capacity >= 1,
            forall|i: int|
                0 <= i < self.rooms@.len() ==> (#[trigger] self.rooms@[i]).wf()
                    && self.rooms@[i]@.capacity == self.queue_capacity as nat,
            self@.used_connection_ids == used1,
            0 <= k < rooms0.len(),
            self@.rooms == rooms0.update(k, step(rooms0[k], c)),
            unique_room_ids(rooms0),
            forall|i: int, kk: int|
                0 <= i < rooms0.len() && 0 <= kk < rooms0[i].members.len() ==> used1.contains(
                    (#[trigger] rooms0[i].members[kk]).connection_id,
                ),
            c matches CommandView::Join { connection_id, .. } ==> used1.contains(connection_id),
            model_wf(rooms0[k]),
        ensures
            self.wf(),
    {
        let m0 = rooms0[k];
        let m1 = step(m0, c);
        assert(m1.room_id == m0.room_id);
        assert(unique_room_ids(self@.rooms));
        assert forall|kk: int|
            0 <= kk < m1.members.len() implies used1.contains(
            (#[trigger] m1.members[kk]).connection_id,
        ) by {
            match c {
                CommandView::Join { connection_id, username } => {
                    if accepts(m0, c) {
                        if kk < m0.members.len() {
                            assert(m1.members[kk] == m0.members[kk]);
                        } else {
                            assert(m1.members[kk].connection_id == connection_id);
                        }
                    }
                },
                CommandView::Broadcast { sender_connection_id, content } => {
                    if accepts(m0, c) {
                        assert(m1.members[kk].connection_id == m0.members[kk].connection_id);
                    }
                },
                CommandView::Leave { connection_id } => {
                    if accepts(m0, c) {
                        lemma_member_index(m0.members, connection_id);
                        let w = member_index(m0.members, connection_id);
                        assert(forall|j: int|
                            0 <= j < m1.members.len() ==> #[trigger] m1.members[j] == if j < w {
                                m0.members[j]
                            } else {
                                m0.members[j + 1]
                            });
                    }
                },
            }
        }
        assert forall|i: int, kk: int|
            0 <= i < self@.rooms.len() && 0 <= kk < self@.rooms[i].members.len() implies used1.contains(
            (#[trigger] self@.rooms[i].members[kk]).connection_id,
        ) by {
            if i != k {
                assert(self@.rooms[i] == rooms0[i]);
            } else {
                assert(self@.rooms[i] == m1);
            }
        }
    }
}

/// The registered rooms that survive one reaper pass: exactly those not
/// closed, in their registry order.
pub open spec fn open_rooms(rooms: Seq<RoomModel>) -> Seq<RoomModel>
    decreases rooms.len(),
{
    if rooms.len() == 0 {
        Seq::empty()
    } else {
        let rest = open_rooms(rooms.drop_last());
        if rooms.last().closed {
            rest
        } else {
            rest.push(rooms.last())
        }
    }
}

/// Every survivor of a sweep is one of the swept rooms and not closed, and
/// every room not closed survives.
pub proof fn lemma_open_rooms_sub(rooms: Seq<RoomModel>)
    ensures
        forall|j: int|
            0 <= j < open_rooms(rooms).len() ==> rooms.contains(#[trigger] open_rooms(rooms)[j])
                && !open_rooms(rooms)[j].closed,
        forall|j: int|
            0 <= j < rooms.len() && !(#[trigger] rooms[j]).closed ==> open_rooms(rooms).contains(
                rooms[j],
            ),
    decreases rooms.len(),
{
    if rooms.len() > 0 {
        let s = rooms.drop_last();
        lemma_open_rooms_sub(s);
        assert(forall|j: int| 0 <= j < s.len() ==> #[trigger] s[j] == rooms[j]);
        assert forall|j: int|
            0 <= j < open_rooms(rooms).len() implies rooms.contains(
            #[trigger] open_rooms(rooms)[j],
        ) && !open_rooms(rooms)[j].closed by {
            if j < open_rooms(s).len() {
                assert(open_rooms(rooms)[j] == open_rooms(s)[j]);
                let w = choose|w: int| 0 <= w < s.len() && s[w] == open_rooms(s)[j];
                assert(rooms[w] == open_rooms(s)[j]);
            } else {
                assert(open_rooms(rooms)[j] == rooms.last());
                assert(rooms[rooms.len() - 1] == rooms.last());
            }
        }
        assert forall|j: int|
            0 <= j < rooms.len() && !(#[trigger] rooms[j]).closed implies open_rooms(
            rooms,
        ).contains(rooms[j]) by {
            if j < rooms.len() - 1 {
                assert(s[j] == rooms[j]);
                assert(open_rooms(s).contains(s[j]));
                let w = choose|w: int|
                    0 <= w < open_rooms(s).len() && open_rooms(s)[w] == s[j];
                assert(open_rooms(rooms)[w] == rooms[j]);
            } else {
                assert(open_rooms(rooms).last() == rooms[j]);
            }
        }
    }
}

/// A sweep of rooms none of which is closed keeps every room.
pub proof fn lemma_open_rooms_fixed(rooms: Seq<RoomModel>)
    requires
        forall|j: int| 0 <= j < rooms.len() ==> !(#[trigger] rooms[j]).closed,
    ensures
        open_rooms(rooms) == rooms,
    decreases rooms.len(),
{
    if rooms.len() > 0 {
        let s = rooms.drop_last();
        assert(forall|j: int| 0 <= j < s.len() ==> #[trigger] s[j] == rooms[j]);
        lemma_open_rooms_fixed(s);
        assert(!rooms[rooms.len() - 1].closed);
        assert(s.push(rooms.last()) =~= rooms);
    }
}

/// The room pass is idempotent: a second sweep changes nothing.
pub proof fn lemma_open_rooms_idempotent(rooms: Seq<RoomModel>)
    ensures
        open_rooms(open_rooms(rooms)) == open_rooms(rooms),
{
    lemma_open_rooms_sub(rooms);
    lemma_open_rooms_fixed(open_rooms(rooms));
}

/// A sweep of rooms with unique identifiers leaves unique identifiers.
pub proof fn lemma_open_rooms_unique(rooms: Seq<RoomModel>)
    requires
        unique_room_ids(rooms),
    ensures
        unique_room_ids(open_rooms(rooms)),
    decreases rooms.len(),
{
    if rooms.len() > 0 {
        let s = rooms.drop_last();
        assert(forall|j: int| 0 <= j < s.len() ==> #[trigger] s[j] == rooms[j]);
        lemma_open_rooms_unique(s);
        lemma_open_rooms_sub(s);
        if !rooms.last().closed {
            assert forall|i: int, j: int|
                0 <= i < j < open_rooms(rooms).len() implies (#[trigger] open_rooms(rooms)[i]).room_id
                != (#[trigger] open_rooms(rooms)[j]).room_id by {
                if j == open_rooms(rooms).len() - 1 {
                    assert(open_rooms(rooms)[i] == open_rooms(s)[i]);
                    let w = choose|w: int| 0 <= w < s.len() && s[w] == open_rooms(s)[i];
                    assert(rooms[w].room_id != rooms[rooms.len() - 1].room_id);
                } else {
                    assert(open_rooms(rooms)[i] == open_rooms(s)[i]);
                    assert(open_rooms(rooms)[j] == open_rooms(s)[j]);
                }
            }
        }
    }
}

impl RoomRegistry {
    /// The reaper's room pass: removes every closed room from the registry,
    /// and nothing else — a room is removed by this pass if and only if it
    /// has closed.  The pass never touches a room's own state, so it cannot
    /// race the room's closing transition, and running it twice is the same
    /// as running it once.
    pub fn remove_closed_rooms(&mut self)
        requires
            old(self).wf(),
        ensures
            final(self).wf(),
            final(self)@.capacity == old(self)@.capacity,
            final(self)@.used_connection_ids == old(self)@.used_connection_ids,
            final(self)@.rooms == open_rooms(old(self)@.rooms),
    {
        let ghost rooms0 = self@.rooms;
        let ghost cap = self.queue_capacity as nat;
        let ghost used0 = self@.used_connection_ids;
        let mut kept: Vec<Room> = Vec::new();
        proof {
            assert(rooms0.take(0) =~= Seq::<RoomModel>::empty());
            assert(kept@.map_values(|r: Room| r@) =~= open_rooms(rooms0.take(0)));
        }
        while self.rooms.len() > 0
            invariant
                kept@.len() + self.rooms@.len() <= rooms0.len(),
                self@.used_connection_ids == used0,
                self.queue_capacity as nat == cap,
                self.queue_capacity >= 1,
                self.rooms@.map_values(|r: Room| r@) =~= rooms0.skip(
                    rooms0.len() - self.rooms@.len(),
                ),
                kept@.map_values(|r: Room| r@) =~= open_rooms(
                    rooms0.take(rooms0.len() - self.rooms@.len()),
                ),
                forall|j: int|
                    0 <= j < self.rooms@.len() ==> (#[trigger] self.rooms@[j]).wf()
                        && self.rooms@[j]@.capacity == cap,
                forall|j: int|
                    0 <= j < kept@.len() ==> (#[trigger] kept@[j]).wf() && kept@[j]@.capacity
                        == cap,
            decreases self.rooms@.len(),
        {
            let ghost j = rooms0.len() - self.rooms@.len();
            let ghost before = self.rooms@;
            proof {
                assert(before.map_values(|r: Room| r@)[0] == rooms0.skip(j)[0]);
                assert(rooms0.skip(j)[0] == rooms0[j]);
            }
            let room = self.rooms.remove(0);
            assert(room@ == rooms0[j]);
            proof {
                assert forall|w: int| 0 <= w < self.rooms@.len() implies (
                #[trigger] self.rooms@[w])@ == rooms0.skip(j + 1)[w] by {
                    assert(self.rooms@[w] == before[w + 1]);
                    assert(before.map_values(|r: Room| r@)[w + 1] == before[w + 1]@);
                    assert(before.map_values(|r: Room| r@)[w + 1] == rooms0.skip(j)[w + 1]);
                }
                assert(self.rooms@.map_values(|r: Room| r@) =~= rooms0.skip(j + 1));
                assert(rooms0.take(j + 1).drop_last() =~= rooms0.take(j));
                assert(rooms0.take(j + 1).last() == rooms0[j]);
            }
            if !room.is_closed() {
                kept.push(room);
                proof {
                    assert(kept@.map_values(|r: Room| r@) =~= open_rooms(rooms0.take(j + 1)));
                }
            } else {
                proof {
                    assert(kept@.map_values(|r: Room| r@) =~= open_rooms(rooms0.take(j + 1)));
                }
            }
        }
        proof {
            assert(rooms0.take(rooms0.len() as int) =~= rooms0);
        }
        self.rooms = kept;
        proof {
            lemma_open_rooms_sub(rooms0);
            lemma_open_rooms_unique(rooms0);
            let used = self@.used_connection_ids;
            assert forall|i: int, k: int|
                0 <= i < self@.rooms.len() && 0 <= k < self@.rooms[i].members.len() implies used.contains(
                (#[trigger] self@.rooms[i].members[k]).connection_id,
            ) by {
                assert(rooms0.contains(self@.rooms[i]));
                let w = choose|w: int| 0 <= w < rooms0.len() && rooms0[w] == self@.rooms[i];
                assert(used.contains(rooms0[w].members[k].connection_id));
            }
        }
    }
}

impl RoomRegistry {
    /// How many room instances are registered.
    pub fn room_count(&self) -> (n: usize)
        ensures
            n == self@.rooms.len(),
    {
        self.rooms.len()
    }

    /// The registered room at `i`, for read-only introspection.
    pub fn room_at(&self, i: usize) -> (r: &Room)
        requires
            self.wf(),
            i < self@.rooms.len(),
        ensures
            r@ == self@.rooms[i as int],
            r.wf(),
    {
        &self.rooms[i]
    }

    /// The registered room with this identifier, if any, for read-only
    /// introspection.
    pub fn room_named(&self, room_id: &String) -> (r: Option<&Room>)
        requires
            self.wf(),
        ensures
            match r {
                Some(room) => has_room_id(self@.rooms, room_id@) && room@ == self@.rooms[
                    room_id_index(self@.rooms, room_id@)
                ] && room.wf(),
                None => !has_room_id(self@.rooms, room_id@),
            },
    {
        match self.find_room(room_id) {
            Some(i) => Some(&self.rooms[i]),
            None => None,
        }
    }
}

impl RoomRegistry {
    /// The writer duty's dequeue, routed to the room registered under this
    /// identifier: the oldest message on that room's queue for this
    /// connection, in push order.
    pub fn pop_outbound(&mut self, room_id: &String, connection_id: u64) -> (m: Option<Message>)
        requires
            old(self).wf(),
        ensures
            final(self).wf(),
            final(self)@.capacity == old(self)@.capacity,
            final(self)@.used_connection_ids == old(self)@.used_connection_ids,
            !has_room_id(old(self)@.rooms, room_id@) ==> m is None && *final(self) == *old(self),
            has_room_id(old(self)@.rooms, room_id@) ==> {
                let k = room_id_index(old(self)@.rooms, room_id@);
                &&& final(self)@.rooms == old(self)@.rooms.update(
                    k,
                    popped_model(old(self)@.rooms[k], connection_id),
                )
                &&& (match m {
                    Some(msg) => popped_front(old(self)@.rooms[k], connection_id) == Some(msg@),
                    None => popped_front(old(self)@.rooms[k], connection_id) is None,
                })
            },
    {
        let ghost rooms0 = self@.rooms;
        let found = self.find_room(room_id);
        match found {
            None => None,
            Some(i) => {
                let ghost k = i as int;
                let mut room = self.rooms.remove(i);
                let ghost m0 = room@;
                proof {
                    room.lemma_wf_model();
                }
                let m = room.pop_outbound(connection_id);
                self.rooms.insert(i, room);
                proof {
                    assert(m0 == rooms0[k]);
                    assert(forall|j: int|
                        0 <= j < rooms0.len() && j != k ==> #[trigger] self.rooms@[j]@ == rooms0[j]);
                    assert(self@.rooms =~= rooms0.update(k, popped_model(m0, connection_id)));
                    let m1 = popped_model(m0, connection_id);
                    assert(m1.room_id == m0.room_id && m1.capacity == m0.capacity);
                    assert(unique_room_ids(self@.rooms));
                    let used = self@.used_connection_ids;
                    assert forall|kk: int|
                        0 <= kk < m1.members.len() implies used.contains(
                        (#[trigger] m1.members[kk]).connection_id,
                    ) by {
                        if has_member(m0.members, connection_id) {
                            lemma_member_index(m0.members, connection_id);
                        }
                        assert(m1.members.len() == m0.members.len());
                        assert(m1.members[kk].connection_id == m0.members[kk].connection_id);
                        assert(used.contains(m0.members[kk].connection_id));
                    }
                    assert forall|i2: int, kk: int|
                        0 <= i2 < self@.rooms.len() && 0 <= kk < self@.rooms[i2].members.len() implies self@.used_connection_ids.contains(
                        (#[trigger] self@.rooms[i2].members[kk]).connection_id,
                    ) by {
                        if i2 != k {
                            assert(self@.rooms[i2] == rooms0[i2]);
                        } else {
                            assert(self@.rooms[i2] == m1);
                        }
                    }
                }
                m
            },
        }
    }
}

} // verus!
