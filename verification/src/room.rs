//! The room: the single serialization point of one chat room.
//!
//! A room consumes Join, Broadcast and Leave commands strictly in order.
//! Its whole behaviour is the transition function [`step`] over the
//! mathematical state [`RoomModel`]; every executable handler is proved to
//! realize exactly that transition.  Joining replays the entire current log
//! into the new member's queue before any later command runs; broadcasting
//! appends to the log and pushes to every member's bounded queue without
//! blocking; the leave that empties the room flushes the unpersisted tail
//! of the log and closes the room for good.

use vstd::math::min;
use vstd::prelude::*;

use crate::msg::{clone_string, lemma_views_of_push, views_of, Message, MessageView};
use crate::queue::OutboundQueue;

verus! {

/// One registered member: a connection joined to this room, with the
/// outbound queue the room pushes its deliveries onto.
pub struct Member {
    connection_id: u64,
    username: String,
    queue: OutboundQueue,
}

/// Mathematical image of a [`Member`].
pub ghost struct MemberView {
    pub connection_id: u64,
    pub username: Seq<char>,
    pub queue: Seq<MessageView>,
}

impl View for Member {
    type V = MemberView;

    closed spec fn view(&self) -> MemberView {
        MemberView {
            connection_id: self.connection_id,
            username: self.username@,
            queue: self.queue.contents(),
        }
    }
}

/// Mathematical image of a [`Room`]: everything a contract speaks of.
pub ghost struct RoomModel {
    pub room_id: Seq<char>,
    pub members: Seq<MemberView>,
    pub log: Seq<MessageView>,
    pub persisted_offset: int,
    pub closed: bool,
    pub capacity: nat,
}

/// A command, as the room's command queue carries it.
pub enum RoomCommand {
    /// Register a connection and replay the current log to it.
    Join { connection_id: u64, username: String },
    /// Append one utterance of a member and fan it out.
    Broadcast { sender_connection_id: u64, content: String },
    /// Remove a connection; the last removal closes the room.
    Leave { connection_id: u64 },
}

/// Mathematical image of a [`RoomCommand`].
pub ghost enum CommandView {
    Join { connection_id: u64, username: Seq<char> },
    Broadcast { sender_connection_id: u64, content: Seq<char> },
    Leave { connection_id: u64 },
}

impl View for RoomCommand {
    type V = CommandView;

    open spec fn view(&self) -> CommandView {
        match self {
            RoomCommand::Join { connection_id, username } => CommandView::Join {
                connection_id: *connection_id,
                username: username@,
            },
            RoomCommand::Broadcast { sender_connection_id, content } => CommandView::Broadcast {
                sender_connection_id: *sender_connection_id,
                content: content@,
            },
            RoomCommand::Leave { connection_id } => CommandView::Leave {
                connection_id: *connection_id,
            },
        }
    }
}

/// Whether some member carries this connection identifier.
pub open spec fn has_member(members: Seq<MemberView>, connection_id: u64) -> bool {
    exists|i: int| 0 <= i < members.len() && (#[trigger] members[i]).connection_id == connection_id
}

/// The index of the member carrying this connection identifier; meaningful
/// only when [`has_member`] holds and the identifiers are unique.
pub open spec fn member_index(members: Seq<MemberView>, connection_id: u64) -> int {
    choose|i: int| 0 <= i < members.len() && (#[trigger] members[i]).connection_id == connection_id
}

/// Member identifiers appear at most once.
pub open spec fn unique_members(members: Seq<MemberView>) -> bool {
    forall|i: int, j: int|
        0 <= i < j < members.len() ==> (#[trigger] members[i]).connection_id != (
        #[trigger] members[j]).connection_id
}

/// The invariant of a room's mathematical state.
pub open spec fn model_wf(m: RoomModel) -> bool {
    &&& m.capacity >= 1
    &&& unique_members(m.members)
    &&& forall|i: int|
        0 <= i < m.members.len() ==> (#[trigger] m.members[i]).queue.len() <= m.capacity
    &&& 0 <= m.persisted_offset <= m.log.len()
    &&& m.closed ==> m.members.len() == 0
}

/// What a fresh member's queue holds right after its join: the whole
/// current log, cut to the queue bound.  A log longer than the bound cannot
/// fit the fixed-size queue, so such a join replays only the oldest
/// bound-many messages; within the bound the replay is the exact log.
pub open spec fn seeded_queue(log: Seq<MessageView>, capacity: nat) -> Seq<MessageView> {
    log.take(min(log.len() as int, capacity as int))
}

/// The message a broadcast constructs in state `m`.
pub open spec fn broadcast_message(
    m: RoomModel,
    sender_connection_id: u64,
    content: Seq<char>,
) -> MessageView {
    MessageView {
        id: m.log.len() as u64,
        room_id: m.room_id,
        sender: m.members[member_index(m.members, sender_connection_id)].username,
        content,
    }
}

/// One member after a non-blocking push: the message is appended unless the
/// queue is at the bound, in which case it is dropped for this one member.
pub open spec fn pushed_member(mv: MemberView, msg: MessageView, capacity: nat) -> MemberView {
    if mv.queue.len() < capacity {
        MemberView { connection_id: mv.connection_id, username: mv.username, queue: mv.queue.push(msg) }
    } else {
        mv
    }
}

/// Whether state `m` accepts this command as a state change.  A closed room
/// is inert; a join of an identifier already present, a broadcast of an
/// unknown sender and a leave of an unknown identifier are no-ops.
pub open spec fn accepts(m: RoomModel, c: CommandView) -> bool {
    !m.closed && match c {
        CommandView::Join { connection_id, .. } => !has_member(m.members, connection_id),
        CommandView::Broadcast { sender_connection_id, .. } => has_member(
            m.members,
            sender_connection_id,
        ),
        CommandView::Leave { connection_id } => has_member(m.members, connection_id),
    }
}

/// The join transition.
pub open spec fn step_join(m: RoomModel, connection_id: u64, username: Seq<char>) -> RoomModel {
    if m.closed || has_member(m.members, connection_id) {
        m
    } else {
        RoomModel {
            room_id: m.room_id,
            members: m.members.push(
                MemberView { connection_id, username, queue: seeded_queue(m.log, m.capacity) },
            ),
            log: m.log,
            persisted_offset: m.persisted_offset,
            closed: m.closed,
            capacity: m.capacity,
        }
    }
}

/// The broadcast transition.
pub open spec fn step_broadcast(
    m: RoomModel,
    sender_connection_id: u64,
    content: Seq<char>,
) -> RoomModel {
    if m.closed || !has_member(m.members, sender_connection_id) {
        m
    } else {
        let msg = broadcast_message(m, sender_connection_id, content);
        RoomModel {
            room_id: m.room_id,
            members: m.members.map_values(|mv: MemberView| pushed_member(mv, msg, m.capacity)),
            log: m.log.push(msg),
            persisted_offset: m.persisted_offset,
            closed: m.closed,
            capacity: m.capacity,
        }
    }
}

/// The leave transition.
pub open spec fn step_leave(m: RoomModel, connection_id: u64) -> RoomModel {
    if m.closed || !has_member(m.members, connection_id) {
        m
    } else {
        let members = m.members.remove(member_index(m.members, connection_id));
        if members.len() == 0 {
            RoomModel {
                room_id: m.room_id,
                members,
                log: m.log,
                persisted_offset: m.log.len() as int,
                closed: true,
                capacity: m.capacity,
            }
        } else {
            RoomModel {
                room_id: m.room_id,
                members,
                log: m.log,
                persisted_offset: m.persisted_offset,
                closed: m.closed,
                capacity: m.capacity,
            }
        }
    }
}

/// What a leave hands to the persistence gateway: the unpersisted tail of
/// the log, exactly when this leave empties the room.
pub open spec fn step_leave_flush(m: RoomModel, connection_id: u64) -> Option<Seq<MessageView>> {
    if accepts(m, CommandView::Leave { connection_id }) && m.members.len() == 1 {
        Some(m.log.skip(m.persisted_offset))
    } else {
        None
    }
}

/// The one transition function: everything a room does to its state.
pub open spec fn step(m: RoomModel, c: CommandView) -> RoomModel {
    match c {
        CommandView::Join { connection_id, username } => step_join(m, connection_id, username),
        CommandView::Broadcast { sender_connection_id, content } => step_broadcast(
            m,
            sender_connection_id,
            content,
        ),
        CommandView::Leave { connection_id } => step_leave(m, connection_id),
    }
}

/// The state after a whole command sequence, applied strictly in order.
pub open spec fn run(m: RoomModel, cmds: Seq<CommandView>) -> RoomModel
    decreases cmds.len(),
{
    if cmds.len() == 0 {
        m
    } else {
        run(step(m, cmds[0]), cmds.drop_first())
    }
}

/// When a member with this identifier exists, its index is in range, carries
/// the identifier, and is the only such index.
pub proof fn lemma_member_index(members: Seq<MemberView>, connection_id: u64)
    requires
        unique_members(members),
        has_member(members, connection_id),
    ensures
        0 <= member_index(members, connection_id) < members.len(),
        members[member_index(members, connection_id)].connection_id == connection_id,
        forall|i: int|
            0 <= i < members.len() && (#[trigger] members[i]).connection_id == connection_id
                ==> i == member_index(members, connection_id),
{
    let k = member_index(members, connection_id);
    assert(0 <= k < members.len() && members[k].connection_id == connection_id);
}

/// Every step preserves the room invariant.
pub proof fn lemma_step_preserves_wf(m: RoomModel, c: CommandView)
    requires
        model_wf(m),
    ensures
        model_wf(step(m, c)),
{
    match c {
        CommandView::Join { connection_id, username } => {
            if !m.closed && !has_member(m.members, connection_id) {
                let m2 = step_join(m, connection_id, username);
                assert(seeded_queue(m.log, m.capacity).len() <= m.capacity);
                assert(unique_members(m2.members)) by {
                    assert(forall|i: int|
                        0 <= i < m.members.len() ==> (#[trigger] m2.members[i]).connection_id == m.members[i].connection_id);
                }
            }
        },
        CommandView::Broadcast { sender_connection_id, content } => {
            if !m.closed && has_member(m.members, sender_connection_id) {
                let msg = broadcast_message(m, sender_connection_id, content);
                let m2 = step_broadcast(m, sender_connection_id, content);
                assert(forall|i: int|
                    0 <= i < m.members.len() ==> #[trigger] m2.members[i] == pushed_member(
                        m.members[i],
                        msg,
                        m.capacity,
                    ));
            }
        },
        CommandView::Leave { connection_id } => {
            if !m.closed && has_member(m.members, connection_id) {
                lemma_member_index(m.members, connection_id);
                let k = member_index(m.members, connection_id);
                let members = m.members.remove(k);
                assert(forall|i: int|
                    0 <= i < members.len() ==> #[trigger] members[i] == if i < k {
                        m.members[i]
                    } else {
                        m.members[i + 1]
                    });
            }
        },
    }
}

/// The exact list of delivery outcomes of one broadcast, member by member.
pub open spec fn broadcast_deliveries(m: RoomModel) -> Seq<(u64, bool)> {
    m.members.map_values(|mv: MemberView| (mv.connection_id, mv.queue.len() < m.capacity))
}

/// How one broadcast fanned out: the constructed message and, for every
/// member in order, whether its queue took the message.
pub struct BroadcastOutcome {
    /// The message appended to the log, or `None` for an ignored command.
    pub message: Option<Message>,
    /// `(connection identifier, delivered)` for every member, in member order.
    pub deliveries: Vec<(u64, bool)>,
}

/// One chat room and all the state its actor serializes.
pub struct Room {
    room_id: String,
    members: Vec<Member>,
    message_log: Vec<Message>,
    persisted_offset: usize,
    closed: bool,
    queue_capacity: usize,
}

impl View for Room {
    type V = RoomModel;

    closed spec fn view(&self) -> RoomModel {
        RoomModel {
            room_id: self.room_id@,
            members: self.members@.map_values(|mem: Member| mem@),
            log: views_of(self.message_log@),
            persisted_offset: self.persisted_offset as int,
            closed: self.closed,
            capacity: self.queue_capacity as nat,
        }
    }
}

impl Room {
    /// A well-formed room has a well-formed mathematical state.
    pub proof fn lemma_wf_model(&self)
        requires
            self.wf(),
        ensures
            model_wf(self@),
    {
    }

    /// The room invariant: the model invariant, plus the fit of every
    /// member's queue bound to the room's.
    pub closed spec fn wf(&self) -> bool {
        &&& model_wf(self@)
        &&& forall|i: int|
            0 <= i < self.members@.len() ==> (#[trigger] self.members@[i]).queue.wf()
                && self.members@[i].queue.cap() == self.queue_capacity as nat
    }

    /// A fresh open room, its log seeded from whatever history the durable
    /// store returned for this room identifier.  The seeded history counts
    /// as already persisted.
    pub fn new(room_id: String, backlog: Vec<Message>, queue_capacity: usize) -> (room: Room)
        requires
            queue_capacity >= 1,
        ensures
            room.wf(),
            room@ == (RoomModel {
                room_id: room_id@,
                members: Seq::<MemberView>::empty(),
                log: views_of(backlog@),
                persisted_offset: backlog@.len() as int,
                closed: false,
                capacity: queue_capacity as nat,
            }),
    {
        let persisted_offset = backlog.len();
        let room = Room {
            room_id,
            members: Vec::new(),
            message_log: backlog,
            persisted_offset,
            closed: false,
            queue_capacity,
        };
        proof {
            assert(room@.members =~= Seq::<MemberView>::empty());
        }
        room
    }

    /// Whether the room has closed; a closed room never reopens.
    pub fn is_closed(&self) -> (b: bool)
        ensures
            b == self@.closed,
    {
        self.closed
    }

    /// The room identifier.
    pub fn room_id(&self) -> (r: &String)
        ensures
            r@ == self@.room_id,
    {
        &self.room_id
    }

    /// How many members are registered.
    pub fn member_count(&self) -> (n: usize)
        ensures
            n == self@.members.len(),
    {
        self.members.len()
    }

    /// How many messages the log holds.
    pub fn log_len(&self) -> (n: usize)
        ensures
            n == self@.log.len(),
    {
        self.message_log.len()
    }

    /// How many log entries are already durable.
    pub fn persisted_offset(&self) -> (n: usize)
        ensures
            n == self@.persisted_offset,
    {
        self.persisted_offset
    }

    /// The log entry at `i`.
    pub fn log_get(&self, i: usize) -> (m: &Message)
        requires
            i < self@.log.len(),
        ensures
            m@ == self@.log[i as int],
    {
        &self.message_log[i]
    }

    /// The usernames of the current members, in member order — the
    /// point-in-time listing administrative introspection shows.
    pub fn usernames(&self) -> (names: Vec<String>)
        ensures
            names@.len() == self@.members.len(),
            forall|i: int|
                0 <= i < names@.len() ==> (#[trigger] names@[i])@ == self@.members[i].username,
    {
        let mut names: Vec<String> = Vec::new();
        let n = self.members.len();
        let mut i: usize = 0;
        while i < n
            invariant
                n == self.members@.len(),
                i <= n,
                names@.len() == i,
                self@.members.len() == n,
                forall|j: int|
                    0 <= j < i ==> (#[trigger] names@[j])@ == self@.members[j].username,
            decreases n - i,
        {
            let name = clone_string(&self.members[i].username);
            proof {
                assert(self@.members[i as int] == self.members@.map_values(|mem: Member| mem@)[i as int]);
            }
            names.push(name);
            i += 1;
        }
        names
    }

    /// The position of the member carrying `connection_id`, if any.
    fn find_member(&self, connection_id: u64) -> (r: Option<usize>)
        requires
            self.wf(),
        ensures
            match r {
                Some(i) => has_member(self@.members, connection_id) && i == member_index(
                    self@.members,
                    connection_id,
                ),
                None => !has_member(self@.members, connection_id),
            },
    {
        let ghost members = self@.members;
        let n = self.members.len();
        let mut i: usize = 0;
        while i < n
            invariant
                n == members.len(),
                i <= n,
                self.wf(),
                members == self@.members,
                forall|j: int| 0 <= j < i ==> (#[trigger] members[j]).connection_id != connection_id,
            decreases n - i,
        {
            if self.members[i].connection_id == connection_id {
                proof {
                    assert(members[i as int].connection_id == connection_id);
                    lemma_member_index(members, connection_id);
                }
                return Some(i);
            }
            i += 1;
        }
        None
    }

    /// Whether a member carries this connection identifier.
    pub fn has_connection(&self, connection_id: u64) -> (b: bool)
        requires
            self.wf(),
        ensures
            b == has_member(self@.members, connection_id),
    {
        self.find_member(connection_id).is_some()
    }

    /// The Join command: registers the connection and synchronously replays
    /// the entire current log, in order, onto the fresh member's queue,
    /// before any command behind this one can run.  The queue's fixed bound
    /// caps the replay: a log longer than the bound is cut to its oldest
    /// bound-many messages ([`seeded_queue`]), since the non-blocking pushes
    /// past the bound drop.  A closed room and an identifier already present
    /// are left untouched.
    pub fn add_user(&mut self, connection_id: u64, username: String) -> (joined: bool)
        requires
            old(self).wf(),
        ensures
            final(self).wf(),
            final(self)@ == step_join(old(self)@, connection_id, username@),
            joined == accepts(old(self)@, CommandView::Join { connection_id, username: username@ }),
    {
        proof {
            lemma_step_preserves_wf(
                old(self)@,
                CommandView::Join { connection_id, username: username@ },
            );
        }
        if self.closed {
            return false;
        }
        if self.find_member(connection_id).is_some() {
            return false;
        }
        let ghost m0 = self@;
        let mut queue = OutboundQueue::new(self.queue_capacity);
        let n = self.message_log.len();
        let mut i: usize = 0;
        while i < n
            invariant
                n == self.message_log@.len(),
                i <= n,
                queue.wf(),
                queue.cap() == self.queue_capacity as nat,
                self.queue_capacity >= 1,
                views_of(self.message_log@) == m0.log,
                queue.contents() == seeded_queue(m0.log.take(i as int), self.queue_capacity as nat),
            decreases n - i,
        {
            let delivered = queue.try_push(self.message_log[i].duplicate());
            proof {
                let cap = self.queue_capacity as int;
                let logv = m0.log;
                assert(logv.take(i as int).len() == i);
                if (i as int) < cap {
                    assert(seeded_queue(logv.take(i as int), cap as nat) == logv.take(i as int));
                    assert(logv.take(i as int).push(logv[i as int]) =~= logv.take(i + 1));
                    assert(seeded_queue(logv.take(i + 1), cap as nat) == logv.take(i + 1));
                } else {
                    assert(seeded_queue(logv.take(i as int), cap as nat) == logv.take(cap));
                    assert(seeded_queue(logv.take(i + 1), cap as nat) == logv.take(cap));
                }
            }
            i += 1;
        }
        proof {
            assert(m0.log.take(n as int) =~= m0.log);
        }
        self.members.push(Member { connection_id, username, queue });
        proof {
            let m1 = step_join(m0, connection_id, username@);
            assert(self@.members =~= m1.members);
            assert(self@ == m1);
        }
        true
    }
}

impl Room {
    /// The Broadcast command: constructs the message from the room
    /// identifier, the sender's registered username and the text, appends it
    /// to the log, and then pushes it onto every member's queue without
    /// blocking.  A full queue drops the message for that one recipient and
    /// delays nobody else.  A closed room, or a sender that is no member,
    /// changes nothing.
    pub fn broadcast(&mut self, sender_connection_id: u64, content: String) -> (out:
        BroadcastOutcome)
        requires
            old(self).wf(),
        ensures
            final(self).wf(),
            final(self)@ == step_broadcast(old(self)@, sender_connection_id, content@),
            accepts(
                old(self)@,
                CommandView::Broadcast { sender_connection_id, content: content@ },
            ) ==> {
                &&& out.message matches Some(msg) && msg@ == broadcast_message(
                    old(self)@,
                    sender_connection_id,
                    content@,
                )
                &&& out.deliveries@ == broadcast_deliveries(old(self)@)
            },
            !accepts(
                old(self)@,
                CommandView::Broadcast { sender_connection_id, content: content@ },
            ) ==> out.message is None && out.deliveries@.len() == 0,
    {
        if self.closed {
            return BroadcastOutcome { message: None, deliveries: Vec::new() };
        }
        let idx = match self.find_member(sender_connection_id) {
            Some(i) => i,
            None => {
                return BroadcastOutcome { message: None, deliveries: Vec::new() };
            },
        };
        let ghost m0 = self@;
        let ghost msgv = broadcast_message(m0, sender_connection_id, content@);
        let ghost cap = m0.capacity;
        proof {
            lemma_member_index(m0.members, sender_connection_id);
        }
        let username = clone_string(&self.members[idx].username);
        let id = self.message_log.len() as u64;
        let msg = Message::new(id, clone_string(&self.room_id), username, content);
        proof {
            assert(m0.members[idx as int] == self.members@.map_values(|mem: Member| mem@)[idx as int]);
            assert(msg@ == msgv);
        }
        self.message_log.push(msg.duplicate());
        proof {
            assert(views_of(self.message_log@) =~= m0.log.push(msgv));
        }

        let ghost orig = m0.members;
        let mut new_members: Vec<Member> = Vec::new();
        let mut deliveries: Vec<(u64, bool)> = Vec::new();
        let ghost pushf = |mv: MemberView| pushed_member(mv, msgv, cap);
        let ghost delivf = |mv: MemberView| (mv.connection_id, mv.queue.len() < cap);
        while self.members.len() > 0
            invariant
                msg@ == msgv,
                forall|mv: MemberView| #[trigger] pushf(mv) == pushed_member(mv, msgv, cap),
                forall|mv: MemberView| #[trigger] delivf(mv) == (
                    mv.connection_id,
                    mv.queue.len() < cap,
                ),
                new_members@.len() + self.members@.len() == orig.len(),
                self.members@.map_values(|mem: Member| mem@) =~= orig.skip(
                    new_members@.len() as int,
                ),
                new_members@.map_values(|mem: Member| mem@) =~= orig.take(
                    new_members@.len() as int,
                ).map_values(pushf),
                deliveries@ =~= orig.take(new_members@.len() as int).map_values(delivf),
                forall|j: int|
                    0 <= j < self.members@.len() ==> (#[trigger] self.members@[j]).queue.wf()
                        && self.members@[j].queue.cap() == cap,
                forall|j: int|
                    0 <= j < new_members@.len() ==> (#[trigger] new_members@[j]).queue.wf()
                        && new_members@[j].queue.cap() == cap,
                forall|j: int| 0 <= j < orig.len() ==> (#[trigger] orig[j]).queue.len() <= cap,
                views_of(self.message_log@) == m0.log.push(msgv),
                self.room_id@ == m0.room_id,
                self.persisted_offset as int == m0.persisted_offset,
                self.closed == m0.closed,
                self.queue_capacity as nat == cap,
            decreases self.members@.len(),
        {
            let ghost k = new_members@.len() as int;
            let ghost before = self.members@;
            proof {
                assert(before.map_values(|mem: Member| mem@)[0] == orig.skip(k)[0]);
                assert(orig.skip(k)[0] == orig[k]);
            }
            let mut mem = self.members.remove(0);
            assert(mem@ == orig[k]);
            assert(mem.queue.wf() && mem.queue.cap() == cap);
            let delivered = mem.queue.try_push(msg.duplicate());
            assert(delivered == (orig[k].queue.len() < cap));
            assert(mem@ == pushed_member(orig[k], msgv, cap));
            deliveries.push((mem.connection_id, delivered));
            new_members.push(mem);
            proof {
                assert(new_members@.map_values(|mem: Member| mem@) =~= orig.take(k + 1).map_values(
                    pushf,
                )) by {
                    assert(new_members@[k]@ == pushf(orig[k]));
                    assert(forall|j: int|
                        0 <= j < k ==> #[trigger] new_members@[j]@ == orig.take(k).map_values(
                            pushf,
                        )[j]);
                }
                assert(deliveries@ =~= orig.take(k + 1).map_values(delivf));
                assert forall|j: int| 0 <= j < self.members@.len() implies (
                #[trigger] self.members@[j])@ == orig.skip(k + 1)[j] by {
                    assert(self.members@[j] == before[j + 1]);
                    assert(before.map_values(|mem: Member| mem@)[j + 1] == before[j + 1]@);
                    assert(before.map_values(|mem: Member| mem@)[j + 1] == orig.skip(k)[j + 1]);
                }
                assert(self.members@.map_values(|mem: Member| mem@) =~= orig.skip(k + 1));
            }
        }
        self.members = new_members;
        proof {
            let m1 = step_broadcast(m0, sender_connection_id, content@);
            assert(orig.take(orig.len() as int) =~= orig);
            assert(self@.members =~= m1.members) by {
                assert(forall|j: int|
                    0 <= j < orig.len() ==> #[trigger] m1.members[j] == pushed_member(
                        orig[j],
                        msgv,
                        cap,
                    ));
                assert(forall|j: int|
                    0 <= j < orig.len() ==> #[trigger] self@.members[j] == pushf(orig[j]));
            }
            assert(self@ == m1);
            assert(deliveries@ =~= broadcast_deliveries(m0)) by {
                assert(forall|j: int|
                    0 <= j < orig.len() ==> #[trigger] broadcast_deliveries(m0)[j] == (
                    orig[j].connection_id,
                    orig[j].queue.len() < cap,
                ));
            }
            lemma_step_preserves_wf(
                m0,
                CommandView::Broadcast { sender_connection_id, content: content@ },
            );
            assert(forall|j: int|
                0 <= j < self.members@.len() ==> (#[trigger] self.members@[j]).queue.wf()
                    && self.members@[j].queue.cap() == cap);
        }
        BroadcastOutcome { message: Some(msg), deliveries }
    }

    /// The Leave command: removes the member.  The leave that empties the
    /// room flushes the unpersisted tail of the log — handed back for the
    /// durable store — counts it persisted whatever the store then does, and
    /// closes the room.  A leave for an identifier that is no member, or on
    /// a closed room, is a no-op, so a duplicate leave is harmless.
    pub fn disconnect_user(&mut self, connection_id: u64) -> (flush: Option<Vec<Message>>)
        requires
            old(self).wf(),
        ensures
            final(self).wf(),
            final(self)@ == step_leave(old(self)@, connection_id),
            match flush {
                Some(v) => step_leave_flush(old(self)@, connection_id) == Some(views_of(v@)),
                None => step_leave_flush(old(self)@, connection_id) is None,
            },
    {
        proof {
            lemma_step_preserves_wf(old(self)@, CommandView::Leave { connection_id });
        }
        if self.closed {
            return None;
        }
        let idx = match self.find_member(connection_id) {
            Some(i) => i,
            None => {
                return None;
            },
        };
        let ghost m0 = self@;
        proof {
            lemma_member_index(m0.members, connection_id);
        }
        let _removed = self.members.remove(idx);
        proof {
            assert(self@.members =~= m0.members.remove(idx as int));
        }
        if self.members.len() == 0 {
            let mut flush: Vec<Message> = Vec::new();
            let mut i = self.persisted_offset;
            let n = self.message_log.len();
            let ghost off = m0.persisted_offset;
            proof {
                assert(views_of(flush@) =~= m0.log.subrange(off, off));
            }
            while i < n
                invariant
                    0 <= off <= i <= n,
                    n == self.message_log@.len(),
                    views_of(self.message_log@) == m0.log,
                    views_of(flush@) =~= m0.log.subrange(off, i as int),
                decreases n - i,
            {
                let entry = self.message_log[i].duplicate();
                assert(entry@ == m0.log[i as int]);
                let ghost prev = flush@;
                flush.push(entry);
                proof {
                    lemma_views_of_push(prev, entry);
                    assert(views_of(flush@) =~= m0.log.subrange(off, i + 1));
                }
                i += 1;
            }
            self.persisted_offset = n;
            self.closed = true;
            proof {
                assert(m0.log.subrange(off, n as int) =~= m0.log.skip(off));
                assert(self@ == step_leave(m0, connection_id));
            }
            Some(flush)
        } else {
            proof {
                assert(self@ == step_leave(m0, connection_id));
            }
            None
        }
    }
}

/// What applying command `c` in state `m` must hand back.
pub open spec fn output_matches(m: RoomModel, c: CommandView, out: CommandOutput) -> bool {
    match c {
        CommandView::Join { .. } => out matches CommandOutput::Joined { joined } && joined
            == accepts(m, c),
        CommandView::Broadcast { sender_connection_id, content } => {
            &&& out matches CommandOutput::Broadcasted { outcome }
            &&& (accepts(m, c) ==> {
                &&& outcome.message matches Some(msg) && msg@ == broadcast_message(
                    m,
                    sender_connection_id,
                    content,
                )
                &&& outcome.deliveries@ == broadcast_deliveries(m)
            })
            &&& (!accepts(m, c) ==> outcome.message is None && outcome.deliveries@.len() == 0)
        },
        CommandView::Leave { connection_id } => out matches CommandOutput::Left { flush } && (
        match flush {
            Some(v) => step_leave_flush(m, connection_id) == Some(views_of(v@)),
            None => step_leave_flush(m, connection_id) is None,
        }),
    }
}

/// The state after the writer duty of `connection_id` dequeued once: the
/// oldest message leaves that member's queue; an unknown identifier or an
/// empty queue changes nothing.
pub open spec fn popped_model(m: RoomModel, connection_id: u64) -> RoomModel {
    if !has_member(m.members, connection_id) {
        m
    } else {
        let k = member_index(m.members, connection_id);
        let q = m.members[k].queue;
        if q.len() == 0 {
            m
        } else {
            RoomModel {
                members: m.members.update(
                    k,
                    MemberView {
                        connection_id: m.members[k].connection_id,
                        username: m.members[k].username,
                        queue: q.drop_first(),
                    },
                ),
                ..m
            }
        }
    }
}

/// What that dequeue hands the writer: the oldest queued message, if any.
pub open spec fn popped_front(m: RoomModel, connection_id: u64) -> Option<MessageView> {
    if !has_member(m.members, connection_id) {
        None
    } else {
        let q = m.members[member_index(m.members, connection_id)].queue;
        if q.len() == 0 {
            None
        } else {
            Some(q[0])
        }
    }
}

/// What one command produced, for the caller that pumps the queue.
pub enum CommandOutput {
    /// Whether the join registered a fresh member.
    Joined { joined: bool },
    /// The broadcast fan-out, or an ignored command.
    Broadcasted { outcome: BroadcastOutcome },
    /// The history to hand to the durable store, when this leave closed the room.
    Left { flush: Option<Vec<Message>> },
}

impl Room {
    /// Applies one command: the single transition [`step`], with the
    /// command's output.
    pub fn apply(&mut self, cmd: RoomCommand) -> (out: CommandOutput)
        requires
            old(self).wf(),
        ensures
            final(self).wf(),
            final(self)@ == step(old(self)@, cmd@),
            output_matches(old(self)@, cmd@, out),
    {
        match cmd {
            RoomCommand::Join { connection_id, username } => {
                let joined = self.add_user(connection_id, username);
                CommandOutput::Joined { joined }
            },
            RoomCommand::Broadcast { sender_connection_id, content } => {
                let outcome = self.broadcast(sender_connection_id, content);
                CommandOutput::Broadcasted { outcome }
            },
            RoomCommand::Leave { connection_id } => {
                let flush = self.disconnect_user(connection_id);
                CommandOutput::Left { flush }
            },
        }
    }

    /// Applies a whole command sequence strictly in order: the fold [`run`].
    pub fn apply_all(&mut self, cmds: Vec<RoomCommand>) -> (outputs: Vec<CommandOutput>)
        requires
            old(self).wf(),
        ensures
            final(self).wf(),
            final(self)@ == run(old(self)@, cmds@.map_values(|c: RoomCommand| c@)),
            outputs@.len() == cmds@.len(),
    {
        let ghost m0 = self@;
        let ghost cmdviews = cmds@.map_values(|c: RoomCommand| c@);
        let ghost total = cmds@.len();
        let mut outputs: Vec<CommandOutput> = Vec::new();
        let mut rest = cmds;
        while rest.len() > 0
            invariant
                self.wf(),
                run(self@, rest@.map_values(|c: RoomCommand| c@)) == run(m0, cmdviews),
                outputs@.len() + rest@.len() == total,
            decreases rest@.len(),
        {
            let ghost before = rest@;
            let cmd = rest.remove(0);
            proof {
                let views = before.map_values(|c: RoomCommand| c@);
                let views2 = rest@.map_values(|c: RoomCommand| c@);
                assert(views.len() > 0 && views[0] == cmd@);
                assert(views.drop_first() =~= views2) by {
                    assert(forall|j: int|
                        0 <= j < rest@.len() ==> (#[trigger] rest@[j]) == before[j + 1]);
                    assert(forall|j: int|
                        0 <= j < rest@.len() ==> #[trigger] views2[j] == rest@[j]@);
                    assert(forall|j: int|
                        0 <= j < rest@.len() ==> #[trigger] views[j + 1] == before[j + 1]@);
                }
                assert(run(self@, views) == run(step(self@, cmd@), views2));
            }
            let out = self.apply(cmd);
            outputs.push(out);
        }
        proof {
            assert(rest@.map_values(|c: RoomCommand| c@) =~= Seq::<CommandView>::empty());
            assert(run(self@, Seq::<CommandView>::empty()) == self@);
        }
        outputs
    }

    /// How long the outbound queue of this member is, if it is one.
    pub fn queue_len(&self, connection_id: u64) -> (r: Option<usize>)
        requires
            self.wf(),
        ensures
            match r {
                Some(n) => has_member(self@.members, connection_id) && n == self@.members[
                    member_index(self@.members, connection_id)
                ].queue.len(),
                None => !has_member(self@.members, connection_id),
            },
    {
        match self.find_member(connection_id) {
            Some(i) => Some(self.members[i].queue.len()),
            None => None,
        }
    }

    /// The writer duty's dequeue: removes and returns the oldest message on
    /// this member's queue.  `None` when the queue is empty or the
    /// identifier is no member; messages come out in the order the room
    /// pushed them.
    pub fn pop_outbound(&mut self, connection_id: u64) -> (m: Option<Message>)
        requires
            old(self).wf(),
        ensures
            final(self).wf(),
            final(self)@ == popped_model(old(self)@, connection_id),
            match m {
                Some(msg) => popped_front(old(self)@, connection_id) == Some(msg@),
                None => popped_front(old(self)@, connection_id) is None,
            },
    {
        let idx = match self.find_member(connection_id) {
            Some(i) => i,
            None => {
                return None;
            },
        };
        let ghost m0 = self@;
        proof {
            lemma_member_index(m0.members, connection_id);
        }
        let ghost before = self.members@;
        let mut mem = self.members.remove(idx);
        let popped = mem.queue.pop_front();
        let ghost memv = mem@;
        self.members.insert(idx, mem);
        proof {
            assert(forall|j: int|
                0 <= j < before.len() && j != idx ==> #[trigger] self.members@[j] == before[j]);
            assert(self.members@[idx as int] == mem);
            if m0.members[idx as int].queue.len() == 0 {
                assert(self@.members =~= m0.members);
                assert(self@ == m0);
            } else {
                assert(self@.members =~= m0.members.update(
                    idx as int,
                    MemberView {
                        connection_id: m0.members[idx as int].connection_id,
                        username: m0.members[idx as int].username,
                        queue: m0.members[idx as int].queue.drop_first(),
                    },
                ));
            }
        }
        popped
    }
}

} // verus!
