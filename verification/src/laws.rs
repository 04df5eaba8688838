//! The laws of the room state machine, stated over [`RoomModel`] and the
//! transition function [`step`] and proved for every state and every command
//! sequence.

use vstd::prelude::*;

use crate::msg::MessageView;
use crate::room::{
    accepts, broadcast_message, has_member, lemma_member_index, lemma_step_preserves_wf,
    member_index, model_wf, pushed_member, run, seeded_queue, step, step_leave, CommandView,
    RoomModel,
};

verus! {

/// The messages that a command sequence appends to the log, in command
/// order: one message per accepted Broadcast, none for anything else.
pub open spec fn accepted_messages(m: RoomModel, cmds: Seq<CommandView>) -> Seq<MessageView>
    decreases cmds.len(),
{
    if cmds.len() == 0 {
        Seq::empty()
    } else {
        let rest = accepted_messages(step(m, cmds[0]), cmds.drop_first());
        match cmds[0] {
            CommandView::Broadcast { sender_connection_id, content } => {
                if accepts(m, cmds[0]) {
                    seq![broadcast_message(m, sender_connection_id, content)] + rest
                } else {
                    rest
                }
            },
            _ => rest,
        }
    }
}

/// A whole command sequence preserves the room invariant.
pub proof fn lemma_run_preserves_wf(m: RoomModel, cmds: Seq<CommandView>)
    requires
        model_wf(m),
    ensures
        model_wf(run(m, cmds)),
    decreases cmds.len(),
{
    if cmds.len() > 0 {
        lemma_step_preserves_wf(m, cmds[0]);
        lemma_run_preserves_wf(step(m, cmds[0]), cmds.drop_first());
    }
}

/// Total order: for any interleaving of Join, Broadcast and Leave commands
/// consumed by one room, the resulting log is the starting log followed by
/// exactly the messages of the accepted broadcasts, in the order the
/// commands were accepted — no reordering, no loss, no duplication.
pub proof fn lemma_total_order(m: RoomModel, cmds: Seq<CommandView>)
    ensures
        run(m, cmds).log == m.log + accepted_messages(m, cmds),
    decreases cmds.len(),
{
    if cmds.len() == 0 {
        assert(m.log + accepted_messages(m, cmds) =~= m.log);
    } else {
        let c = cmds[0];
        let m1 = step(m, c);
        let rest = cmds.drop_first();
        lemma_total_order(m1, rest);
        match c {
            CommandView::Broadcast { sender_connection_id, content } => {
                if accepts(m, c) {
                    let msg = broadcast_message(m, sender_connection_id, content);
                    assert(m1.log == m.log.push(msg));
                    assert(m.log.push(msg) + accepted_messages(m1, rest) =~= m.log + (seq![msg]
                        + accepted_messages(m1, rest)));
                } else {
                    assert(m1.log == m.log);
                }
            },
            _ => {
                assert(m1.log == m.log);
            },
        }
    }
}

/// A closed room is inert: no command changes it.
pub proof fn lemma_closed_inert(m: RoomModel, c: CommandView)
    requires
        m.closed,
    ensures
        step(m, c) == m,
{
}

/// A closed room stays closed and unchanged through any command sequence.
pub proof fn lemma_closed_terminal(m: RoomModel, cmds: Seq<CommandView>)
    requires
        m.closed,
    ensures
        run(m, cmds) == m,
    decreases cmds.len(),
{
    if cmds.len() > 0 {
        lemma_closed_inert(m, cmds[0]);
        lemma_closed_terminal(m, cmds.drop_first());
    }
}

/// Closure is single-shot: a leave closes the room exactly when it removes
/// the last member, and a closed room never transitions again, so the
/// closing transition fires at most once in the life of a room instance.
pub proof fn lemma_closure_single_shot(m: RoomModel, connection_id: u64)
    requires
        model_wf(m),
        !m.closed,
    ensures
        step_leave(m, connection_id).closed <==> (has_member(m.members, connection_id)
            && m.members.len() == 1),
        step_leave(m, connection_id).closed ==> forall|cmds: Seq<CommandView>|
            #[trigger] run(step_leave(m, connection_id), cmds) == step_leave(m, connection_id),
{
    if has_member(m.members, connection_id) {
        lemma_member_index(m.members, connection_id);
    }
    if step_leave(m, connection_id).closed {
        assert forall|cmds: Seq<CommandView>|
            #[trigger] run(step_leave(m, connection_id), cmds) == step_leave(
            m,
            connection_id,
        ) by {
            lemma_closed_terminal(step_leave(m, connection_id), cmds);
        }
    }
}

/// Consumer isolation: one member's queue standing at capacity neither
/// delays nor prevents delivery of a broadcast to any other member, and the
/// full queue itself only drops that one message.
pub proof fn lemma_consumer_isolation(
    m: RoomModel,
    sender_connection_id: u64,
    content: Seq<char>,
    full: int,
    other: int,
)
    requires
        model_wf(m),
        accepts(m, CommandView::Broadcast { sender_connection_id, content }),
        0 <= full < m.members.len(),
        0 <= other < m.members.len(),
        other != full,
        m.members[full].queue.len() == m.capacity,
        m.members[other].queue.len() < m.capacity,
    ensures
        ({
            let m1 = step(m, CommandView::Broadcast { sender_connection_id, content });
            let msg = broadcast_message(m, sender_connection_id, content);
            &&& m1.members[other].queue == m.members[other].queue.push(msg)
            &&& m1.members[other].connection_id == m.members[other].connection_id
            &&& m1.members[full].queue == m.members[full].queue
            &&& m1.log == m.log.push(msg)
        }),
{
    let msg = broadcast_message(m, sender_connection_id, content);
    let m1 = step(m, CommandView::Broadcast { sender_connection_id, content });
    assert(m1.members[other] == pushed_member(m.members[other], msg, m.capacity));
    assert(m1.members[full] == pushed_member(m.members[full], msg, m.capacity));
}

/// The outbound queue of the member carrying this connection identifier.
pub open spec fn member_queue(m: RoomModel, connection_id: u64) -> Seq<MessageView> {
    m.members[member_index(m.members, connection_id)].queue
}

/// What one command delivers onto this member's queue: the broadcast
/// message when the command is an accepted broadcast and the queue is below
/// its bound, and nothing otherwise.
pub open spec fn step_delivery(m: RoomModel, c: CommandView, connection_id: u64) -> Seq<
    MessageView,
> {
    match c {
        CommandView::Broadcast { sender_connection_id, content } => {
            if accepts(m, c) && member_queue(m, connection_id).len() < m.capacity {
                seq![broadcast_message(m, sender_connection_id, content)]
            } else {
                Seq::empty()
            }
        },
        _ => Seq::empty(),
    }
}

/// Everything a command sequence delivers onto this member's queue, in
/// command order.
pub open spec fn delivered_to(m: RoomModel, cmds: Seq<CommandView>, connection_id: u64) -> Seq<
    MessageView,
>
    decreases cmds.len(),
{
    if cmds.len() == 0 {
        Seq::empty()
    } else {
        step_delivery(m, cmds[0], connection_id) + delivered_to(
            step(m, cmds[0]),
            cmds.drop_first(),
            connection_id,
        )
    }
}

/// Any command but this member's own leave keeps the member registered and
/// changes its queue exactly by [`step_delivery`].
pub proof fn lemma_step_member(m: RoomModel, c: CommandView, connection_id: u64)
    requires
        model_wf(m),
        has_member(m.members, connection_id),
        c != (CommandView::Leave { connection_id }),
    ensures
        has_member(step(m, c).members, connection_id),
        member_queue(step(m, c), connection_id) == member_queue(m, connection_id) + step_delivery(
            m,
            c,
            connection_id,
        ),
{
    lemma_member_index(m.members, connection_id);
    lemma_step_preserves_wf(m, c);
    let k = member_index(m.members, connection_id);
    let q = member_queue(m, connection_id);
    let m1 = step(m, c);
    assert(!m.closed);
    match c {
        CommandView::Join { connection_id: id2, username } => {
            if !has_member(m.members, id2) {
                assert(m1.members[k] == m.members[k]);
                assert(has_member(m1.members, connection_id));
                lemma_member_index(m1.members, connection_id);
                assert(member_index(m1.members, connection_id) == k);
            }
            assert(q + Seq::<MessageView>::empty() =~= q);
        },
        CommandView::Broadcast { sender_connection_id, content } => {
            if has_member(m.members, sender_connection_id) {
                let msg = broadcast_message(m, sender_connection_id, content);
                assert(m1.members[k] == pushed_member(m.members[k], msg, m.capacity));
                assert(m1.members[k].connection_id == connection_id);
                assert(has_member(m1.members, connection_id));
                lemma_member_index(m1.members, connection_id);
                assert(member_index(m1.members, connection_id) == k);
                if q.len() < m.capacity {
                    assert(q.push(msg) =~= q + seq![msg]);
                } else {
                    assert(q + Seq::<MessageView>::empty() =~= q);
                }
            } else {
                assert(q + Seq::<MessageView>::empty() =~= q);
            }
        },
        CommandView::Leave { connection_id: id2 } => {
            if has_member(m.members, id2) {
                assert(id2 != connection_id);
                lemma_member_index(m.members, id2);
                let k2 = member_index(m.members, id2);
                assert(k2 != k);
                assert(forall|j: int|
                    0 <= j < m1.members.len() ==> #[trigger] m1.members[j] == if j < k2 {
                        m.members[j]
                    } else {
                        m.members[j + 1]
                    });
                let kk = if k < k2 {
                    k
                } else {
                    k - 1
                };
                assert(m1.members[kk].connection_id == connection_id);
                assert(has_member(m1.members, connection_id));
                lemma_member_index(m1.members, connection_id);
                assert(member_index(m1.members, connection_id) == kk);
            }
            assert(q + Seq::<MessageView>::empty() =~= q);
        },
    }
}

/// Over a whole command sequence without this member's own leave, the
/// member's queue is the old queue followed exactly by what the sequence
/// delivered, in order: nothing already queued is lost or reordered, and
/// live messages land strictly behind it.
pub proof fn lemma_member_queue_growth(m: RoomModel, cmds: Seq<CommandView>, connection_id: u64)
    requires
        model_wf(m),
        has_member(m.members, connection_id),
        forall|i: int|
            0 <= i < cmds.len() ==> cmds[i] != (CommandView::Leave { connection_id }),
    ensures
        has_member(run(m, cmds).members, connection_id),
        member_queue(run(m, cmds), connection_id) == member_queue(m, connection_id) + delivered_to(
            m,
            cmds,
            connection_id,
        ),
    decreases cmds.len(),
{
    let q = member_queue(m, connection_id);
    if cmds.len() == 0 {
        assert(q + Seq::<MessageView>::empty() =~= q);
    } else {
        let m1 = step(m, cmds[0]);
        let rest = cmds.drop_first();
        assert(forall|i: int| 0 <= i < rest.len() ==> #[trigger] rest[i] == cmds[i + 1]);
        lemma_step_member(m, cmds[0], connection_id);
        lemma_step_preserves_wf(m, cmds[0]);
        lemma_member_queue_growth(m1, rest, connection_id);
        assert((q + step_delivery(m, cmds[0], connection_id)) + delivered_to(
            m1,
            rest,
            connection_id,
        ) =~= q + (step_delivery(m, cmds[0], connection_id) + delivered_to(
            m1,
            rest,
            connection_id,
        )));
    }
}

/// Backlog exactness: a connection joining a room whose log holds `k`
/// messages (`k` within the queue bound) has, right after its join, exactly
/// those `k` messages on its queue in original order; and after any further
/// commands short of its own leave, its queue is exactly that backlog
/// followed by the later deliveries — no gap, no duplicate, nothing ahead
/// of the backlog.
pub proof fn lemma_backlog_exactness(
    m: RoomModel,
    connection_id: u64,
    username: Seq<char>,
    cmds: Seq<CommandView>,
)
    requires
        model_wf(m),
        !m.closed,
        !has_member(m.members, connection_id),
        m.log.len() <= m.capacity,
        forall|i: int|
            0 <= i < cmds.len() ==> cmds[i] != (CommandView::Leave { connection_id }),
    ensures
        ({
            let joined = step(m, CommandView::Join { connection_id, username });
            let fin = run(joined, cmds);
            &&& member_queue(joined, connection_id) == m.log
            &&& has_member(fin.members, connection_id)
            &&& member_queue(fin, connection_id) == m.log + delivered_to(
                joined,
                cmds,
                connection_id,
            )
        }),
{
    let joined = step(m, CommandView::Join { connection_id, username });
    lemma_step_preserves_wf(m, CommandView::Join { connection_id, username });
    assert(seeded_queue(m.log, m.capacity) =~= m.log);
    let k = m.members.len() as int;
    assert(joined.members[k].connection_id == connection_id);
    assert(has_member(joined.members, connection_id));
    lemma_member_index(joined.members, connection_id);
    assert(member_index(joined.members, connection_id) == k);
    lemma_member_queue_growth(joined, cmds, connection_id);
}

} // verus!
