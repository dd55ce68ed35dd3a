//! What holds of the client over several steps.

use crate::assembler::{
    assembled, belongs_to, concat_slots, has_arrived, law_any_order, lemma_assembled,
    lemma_slots_hold_message, slots_of, PartialView,
};
use crate::ids::{ascending, lemma_ascending_members, NodeId};
use crate::messages::{
    message_event, ActionView, ClientCommand, ClientType, Content, EventView, TestMessage,
};
use crate::packet::{
    trace_ids, BodyView, Fragment, HeaderView, Nack, NackType, NodeType, PacketView,
};
use crate::routing::RouteQuery;
use crate::state::{all_confirmed, joins, learn_types, trace_links, ClientView, RETRY_LIMIT};
use vstd::prelude::*;

verus! {

// ---- messages that arrive ----

/// A packet that a client dealt with, and the client before and after.
pub struct Step<C: Content> {
    pub pre: ClientView<C>,
    pub packet: PacketView,
    pub fresh_id: u64,
    pub post: ClientView<C>,
}

/// Whether a packet holds a fragment of the message of this session and sender.
pub open spec fn is_part_of(packet: PacketView, key: (usize, NodeId)) -> bool {
    &&& packet.pack_type is MsgFragment
    &&& packet.routing_header.source() == Some(key.1)
    &&& packet.session_id as usize == key.0
}

/// The fragment that a packet holds.
pub open spec fn fragment_held(packet: PacketView) -> Fragment {
    packet.pack_type->MsgFragment_0
}

/// Whether an action is to decode the message of this session and sender.
pub open spec fn is_decoding<C: Content>(action: ActionView<C>, key: (usize, NodeId)) -> bool {
    action is Decode && (action->session_id as usize, action->src_id) == key
}

impl<C: Content> Step<C> {
    /// Whether the client did with the packet what it does.
    pub open spec fn valid(self) -> bool {
        self.pre.packet_handled(self.post, self.packet, self.fresh_id)
    }

    /// Whether the step leaves the message of this session and sender to be decoded.
    pub open spec fn decodes(self, key: (usize, NodeId)) -> bool {
        exists|i: int|
            self.pre.outbox.len() <= i < self.post.outbox.len() && is_decoding(#[trigger] self.post.outbox[i], key)
    }
}

/// Whether the client has the same stored of messages at step `i` as after the step before.
pub open spec fn follows<C: Content>(steps: Seq<Step<C>>, i: int) -> bool {
    steps[i].pre.message_storage == steps[i - 1].post.message_storage
}

/// Whether steps follow one another. From one to the next the client may do anything that
/// leaves alone what it has stored of messages, such as to carry out commands or to hand
/// out what is to be done.
pub open spec fn in_sequence<C: Content>(steps: Seq<Step<C>>) -> bool {
    &&& forall|i: int| 0 <= i < steps.len() ==> (#[trigger] steps[i]).valid()
    &&& forall|i: int| 0 < i < steps.len() ==> #[trigger] follows(steps, i)
}

/// The fragments of the message of a session and sender that came in, in order.
pub open spec fn fragments_in<C: Content>(steps: Seq<Step<C>>, key: (usize, NodeId)) -> Seq<Fragment>
    decreases steps.len(),
{
    if steps.len() == 0 {
        Seq::empty()
    } else if is_part_of(steps.last().packet, key) {
        fragments_in(steps.drop_last(), key).push(fragment_held(steps.last().packet))
    } else {
        fragments_in(steps.drop_last(), key)
    }
}

/// Whether what comes in of the message of a session and sender is of the message with
/// these slots. Any other packets may come in as well.
pub open spec fn brings<C: Content>(steps: Seq<Step<C>>, key: (usize, NodeId), slots: Seq<Seq<u8>>) -> bool {
    forall|i: int|
        0 <= i < steps.len() && is_part_of((#[trigger] steps[i]).packet, key) ==> belongs_to(
            fragment_held(steps[i].packet),
            slots,
        )
}

/// Whether a step leaves the message of a session and sender to be decoded once, with these
/// bytes and last of all, leaves no other to be decoded, and keeps nothing of the message.
pub open spec fn leaves_to_decode<C: Content>(step: Step<C>, key: (usize, NodeId), data: Seq<u8>) -> bool {
    let post = step.post;
    &&& !post.message_storage.contains_key(key)
    &&& post.outbox.len() > step.pre.outbox.len()
    &&& is_decoding(post.outbox.last(), key)
    &&& post.outbox.last()->session_id == step.packet.session_id
    &&& post.outbox.last()->data == data
    &&& forall|i: int|
        step.pre.outbox.len() <= i < post.outbox.len() - 1 ==> !(#[trigger] post.outbox[i] is Decode)
}

/// A packet changes nothing of the messages that it holds no fragment of, and leaves none
/// of them to be decoded.
pub proof fn law_packet_leaves_other_messages<C: Content>(step: Step<C>, key: (usize, NodeId))
    requires
        step.valid(),
        !is_part_of(step.packet, key),
    ensures
        step.post.message_storage.contains_key(key) <==> step.pre.message_storage.contains_key(key),
        step.pre.message_storage.contains_key(key) ==> step.post.message_storage[key]
            == step.pre.message_storage[key],
        !step.decodes(key),
{
}

/// Steps without the last of them follow one another and bring the same message, and the
/// last starts where they end.
proof fn lemma_steps_of_prefix<C: Content>(steps: Seq<Step<C>>, key: (usize, NodeId), slots: Seq<Seq<u8>>)
    requires
        steps.len() > 0,
        in_sequence(steps),
        brings(steps, key, slots),
    ensures
        in_sequence(steps.drop_last()),
        brings(steps.drop_last(), key, slots),
        steps.last().valid(),
        is_part_of(steps.last().packet, key) ==> belongs_to(fragment_held(steps.last().packet), slots),
        steps.len() > 1 ==> steps.last().pre.message_storage == steps.drop_last().last().post.message_storage,
{
    let earlier = steps.drop_last();
    assert(steps[steps.len() - 1] == steps.last());
    assert forall|i: int| 0 <= i < earlier.len() implies (#[trigger] earlier[i]).valid() by {
        assert(earlier[i] == steps[i]);
    }
    assert forall|i: int| 0 < i < earlier.len() implies #[trigger] follows(earlier, i) by {
        assert(follows(steps, i));
    }
    if steps.len() > 1 {
        assert(follows(steps, steps.len() - 1));
    }
    assert forall|i: int|
        0 <= i < earlier.len() && is_part_of((#[trigger] earlier[i]).packet, key) implies belongs_to(
        fragment_held(earlier[i].packet),
        slots,
    ) by {
        assert(earlier[i] == steps[i]);
    }
}

/// The fragments that came in of a message are fragments of it.
proof fn lemma_fragments_belong<C: Content>(steps: Seq<Step<C>>, key: (usize, NodeId), slots: Seq<Seq<u8>>)
    requires
        in_sequence(steps),
        brings(steps, key, slots),
    ensures
        forall|j: int|
            0 <= j < fragments_in(steps, key).len() ==> belongs_to(#[trigger] fragments_in(steps, key)[j], slots),
    decreases steps.len(),
{
    if steps.len() > 0 {
        lemma_steps_of_prefix(steps, key, slots);
        lemma_fragments_belong(steps.drop_last(), key, slots);
        let earlier = fragments_in(steps.drop_last(), key);
        assert forall|j: int| 0 <= j < fragments_in(steps, key).len() implies belongs_to(
            #[trigger] fragments_in(steps, key)[j],
            slots,
        ) by {
            if j < earlier.len() {
                assert(fragments_in(steps, key)[j] == earlier[j]);
            }
        }
    }
}

/// A fragment that has come in is still among those that came when one more packet has.
proof fn lemma_arrived_stays<C: Content>(steps: Seq<Step<C>>, key: (usize, NodeId), i: int)
    requires
        steps.len() > 0,
        has_arrived(fragments_in(steps.drop_last(), key), i),
    ensures
        has_arrived(fragments_in(steps, key), i),
{
    let earlier = fragments_in(steps.drop_last(), key);
    let j = choose|j: int| 0 <= j < earlier.len() && (#[trigger] earlier[j]).fragment_index == i;
    assert(fragments_in(steps, key)[j].fragment_index == i);
}

/// As long as a fragment of a message is missing, the client keeps what has come, and does
/// not leave the message to be decoded, whatever other packets come in between.
pub proof fn law_incomplete_message_is_kept<C: Content>(
    steps: Seq<Step<C>>,
    key: (usize, NodeId),
    slots: Seq<Seq<u8>>,
    missing: int,
)
    requires
        slots.len() <= u64::MAX,
        steps.len() > 0,
        in_sequence(steps),
        brings(steps, key, slots),
        !steps[0].pre.message_storage.contains_key(key),
        0 <= missing < slots.len(),
        !has_arrived(fragments_in(steps, key), missing),
    ensures
        ({
            let frags = fragments_in(steps, key);
            let storage = steps.last().post.message_storage;
            &&& storage.contains_key(key) <==> frags.len() > 0
            &&& frags.len() > 0 ==> storage[key] == assembled(slots.len() as u64, frags)
            &&& forall|i: int| 0 <= i < steps.len() ==> !(#[trigger] steps[i]).decodes(key)
        }),
    decreases steps.len(),
{
    let total = slots.len() as u64;
    let earlier = steps.drop_last();
    let step = steps.last();
    lemma_steps_of_prefix(steps, key, slots);
    if has_arrived(fragments_in(earlier, key), missing) {
        lemma_arrived_stays(steps, key, missing);
    }
    if earlier.len() > 0 {
        assert(earlier[0] == steps[0]);
        law_incomplete_message_is_kept(earlier, key, slots, missing);
    } else {
        assert(fragments_in(earlier, key).len() == 0);
        assert(step == steps[0]);
    }
    if is_part_of(step.packet, key) {
        lemma_next_fragment(steps, key, slots);
        let frags = fragments_in(steps, key);
        lemma_fragments_belong(steps, key, slots);
        lemma_assembled(slots, frags);
        assert(!assembled(total, frags).received[missing]);
        assert(!assembled(total, frags).complete());
    } else {
        law_packet_leaves_other_messages(step, key);
    }
    assert forall|i: int| 0 <= i < steps.len() implies !(#[trigger] steps[i]).decodes(key) by {
        if i < earlier.len() {
            assert(earlier[i] == steps[i]);
        }
    }
}

/// What a fragment makes of a message of which `before` has arrived, where the message has
/// a fragment of that number.
proof fn lemma_fragment_step<C: Content>(step: Step<C>, key: (usize, NodeId), before: PartialView)
    requires
        step.valid(),
        is_part_of(step.packet, key),
        before == step.pre.stored(step.packet.session_id, key.1, fragment_held(step.packet)),
        before.expects(fragment_held(step.packet).fragment_index),
    ensures
        before.with(fragment_held(step.packet)).complete() ==> leaves_to_decode(
            step,
            key,
            before.with(fragment_held(step.packet)).data,
        ),
        !before.with(fragment_held(step.packet)).complete() ==> {
            &&& step.post.message_storage.contains_key(key)
            &&& step.post.message_storage[key] == before.with(fragment_held(step.packet))
            &&& !step.decodes(key)
        },
{
}

/// What a further fragment makes of a message of which the client has kept all that came.
proof fn lemma_next_fragment<C: Content>(steps: Seq<Step<C>>, key: (usize, NodeId), slots: Seq<Seq<u8>>)
    requires
        slots.len() <= u64::MAX,
        steps.len() > 0,
        in_sequence(steps),
        brings(steps, key, slots),
        is_part_of(steps.last().packet, key),
        ({
            let earlier = fragments_in(steps.drop_last(), key);
            let storage = steps.last().pre.message_storage;
            &&& storage.contains_key(key) <==> earlier.len() > 0
            &&& earlier.len() > 0 ==> storage[key] == assembled(slots.len() as u64, earlier)
        }),
    ensures
        ({
            let step = steps.last();
            let after = assembled(slots.len() as u64, fragments_in(steps, key));
            &&& after.complete() ==> leaves_to_decode(step, key, after.data)
            &&& !after.complete() ==> {
                &&& step.post.message_storage.contains_key(key)
                &&& step.post.message_storage[key] == after
                &&& !step.decodes(key)
            }
        }),
{
    let total = slots.len() as u64;
    let earlier = fragments_in(steps.drop_last(), key);
    let frags = fragments_in(steps, key);
    let step = steps.last();
    let fragment = fragment_held(step.packet);
    lemma_steps_of_prefix(steps, key, slots);
    lemma_fragments_belong(steps.drop_last(), key, slots);
    lemma_assembled(slots, earlier);
    let before = assembled(total, earlier);
    assert(step.pre.stored(step.packet.session_id, key.1, fragment) == before);
    assert(frags.drop_last() =~= earlier);
    assert(before.with(fragment) == assembled(total, frags));
    lemma_fragment_step(step, key, before);
}

/// A message whose fragments come in, in whatever order and however often, and whatever
/// other packets come in between, is left to be decoded once, when the last missing
/// fragment comes: whole, and kept no longer.
pub proof fn law_complete_message_is_decoded<C: Content>(
    steps: Seq<Step<C>>,
    key: (usize, NodeId),
    slots: Seq<Seq<u8>>,
    missing: int,
)
    requires
        slots.len() <= u64::MAX,
        steps.len() > 0,
        in_sequence(steps),
        brings(steps, key, slots),
        !steps[0].pre.message_storage.contains_key(key),
        0 <= missing < slots.len(),
        !has_arrived(fragments_in(steps.drop_last(), key), missing),
        forall|i: int| 0 <= i < slots.len() ==> #[trigger] has_arrived(fragments_in(steps, key), i),
    ensures
        leaves_to_decode(steps.last(), key, concat_slots(slots)),
        forall|i: int| 0 <= i < steps.len() - 1 ==> !(#[trigger] steps[i]).decodes(key),
{
    let earlier = steps.drop_last();
    lemma_steps_of_prefix(steps, key, slots);
    if earlier.len() > 0 {
        assert(earlier[0] == steps[0]);
        law_incomplete_message_is_kept(earlier, key, slots, missing);
    } else {
        assert(fragments_in(earlier, key).len() == 0);
        assert(steps.last() == steps[0]);
    }
    assert(has_arrived(fragments_in(steps, key), missing));
    assert(is_part_of(steps.last().packet, key));
    lemma_next_fragment(steps, key, slots);
    lemma_fragments_belong(steps, key, slots);
    law_any_order(slots, fragments_in(steps, key));
    assert forall|i: int| 0 <= i < steps.len() - 1 implies !(#[trigger] steps[i]).decodes(key) by {
        assert(earlier[i] == steps[i]);
    }
}

/// A message that was cut into fragments comes back whole, with nothing but zeros behind
/// it: it is left to be decoded when the last missing fragment comes, and never before,
/// in whatever order and however often the fragments come, and whatever other packets come
/// in between.
pub proof fn law_message_comes_back<C: Content>(
    steps: Seq<Step<C>>,
    key: (usize, NodeId),
    message: Seq<u8>,
    missing: int,
)
    requires
        slots_of(message).len() <= u64::MAX,
        steps.len() > 0,
        in_sequence(steps),
        brings(steps, key, slots_of(message)),
        !steps[0].pre.message_storage.contains_key(key),
        0 <= missing < slots_of(message).len(),
        !has_arrived(fragments_in(steps.drop_last(), key), missing),
        forall|i: int| 0 <= i < slots_of(message).len() ==> #[trigger] has_arrived(fragments_in(steps, key), i),
    ensures
        ({
            let data = steps.last().post.outbox.last()->data;
            &&& leaves_to_decode(steps.last(), key, data)
            &&& data.len() >= message.len()
            &&& data.take(message.len() as int) == message
            &&& forall|k: int| message.len() <= k < data.len() ==> data[k] == 0
        }),
        forall|i: int| 0 <= i < steps.len() - 1 ==> !(#[trigger] steps[i]).decodes(key),
{
    law_complete_message_is_decoded(steps, key, slots_of(message), missing);
    lemma_slots_hold_message(message);
}

/// The controller is told of a decoded message once: by its content where it comes from a
/// server, else as it is. No packet by itself makes the client tell of a message that was
/// received.
pub proof fn law_message_is_told_of_once<C: Content>(
    client: ClientView<C>,
    src_id: NodeId,
    message: TestMessage<C>,
    step: Step<C>,
)
    requires
        step.valid(),
    ensures
        client.message_processed(src_id, Some(message)).outbox == client.outbox.push(
            ActionView::Notify(message_event(client.id, src_id, message)),
        ),
        !(message is WebClientMessages) ==> message_event(client.id, src_id, message) == EventView::MessageReceived(
            message,
        ),
        forall|i: int|
            step.pre.outbox.len() <= i < step.post.outbox.len() ==> !(#[trigger] step.post.outbox[i] is Notify
                && step.post.outbox[i]->Notify_0 is MessageReceived),
{
}

/// Whether no message is stored of which every fragment has arrived.
pub open spec fn no_complete_message<C: Content>(client: ClientView<C>) -> bool {
    forall|key: (usize, NodeId)| #[trigger]
        client.message_storage.contains_key(key) ==> client.message_storage[key].received.len() == 0
            || !client.message_storage[key].complete()
}

/// A client that explores the network for the first time has no complete message stored.
pub proof fn law_new_client_has_no_message<C: Content>(
    id: NodeId,
    neighbors: Set<NodeId>,
    client_type: ClientType,
    fresh_id: u64,
)
    ensures
        no_complete_message(ClientView::<C>::initial(id, neighbors, client_type).discovering(fresh_id)),
{
}

/// No fragment leaves a complete message stored.
pub proof fn law_fragment_leaves_no_complete_message<C: Content>(
    client: ClientView<C>,
    header: HeaderView,
    session_id: u64,
    fragment: Fragment,
)
    requires
        no_complete_message(client),
    ensures
        no_complete_message(client.fragment_received(header, session_id, fragment)),
{
    if let Some(src_id) = header.source() {
        let before = client.stored(session_id, src_id, fragment);
        if !before.expects(fragment.fragment_index) && before.received.len() > 0 {
            assert(!before.complete()) by {
                if !client.message_storage.contains_key((session_id as usize, src_id)) {
                    assert(!before.received[0]);
                }
            }
            assert(before.with(fragment).received == before.received);
        }
    }
}

/// No packet leaves a complete message stored.
pub proof fn law_packet_leaves_no_complete_message<C: Content>(step: Step<C>)
    requires
        step.valid(),
        no_complete_message(step.pre),
    ensures
        no_complete_message(step.post),
{
    match step.packet.pack_type {
        BodyView::MsgFragment(fragment) => {
            law_fragment_leaves_no_complete_message(
                step.pre,
                step.packet.routing_header,
                step.packet.session_id,
                fragment,
            );
        },
        _ => {},
    }
}

/// No command leaves a complete message stored.
pub proof fn law_command_leaves_no_complete_message<C: Content>(
    pre: ClientView<C>,
    post: ClientView<C>,
    command: ClientCommand,
    fresh_id: u64,
)
    requires
        pre.command_handled(post, command, fresh_id),
        no_complete_message(pre),
    ensures
        no_complete_message(post),
{
    match command {
        ClientCommand::ControllerShortcut(packet) => {
            law_packet_leaves_no_complete_message(Step { pre, packet: packet@, fresh_id, post });
        },
        _ => {},
    }
}

/// A message that is stored before and after a fragment came in has the same number of
/// fragments, and what had arrived of it still has.
pub proof fn law_arrivals_stay_marked<C: Content>(
    client: ClientView<C>,
    header: HeaderView,
    session_id: u64,
    fragment: Fragment,
    key: (usize, NodeId),
)
    requires
        client.message_storage.contains_key(key),
        client.fragment_received(header, session_id, fragment).message_storage.contains_key(key),
    ensures
        ({
            let before = client.message_storage[key].received;
            let after = client.fragment_received(header, session_id, fragment).message_storage[key].received;
            &&& after.len() == before.len()
            &&& forall|i: int| 0 <= i < before.len() && #[trigger] before[i] ==> after[i]
        }),
{
}

/// A fragment that is confirmed goes back to where it came from: the route of the
/// confirmation ends at the sender of the fragment and starts where its route ended.
pub proof fn law_ack_goes_back<C: Content>(client: ClientView<C>, header: HeaderView, session_id: u64, index: u64)
    requires
        header.hops.len() > 1,
        client.neighbors.contains(header.hops[header.hops.len() - 2]),
    ensures
        ({
            let post = client.ack_sent(header, session_id, index);
            &&& post.outbox.len() == client.outbox.len() + 1
            &&& post.outbox.last() is Send
            &&& post.outbox.last()->packet.routing_header.hops.last() == header.source()->0
            &&& post.outbox.last()->packet.routing_header.hops.first() == header.hops.last()
            &&& post.outbox.last()->recipient == header.hops[header.hops.len() - 2]
        }),
{
}

// ---- confirmations ----

/// The client after fragments of a session were confirmed, in this order.
pub open spec fn all_acked<C: Content>(client: ClientView<C>, session_id: u64, acks: Seq<u64>) -> ClientView<C>
    decreases acks.len(),
{
    if acks.len() == 0 {
        client
    } else {
        all_acked(client, session_id, acks.drop_last()).acked(session_id, acks.last())
    }
}

/// The items of a list with one item more.
proof fn lemma_set_of_longer(acks: Seq<u64>)
    requires
        acks.len() > 0,
    ensures
        acks.to_set() == acks.drop_last().to_set().insert(acks.last()),
{
    let shorter = acks.drop_last();
    assert forall|x: u64| #[trigger] acks.to_set().contains(x) <==> shorter.to_set().insert(acks.last()).contains(x) by {
        if shorter.to_set().contains(x) {
            let i = choose|i: int| 0 <= i < shorter.len() && shorter[i] == x;
            assert(acks[i] == x);
        }
        if x == acks.last() {
            assert(acks[acks.len() - 1] == x);
        }
        if acks.to_set().contains(x) && x != acks.last() {
            let i = choose|i: int| 0 <= i < acks.len() && acks[i] == x;
            assert(shorter[i] == x);
        }
    }
    assert(acks.to_set() =~= shorter.to_set().insert(acks.last()));
}

/// As long as a fragment of a session is not confirmed, the session stays pending, and the
/// client knows which are confirmed, whatever the order and however often.
pub proof fn law_unconfirmed_session_is_pending<C: Content>(
    client: ClientView<C>,
    session_id: u64,
    acks: Seq<u64>,
    missing: u64,
)
    requires
        client.pending_messages.contains_key(session_id),
        missing < client.pending_messages[session_id].len(),
        !client.confirmed(session_id).contains(missing),
        !acks.contains(missing),
    ensures
        all_acked(client, session_id, acks).pending_messages == client.pending_messages,
        all_acked(client, session_id, acks).confirmed(session_id) == client.confirmed(session_id).union(acks.to_set()),
    decreases acks.len(),
{
    if acks.len() == 0 {
        assert(client.confirmed(session_id).union(acks.to_set()) =~= client.confirmed(session_id));
    } else {
        let earlier = acks.drop_last();
        lemma_set_of_longer(acks);
        assert(acks[acks.len() - 1] == acks.last());
        if earlier.contains(missing) {
            let i = choose|i: int| 0 <= i < earlier.len() && earlier[i] == missing;
            assert(acks[i] == missing);
        }
        law_unconfirmed_session_is_pending(client, session_id, earlier, missing);
        let pre = all_acked(client, session_id, earlier);
        let confirmed = pre.confirmed(session_id).insert(acks.last());
        assert(!confirmed.contains(missing));
        assert(confirmed =~= client.confirmed(session_id).union(acks.to_set()));
    }
}

/// The confirmation of the last fragment of a session that was not confirmed ends the
/// session, and nothing is kept of it. Other sessions stay pending.
pub proof fn law_confirmed_session_is_forgotten<C: Content>(
    client: ClientView<C>,
    session_id: u64,
    acks: Seq<u64>,
    missing: u64,
)
    requires
        client.pending_messages.contains_key(session_id),
        missing < client.pending_messages[session_id].len(),
        !client.confirmed(session_id).contains(missing),
        acks.len() > 0,
        !acks.drop_last().contains(missing),
        all_confirmed(
            client.confirmed(session_id).union(acks.to_set()),
            client.pending_messages[session_id].len(),
        ),
    ensures
        all_acked(client, session_id, acks).pending_messages == client.pending_messages.remove(session_id),
        !all_acked(client, session_id, acks).acked_fragments.contains_key(session_id),
{
    lemma_set_of_longer(acks);
    law_unconfirmed_session_is_pending(client, session_id, acks.drop_last(), missing);
    let pre = all_acked(client, session_id, acks.drop_last());
    assert(pre.confirmed(session_id).insert(acks.last()) =~= client.confirmed(session_id).union(acks.to_set()));
}

/// Once a fragment is confirmed, its drops are counted from the beginning.
pub proof fn law_ack_resets_drops<C: Content>(client: ClientView<C>, session_id: u64, index: u64, drone: NodeId)
    ensures
        client.acked(session_id, index).drops((index, session_id, drone)) == 1,
{
}

// ---- fragments that do not arrive ----

/// A fragment that the same drone drops again and again is sent again by the same route
/// up to the retry limit. The drop after that excludes the drone from new routes, and is
/// counted no longer.
pub proof fn law_dropper_is_excluded<C: Content>(
    c0: ClientView<C>,
    c1: ClientView<C>,
    c2: ClientView<C>,
    c3: ClientView<C>,
    c4: ClientView<C>,
    nack: Nack,
    session_id: u64,
    drone: NodeId,
    fresh_id: u64,
)
    requires
        nack.nack_type == NackType::Dropped,
        !c0.nack_counter.contains_key((nack.fragment_index, session_id, drone)),
        c0.nacked(c1, nack, session_id, drone, fresh_id),
        c1.nacked(c2, nack, session_id, drone, fresh_id),
        c2.nacked(c3, nack, session_id, drone, fresh_id),
        c3.nacked(c4, nack, session_id, drone, fresh_id),
    ensures
        c3.excluded_nodes == c0.excluded_nodes,
        c3.pending_messages == c0.pending_messages,
        c3.outbox == c0.fragment_resent(session_id, nack.fragment_index).fragment_resent(
            session_id,
            nack.fragment_index,
        ).fragment_resent(session_id, nack.fragment_index).outbox,
        c4.excluded_nodes == c0.excluded_nodes.insert(drone),
        !c4.nack_counter.contains_key((nack.fragment_index, session_id, drone)),
{
    let key = (nack.fragment_index, session_id, drone);
    assert(c1.drops(key) == 2);
    assert(c2.drops(key) == 3);
    assert(c3.drops(key) == 4);
}

/// Only the drops of one fragment of one session by one drone are counted when a negative
/// confirmation comes. All the other counts stay as they are, and none passes the retry
/// limit.
pub proof fn law_other_drops_stay_counted<C: Content>(
    pre: ClientView<C>,
    post: ClientView<C>,
    nack: Nack,
    session_id: u64,
    drone: NodeId,
    fresh_id: u64,
    key: (u64, u64, NodeId),
)
    requires
        pre.nacked(post, nack, session_id, drone, fresh_id),
    ensures
        key != (nack.fragment_index, session_id, drone) ==> {
            &&& post.nack_counter.contains_key(key) <==> pre.nack_counter.contains_key(key)
            &&& pre.nack_counter.contains_key(key) ==> post.nack_counter[key] == pre.nack_counter[key]
        },
        pre.wf() ==> post.wf(),
{
}

/// When a fragment is sent by a new route, every fragment of its session has that route,
/// which ends where the fragment was bound for and keeps clear of the excluded nodes.
pub proof fn law_new_path_avoids_excluded<C: Content>(
    pre: ClientView<C>,
    post: ClientView<C>,
    session_id: u64,
    fragment_index: u64,
    target: NodeId,
    i: int,
)
    requires
        pre.resent_by_new_path(post, session_id, fragment_index),
        pre.pending_target(session_id, fragment_index) == Some(target),
        pre.route_query(target, pre.excluded_nodes).has_route(),
        0 <= i < pre.pending_messages[session_id].len(),
    ensures
        ({
            let header = post.pending_messages[session_id][i].routing_header;
            &&& post.pending_messages[session_id].len() == pre.pending_messages[session_id].len()
            &&& header.hop_index == 1
            &&& header.hops == post.pending_messages[session_id][0].routing_header.hops
            &&& header.hops.first() == pre.id
            &&& header.hops.last() == target
            &&& forall|k: int| 0 < k < header.hops.len() ==> !pre.excluded_nodes.contains(#[trigger] header.hops[k])
            &&& post.pending_messages[session_id][i].pack_type == pre.pending_messages[session_id][i].pack_type
        }),
{
    let query = pre.route_query(target, pre.excluded_nodes);
    let path = choose|path: Seq<NodeId>| {
        &&& #[trigger] query.is_shortest_route(path)
        &&& post == pre.rerouted(session_id, path).fragment_resent(session_id, fragment_index)
    };
    assert forall|k: int| 0 < k < path.len() implies !pre.excluded_nodes.contains(#[trigger] path[k]) by {
        law_route_passes_permitted_nodes(query, path, k);
    }
    assert(post.pending_messages == pre.rerouted(session_id, path).pending_messages);
}

/// What a client does about a fragment leaves the fragments of other sessions alone.
pub proof fn law_sessions_are_independent<C: Content>(
    pre: ClientView<C>,
    post: ClientView<C>,
    packet: PacketView,
    fresh_id: u64,
    other: u64,
)
    requires
        pre.packet_handled(post, packet, fresh_id),
        other != packet.session_id,
    ensures
        post.pending_messages.contains_key(other) <==> pre.pending_messages.contains_key(other),
        pre.pending_messages.contains_key(other) ==> post.pending_messages[other] == pre.pending_messages[other],
        post.confirmed(other) == pre.confirmed(other),
{
}

// ---- routes ----

/// A route keeps clear of the excluded nodes, and passes through drones only.
pub proof fn law_route_passes_permitted_nodes(query: RouteQuery, p: Seq<NodeId>, i: int)
    requires
        query.is_route(p),
        0 < i < p.len(),
    ensures
        !query.excluded.contains(p[i]),
        p[i] != query.target ==> query.node_types.contains_key(p[i]) && query.node_types[p[i]] == NodeType::Drone,
{
    assert(query.may_step(p[i - 1], p[i - 1 + 1]));
}

/// A shortest route passes no node twice.
pub proof fn law_shortest_route_has_no_cycle(query: RouteQuery, p: Seq<NodeId>)
    requires
        query.is_shortest_route(p),
    ensures
        p.no_duplicates(),
{
    assert forall|i: int, j: int| 0 <= i < j < p.len() implies p[i] != p[j] by {
        if p[i] == p[j] {
            let cut = p.take(i) + p.skip(j);
            assert forall|k: int| 0 <= k < cut.len() - 1 implies query.may_step(#[trigger] cut[k], cut[k + 1]) by {
                if k < i {
                    assert(cut[k] == p[k] && cut[k + 1] == p[k + 1]);
                } else {
                    assert(cut[k] == p[k + (j - i)] && cut[k + 1] == p[k + (j - i) + 1]);
                }
            }
            assert(cut.last() == p.last());
            assert(cut[0] == p[0]);
            assert(query.is_route(cut));
        }
    }
}

/// The shortest route that a message takes is one of the trails that are reported.
pub proof fn law_route_is_a_trail<C: Content>(client: ClientView<C>, target: NodeId, p: Seq<NodeId>)
    requires
        client.route_query(target, Set::empty()).is_shortest_route(p),
    ensures
        client.trail_query(target).is_full_trail(p),
{
    let query = client.route_query(target, Set::empty());
    law_shortest_route_has_no_cycle(query, p);
    assert forall|i: int| 0 <= i < p.len() - 1 implies client.trail_query(target).may_step(#[trigger] p[i], p[i + 1]) by {
        assert(query.may_step(p[i], p[i + 1]));
    }
}

// ---- what is known of the network ----

/// Whether every known link is known in both directions, between nodes of known type.
pub open spec fn consistent<C: Content>(client: ClientView<C>) -> bool {
    forall|a: NodeId, b: NodeId| #[trigger]
        client.topology.contains((a, b)) ==> {
            &&& client.topology.contains((b, a))
            &&& client.node_types.contains_key(a)
            &&& client.node_types.contains_key(b)
        }
}

/// A trace makes known the types of the nodes it passes, and no type is forgotten.
proof fn lemma_types_learned(node_types: Map<NodeId, NodeType>, trace: Seq<(NodeId, NodeType)>)
    ensures
        forall|n: NodeId| #[trigger]
            learn_types(node_types, trace).contains_key(n) <==> node_types.contains_key(n) || exists|i: int|
                0 <= i < trace.len() && (#[trigger] trace[i]).0 == n,
    decreases trace.len(),
{
    if trace.len() > 0 {
        let shorter = trace.drop_last();
        lemma_types_learned(node_types, shorter);
        assert forall|n: NodeId| #[trigger]
            learn_types(node_types, trace).contains_key(n) <==> node_types.contains_key(n) || exists|i: int|
                0 <= i < trace.len() && (#[trigger] trace[i]).0 == n by {
            if exists|i: int| 0 <= i < shorter.len() && (#[trigger] shorter[i]).0 == n {
                let i = choose|i: int| 0 <= i < shorter.len() && (#[trigger] shorter[i]).0 == n;
                assert(trace[i].0 == n);
            }
            if trace.last().0 == n {
                assert(trace[trace.len() - 1].0 == n);
            }
            if exists|i: int| 0 <= i < trace.len() && (#[trigger] trace[i]).0 == n {
                let i = choose|i: int| 0 <= i < trace.len() && (#[trigger] trace[i]).0 == n;
                if i < shorter.len() {
                    assert(shorter[i].0 == n);
                }
            }
            assert(learn_types(node_types, shorter).contains_key(n) <==> node_types.contains_key(n) || exists|i: int|
                0 <= i < shorter.len() && (#[trigger] shorter[i]).0 == n);
        }
    }
}

/// Reading a trace keeps what is known of the network consistent.
proof fn lemma_trace_keeps_consistent<C: Content>(client: ClientView<C>, trace: Seq<(NodeId, NodeType)>)
    requires
        consistent(client),
    ensures
        consistent(client.with_trace(trace)),
{
    let post = client.with_trace(trace);
    lemma_types_learned(client.node_types, trace);
    assert forall|a: NodeId, b: NodeId| #[trigger] post.topology.contains((a, b)) implies {
        &&& post.topology.contains((b, a))
        &&& post.node_types.contains_key(a)
        &&& post.node_types.contains_key(b)
    } by {
        if client.topology.contains((a, b)) {
            assert(client.topology.contains((b, a)));
        } else {
            let i = choose|i: int| 0 <= i < trace.len() - 1 && #[trigger] joins(trace, i, (a, b));
            assert(joins(trace, i, (b, a)));
            assert(trace_links(trace, (b, a)));
            assert(trace[i].0 == a || trace[i].0 == b);
            assert(trace[i + 1].0 == a || trace[i + 1].0 == b);
        }
    }
}

/// What a client knows when it starts to explore the network is consistent.
pub proof fn law_discovery_is_consistent<C: Content>(client: ClientView<C>, fresh_id: u64)
    ensures
        consistent(client.discovering(fresh_id)),
{
}

/// No packet makes what is known of the network inconsistent.
pub proof fn law_packets_keep_network_consistent<C: Content>(
    pre: ClientView<C>,
    post: ClientView<C>,
    packet: PacketView,
    fresh_id: u64,
)
    requires
        consistent(pre),
        pre.packet_handled(post, packet, fresh_id),
    ensures
        consistent(post),
{
    match packet.pack_type {
        BodyView::FloodResponse { flood_id, path_trace } => {
            lemma_trace_keeps_consistent(pre, path_trace);
            assert(post.topology == pre.with_trace(path_trace).topology);
            assert(post.node_types == pre.with_trace(path_trace).node_types);
        },
        _ => {},
    }
}

/// No command makes what is known of the network inconsistent.
pub proof fn law_commands_keep_network_consistent<C: Content>(
    pre: ClientView<C>,
    post: ClientView<C>,
    command: ClientCommand,
    fresh_id: u64,
)
    requires
        consistent(pre),
        pre.command_handled(post, command, fresh_id),
    ensures
        consistent(post),
{
    match command {
        ClientCommand::ControllerShortcut(packet) => {
            law_packets_keep_network_consistent(pre, post, packet@, fresh_id);
        },
        _ => {},
    }
}

/// What a trace of distinct nodes says of each is what is known of it afterwards.
proof fn lemma_type_learned(node_types: Map<NodeId, NodeType>, trace: Seq<(NodeId, NodeType)>, i: int)
    requires
        trace_ids(trace).no_duplicates(),
        0 <= i < trace.len(),
    ensures
        learn_types(node_types, trace).contains_key(trace[i].0),
        learn_types(node_types, trace)[trace[i].0] == trace[i].1,
    decreases trace.len(),
{
    if i < trace.len() - 1 {
        let shorter = trace.drop_last();
        assert(trace_ids(shorter) =~= trace_ids(trace).drop_last());
        lemma_type_learned(node_types, shorter, i);
        assert(trace_ids(trace)[i] != trace_ids(trace)[trace.len() - 1]);
    }
}

/// A server that a flood has reached can be sent messages: once the answer is read,
/// there is a route to the node at the end of its trace, if the trace starts at the client
/// and passes through drones.
pub proof fn law_discovered_node_is_reachable<C: Content>(client: ClientView<C>, trace: Seq<(NodeId, NodeType)>)
    requires
        trace.len() > 0,
        trace[0].0 == client.id,
        trace_ids(trace).no_duplicates(),
        forall|i: int| 0 < i < trace.len() - 1 ==> (#[trigger] trace[i]).1 == NodeType::Drone,
    ensures
        client.with_trace(trace).route_query(trace.last().0, Set::empty()).has_route(),
{
    let post = client.with_trace(trace);
    let query = post.route_query(trace.last().0, Set::empty());
    let path = trace_ids(trace);
    assert forall|i: int| 0 <= i < path.len() - 1 implies query.may_step(#[trigger] path[i], path[i + 1]) by {
        assert(joins(trace, i, (path[i], path[i + 1])));
        assert(trace_links(trace, (path[i], path[i + 1])));
        assert(post.topology.contains((path[i], path[i + 1])));
        lemma_type_learned(client.node_types, trace, i + 1);
        assert(trace[i + 1].0 == path[i + 1]);
    }
    assert(query.is_route(path));
}

/// The answer to a flood request goes back the way the request came, from the client to
/// the node that started the flood.
pub proof fn law_flood_answer_goes_back<C: Content>(
    client: ClientView<C>,
    flood_id: u64,
    trace: Seq<(NodeId, NodeType)>,
    session_id: u64,
)
    requires
        trace.len() > 0,
        client.neighbors.contains(trace.last().0),
    ensures
        ({
            let post = client.flood_answered(flood_id, trace, session_id);
            &&& post.outbox.len() == client.outbox.len() + 1
            &&& post.outbox.last() is Send
            &&& post.outbox.last()->recipient == trace.last().0
            &&& post.outbox.last()->packet.routing_header.hops.first() == client.id
            &&& post.outbox.last()->packet.routing_header.hops.last() == trace.first().0
        }),
{
}

// ---- what is left to do ----

/// Whether `post` has all that `pre` had to do, in the same order, and what it has to
/// send beyond that goes to its neighbours.
pub open spec fn does_more<C: Content>(pre: ClientView<C>, post: ClientView<C>) -> bool {
    &&& pre.outbox.is_prefix_of(post.outbox)
    &&& forall|i: int|
        pre.outbox.len() <= i < post.outbox.len() && (#[trigger] post.outbox[i] is Send)
            ==> post.neighbors.contains(post.outbox[i]->recipient)
}

/// Each member in order is one.
proof fn lemma_ascending_is_member(s: Set<NodeId>, i: int)
    requires
        0 <= i < ascending(s).len(),
    ensures
        s.contains(ascending(s)[i]),
{
    lemma_ascending_members(s, 256);
    assert(ascending(s).contains(ascending(s)[i]));
}

/// Exploring the network sends to neighbours only.
proof fn lemma_discovering_does_more<C: Content>(client: ClientView<C>, fresh_id: u64)
    ensures
        does_more(client, client.discovering(fresh_id)),
{
    let post = client.discovering(fresh_id);
    assert(client.outbox =~= post.outbox.take(client.outbox.len() as int));
    assert forall|i: int|
        client.outbox.len() <= i < post.outbox.len() && (#[trigger] post.outbox[i] is Send) implies
        post.neighbors.contains(post.outbox[i]->recipient) by {
        lemma_ascending_is_member(client.neighbors, i - client.outbox.len());
    }
}

/// Whether `post` has nothing to do beyond what `pre` had but to send a flood request to
/// every neighbour, to each once.
pub open spec fn floods_each_neighbor<C: Content>(pre: ClientView<C>, post: ClientView<C>, fresh_id: u64) -> bool {
    let n = pre.outbox.len() as int;
    &&& pre.outbox.is_prefix_of(post.outbox)
    &&& forall|i: int|
        n <= i < post.outbox.len() ==> {
            &&& #[trigger] post.outbox[i] is Send
            &&& post.neighbors.contains(post.outbox[i]->recipient)
            &&& post.outbox[i]->packet == post.flood_packet(fresh_id, post.outbox[i]->recipient)
        }
    &&& forall|i: int, j: int|
        n <= i < j < post.outbox.len() ==> (#[trigger] post.outbox[i])->recipient != (
        #[trigger] post.outbox[j])->recipient
    &&& forall|id: NodeId| #[trigger]
        post.neighbors.contains(id) ==> exists|i: int|
            n <= i < post.outbox.len() && (#[trigger] post.outbox[i])->recipient == id
}

/// When the client explores the network, it has forgotten what it knew of it, and every
/// neighbour gets one flood request.
pub proof fn law_every_neighbor_is_flooded_once<C: Content>(client: ClientView<C>, fresh_id: u64)
    ensures
        ({
            let post = client.discovering(fresh_id);
            &&& post.topology == Set::<(NodeId, NodeId)>::empty()
            &&& post.node_types == Map::<NodeId, NodeType>::empty()
            &&& post.neighbors == client.neighbors
            &&& floods_each_neighbor(client, post, fresh_id)
        }),
{
    let post = client.discovering(fresh_id);
    let n = client.outbox.len() as int;
    let ids = ascending(client.neighbors);
    lemma_ascending_members(client.neighbors, 256);
    assert(client.outbox =~= post.outbox.take(n));
    assert forall|i: int| n <= i < post.outbox.len() implies {
        &&& #[trigger] post.outbox[i] is Send
        &&& post.neighbors.contains(post.outbox[i]->recipient)
        &&& post.outbox[i]->packet == post.flood_packet(fresh_id, post.outbox[i]->recipient)
    } by {
        assert(ids.contains(ids[i - n]));
    }
    assert forall|i: int, j: int| n <= i < j < post.outbox.len() implies (#[trigger] post.outbox[i])->recipient != (
    #[trigger] post.outbox[j])->recipient by {
        assert(ids[i - n] != ids[j - n]);
    }
    assert forall|id: NodeId| #[trigger] post.neighbors.contains(id) implies exists|i: int|
        n <= i < post.outbox.len() && (#[trigger] post.outbox[i])->recipient == id by {
        assert(ids.contains(id));
        let k = choose|k: int| 0 <= k < ids.len() && ids[k] == id;
        assert(post.outbox[n + k]->recipient == id);
    }
}

/// A neighbour that is added and removed again leaves the neighbours as they were. Each
/// time the network is explored anew: what was known of it is forgotten, and every
/// neighbour of that time gets one flood request, the new one among them only while it is
/// one.
pub proof fn law_neighbor_comes_and_goes<C: Content>(client: ClientView<C>, n: NodeId, first_id: u64, second_id: u64)
    requires
        !client.neighbors.contains(n),
    ensures
        ({
            let with = client.with_neighbor(n).discovering(first_id);
            let without = with.without_neighbor(n).discovering(second_id);
            &&& with.neighbors == client.neighbors.insert(n)
            &&& with.topology == Set::<(NodeId, NodeId)>::empty()
            &&& with.node_types == Map::<NodeId, NodeType>::empty()
            &&& floods_each_neighbor(client, with, first_id)
            &&& without.neighbors == client.neighbors
            &&& without.topology == Set::<(NodeId, NodeId)>::empty()
            &&& without.node_types == Map::<NodeId, NodeType>::empty()
            &&& floods_each_neighbor(with, without, second_id)
        }),
{
    let with = client.with_neighbor(n).discovering(first_id);
    law_every_neighbor_is_flooded_once(client.with_neighbor(n), first_id);
    law_every_neighbor_is_flooded_once(with.without_neighbor(n), second_id);
    assert(with.without_neighbor(n).neighbors =~= client.neighbors);
}

/// To remove a node that is no neighbour leaves the neighbours as they are, and explores
/// the network anew all the same.
pub proof fn law_stranger_is_removed<C: Content>(client: ClientView<C>, n: NodeId, fresh_id: u64)
    requires
        !client.neighbors.contains(n),
    ensures
        ({
            let post = client.without_neighbor(n).discovering(fresh_id);
            &&& post.neighbors == client.neighbors
            &&& post.topology == Set::<(NodeId, NodeId)>::empty()
            &&& post.node_types == Map::<NodeId, NodeType>::empty()
            &&& floods_each_neighbor(client, post, fresh_id)
        }),
{
    law_every_neighbor_is_flooded_once(client.without_neighbor(n), fresh_id);
    assert(client.without_neighbor(n).neighbors =~= client.neighbors);
}

/// Nothing that is left to do is lost or put off when a packet comes, and packets go to
/// neighbours only.
pub proof fn law_packets_add_to_outbox<C: Content>(
    pre: ClientView<C>,
    post: ClientView<C>,
    packet: PacketView,
    fresh_id: u64,
)
    requires
        pre.packet_handled(post, packet, fresh_id),
    ensures
        does_more(pre, post),
{
    lemma_discovering_does_more(pre, fresh_id);
    match packet.pack_type {
        BodyView::Nack(nack) => {
            let drone = packet.routing_header.hops[0];
            let key = (nack.fragment_index, packet.session_id, drone);
            if nack.nack_type == NackType::Dropped && pre.drops(key) > RETRY_LIMIT {
                let told = pre.dropper_excluded(packet.session_id, nack.fragment_index, drone);
                assert(pre.outbox =~= told.outbox.take(pre.outbox.len() as int));
            }
            assert(pre.outbox =~= post.outbox.take(pre.outbox.len() as int));
        },
        _ => {
            assert(pre.outbox =~= post.outbox.take(pre.outbox.len() as int));
        },
    }
}

/// Nothing that is left to do is lost or put off when a command comes, and packets go to
/// neighbours only.
pub proof fn law_commands_add_to_outbox<C: Content>(
    pre: ClientView<C>,
    post: ClientView<C>,
    command: ClientCommand,
    fresh_id: u64,
)
    requires
        pre.command_handled(post, command, fresh_id),
    ensures
        does_more(pre, post),
{
    match command {
        ClientCommand::ControllerShortcut(packet) => {
            law_packets_add_to_outbox(pre, post, packet@, fresh_id);
        },
        ClientCommand::RemoveSender(n) => {
            lemma_discovering_does_more(pre.without_neighbor(n), fresh_id);
        },
        ClientCommand::AddSender(n) => {
            lemma_discovering_does_more(pre.with_neighbor(n), fresh_id);
        },
        ClientCommand::RequestNetworkDiscovery => {
            lemma_discovering_does_more(pre, fresh_id);
        },
        _ => {
            assert(pre.outbox =~= post.outbox.take(pre.outbox.len() as int));
        },
    }
}

/// Nothing that is left to do is lost or put off when the fragments of a message are
/// sent, and they go to a neighbour only.
pub proof fn law_fragments_add_to_outbox<C: Content>(
    client: ClientView<C>,
    path: Seq<NodeId>,
    session_id: u64,
    fragments: Seq<PacketView>,
)
    ensures
        does_more(client, client.fragments_sent(path, session_id, fragments)),
{
    let post = client.fragments_sent(path, session_id, fragments);
    assert(client.outbox =~= post.outbox.take(client.outbox.len() as int));
}

/// Switching the use of the client twice changes nothing.
pub proof fn law_switching_twice(client_type: ClientType)
    ensures
        client_type.switched().switched() == client_type,
        client_type.switched() != client_type,
{
}

} // verus!
