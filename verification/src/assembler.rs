//! Putting the fragments of a message back together.

use crate::packet::{Fragment, FRAGMENT_SIZE};
use vstd::prelude::*;

verus! {

/// A buffer after 128 bytes were written to the slot `index` of it. The buffer
/// grows where it has to, with zeros in between.
pub open spec fn place(buffer: Seq<u8>, index: int, data: Seq<u8>) -> Seq<u8> {
    let start = index * FRAGMENT_SIZE;
    let end = start + FRAGMENT_SIZE;
    let len = if buffer.len() < end { end } else { buffer.len() as int };
    Seq::new(
        len as nat,
        |k: int|
            if start <= k < end {
                data[k - start]
            } else if k < buffer.len() {
                buffer[k]
            } else {
                0
            },
    )
}

/// Whether a vector can be long enough to hold a number of fragments.
pub open spec fn addressable(fragments: int) -> bool {
    fragments * FRAGMENT_SIZE <= isize::MAX
}

/// Whether a vector can be long enough to hold a number of fragments.
pub fn is_addressable(fragments: u64) -> (res: bool)
    ensures
        res == addressable(fragments as int),
{
    let limit: u64 = isize::MAX as u64;
    assert(limit == isize::MAX);
    fragments <= limit / 128
}

/// Writes the bytes of a fragment to their place in the message.
pub fn assembler(entry: &mut Vec<u8>, fragment: &Fragment)
    requires
        addressable(fragment.fragment_index + 1),
    ensures
        final(entry)@ == place(old(entry)@, fragment.fragment_index as int, fragment.data@),
{
    let start: usize = fragment.fragment_index as usize * FRAGMENT_SIZE;
    let end: usize = start + FRAGMENT_SIZE;
    let ghost before = entry@;
    if entry.len() < end {
        entry.resize(end, 0);
    }
    let ghost grown = entry@;
    assert(forall|k: int| 0 <= k < before.len() ==> grown[k] == before[k]) by {
        assert(grown.subrange(0, before.len() as int) == before);
        assert(forall|k: int| 0 <= k < before.len() ==> grown[k] == grown.subrange(0, before.len() as int)[k]);
    }
    let mut k: usize = 0;
    while k < FRAGMENT_SIZE
        invariant
            k <= FRAGMENT_SIZE,
            end == start + FRAGMENT_SIZE,
            end <= entry@.len(),
            entry@.len() == grown.len(),
            forall|j: int|
                0 <= j < entry@.len() ==> entry@[j] == if start <= j < start + k {
                    fragment.data@[j - start]
                } else {
                    grown[j]
                },
        decreases FRAGMENT_SIZE - k,
    {
        entry[start + k] = fragment.data[k];
        k = k + 1;
    }
    assert(entry@ =~= place(before, fragment.fragment_index as int, fragment.data@));
}

/// A message of which some fragments have arrived: the bytes so far, and for each
/// fragment whether it is there.
pub struct PartialView {
    pub data: Seq<u8>,
    pub received: Seq<bool>,
}

impl PartialView {
    /// A message of `total` fragments, none of which has arrived.
    pub open spec fn fresh(total: u64) -> PartialView {
        PartialView { data: Seq::empty(), received: Seq::new(total as nat, |i: int| false) }
    }

    /// Whether the message has a fragment of this number.
    pub open spec fn expects(self, index: u64) -> bool {
        index < self.received.len()
    }

    /// The message once another fragment has arrived. The bytes of a fragment that
    /// the message does not have are kept, without it being marked.
    pub open spec fn with(self, fragment: Fragment) -> PartialView {
        PartialView {
            data: place(self.data, fragment.fragment_index as int, fragment.data@),
            received: if self.expects(fragment.fragment_index) {
                self.received.update(fragment.fragment_index as int, true)
            } else {
                self.received
            },
        }
    }

    /// Whether every fragment has arrived.
    pub open spec fn complete(self) -> bool {
        forall|i: int| 0 <= i < self.received.len() ==> self.received[i]
    }
}

/// Whether every entry of a list of arrivals is set.
pub fn all_received(received: &Vec<bool>) -> (res: bool)
    ensures
        res == (forall|i: int| 0 <= i < received@.len() ==> received@[i]),
{
    for i in 0..received.len()
        invariant
            forall|j: int| 0 <= j < i ==> received@[j],
    {
        if !received[i] {
            return false;
        }
    }
    true
}

/// The bytes of a message, given slot by slot.
pub open spec fn concat_slots(slots: Seq<Seq<u8>>) -> Seq<u8> {
    Seq::new(
        slots.len() * FRAGMENT_SIZE as nat,
        |k: int| slots[k / FRAGMENT_SIZE as int][k % FRAGMENT_SIZE as int],
    )
}

/// Byte `k` of the slot `i` of a buffer.
pub open spec fn slot_byte(data: Seq<u8>, i: int, k: int) -> u8 {
    data[i * FRAGMENT_SIZE + k]
}

/// Whether the fragment is one of the message with these slots.
pub open spec fn belongs_to(fragment: Fragment, slots: Seq<Seq<u8>>) -> bool {
    &&& fragment.total_n_fragments == slots.len()
    &&& fragment.fragment_index < slots.len()
    &&& fragment.data@ == slots[fragment.fragment_index as int]
}

/// The message after a number of fragments have arrived, in this order.
pub open spec fn assembled(total: u64, fragments: Seq<Fragment>) -> PartialView
    decreases fragments.len(),
{
    if fragments.len() == 0 {
        PartialView::fresh(total)
    } else {
        assembled(total, fragments.drop_last()).with(fragments.last())
    }
}

/// Whether fragment `i` is among the fragments.
pub open spec fn has_arrived(fragments: Seq<Fragment>, i: int) -> bool {
    exists|j: int| 0 <= j < fragments.len() && (#[trigger] fragments[j]).fragment_index == i
}

/// Whatever the order in which fragments of a message arrive, and however often one
/// comes again: exactly those that came are marked, and their slots hold their bytes.
pub proof fn lemma_assembled(slots: Seq<Seq<u8>>, fragments: Seq<Fragment>)
    requires
        slots.len() <= u64::MAX,
        forall|j: int| 0 <= j < fragments.len() ==> belongs_to(#[trigger] fragments[j], slots),
    ensures
        ({
            let m = assembled(slots.len() as u64, fragments);
            &&& m.received.len() == slots.len()
            &&& m.data.len() <= slots.len() * FRAGMENT_SIZE
            &&& forall|i: int|
                0 <= i < slots.len() ==> (#[trigger] m.received[i] <==> has_arrived(fragments, i))
            &&& forall|i: int|
                0 <= i < slots.len() && #[trigger] m.received[i] ==> (i + 1) * FRAGMENT_SIZE <= m.data.len()
            &&& forall|i: int, k: int|
                0 <= i < slots.len() && m.received[i] && 0 <= k < FRAGMENT_SIZE ==> #[trigger] slot_byte(
                    m.data,
                    i,
                    k,
                ) == slots[i][k]
        }),
    decreases fragments.len(),
{
    let total = slots.len() as u64;
    let m = assembled(total, fragments);
    if fragments.len() > 0 {
        let earlier = fragments.drop_last();
        let f = fragments.last();
        let before = assembled(total, earlier);
        assert forall|j: int| 0 <= j < earlier.len() implies belongs_to(#[trigger] earlier[j], slots) by {
            assert(earlier[j] == fragments[j]);
        }
        lemma_assembled(slots, earlier);
        assert(belongs_to(fragments[fragments.len() - 1], slots));
        let n = f.fragment_index as int;
        assert forall|i: int| 0 <= i < slots.len() implies (#[trigger] m.received[i] <==> has_arrived(fragments, i)) by {
            if i == n {
                assert(fragments[fragments.len() - 1].fragment_index == i);
            } else {
                assert(before.received[i] <==> has_arrived(earlier, i));
                if has_arrived(earlier, i) {
                    let j = choose|j: int| 0 <= j < earlier.len() && (#[trigger] earlier[j]).fragment_index == i;
                    assert(fragments[j].fragment_index == i);
                }
                if has_arrived(fragments, i) {
                    let j = choose|j: int| 0 <= j < fragments.len() && (#[trigger] fragments[j]).fragment_index == i;
                    assert(earlier[j].fragment_index == i);
                }
            }
        }
        assert forall|i: int| 0 <= i < slots.len() && #[trigger] m.received[i] implies (i + 1) * FRAGMENT_SIZE
            <= m.data.len() by {
            if i != n {
                assert(before.received[i]);
            }
        }
        assert forall|i: int, k: int|
            0 <= i < slots.len() && m.received[i] && 0 <= k < FRAGMENT_SIZE implies #[trigger] slot_byte(m.data, i, k)
            == slots[i][k] by {
            if i != n {
                assert(before.received[i]);
                assert(slot_byte(before.data, i, k) == slots[i][k]);
            }
        }
    }
}

/// Once every fragment of a message has arrived, in whatever order, the buffer
/// holds the message.
pub proof fn law_any_order(slots: Seq<Seq<u8>>, fragments: Seq<Fragment>)
    requires
        slots.len() <= u64::MAX,
        forall|j: int| 0 <= j < fragments.len() ==> belongs_to(#[trigger] fragments[j], slots),
    ensures
        assembled(slots.len() as u64, fragments).complete() <==> forall|i: int|
            0 <= i < slots.len() ==> #[trigger] has_arrived(fragments, i),
        assembled(slots.len() as u64, fragments).complete() ==> assembled(slots.len() as u64, fragments).data
            == concat_slots(slots),
{
    let m = assembled(slots.len() as u64, fragments);
    lemma_assembled(slots, fragments);
    assert(m.complete() <==> forall|i: int| 0 <= i < slots.len() ==> #[trigger] has_arrived(fragments, i)) by {
        if m.complete() {
            assert forall|i: int| 0 <= i < slots.len() implies #[trigger] has_arrived(fragments, i) by {
                assert(m.received[i]);
            }
        } else {
            let i = choose|i: int| 0 <= i < m.received.len() && !m.received[i];
            assert(!has_arrived(fragments, i));
        }
    }
    if m.complete() {
        let whole = concat_slots(slots);
        if slots.len() > 0 {
            let last = slots.len() - 1;
            assert(m.received[last]);
            assert(slot_byte(m.data, last, FRAGMENT_SIZE - 1) == slots[last][FRAGMENT_SIZE - 1]);
        }
        assert(m.data.len() == whole.len());
        assert forall|k: int| 0 <= k < whole.len() implies m.data[k] == whole[k] by {
            let i = k / FRAGMENT_SIZE as int;
            let r = k % FRAGMENT_SIZE as int;
            assert(m.received[i]);
            assert(slot_byte(m.data, i, r) == slots[i][r]);
        }
        assert(m.data =~= whole);
    }
}

/// A message cut into slots. The last slot is filled up with zeros.
pub open spec fn slots_of(message: Seq<u8>) -> Seq<Seq<u8>> {
    Seq::new(
        ((message.len() + FRAGMENT_SIZE - 1) / FRAGMENT_SIZE as int) as nat,
        |i: int|
            Seq::new(
                FRAGMENT_SIZE as nat,
                |k: int|
                    if i * FRAGMENT_SIZE + k < message.len() {
                        message[i * FRAGMENT_SIZE + k]
                    } else {
                        0
                    },
            ),
    )
}

/// The slots that a message is cut into hold the message, with nothing but zeros behind it.
pub proof fn lemma_slots_hold_message(message: Seq<u8>)
    ensures
        ({
            let whole = concat_slots(slots_of(message));
            &&& whole.len() >= message.len()
            &&& whole.take(message.len() as int) == message
            &&& forall|k: int| message.len() <= k < whole.len() ==> whole[k] == 0
        }),
{
    let slots = slots_of(message);
    let whole = concat_slots(slots);
    assert forall|k: int| 0 <= k < whole.len() implies whole[k] == if k < message.len() {
        message[k]
    } else {
        0
    } by {
        let i = k / FRAGMENT_SIZE as int;
        let r = k % FRAGMENT_SIZE as int;
        assert(i * FRAGMENT_SIZE + r == k);
        assert(slots[i][r] == whole[k]);
    }
    assert(whole.take(message.len() as int) =~= message);
}

/// A message that was cut into fragments comes back whole once all of them have
/// arrived, in whatever order, with nothing but zeros behind it.
pub proof fn law_round_trip(message: Seq<u8>, fragments: Seq<Fragment>)
    requires
        slots_of(message).len() <= u64::MAX,
        forall|j: int| 0 <= j < fragments.len() ==> belongs_to(#[trigger] fragments[j], slots_of(message)),
        forall|i: int| 0 <= i < slots_of(message).len() ==> #[trigger] has_arrived(fragments, i),
    ensures
        ({
            let m = assembled(slots_of(message).len() as u64, fragments);
            &&& m.complete()
            &&& m.data.len() >= message.len()
            &&& m.data.take(message.len() as int) == message
            &&& forall|k: int| message.len() <= k < m.data.len() ==> m.data[k] == 0
        }),
{
    law_any_order(slots_of(message), fragments);
    lemma_slots_hold_message(message);
}

} // verus!
