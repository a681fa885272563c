//! Laws of the transactions that a benchmark client sends.

use vstd::prelude::*;

use crate::client::{
    big_endian, burst_at, holds_number, overruns, transaction, ClientError, SourceModel,
    TransactionModel, TransactionSource, BURST_DURATION, PRECISION, SMALLEST_TRANSACTION,
};
use crate::counting::count_where;
use crate::session::{can_come, ClientEvent, ClientStage};
use crate::workload::Workload;

verus! {

proof fn lemma_big_endian_length(value: int, count: nat)
    ensures
        big_endian(value, count).len() == count,
    decreases count,
{
    if count > 0 {
        lemma_big_endian_length(value / 256, (count - 1) as nat);
    }
}

/// The number that bytes spell, most significant byte first.
pub open spec fn spelled(bytes: Seq<u8>) -> int
    decreases bytes.len(),
{
    if bytes.len() == 0 {
        0
    } else {
        spelled(bytes.drop_last()) * 256 + bytes.last()
    }
}

/// The largest number of so many bytes, plus one.
pub open spec fn byte_power(count: nat) -> int
    decreases count,
{
    if count == 0 {
        1
    } else {
        256 * byte_power((count - 1) as nat)
    }
}

proof fn lemma_spelled(value: int, count: nat)
    requires
        0 <= value < byte_power(count),
    ensures
        spelled(big_endian(value, count)) == value,
    decreases count,
{
    if count > 0 {
        let rest = big_endian(value / 256, (count - 1) as nat);
        assert(0 <= value / 256 < byte_power((count - 1) as nat));
        lemma_spelled(value / 256, (count - 1) as nat);
        assert(big_endian(value, count).drop_last() =~= rest);
        assert(big_endian(value, count).last() == (value % 256) as u8);
    }
}

/// A transaction shows its tag and its number: transactions of one size are the same just if both
/// agree. A sample is never the same as a transaction that is none.
pub proof fn law_transactions_differ(
    one_tag: u8,
    one: u64,
    other_tag: u8,
    other: u64,
    size: int,
)
    requires
        size >= SMALLEST_TRANSACTION,
    ensures
        transaction(one_tag, one, size).len() == size,
        transaction(one_tag, one, size) == transaction(other_tag, other, size) <==> one_tag
            == other_tag && one == other,
{
    let a = transaction(one_tag, one, size);
    let b = transaction(other_tag, other, size);
    lemma_big_endian_length(one as int, 8);
    lemma_big_endian_length(other as int, 8);
    if a == b {
        assert(a[0] == one_tag && b[0] == other_tag);
        assert(a.subrange(1, 9) =~= big_endian(one as int, 8));
        assert(b.subrange(1, 9) =~= big_endian(other as int, 8));
        assert(byte_power(8) == 0x1_0000_0000_0000_0000) by {
            reveal_with_fuel(byte_power, 9);
        }
        lemma_spelled(one as int, 8);
        lemma_spelled(other as int, 8);
    }
}

/// Two samples have the same number just if the waves agree in their last 16 bits and the counters
/// in their last 48.
pub proof fn law_sample_numbers(
    one: Workload,
    other: Workload,
    one_ms: u128,
    other_ms: u128,
    one_counter: u64,
    other_counter: u64,
)
    ensures
        one.sample_id(one_ms, one_counter) == other.sample_id(other_ms, other_counter) <==> one.wave_at(
            one_ms,
        ) % 0x1_0000 == other.wave_at(other_ms) % 0x1_0000 && one_counter % 0x1_0000_0000_0000
            == other_counter % 0x1_0000_0000_0000,
        one.runs() ==> 0 <= one.sample_id(one_ms, one_counter) <= u64::MAX,
{
}

/// Where a client stands after so many steps.
pub open spec fn after_steps(source: SourceModel, count: nat) -> SourceModel
    decreases count,
{
    if count == 0 {
        source
    } else {
        after_steps(source, (count - 1) as nat).after_step()
    }
}

/// The transactions that the steps at the times send.
pub open spec fn sent_at(source: SourceModel, workload: Workload, times: Seq<u128>) -> Seq<
    TransactionModel,
> {
    Seq::new(times.len(), |i: int| after_steps(source, i as nat).sent(workload, times[i]))
}

/// Whether a transaction is a sample.
pub open spec fn is_sample(sent: TransactionModel) -> bool {
    sent.sample_id is Some
}

/// Where a client stands in a burst, and what it sends there.
proof fn lemma_in_burst(source: SourceModel, count: nat)
    requires
        source.valid(),
        source.place == Some(0int),
        count <= source.burst,
    ensures
        after_steps(source, count) == (SourceModel {
            place: Some(count as int),
            last_number: source.last_number + count - if source.sample_counter % source.burst
                < count {
                1int
            } else {
                0int
            },
            ..source
        }),
    decreases count,
{
    assert(0 <= source.sample_counter % source.burst < source.burst) by (nonlinear_arith)
        requires
            source.burst > 0,
    ;
    if count > 0 {
        lemma_in_burst(source, (count - 1) as nat);
    }
}

proof fn lemma_count_one<A>(items: Seq<A>, keep: spec_fn(A) -> bool, k: int)
    requires
        forall|i: int| 0 <= i < items.len() ==> (keep(#[trigger] items[i]) <==> i == k),
    ensures
        count_where(items, keep) == if 0 <= k < items.len() {
            1nat
        } else {
            0nat
        },
    decreases items.len(),
{
    if items.len() > 0 {
        let init = items.drop_last();
        assert forall|i: int| 0 <= i < init.len() implies (keep(#[trigger] init[i]) <==> i == k) by {
            assert(init[i] == items[i]);
        }
        lemma_count_one(init, keep, k);
    }
}

/// A tick outside the gaps starts a burst of exactly `burst` transactions, and the step after them
/// ends it. Exactly one is a sample: at a place that moves on by one from burst to burst, with the
/// number of the burst. The others count on from the last number.
pub proof fn law_burst(source: SourceModel, workload: Workload, times: Seq<u128>)
    requires
        source.valid(),
        source.place is None,
        times.len() == source.burst,
    ensures
        ({
            let start = source.after_tick(true);
            let sample = source.sample_counter % source.burst;
            let sent = sent_at(start, workload, times);
            &&& forall|i: int|
                0 <= i < source.burst ==> (#[trigger] after_steps(start, i as nat)).sends()
            &&& !after_steps(start, source.burst as nat).sends()
            &&& after_steps(start, (source.burst + 1) as nat) == (SourceModel {
                sample_counter: source.sample_counter + 1,
                last_number: source.last_number + source.burst - 1,
                ..source
            })
            &&& count_where(sent, |sent: TransactionModel| is_sample(sent)) == 1
            &&& 0 <= sample < source.burst
            &&& sent[sample] == (TransactionModel {
                sample_id: Some(
                    workload.sample_id(times[sample], source.sample_counter as u64) as u64,
                ),
                bytes: transaction(
                    0,
                    workload.sample_id(times[sample], source.sample_counter as u64) as u64,
                    source.size,
                ),
            })
            &&& forall|i: int|
                0 <= i < source.burst && i != sample ==> #[trigger] sent[i] == (TransactionModel {
                    sample_id: None,
                    bytes: transaction(
                        1,
                        (source.last_number + i + if sample < i {
                            0int
                        } else {
                            1int
                        }) as u64,
                        source.size,
                    ),
                })
        }),
{
    let start = source.after_tick(true);
    let sample = source.sample_counter % source.burst;
    let sent = sent_at(start, workload, times);
    assert(0 <= sample < source.burst) by (nonlinear_arith)
        requires
            sample == source.sample_counter % source.burst,
            source.burst > 0,
    ;
    assert forall|i: int| 0 <= i < source.burst implies (#[trigger] after_steps(
        start,
        i as nat,
    )).sends() by {
        lemma_in_burst(start, i as nat);
    }
    lemma_in_burst(start, source.burst as nat);
    lemma_in_burst(start, sample as nat);
    assert forall|i: int| 0 <= i < source.burst && i != sample implies #[trigger] sent[i] == (
    TransactionModel {
        sample_id: None,
        bytes: transaction(
            1,
            (source.last_number + i + if sample < i {
                0int
            } else {
                1int
            }) as u64,
            source.size,
        ),
    }) by {
        lemma_in_burst(start, i as nat);
    }
    lemma_count_one(sent, |sent: TransactionModel| is_sample(sent), sample);
}

/// In each cycle of waves, transactions are sent in the first part, and in the gap they are not.
pub proof fn law_waves(burst_ms: u64, gap_ms: u64, cycle: int, offset: int)
    requires
        burst_ms > 0,
        gap_ms > 0,
        burst_ms + gap_ms <= u64::MAX,
        0 <= cycle,
        0 <= offset < burst_ms + gap_ms,
        cycle * (burst_ms + gap_ms) + offset <= u64::MAX,
    ensures
        ({
            let workload = Workload::Waves { burst_ms, gap_ms };
            let elapsed = (cycle * (burst_ms + gap_ms) + offset) as u128;
            &&& workload.active_at(elapsed) <==> offset < burst_ms
            &&& workload.wave_at(elapsed) == cycle
        }),
{
    let length = burst_ms + gap_ms;
    let elapsed = cycle * length + offset;
    assert(0 <= cycle * length) by (nonlinear_arith)
        requires
            0 <= cycle,
            0 < length,
    ;
    vstd::arithmetic::div_mod::lemma_fundamental_div_mod_converse(elapsed, length, cycle, offset);
}

/// A second holds twenty bursts, fifty milliseconds apart. A transaction needs a byte for its tag
/// and eight for its number. A burst holds the twentieth part of the rate, rounded down, and there
/// is none below twenty transactions a second.
pub proof fn law_rate_and_size(rate: u64, size: int, elapsed_ms: u128)
    ensures
        20 * burst_at(rate) <= rate < 20 * burst_at(rate) + 20,
        burst_at(rate) > 0 <==> rate >= 20,
        holds_number(size) <==> size >= 1 + 8,
        overruns(elapsed_ms) <==> elapsed_ms >= 51,
        PRECISION * BURST_DURATION == 1000,
        PRECISION == 20,
        SMALLEST_TRANSACTION == 9,
{
}

/// A transaction shows its tag in the first byte, its number in the next eight, most significant
/// byte first, and zeros up to its size.
pub proof fn law_transaction_layout(tag: u8, number: u64, size: int, i: int)
    requires
        size >= 9,
    ensures
        ({
            let bytes = transaction(tag, number, size);
            &&& bytes.len() == size
            &&& bytes[0] == tag
            &&& number == bytes[1] * 0x100_0000_0000_0000 + bytes[2] * 0x1_0000_0000_0000 + bytes[3]
                * 0x100_0000_0000 + bytes[4] * 0x1_0000_0000 + bytes[5] * 0x100_0000 + bytes[6]
                * 0x1_0000 + bytes[7] * 0x100 + bytes[8]
            &&& 9 <= i < size ==> bytes[i] == 0
        }),
{
    let bytes = transaction(tag, number, size);
    let v = number as int;
    reveal_with_fuel(big_endian, 9);
    lemma_big_endian_length(v, 8);
    let spelling = big_endian(v, 8);
    assert forall|k: int| 1 <= k <= 8 implies bytes[k] == spelling[k - 1] by {}
    assert(spelling[7] == (v % 256) as u8);
    assert(spelling[6] == (v / 256 % 256) as u8);
    assert(spelling[5] == (v / 256 / 256 % 256) as u8);
    assert(spelling[4] == (v / 256 / 256 / 256 % 256) as u8);
    assert(spelling[3] == (v / 256 / 256 / 256 / 256 % 256) as u8);
    assert(spelling[2] == (v / 256 / 256 / 256 / 256 / 256 % 256) as u8);
    assert(spelling[1] == (v / 256 / 256 / 256 / 256 / 256 / 256 % 256) as u8);
    assert(spelling[0] == (v / 256 / 256 / 256 / 256 / 256 / 256 / 256 % 256) as u8);
    assert(v / 256 / 256 / 256 / 256 / 256 / 256 / 256 < 256);
}

/// In the gap between waves a tick changes nothing; else it starts a burst at its first place.
pub proof fn law_tick(source: SourceModel)
    ensures
        source.after_tick(false) == source,
        source.after_tick(true).place == Some(0int),
        source.after_tick(true).size == source.size,
        source.after_tick(true).burst == source.burst,
        source.after_tick(true).sample_counter == source.sample_counter,
        source.after_tick(true).last_number == source.last_number,
{
}

/// A step can be taken just if the numbers that it leads to fit into 64 bits.
pub proof fn law_can_step(source: SourceModel)
    requires
        source.valid(),
    ensures
        source.can_step() <==> source.after_step().last_number <= u64::MAX
            && source.after_step().sample_counter <= u64::MAX,
{
}

/// Why a client cannot run is told with the least size and the least rate.
pub proof fn law_client_texts()
    ensures
        ClientError::TransactionTooSmall.words() == "Transaction size must be at least 9 bytes"@,
        ClientError::RateTooLow.words() == "Transaction rate must be at least 20 tx/s"@,
{
}

/// What stands for a source is what its fields hold.
pub proof fn law_source_contents(source: TransactionSource)
    ensures
        source@.size == source.size,
        source@.burst == source.burst,
        source@.sample_counter == source.sample_counter,
        source@.last_number == source.last_number,
        source@.place is Some <==> source.place is Some,
        source.place is Some ==> source@.place->0 == source.place->0,
{
}

/// What a step of a burst does. At the place that the number of the burst gives, a sample is sent
/// with the tag zero; at any other place, the next number with the tag one. After the last place the
/// burst is over, and the next burst has the next number.
pub proof fn law_step(source: SourceModel, workload: Workload, elapsed_ms: u128)
    requires
        source.valid(),
        source.place is Some,
    ensures
        ({
            let place = source.place->0;
            let next = source.after_step();
            let sent = source.sent(workload, elapsed_ms);
            let id = workload.sample_id(elapsed_ms, source.sample_counter as u64) as u64;
            &&& next.size == source.size && next.burst == source.burst
            &&& source.sends() <==> place < source.burst
            &&& place < source.burst ==> next.place == Some(place + 1) && next.sample_counter
                == source.sample_counter
            &&& place == source.sample_counter % source.burst ==> next.last_number
                == source.last_number && sent.sample_id == Some(id) && sent.bytes == transaction(
                0,
                id,
                source.size,
            )
            &&& place < source.burst && place != source.sample_counter % source.burst
                ==> next.last_number == source.last_number + 1 && sent.sample_id is None
                && sent.bytes == transaction(1, (source.last_number + 1) as u64, source.size)
            &&& place == source.burst ==> next.place is None && next.sample_counter
                == source.sample_counter + 1 && next.last_number == source.last_number
        }),
{
    assert(0 <= source.sample_counter % source.burst < source.burst) by {
        vstd::arithmetic::div_mod::lemma_mod_bound(source.sample_counter, source.burst);
    }
}

/// Which events can come: the start, then the outcome of connecting, then ticks, and in a burst the
/// outcome of each transaction until the burst is over or nothing can be sent.
pub proof fn law_events(event: ClientEvent)
    ensures
        can_come(ClientStage::Start, event) <==> event == ClientEvent::Begun,
        can_come(ClientStage::Connecting, event) <==> event == ClientEvent::Succeeded || event
            == ClientEvent::Failed,
        can_come(ClientStage::Waiting, event) <==> event == (ClientEvent::Ticked { active: true })
            || event == (ClientEvent::Ticked { active: false }),
        can_come(ClientStage::Sending, event) <==> event == ClientEvent::Succeeded || event
            == ClientEvent::Failed || event == ClientEvent::BurstOver,
        !can_come(ClientStage::Ended, event),
{
}

} // verus!
