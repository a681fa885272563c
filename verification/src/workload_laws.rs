//! Laws of the workloads of a benchmark client.

use vstd::prelude::*;
use vstd::string::*;

use crate::workload::{decimal_value, described, digits_of, parsed_number, Workload};

verus! {

/// A steady client sends at all times, in one wave.
pub proof fn law_steady(elapsed_ms: u128, sample_counter: u64)
    ensures
        Workload::Steady.runs(),
        Workload::Steady.active_at(elapsed_ms),
        Workload::Steady.wave_at(elapsed_ms) == 0,
        sample_counter < 0x1_0000_0000_0000 ==> Workload::Steady.sample_id(
            elapsed_ms,
            sample_counter,
        ) == sample_counter,
{
}

/// Waves can be counted just if a cycle is not empty and fits into 64 bits.
pub proof fn law_waves_run(burst_ms: u64, gap_ms: u64)
    ensures
        (Workload::Waves { burst_ms, gap_ms }).runs() <==> burst_ms + gap_ms >= 1 && burst_ms + gap_ms
            < 0x1_0000_0000_0000_0000,
{
}

/// Each cycle of waves starts with its burst and ends with its gap, and the cycles are counted from
/// zero.
pub proof fn law_wave_cycles(burst_ms: u64, gap_ms: u64, cycle: int, offset: int)
    requires
        burst_ms + gap_ms > 0,
        0 <= cycle,
        0 <= offset < burst_ms + gap_ms,
        cycle * (burst_ms + gap_ms) + offset < 0x1_0000_0000_0000_0000,
    ensures
        ({
            let workload = Workload::Waves { burst_ms, gap_ms };
            let elapsed = (cycle * (burst_ms + gap_ms) + offset) as u128;
            &&& workload.active_at(elapsed) <==> offset < burst_ms
            &&& workload.wave_at(elapsed) == cycle
        }),
{
    let length = burst_ms + gap_ms;
    let elapsed = cycle * length + offset;
    assert(0 <= cycle * length) by (nonlinear_arith)
        requires
            0 <= cycle,
            0 < length,
    ;
    vstd::arithmetic::div_mod::lemma_fundamental_div_mod_converse(elapsed, length, cycle, offset);
}

/// Time is counted in 64 bits and starts again after that.
pub proof fn law_time_wraps(workload: Workload, elapsed_ms: u128)
    requires
        elapsed_ms >= 0x1_0000_0000_0000_0000,
    ensures
        workload.active_at(elapsed_ms) == workload.active_at(
            (elapsed_ms - 0x1_0000_0000_0000_0000) as u128,
        ),
        workload.wave_at(elapsed_ms) == workload.wave_at(
            (elapsed_ms - 0x1_0000_0000_0000_0000) as u128,
        ),
{
}

/// A sample number holds the last 16 bits of the wave above the last 48 bits of the counter.
pub proof fn law_sample_number(workload: Workload, elapsed_ms: u128, sample_counter: u64)
    requires
        workload.runs(),
    ensures
        ({
            let id = workload.sample_id(elapsed_ms, sample_counter);
            &&& 0 <= id <= u64::MAX
            &&& id / 0x1_0000_0000_0000 == workload.wave_at(elapsed_ms) % 0x1_0000
            &&& id % 0x1_0000_0000_0000 == sample_counter % 0x1_0000_0000_0000
        }),
{
}

/// No text without digits is a number.
pub proof fn law_no_digits()
    ensures
        parsed_number(Seq::empty()) is None,
        parsed_number(seq![43u8]) is None,
{
    let sign = seq![43u8];
    assert(sign.skip(1) =~= Seq::<u8>::empty());
}

/// One digit is its own value, with a plus sign before it or without.
pub proof fn law_one_digit(d: u8)
    requires
        48 <= d <= 57,
    ensures
        parsed_number(seq![d]) == Some((d - 48) as u64),
        parsed_number(seq![43u8, d]) == Some((d - 48) as u64),
{
    let one = seq![d];
    assert(one.drop_last() =~= Seq::<u8>::empty());
    assert(decimal_value(one) == d - 48) by {
        reveal_with_fuel(decimal_value, 2);
    }
    assert(seq![43u8, d].skip(1) =~= one);
}

/// A further digit makes a number ten times as large and adds its value, as long as that fits into
/// 64 bits. It does not mend what is no number, except a sign alone.
pub proof fn law_further_digit(bytes: Seq<u8>, d: u8)
    requires
        bytes.len() > 0,
        bytes != seq![43u8],
        48 <= d <= 57,
    ensures
        parsed_number(bytes.push(d)) == (match parsed_number(bytes) {
            Some(n) => if 10 * n + (d - 48) <= u64::MAX {
                Some((10 * n + (d - 48)) as u64)
            } else {
                None
            },
            None => None,
        }),
{
    let longer = bytes.push(d);
    let digits = digits_of(bytes);
    if bytes.len() == 1 && bytes[0] == 43 {
        assert(bytes =~= seq![43u8]);
    }
    assert(longer[0] == bytes[0]);
    assert(digits_of(longer) =~= digits.push(d));
    let all = digits.push(d);
    assert(all.drop_last() =~= digits);
    assert(decimal_value(all) == decimal_value(digits) * 10 + (d - 48));
    if crate::workload::all_digits(digits) {
        assert forall|i: int| 0 <= i < all.len() implies 48 <= #[trigger] all[i] <= 57 by {
            if i < digits.len() {
                assert(digits[i] == all[i]);
            }
        }
        lemma_not_negative(digits);
    }
    if crate::workload::all_digits(all) {
        assert forall|i: int| 0 <= i < digits.len() implies 48 <= #[trigger] digits[i] <= 57 by {
            assert(digits[i] == all[i]);
        }
    }
}

proof fn lemma_not_negative(digits: Seq<u8>)
    requires
        forall|i: int| 0 <= i < digits.len() ==> 48 <= #[trigger] digits[i] <= 57,
    ensures
        decimal_value(digits) >= 0,
    decreases digits.len(),
{
    if digits.len() > 0 {
        assert(digits[digits.len() - 1] >= 48);
        lemma_not_negative(digits.drop_last());
    }
}

/// What ends in anything but a digit is no number.
pub proof fn law_no_other_ending(bytes: Seq<u8>, c: u8)
    requires
        c < 48 || c > 57,
    ensures
        parsed_number(bytes.push(c)) is None,
{
    let longer = bytes.push(c);
    let digits = digits_of(longer);
    if digits.len() > 0 {
        assert(digits[digits.len() - 1] == c);
    }
}

/// The workload is steady unless waves are asked for.
pub proof fn law_steady_by_default(burst: Option<&str>, gap: Option<&str>, text: &str)
    ensures
        described(None, burst, gap) == Some(Workload::Steady),
        text.spec_bytes() == "steady".spec_bytes() ==> described(Some(text), burst, gap) == Some(
            Workload::Steady,
        ),
        text.spec_bytes() != "steady".spec_bytes() && text.spec_bytes() != "waves".spec_bytes()
            ==> described(Some(text), burst, gap) is None,
{
}

/// Waves have the durations that are given, as long as both are positive numbers. Without them it
/// is as if 300 milliseconds were given for the burst and 1200 for the gap.
pub proof fn law_waves_described(text: &str, burst: &str, gap: &str, other: Option<&str>)
    requires
        text.spec_bytes() == "waves".spec_bytes(),
        text.spec_bytes() != "steady".spec_bytes(),
    ensures
        described(Some(text), Some(burst), Some(gap)) == (match (
            parsed_number(burst.spec_bytes()),
            parsed_number(gap.spec_bytes()),
        ) {
            (Some(b), Some(g)) => if b >= 1 && g >= 1 {
                Some(Workload::Waves { burst_ms: b, gap_ms: g })
            } else {
                None
            },
            _ => None,
        }),
        described(Some(text), None, other) == described(Some(text), Some("300"), other),
        described(Some(text), other, None) == described(Some(text), other, Some("1200")),
{
}

/// Modes have the names by which they are asked for.
pub proof fn law_mode_names(burst_ms: u64, gap_ms: u64)
    ensures
        Workload::Steady.mode_name() == "steady"@,
        (Workload::Waves { burst_ms, gap_ms }).mode_name() == "waves"@,
{
}

} // verus!
