//! When a benchmark client sends, and how it numbers its sample transactions.

use vstd::prelude::*;
use vstd::string::*;

verus! {

/// The pattern in which transactions are sent.
#[derive(Clone, Copy, Debug, PartialEq, Eq)]
pub enum Workload {
    /// All the time.
    Steady,
    /// In bursts with silent gaps between them.
    Waves { burst_ms: u64, gap_ms: u64 },
}

/// Why the arguments describe no workload.
#[derive(Debug, PartialEq, Eq)]
pub enum WorkloadError {
    BurstNotInteger,
    GapNotInteger,
    NotPositive,
    UnsupportedMode(String),
}

/// The low bits of a sample number hold the counter.
pub const SAMPLE_COUNTER_MASK: u64 = 0xffff_ffff_ffff;

/// How many milliseconds a counter of 64 bits can tell apart.
pub const MILLISECONDS: u128 = 0x1_0000_0000_0000_0000;

/// Whether these are decimal digits, one at least.
pub open spec fn all_digits(bytes: Seq<u8>) -> bool {
    bytes.len() > 0 && forall|i: int| 0 <= i < bytes.len() ==> 48 <= #[trigger] bytes[i] <= 57
}

/// The number that decimal digits spell.
pub open spec fn decimal_value(bytes: Seq<u8>) -> int
    decreases bytes.len(),
{
    if bytes.len() == 0 {
        0
    } else {
        decimal_value(bytes.drop_last()) * 10 + (bytes.last() - 48)
    }
}

/// The digits of a number, without the sign that may stand before them.
pub open spec fn digits_of(bytes: Seq<u8>) -> Seq<u8> {
    if bytes.len() > 0 && bytes[0] == 43 {
        bytes.skip(1)
    } else {
        bytes
    }
}

/// The number that a text spells, if it does: an optional plus sign and decimal digits.
pub open spec fn parsed_number(bytes: Seq<u8>) -> Option<u64> {
    if all_digits(digits_of(bytes)) && decimal_value(digits_of(bytes)) <= u64::MAX {
        Some(decimal_value(digits_of(bytes)) as u64)
    } else {
        None
    }
}

/// More digits never make a smaller number.
proof fn lemma_decimal_grows(bytes: Seq<u8>, i: int)
    requires
        all_digits(bytes),
        0 <= i <= bytes.len(),
    ensures
        0 <= decimal_value(bytes.take(i)) <= decimal_value(bytes),
    decreases bytes.len(),
{
    reveal_with_fuel(decimal_value, 2);
    assert(bytes[bytes.len() - 1] >= 48);
    if i == bytes.len() {
        assert(bytes.take(i) =~= bytes);
        if bytes.len() > 1 {
            assert(all_digits(bytes.drop_last()));
            lemma_decimal_grows(bytes.drop_last(), i - 1);
            assert(bytes.drop_last().take(i - 1) =~= bytes.drop_last());
        } else {
            assert(bytes.drop_last() =~= Seq::<u8>::empty());
        }
    } else if bytes.len() > 1 {
        assert(all_digits(bytes.drop_last()));
        lemma_decimal_grows(bytes.drop_last(), i);
        assert(bytes.drop_last().take(i) =~= bytes.take(i));
    } else {
        assert(bytes.take(0) =~= Seq::<u8>::empty());
        assert(bytes.drop_last() =~= Seq::<u8>::empty());
    }
}

/// Reads a number.
pub fn parse_number(text: &str) -> (number: Option<u64>)
    ensures
        number == parsed_number(text.spec_bytes()),
{
    let bytes = text.as_bytes();
    let start: usize = if bytes.len() > 0 && bytes[0] == 43 {
        1
    } else {
        0
    };
    let count = bytes.len();
    let ghost digits = digits_of(bytes@);
    assert(digits =~= bytes@.skip(start as int));
    if start == count {
        return None;
    }
    let mut value: u64 = 0;
    let mut i: usize = start;
    assert(digits.take(0) =~= Seq::<u8>::empty());
    while i < count
        invariant
            start <= i <= count,
            count == bytes@.len(),
            digits == bytes@.skip(start as int),
            digits == digits_of(bytes@),
            digits.len() > 0,
            bytes@ == text.spec_bytes(),
            forall|j: int| 0 <= j < i - start ==> 48 <= #[trigger] digits[j] <= 57,
            value == decimal_value(digits.take(i - start)),
        decreases count - i,
    {
        let byte: u8 = bytes[i];
        let ghost k = i - start;
        assert(digits[k] == byte);
        assert(digits.take(k + 1).drop_last() =~= digits.take(k));
        if byte < 48 || byte > 57 {
            return None;
        }
        let digit: u64 = (byte - 48) as u64;
        proof {
            assert(decimal_value(digits.take(k + 1)) == value * 10 + digit);
            if all_digits(digits) {
                lemma_decimal_grows(digits, k + 1);
            }
        }
        match value.checked_mul(10) {
            Some(tenfold) => match tenfold.checked_add(digit) {
                Some(next) => {
                    value = next;
                },
                None => {
                    return None;
                },
            },
            None => {
                return None;
            },
        }
        i = i + 1;
    }
    assert(digits.take(count - start) =~= digits);
    Some(value)
}

/// Whether the texts are the same.
fn same_text(one: &str, other: &str) -> (same: bool)
    ensures
        same == (one.spec_bytes() == other.spec_bytes()),
{
    let a = one.as_bytes();
    let b = other.as_bytes();
    if a.len() != b.len() {
        return false;
    }
    let count = a.len();
    let mut i: usize = 0;
    while i < count
        invariant
            i <= count,
            count == a@.len(),
            count == b@.len(),
            a@ == one.spec_bytes(),
            b@ == other.spec_bytes(),
            forall|j: int| 0 <= j < i ==> #[trigger] a@[j] == b@[j],
        decreases count - i,
    {
        if a[i] != b[i] {
            assert(a@[i as int] != b@[i as int]);
            return false;
        }
        i = i + 1;
    }
    assert(a@ =~= b@);
    true
}

/// The argument, or what it is by default.
pub open spec fn given(argument: Option<&str>, default: &str) -> Seq<u8> {
    match argument {
        Some(text) => text.spec_bytes(),
        None => default.spec_bytes(),
    }
}

/// The workload that the arguments describe.
pub open spec fn described(
    mode: Option<&str>,
    wave_burst_ms: Option<&str>,
    wave_gap_ms: Option<&str>,
) -> Option<Workload> {
    let mode = given(mode, "steady");
    let burst = parsed_number(given(wave_burst_ms, "300"));
    let gap = parsed_number(given(wave_gap_ms, "1200"));
    if mode == "steady".spec_bytes() {
        Some(Workload::Steady)
    } else if mode == "waves".spec_bytes() && burst is Some && gap is Some && burst->0 > 0 && gap->0
        > 0 {
        Some(Workload::Waves { burst_ms: burst->0, gap_ms: gap->0 })
    } else {
        None
    }
}

impl Workload {
    /// Whether the milliseconds of a cycle can be counted.
    pub open spec fn runs(self) -> bool {
        match self {
            Workload::Steady => true,
            Workload::Waves { burst_ms, gap_ms } => 0 < burst_ms + gap_ms <= u64::MAX,
        }
    }

    /// The mode by name.
    pub open spec fn mode_name(self) -> Seq<char> {
        match self {
            Workload::Steady => "steady"@,
            Workload::Waves { .. } => "waves"@,
        }
    }

    /// Whether transactions are sent at the time.
    pub open spec fn active_at(self, elapsed_ms: u128) -> bool {
        match self {
            Workload::Steady => true,
            Workload::Waves { burst_ms, gap_ms } => (elapsed_ms as int % MILLISECONDS as int) % (
            burst_ms + gap_ms) < burst_ms,
        }
    }

    /// The number of the wave at the time.
    pub open spec fn wave_at(self, elapsed_ms: u128) -> int {
        match self {
            Workload::Steady => 0,
            Workload::Waves { burst_ms, gap_ms } => (elapsed_ms as int % MILLISECONDS as int) / (
            burst_ms + gap_ms),
        }
    }

    /// The number of a sample: 16 bits of the wave above 48 bits of the counter.
    pub open spec fn sample_id(self, elapsed_ms: u128, sample_counter: u64) -> int {
        (self.wave_at(elapsed_ms) % 0x1_0000) * 0x1_0000_0000_0000 + sample_counter as int
            % 0x1_0000_0000_0000
    }

    /// Reads the workload from the arguments: the mode, and the durations of bursts and gaps.
    pub fn from_matches(
        mode: Option<&str>,
        wave_burst_ms: Option<&str>,
        wave_gap_ms: Option<&str>,
    ) -> (result: Result<Workload, WorkloadError>)
        ensures
            result is Ok <==> described(mode, wave_burst_ms, wave_gap_ms) is Some,
            match result {
                Ok(workload) => described(mode, wave_burst_ms, wave_gap_ms) == Some(workload),
                Err(WorkloadError::UnsupportedMode(other)) => {
                    &&& given(mode, "steady") != "steady".spec_bytes()
                    &&& given(mode, "steady") != "waves".spec_bytes()
                    &&& mode is Some
                    &&& other@ == mode->0@
                },
                Err(WorkloadError::BurstNotInteger) => {
                    &&& given(mode, "steady") != "steady".spec_bytes()
                    &&& given(mode, "steady") == "waves".spec_bytes()
                    &&& parsed_number(given(wave_burst_ms, "300")) is None
                },
                Err(WorkloadError::GapNotInteger) => {
                    &&& given(mode, "steady") != "steady".spec_bytes()
                    &&& given(mode, "steady") == "waves".spec_bytes()
                    &&& parsed_number(given(wave_burst_ms, "300")) is Some
                    &&& parsed_number(given(wave_gap_ms, "1200")) is None
                },
                Err(WorkloadError::NotPositive) => {
                    &&& given(mode, "steady") != "steady".spec_bytes()
                    &&& given(mode, "steady") == "waves".spec_bytes()
                    &&& parsed_number(given(wave_burst_ms, "300")) is Some
                    &&& parsed_number(given(wave_gap_ms, "1200")) is Some
                    &&& parsed_number(given(wave_burst_ms, "300"))->0 == 0 || parsed_number(
                        given(wave_gap_ms, "1200"),
                    )->0 == 0
                },
            },
    {
        let text = match mode {
            Some(text) => text,
            None => "steady",
        };
        if same_text(text, "steady") {
            return Ok(Workload::Steady);
        }
        if !same_text(text, "waves") {
            return Err(WorkloadError::UnsupportedMode(text.to_owned()));
        }
        let burst_text = match wave_burst_ms {
            Some(burst) => burst,
            None => "300",
        };
        let burst_ms: u64 = match parse_number(burst_text) {
            Some(number) => number,
            None => {
                return Err(WorkloadError::BurstNotInteger);
            },
        };
        let gap_text = match wave_gap_ms {
            Some(gap) => gap,
            None => "1200",
        };
        let gap_ms: u64 = match parse_number(gap_text) {
            Some(number) => number,
            None => {
                return Err(WorkloadError::GapNotInteger);
            },
        };
        if burst_ms == 0 || gap_ms == 0 {
            return Err(WorkloadError::NotPositive);
        }
        Ok(Workload::Waves { burst_ms, gap_ms })
    }

    /// The mode by name.
    pub fn name(&self) -> (name: &'static str)
        ensures
            name@ == (match self {
                Workload::Steady => "steady"@,
                Workload::Waves { .. } => "waves"@,
            }),
            name@ == self.mode_name(),
    {
        match self {
            Workload::Steady => "steady",
            Workload::Waves { .. } => "waves",
        }
    }

    /// Whether transactions are sent when the benchmark has run for the time.
    pub fn is_active(&self, elapsed_ms: u128) -> (active: bool)
        requires
            self.runs(),
        ensures
            active == self.active_at(elapsed_ms),
            self is Steady ==> active,
    {
        match self {
            Workload::Steady => true,
            Workload::Waves { burst_ms, gap_ms } => {
                let cycle_ms: u64 = *burst_ms + *gap_ms;
                let now: u64 = (elapsed_ms % MILLISECONDS) as u64;
                now % cycle_ms < *burst_ms
            },
        }
    }

    /// Numbers a sample that is sent when the benchmark has run for the time.
    pub fn make_sample_id(&self, elapsed_ms: u128, sample_counter: u64) -> (id: u64)
        requires
            self.runs(),
        ensures
            id == self.sample_id(elapsed_ms, sample_counter),
    {
        let wave_id: u64 = match self {
            Workload::Steady => 0,
            Workload::Waves { burst_ms, gap_ms } => {
                let cycle_ms: u64 = *burst_ms + *gap_ms;
                let now: u64 = (elapsed_ms % MILLISECONDS) as u64;
                now / cycle_ms
            },
        };
        let id: u64 = (wave_id << 48) | (sample_counter & SAMPLE_COUNTER_MASK);
        assert(id == (wave_id % 0x1_0000) * 0x1_0000_0000_0000 + sample_counter
            % 0x1_0000_0000_0000) by (bit_vector)
            requires
                id == (wave_id << 48) | (sample_counter & 0xffff_ffff_ffff),
        ;
        id
    }
}

} // verus!
