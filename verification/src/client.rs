//! The transactions that a benchmark client sends.

use vstd::prelude::*;

use crate::workload::Workload;

verus! {

/// How many bursts make up a second.
pub const PRECISION: u64 = 20;

/// How many milliseconds lie between two bursts.
pub const BURST_DURATION: u64 = 50;

/// The tag and the number of a transaction take up so many bytes.
pub const SMALLEST_TRANSACTION: usize = 9;

/// Why a client cannot run.
#[derive(Clone, Copy, Debug, PartialEq, Eq, Structural)]
pub enum ClientError {
    TransactionTooSmall,
    RateTooLow,
}

impl ClientError {
    /// What is wrong, in words.
    pub open spec fn words(self) -> Seq<char> {
        match self {
            ClientError::TransactionTooSmall => "Transaction size must be at least 9 bytes"@,
            ClientError::RateTooLow => "Transaction rate must be at least 20 tx/s"@,
        }
    }

    /// What is wrong.
    pub fn message(&self) -> (text: &'static str)
        ensures
            text@ == self.words(),
            text@ == (match self {
                ClientError::TransactionTooSmall => "Transaction size must be at least 9 bytes"@,
                ClientError::RateTooLow => "Transaction rate must be at least 20 tx/s"@,
            }),
    {
        match self {
            ClientError::TransactionTooSmall => "Transaction size must be at least 9 bytes",
            ClientError::RateTooLow => "Transaction rate must be at least 20 tx/s",
        }
    }
}

/// A growing buffer of bytes.
#[verifier::external_type_specification]
#[verifier::external_body]
pub struct ExBytesMut(bytes::BytesMut);

/// Bytes that no longer change.
#[verifier::external_type_specification]
#[verifier::external_body]
pub struct ExBytes(bytes::Bytes);

/// The bytes of a buffer.
pub uninterp spec fn buffer_contents(buffer: bytes::BytesMut) -> Seq<u8>;

/// The bytes that were frozen.
pub uninterp spec fn frozen_contents(frozen: bytes::Bytes) -> Seq<u8>;

/// The lowest `count` bytes of a number, most significant byte first.
pub open spec fn big_endian(value: int, count: nat) -> Seq<u8>
    decreases count,
{
    if count == 0 {
        Seq::empty()
    } else {
        big_endian(value / 256, (count - 1) as nat).push((value % 256) as u8)
    }
}

/// Up to this many bytes, a buffer that has to grow stays within what can be allocated, though it
/// doubles.
pub open spec fn largest_buffer() -> int {
    usize::MAX as int / 8
}

/// `bytes::BytesMut::with_capacity`: a buffer without bytes.
#[verifier::external_body]
fn new_buffer(capacity: usize) -> (buffer: bytes::BytesMut)
    requires
        capacity <= largest_buffer(),
    ensures
        buffer_contents(buffer) == Seq::<u8>::empty(),
{
    bytes::BytesMut::with_capacity(capacity)
}

/// `bytes::BufMut::put_u8` on a `bytes::BytesMut`: appends one byte.
#[verifier::external_body]
fn put_u8(buffer: &mut bytes::BytesMut, n: u8)
    requires
        buffer_contents(*old(buffer)).len() + 1 <= largest_buffer(),
    ensures
        buffer_contents(*final(buffer)) == buffer_contents(*old(buffer)).push(n),
{
    bytes::BufMut::put_u8(buffer, n)
}

/// `bytes::BufMut::put_u64` on a `bytes::BytesMut`: appends the eight bytes of the number, most
/// significant byte first.
#[verifier::external_body]
fn put_u64(buffer: &mut bytes::BytesMut, n: u64)
    requires
        buffer_contents(*old(buffer)).len() + 8 <= largest_buffer(),
    ensures
        buffer_contents(*final(buffer)) == buffer_contents(*old(buffer)) + big_endian(n as int, 8),
{
    bytes::BufMut::put_u64(buffer, n)
}

/// `bytes::BytesMut::resize`: cuts the buffer to the length, or extends it with the value.
#[verifier::external_body]
fn resize(buffer: &mut bytes::BytesMut, length: usize, value: u8)
    requires
        length <= largest_buffer(),
    ensures
        buffer_contents(*final(buffer)) == resized(
            buffer_contents(*old(buffer)),
            length as int,
            value,
        ),
{
    buffer.resize(length, value)
}

/// The bytes cut to the length, or extended with the value.
pub open spec fn resized(bytes: Seq<u8>, length: int, value: u8) -> Seq<u8> {
    if length <= bytes.len() {
        bytes.take(length)
    } else {
        bytes + Seq::new((length - bytes.len()) as nat, |i: int| value)
    }
}

/// `bytes::BytesMut::split`: takes all bytes out of the buffer.
#[verifier::external_body]
fn split(buffer: &mut bytes::BytesMut) -> (taken: bytes::BytesMut)
    ensures
        buffer_contents(taken) == buffer_contents(*old(buffer)),
        buffer_contents(*final(buffer)) == Seq::<u8>::empty(),
{
    buffer.split()
}

/// `bytes::BytesMut::freeze`: the same bytes, which no longer change.
#[verifier::external_body]
fn freeze(buffer: bytes::BytesMut) -> (frozen: bytes::Bytes)
    ensures
        frozen_contents(frozen) == buffer_contents(buffer),
{
    buffer.freeze()
}

/// `rand::Rng::gen` on `rand::thread_rng()`: some number. Nothing is said of it, since it is left
/// to chance.
#[verifier::external_body]
fn random_number() -> (number: u64)
{
    rand::Rng::gen(&mut rand::thread_rng())
}

/// The bytes of a transaction: a tag, a number, and zeros up to the size.
pub open spec fn transaction(tag: u8, number: u64, size: int) -> Seq<u8> {
    resized(seq![tag] + big_endian(number as int, 8), size, 0)
}

/// A transaction that is about to be sent.
#[derive(Debug)]
pub struct Transaction {
    /// The number of the sample, if it is one.
    pub sample_id: Option<u64>,
    pub bytes: bytes::Bytes,
}

/// What a transaction holds.
#[verifier::ext_equal]
pub struct TransactionModel {
    pub sample_id: Option<u64>,
    pub bytes: Seq<u8>,
}

impl View for Transaction {
    type V = TransactionModel;

    open spec fn view(&self) -> TransactionModel {
        TransactionModel { sample_id: self.sample_id, bytes: frozen_contents(self.bytes) }
    }
}

/// What a client goes on with from one transaction to the next.
#[derive(Debug)]
pub struct TransactionSource {
    pub size: usize,
    /// How many transactions make up a burst.
    pub burst: u64,
    /// How many bursts have been sent.
    pub sample_counter: u64,
    /// The number of the last transaction that is not a sample.
    pub last_number: u64,
    /// How many transactions of the running burst have been sent, if one is running.
    pub place: Option<u64>,
    pub buffer: bytes::BytesMut,
}

/// Where a client stands in its transactions.
pub struct SourceModel {
    pub size: int,
    pub burst: int,
    pub sample_counter: int,
    pub last_number: int,
    pub place: Option<int>,
}

impl View for TransactionSource {
    type V = SourceModel;

    open spec fn view(&self) -> SourceModel {
        SourceModel {
            size: self.size as int,
            burst: self.burst as int,
            sample_counter: self.sample_counter as int,
            last_number: self.last_number as int,
            place: match self.place {
                Some(place) => Some(place as int),
                None => None,
            },
        }
    }
}

impl SourceModel {
    /// What holds between two transactions.
    pub open spec fn valid(self) -> bool {
        &&& SMALLEST_TRANSACTION <= self.size <= largest_buffer()
        &&& self.burst > 0
        &&& 0 <= self.sample_counter <= u64::MAX
        &&& 0 <= self.last_number <= u64::MAX
        &&& self.place is Some ==> 0 <= self.place->0 <= self.burst
    }

    /// Whether a burst is running and a transaction of it is still to be sent.
    pub open spec fn sends(self) -> bool {
        self.place is Some && self.place->0 < self.burst
    }

    /// Whether the next transaction of the running burst is the sample.
    pub open spec fn is_sample(self) -> bool {
        self.sends() && self.place->0 == self.sample_counter % self.burst
    }

    /// A tick starts a burst, or nothing in the gap between waves.
    pub open spec fn after_tick(self, active: bool) -> SourceModel {
        if active {
            SourceModel { place: Some(0), ..self }
        } else {
            self
        }
    }

    /// A step of the running burst: a sample leaves the last number as it is, any other transaction
    /// takes the number after it, and the step after the last transaction ends the burst.
    pub open spec fn after_step(self) -> SourceModel {
        if self.is_sample() {
            SourceModel { place: Some(self.place->0 + 1), ..self }
        } else if self.sends() {
            SourceModel {
                place: Some(self.place->0 + 1),
                last_number: self.last_number + 1,
                ..self
            }
        } else {
            SourceModel { place: None, sample_counter: self.sample_counter + 1, ..self }
        }
    }

    /// The transaction that a step sends.
    pub open spec fn sent(self, workload: Workload, elapsed_ms: u128) -> TransactionModel {
        if self.is_sample() {
            let id = workload.sample_id(elapsed_ms, self.sample_counter as u64) as u64;
            TransactionModel { sample_id: Some(id), bytes: transaction(0, id, self.size) }
        } else {
            TransactionModel {
                sample_id: None,
                bytes: transaction(1, (self.last_number + 1) as u64, self.size),
            }
        }
    }

    /// Whether the numbers of a step fit into 64 bits.
    pub open spec fn can_step(self) -> bool {
        if self.is_sample() {
            true
        } else if self.sends() {
            self.last_number < u64::MAX
        } else {
            self.sample_counter < u64::MAX
        }
    }
}

/// Checks that a transaction can hold its tag and its number.
pub fn check_size(size: usize) -> (result: Result<(), ClientError>)
    ensures
        result is Ok <==> size >= SMALLEST_TRANSACTION,
        result is Ok <==> holds_number(size as int),
        result is Err ==> result->Err_0 == ClientError::TransactionTooSmall,
{
    if size < SMALLEST_TRANSACTION {
        Err(ClientError::TransactionTooSmall)
    } else {
        Ok(())
    }
}

/// Whether a transaction of the size can hold its tag and its number.
pub open spec fn holds_number(size: int) -> bool {
    size >= SMALLEST_TRANSACTION
}

/// How many transactions make up a burst at the rate.
pub open spec fn burst_at(rate: u64) -> int {
    rate as int / PRECISION as int
}

/// Whether a burst that took so many milliseconds took longer than the time between two bursts.
pub open spec fn overruns(elapsed_ms: u128) -> bool {
    elapsed_ms > BURST_DURATION
}

/// How many transactions make up a burst at the rate.
pub fn burst_size(rate: u64) -> (result: Result<u64, ClientError>)
    ensures
        match result {
            Ok(burst) => burst == rate / PRECISION && burst > 0,
            Err(error) => rate < PRECISION && error == ClientError::RateTooLow,
        },
        result is Ok <==> burst_at(rate) > 0,
        result is Ok ==> result->Ok_0 == burst_at(rate),
{
    let burst: u64 = rate / PRECISION;
    if burst == 0 {
        Err(ClientError::RateTooLow)
    } else {
        Ok(burst)
    }
}

/// Whether a burst took longer than the time between two bursts.
pub fn is_late(elapsed_ms: u128) -> (late: bool)
    ensures
        late == (elapsed_ms > BURST_DURATION),
        late == overruns(elapsed_ms),
{
    elapsed_ms > BURST_DURATION as u128
}

impl TransactionSource {
    /// What holds between two transactions.
    pub open spec fn valid(self) -> bool {
        &&& self@.valid()
        &&& buffer_contents(self.buffer) == Seq::<u8>::empty()
    }

    /// Starts after the given number.
    pub fn starting_at(size: usize, burst: u64, number: u64) -> (source: TransactionSource)
        requires
            SMALLEST_TRANSACTION <= size <= largest_buffer(),
            burst > 0,
        ensures
            source.valid(),
            source@ == (SourceModel {
                size: size as int,
                burst: burst as int,
                sample_counter: 0,
                last_number: number as int,
                place: None,
            }),
    {
        TransactionSource {
            size,
            burst,
            sample_counter: 0,
            last_number: number,
            place: None,
            buffer: new_buffer(size),
        }
    }

    /// Starts at a random number, so that no two clients send the same transactions. The number
    /// is left open.
    pub fn new(size: usize, burst: u64) -> (source: TransactionSource)
        requires
            SMALLEST_TRANSACTION <= size <= largest_buffer(),
            burst > 0,
        ensures
            source.valid(),
            source@ == (SourceModel {
                size: size as int,
                burst: burst as int,
                sample_counter: 0,
                last_number: source@.last_number,
                place: None,
            }),
    {
        TransactionSource::starting_at(size, burst, random_number())
    }

    /// Starts a burst, or nothing in the gap between waves. Tells which of the two.
    pub fn tick(&mut self, workload: &Workload, elapsed_ms: u128) -> (active: bool)
        requires
            old(self).valid(),
            old(self)@.place is None,
            workload.runs(),
        ensures
            final(self).valid(),
            active == workload.active_at(elapsed_ms),
            *workload is Steady ==> active,
            final(self)@ == old(self)@.after_tick(active),
    {
        if workload.is_active(elapsed_ms) {
            self.place = Some(0);
            true
        } else {
            false
        }
    }

    /// Whether the numbers of the next step fit into 64 bits.
    pub fn can_step(&self) -> (fits: bool)
        requires
            self.valid(),
            self@.place is Some,
        ensures
            fits == self@.can_step(),
    {
        let place: u64 = self.place.unwrap();
        if place < self.burst {
            place == self.sample_counter % self.burst || self.last_number < u64::MAX
        } else {
            self.sample_counter < u64::MAX
        }
    }

    /// The next transaction of the running burst, of which one is a sample that carries its number
    /// while the others count on; or nothing, and the burst has ended.
    pub fn step(&mut self, workload: &Workload, elapsed_ms: u128) -> (next: Option<Transaction>)
        requires
            old(self).valid(),
            old(self)@.place is Some,
            old(self)@.can_step(),
            workload.runs(),
        ensures
            final(self).valid(),
            final(self)@ == old(self)@.after_step(),
            next is Some <==> old(self)@.sends(),
            next is Some ==> next->0@ == old(self)@.sent(*workload, elapsed_ms),
    {
        let place: u64 = self.place.unwrap();
        if place < self.burst {
            let ghost start = Seq::<u8>::empty();
            let mut sample_id: Option<u64> = None;
            if place == self.sample_counter % self.burst {
                let id: u64 = workload.make_sample_id(elapsed_ms, self.sample_counter);
                sample_id = Some(id);
                put_u8(&mut self.buffer, 0);
                put_u64(&mut self.buffer, id);
                assert(start.push(0u8) =~= seq![0u8]);
            } else {
                self.last_number = self.last_number + 1;
                put_u8(&mut self.buffer, 1);
                put_u64(&mut self.buffer, self.last_number);
                assert(start.push(1u8) =~= seq![1u8]);
            }
            self.place = Some(place + 1);
            let size: usize = self.size;
            resize(&mut self.buffer, size, 0);
            let bytes = freeze(split(&mut self.buffer));
            Some(Transaction { sample_id, bytes })
        } else {
            self.place = None;
            self.sample_counter = self.sample_counter + 1;
            None
        }
    }
}

} // verus!
