//! The audio ring that a client fills and the daemon drains: a header with two running byte
//! counts, and a data area that the counts run round.
use vstd::prelude::*;
use vstd::slice::*;

use crate::wire::{le32, le64, le64_round_trip, le64_value, push_le32, push_le64, read_le64};

verus! {

/// Bytes before the data area: magic, version, capacity, bytes written, bytes read.
pub const RING_HEADER_BYTES: usize = 32;
/// Bytes of the data area that the daemon offers: two minutes of audio.
pub const RING_DATA_BYTES: usize = 3_840_000;
/// The ring's magic number.
pub const RING_MAGIC: u32 = 0x5257_4853;
/// The ring's version.
pub const RING_VERSION: u32 = 1;
/// Where the capacity stands.
pub const RING_CAPACITY_OFFSET: usize = 8;
/// Where the count of bytes written stands.
pub const RING_WRITE_OFFSET: usize = 16;
/// Where the count of bytes read stands.
pub const RING_READ_OFFSET: usize = 24;

/// Why the ring cannot be used.
#[derive(Clone, Copy, Debug, PartialEq, Eq, Structural)]
pub enum RingError {
    /// Header and data do not fit in memory.
    SizeOverflow,
    /// The memory has another size than header and data.
    SizeMismatch,
    /// More bytes are waiting than the ring can hold.
    Overrun,
}

impl RingError {
    /// What the error says.
    pub open spec fn spec_message(self) -> Seq<char> {
        match self {
            RingError::SizeOverflow => "ring size overflow"@,
            RingError::SizeMismatch => "ring memory has the wrong size"@,
            RingError::Overrun => "shared-memory ring overrun"@,
        }
    }

    /// What the error says.
    pub fn message(&self) -> (text: String)
        ensures
            text@ == self.spec_message(),
    {
        match self {
            RingError::SizeOverflow => "ring size overflow".to_string(),
            RingError::SizeMismatch => "ring memory has the wrong size".to_string(),
            RingError::Overrun => "shared-memory ring overrun".to_string(),
        }
    }
}

/// The slot in the data area of the byte with running number `n`.
pub open spec fn slot(n: int, capacity: int) -> int {
    n % capacity
}

/// The bytes that wait in a data area, oldest first.
pub open spec fn waiting(data: Seq<u8>, read: int, write: int) -> Seq<u8> {
    Seq::new(
        (if write > read {
            write - read
        } else {
            0
        }) as nat,
        |i: int| data[slot(read + i, data.len() as int)],
    )
}

/// A piece of the data area in at most two runs: `first` bytes from `start` on, then `second`
/// bytes from the beginning.
#[derive(Clone, Copy, Debug, PartialEq, Eq, Structural)]
pub struct Spans {
    pub start: usize,
    pub first: usize,
    pub second: usize,
}

impl Spans {
    /// The runs cover the slots of the `len` bytes from running number `from` on, in order.
    pub open spec fn covers(self, from: int, len: int, capacity: int) -> bool {
        &&& self.first + self.second == len <= capacity
        &&& self.start + self.first <= capacity
        &&& self.second > 0 ==> self.start + self.first == capacity
        &&& forall|i: int|
            0 <= i < len ==> #[trigger] slot(from + i, capacity) == (if i < self.first {
                self.start + i
            } else {
                i - self.first
            })
    }
}

proof fn lemma_slot(base: int, k: int, capacity: int)
    requires
        0 <= base,
        0 <= k < capacity,
    ensures
        slot(base + k, capacity) == (if base % capacity + k < capacity {
            base % capacity + k
        } else {
            base % capacity + k - capacity
        }),
        0 <= base % capacity < capacity,
{
    let q = base / capacity;
    let r = base % capacity;
    assert(0 <= r < capacity && base == q * capacity + r) by (nonlinear_arith)
        requires
            capacity > 0,
            q == base / capacity,
            r == base % capacity,
    ;
    if r + k < capacity {
        assert((base + k) % capacity == r + k) by {
            vstd::arithmetic::div_mod::lemma_fundamental_div_mod_converse(
                base + k,
                capacity,
                q,
                r + k,
            );
        }
    } else {
        assert((q + 1) * capacity == q * capacity + capacity) by (nonlinear_arith);
        assert((base + k) % capacity == r + k - capacity) by {
            vstd::arithmetic::div_mod::lemma_fundamental_div_mod_converse(
                base + k,
                capacity,
                q + 1,
                r + k - capacity,
            );
        }
    }
}

/// The size of a ring's memory.
pub fn ring_len(capacity: usize) -> (out: Result<usize, RingError>)
    ensures
        match out {
            Ok(len) => len == RING_HEADER_BYTES + capacity,
            Err(e) => e == RingError::SizeOverflow && RING_HEADER_BYTES + capacity > usize::MAX,
        },
{
    match RING_HEADER_BYTES.checked_add(capacity) {
        Some(len) => Ok(len),
        None => Err(RingError::SizeOverflow),
    }
}

/// The runs that hold the `len` bytes from running number `from` on.
fn spans(from: u64, len: usize, capacity: usize) -> (spans: Spans)
    requires
        0 < len <= capacity,
    ensures
        spans.covers(from as int, len as int, capacity as int),
{
    let start: usize = (from % (capacity as u64)) as usize;
    let first: usize = if len < capacity - start {
        len
    } else {
        capacity - start
    };
    proof {
        assert forall|i: int| 0 <= i < len implies #[trigger] slot(from + i, capacity as int) == (if i
            < first {
            start + i
        } else {
            i - first
        }) by {
            lemma_slot(from as int, i, capacity as int);
        }
    }
    Spans { start, first, second: len - first }
}

/// Where the waiting bytes stand, for a reader that takes them all. `None` where there are none.
pub fn drain_spans(read: u64, write: u64, capacity: usize) -> (out: Result<Option<Spans>, RingError>)
    ensures
        write - read > capacity <==> out == Err::<Option<Spans>, RingError>(RingError::Overrun),
        write - read <= capacity ==> out is Ok,
        out matches Ok(None) ==> write <= read,
        out matches Ok(Some(spans)) ==> read < write && spans.covers(
            read as int,
            write - read,
            capacity as int,
        ),
{
    if write > read && write - read > capacity as u64 {
        return Err(RingError::Overrun);
    }
    if write <= read {
        return Ok(None);
    }
    Ok(Some(spans(read, (write - read) as usize, capacity)))
}

/// Where the next bytes go, for a writer with `len` bytes at hand: as many of them as there is
/// room for. `None` where there is no room or nothing to write.
pub fn push_spans(read: u64, write: u64, capacity: usize, len: usize) -> (out: Result<
    Option<Spans>,
    RingError,
>)
    requires
        read <= write,
    ensures
        write - read > capacity <==> out == Err::<Option<Spans>, RingError>(RingError::Overrun),
        write - read <= capacity ==> out is Ok,
        out matches Ok(None) ==> len == 0 || write - read == capacity,
        out matches Ok(Some(spans)) ==> len > 0 && write - read < capacity && spans.covers(
            write as int,
            if len < capacity - (write - read) {
                len as int
            } else {
                capacity - (write - read)
            },
            capacity as int,
        ),
{
    if write - read > capacity as u64 {
        return Err(RingError::Overrun);
    }
    let available: usize = capacity - (write - read) as usize;
    let to_write: usize = if len < available {
        len
    } else {
        available
    };
    if to_write == 0 {
        return Ok(None);
    }
    Ok(Some(spans(write, to_write, capacity)))
}

/// A ring in a block of memory.
pub struct SharedAudioRing {
    memory: Vec<u8>,
    capacity: usize,
}

impl SharedAudioRing {
    /// The memory holds the header and the data area.
    pub closed spec fn wf(&self) -> bool {
        self.memory.len() == RING_HEADER_BYTES + self.capacity
    }

    /// The memory.
    pub closed spec fn bytes(&self) -> Seq<u8> {
        self.memory@
    }

    /// The size of the data area.
    pub closed spec fn spec_capacity(&self) -> int {
        self.capacity as int
    }

    /// How many bytes were ever written.
    pub open spec fn written(&self) -> u64 {
        le64_value(self.bytes().subrange(16, 24))
    }

    /// How many bytes were ever read.
    pub open spec fn consumed(&self) -> u64 {
        le64_value(self.bytes().subrange(24, 32))
    }

    /// The data area.
    pub open spec fn data(&self) -> Seq<u8> {
        self.bytes().skip(32)
    }

    /// The bytes that wait to be read, oldest first.
    pub open spec fn contents(&self) -> Seq<u8> {
        waiting(self.data(), self.consumed() as int, self.written() as int)
    }

    /// True where the header begins with the magic number, the version and the size of the data area.
    pub open spec fn header_is_right(&self) -> bool {
        &&& self.bytes().subrange(0, 4) == le32(RING_MAGIC)
        &&& self.bytes().subrange(4, 8) == le32(RING_VERSION)
        &&& self.bytes().subrange(8, 16) == le64(self.spec_capacity() as u64)
    }

    /// True where no more was read than written, and no more waits than there is room for: the ring
    /// can be pushed to and drained.
    pub open spec fn in_use(&self) -> bool {
        &&& self.wf()
        &&& self.consumed() <= self.written()
        &&& self.contents().len() <= self.spec_capacity()
    }

    /// What pushing and draining leave alone: the size and what stands before the counts.
    pub open spec fn same_ring(&self, other: &SharedAudioRing) -> bool {
        &&& self.spec_capacity() == other.spec_capacity()
        &&& self.bytes().take(16) == other.bytes().take(16)
    }

    /// Uses a block of memory as a ring, as it is.
    pub fn attach(memory: Vec<u8>, capacity: usize) -> (out: Result<SharedAudioRing, RingError>)
        ensures
            RING_HEADER_BYTES + capacity > usize::MAX <==> out == Err::<SharedAudioRing, RingError>(
                RingError::SizeOverflow,
            ),
            RING_HEADER_BYTES + capacity <= usize::MAX && memory@.len() != RING_HEADER_BYTES + capacity
                <==> out == Err::<SharedAudioRing, RingError>(RingError::SizeMismatch),
            out is Ok <==> memory@.len() == RING_HEADER_BYTES + capacity,
            out matches Ok(ring) ==> ring.wf() && ring.bytes() == memory@ && ring.spec_capacity()
                == capacity,
    {
        let size: usize = memory.len();
        let len: usize = match ring_len(capacity) {
            Ok(len) => len,
            Err(e) => return Err(e),
        };
        if size != len {
            return Err(RingError::SizeMismatch);
        }
        Ok(SharedAudioRing { memory, capacity })
    }

    /// An empty ring in new memory.
    pub fn create(capacity: usize) -> (out: Result<SharedAudioRing, RingError>)
        ensures
            RING_HEADER_BYTES + capacity > usize::MAX <==> out == Err::<SharedAudioRing, RingError>(
                RingError::SizeOverflow,
            ),
            RING_HEADER_BYTES + capacity <= usize::MAX ==> out is Ok,
            out matches Ok(ring) ==> ring.wf() && ring.spec_capacity() == capacity
                && ring.header_is_right() && ring.contents() == Seq::<u8>::empty() && ring.written()
                == 0 && ring.consumed() == 0,
    {
        let len: usize = match ring_len(capacity) {
            Ok(len) => len,
            Err(e) => return Err(e),
        };
        let memory: Vec<u8> = vec![0; len];
        match SharedAudioRing::attach(memory, capacity) {
            Ok(ring) => {
                let mut ring: SharedAudioRing = ring;
                ring.init_header();
                assert(ring.contents() =~= Seq::<u8>::empty());
                Ok(ring)
            },
            Err(e) => Err(e),
        }
    }

    /// Writes the header of an empty ring and leaves the data area alone.
    pub fn init_header(&mut self)
        requires
            old(self).wf(),
        ensures
            final(self).wf(),
            final(self).spec_capacity() == old(self).spec_capacity(),
            final(self).header_is_right(),
            final(self).written() == 0,
            final(self).consumed() == 0,
            final(self).data() == old(self).data(),
    {
        let mut header: Vec<u8> = Vec::new();
        push_le32(&mut header, RING_MAGIC);
        push_le32(&mut header, RING_VERSION);
        push_le64(&mut header, self.capacity as u64);
        push_le64(&mut header, 0);
        push_le64(&mut header, 0);
        proof {
            le64_round_trip(0);
            le64_round_trip(self.capacity as u64);
        }
        self.put(0, header.as_slice());
        assert(self.bytes().subrange(0, 4) =~= le32(RING_MAGIC));
        assert(self.bytes().subrange(4, 8) =~= le32(RING_VERSION));
        assert(self.bytes().subrange(8, 16) =~= le64(self.capacity as u64));
        assert(self.bytes().subrange(16, 24) =~= le64(0));
        assert(self.bytes().subrange(24, 32) =~= le64(0));
        assert(self.data() =~= old(self).data());
    }

    /// The size of the data area.
    pub fn capacity(&self) -> (capacity: usize)
        ensures
            capacity == self.spec_capacity(),
    {
        self.capacity
    }

    /// Writes bytes at an offset of the memory.
    fn put(&mut self, offset: usize, bytes: &[u8])
        requires
            old(self).wf(),
            offset + bytes@.len() <= old(self).bytes().len(),
        ensures
            final(self).wf(),
            final(self).capacity == old(self).capacity,
            final(self).bytes().len() == old(self).bytes().len(),
            forall|j: int|
                0 <= j < old(self).bytes().len() ==> #[trigger] final(self).bytes()[j] == (if offset
                    <= j < offset + bytes@.len() {
                    bytes@[j - offset]
                } else {
                    old(self).bytes()[j]
                }),
    {
        let mut i: usize = 0;
        while i < bytes.len()
            invariant
                i <= bytes@.len(),
                self.memory.len() == self.memory@.len(),
                self.capacity == old(self).capacity,
                self.memory@.len() == old(self).memory@.len(),
                offset + bytes@.len() <= self.memory@.len(),
                forall|j: int|
                    0 <= j < self.memory@.len() ==> #[trigger] self.memory@[j] == (if offset <= j
                        < offset + i {
                        bytes@[j - offset]
                    } else {
                        old(self).memory@[j]
                    }),
            decreases bytes@.len() - i,
        {
            self.memory.set(offset + i, bytes[i]);
            i = i + 1;
        }
    }

    /// The running count at an offset of the header.
    fn count_at(&self, offset: usize) -> (count: u64)
        requires
            self.wf(),
            offset + 8 <= RING_HEADER_BYTES,
        ensures
            count == le64_value(self.bytes().subrange(offset as int, offset + 8)),
    {
        read_le64(slice_subrange(self.memory.as_slice(), offset, offset + 8))
    }

    /// Sets both running counts.
    pub fn set_offsets(&mut self, read: u64, write: u64)
        requires
            old(self).wf(),
        ensures
            final(self).wf(),
            final(self).same_ring(old(self)),
            final(self).data() == old(self).data(),
            final(self).consumed() == read,
            final(self).written() == write,
    {
        let mut counts: Vec<u8> = Vec::new();
        push_le64(&mut counts, write);
        push_le64(&mut counts, read);
        proof {
            le64_round_trip(write);
            le64_round_trip(read);
        }
        self.put(RING_WRITE_OFFSET, counts.as_slice());
        assert(self.bytes().subrange(16, 24) =~= le64(write));
        assert(self.bytes().subrange(24, 32) =~= le64(read));
        assert(self.bytes().take(16) =~= old(self).bytes().take(16));
        assert(self.data() =~= old(self).data());
    }

    /// Appends `len` bytes of the data area, from `start` on, to `out`.
    fn copy_out(&self, start: usize, len: usize, out: &mut Vec<u8>)
        requires
            self.wf(),
            start + len <= self.spec_capacity(),
        ensures
            final(out)@ == old(out)@ + self.data().subrange(start as int, start + len),
    {
        let from: usize = RING_HEADER_BYTES + start;
        out.extend_from_slice(slice_subrange(self.memory.as_slice(), from, from + len));
        assert(out@ =~= old(out)@ + self.data().subrange(start as int, start + len));
    }

    /// Writes the first bytes of `data` over the runs of the data area.
    fn copy_in(&mut self, spans: &Spans, data: &[u8])
        requires
            old(self).wf(),
            spans.start + spans.first <= old(self).spec_capacity(),
            spans.second <= spans.start,
            spans.first + spans.second <= data@.len(),
        ensures
            final(self).wf(),
            final(self).capacity == old(self).capacity,
            final(self).bytes().take(16) == old(self).bytes().take(16),
            final(self).data().len() == old(self).data().len(),
            forall|j: int|
                0 <= j < old(self).data().len() ==> #[trigger] final(self).data()[j] == (if spans.start
                    <= j < spans.start + spans.first {
                    data@[j - spans.start]
                } else if j < spans.second {
                    data@[spans.first + j]
                } else {
                    old(self).data()[j]
                }),
    {
        let n: usize = spans.first + spans.second;
        self.put(RING_HEADER_BYTES + spans.start, slice_subrange(data, 0, spans.first));
        self.put(RING_HEADER_BYTES, slice_subrange(data, spans.first, n));
        assert(self.bytes().take(16) =~= old(self).bytes().take(16));
    }

    /// Moves all waiting bytes behind `out`. If more are waiting than the ring can hold, the
    /// writer has overwritten some: nothing is moved.
    pub fn drain_available(&mut self, out: &mut Vec<u8>) -> (result: Result<(), RingError>)
        requires
            old(self).wf(),
        ensures
            final(self).wf(),
            final(self).same_ring(old(self)),
            final(self).written() == old(self).written(),
            final(self).data() == old(self).data(),
            old(self).contents().len() > old(self).spec_capacity() ==> result == Err::<(), RingError>(
                RingError::Overrun,
            ) && *final(self) == *old(self) && final(out)@ == old(out)@,
            old(self).contents().len() <= old(self).spec_capacity() ==> result is Ok
                && final(out)@ == old(out)@ + old(self).contents() && drained(
                *old(self),
                *final(self),
            ),
    {
        let read: u64 = self.count_at(RING_READ_OFFSET);
        let write: u64 = self.count_at(RING_WRITE_OFFSET);
        match drain_spans(read, write, self.capacity) {
            Err(e) => Err(e),
            Ok(None) => {
                assert(self.contents() =~= Seq::<u8>::empty());
                assert(out@ =~= old(out)@ + old(self).contents());
                Ok(())
            },
            Ok(Some(spans)) => {
                self.copy_out(spans.start, spans.first, out);
                if spans.second > 0 {
                    self.copy_out(0, spans.second, out);
                }
                assert(out@ =~= old(out)@ + old(self).contents());
                self.set_offsets(write, write);
                assert(self.contents() =~= Seq::<u8>::empty());
                Ok(())
            },
        }
    }

    /// Puts as many bytes into the ring as there is room for, and tells how many.
    #[verifier::spinoff_prover]
    #[verifier::rlimit(40)]
    pub fn push_available(&mut self, data: &[u8]) -> (result: Result<usize, RingError>)
        requires
            old(self).wf(),
            old(self).consumed() <= old(self).written(),
            old(self).written() + taken_of(*old(self), data@.len() as int) <= u64::MAX,
        ensures
            final(self).wf(),
            final(self).same_ring(old(self)),
            final(self).consumed() == old(self).consumed(),
            old(self).contents().len() > old(self).spec_capacity() ==> result == Err::<
                usize,
                RingError,
            >(RingError::Overrun) && *final(self) == *old(self),
            old(self).contents().len() <= old(self).spec_capacity() ==> {
                let n = taken_of(*old(self), data@.len() as int);
                &&& result == Ok::<usize, RingError>(n as usize)
                &&& pushed(*old(self), *final(self), data@.take(n))
            },
    {
        let read: u64 = self.count_at(RING_READ_OFFSET);
        let write: u64 = self.count_at(RING_WRITE_OFFSET);
        match push_spans(read, write, self.capacity, data.len()) {
            Err(e) => Err(e),
            Ok(None) => {
                assert(self.contents() =~= old(self).contents() + data@.take(0));
                Ok(0)
            },
            Ok(Some(spans)) => {
                let n: usize = spans.first + spans.second;
                let ghost before = self.data();
                self.copy_in(&spans, data);
                let ghost after = self.data();
                self.set_offsets(read, write + n as u64);
                proof {
                    let cap = self.capacity as int;
                    let len = (write - read) as int;
                    assert(before.len() == cap && after.len() == cap);
                    assert forall|i: int| 0 <= i < len + n implies after[slot(read + i, cap)] == (
                    old(self).contents() + data@.take(n as int))[i] by {
                        lemma_slot(read as int, i, cap);
                        if i >= len {
                            assert(slot(write + (i - len), cap) == slot(read + i, cap));
                        } else {
                            lemma_other_slot(read as int, i, len, spans, n as int, cap);
                        }
                    }
                    assert(self.contents() =~= old(self).contents() + data@.take(n as int));
                }
                Ok(n)
            },
        }
    }
}

/// How many of `len` bytes a ring has room for.
pub open spec fn taken_of(ring: SharedAudioRing, len: int) -> int {
    let room = ring.spec_capacity() - ring.contents().len();
    if len < room {
        len
    } else {
        room
    }
}

/// True where a ring has taken bytes: they wait behind what waited before.
pub open spec fn pushed(before: SharedAudioRing, after: SharedAudioRing, taken: Seq<u8>) -> bool {
    &&& after.wf()
    &&& after.same_ring(&before)
    &&& after.consumed() == before.consumed()
    &&& after.written() == before.written() + taken.len()
    &&& after.contents() == before.contents() + taken
}

/// True where a ring has given out all that waited: everything that was written has been read.
pub open spec fn drained(before: SharedAudioRing, after: SharedAudioRing) -> bool {
    &&& after.wf()
    &&& after.same_ring(&before)
    &&& after.written() == before.written()
    &&& after.consumed() == (if before.written() > before.consumed() {
        before.written()
    } else {
        before.consumed()
    })
    &&& after.contents() == Seq::<u8>::empty()
}

/// A use of a ring.
pub enum RingStep {
    /// These bytes were pushed.
    Push { taken: Seq<u8> },
    /// These bytes were drained.
    Drain { given: Seq<u8> },
}

/// True where a step leads from one state of a ring to another.
pub open spec fn steps_to(before: SharedAudioRing, step: RingStep, after: SharedAudioRing) -> bool {
    match step {
        RingStep::Push { taken } => pushed(before, after, taken) && before.contents().len()
            + taken.len() <= before.spec_capacity(),
        RingStep::Drain { given } => drained(before, after) && given == before.contents(),
    }
}

/// True of the states that a ring goes through, from the first one on.
pub open spec fn goes_through(rings: Seq<SharedAudioRing>, steps: Seq<RingStep>) -> bool {
    &&& rings.len() == steps.len() + 1
    &&& rings[0].in_use()
    &&& forall|i: int|
        0 <= i < steps.len() ==> #[trigger] steps_to(rings[i], steps[i], rings[i + 1])
}

/// All bytes that were pushed, one behind the other.
pub open spec fn all_taken(steps: Seq<RingStep>) -> Seq<u8>
    decreases steps.len(),
{
    if steps.len() == 0 {
        Seq::empty()
    } else {
        match steps.last() {
            RingStep::Push { taken } => all_taken(steps.drop_last()) + taken,
            RingStep::Drain { .. } => all_taken(steps.drop_last()),
        }
    }
}

/// All bytes that were drained, one behind the other.
pub open spec fn all_given(steps: Seq<RingStep>) -> Seq<u8>
    decreases steps.len(),
{
    if steps.len() == 0 {
        Seq::empty()
    } else {
        match steps.last() {
            RingStep::Push { .. } => all_given(steps.drop_last()),
            RingStep::Drain { given } => all_given(steps.drop_last()) + given,
        }
    }
}

/// A ring is a queue, however often it is pushed to and drained: what has come out, followed by what
/// still waits, is what waited at first, followed by all that was pushed, in that order. The ring
/// can be pushed to and drained again after each step.
pub proof fn bytes_come_out_in_order(rings: Seq<SharedAudioRing>, steps: Seq<RingStep>)
    requires
        goes_through(rings, steps),
    ensures
        rings.last().in_use(),
        rings.last().same_ring(&rings[0]),
        all_given(steps) + rings.last().contents() == rings[0].contents() + all_taken(steps),
    decreases steps.len(),
{
    if steps.len() == 0 {
        assert(all_given(steps) + rings.last().contents() =~= rings[0].contents() + all_taken(
            steps,
        ));
    } else {
        let fewer = steps.drop_last();
        let before = rings.drop_last();
        assert forall|i: int| 0 <= i < fewer.len() implies #[trigger] steps_to(
            before[i],
            fewer[i],
            before[i + 1],
        ) by {
            assert(steps_to(rings[i], steps[i], rings[i + 1]));
        }
        bytes_come_out_in_order(before, fewer);
        let n = steps.len() - 1;
        assert(steps_to(rings[n], steps[n], rings[n + 1]));
        let ring = rings[n];
        match steps.last() {
            RingStep::Push { taken } => {
                assert(all_given(steps) + (ring.contents() + taken) =~= (all_given(fewer)
                    + ring.contents()) + taken);
                assert(rings[0].contents() + all_taken(steps) =~= (rings[0].contents() + all_taken(
                    fewer,
                )) + taken);
            },
            RingStep::Drain { given } => {
                assert(all_given(steps) + Seq::<u8>::empty() =~= all_given(fewer) + ring.contents());
            },
        }
    }
}

/// Bytes that are pushed and then drained come out behind what waited, also where they run round the
/// end of the data. All of them have then been read, and a second drain gives nothing. `out` is where
/// the drains append to: as it is before, after the first and after the second.
pub proof fn pushed_bytes_are_drained(
    before: SharedAudioRing,
    full: SharedAudioRing,
    after: SharedAudioRing,
    again: SharedAudioRing,
    data: Seq<u8>,
    out: (Seq<u8>, Seq<u8>, Seq<u8>),
)
    requires
        before.in_use(),
        pushed(before, full, data.take(taken_of(before, data.len() as int))),
        drained(full, after),
        out.1 == out.0 + full.contents(),
        drained(after, again),
        out.2 == out.1 + after.contents(),
    ensures
        ({
            let n = taken_of(before, data.len() as int);
            &&& full.in_use()
            &&& full.contents() == before.contents() + data.take(n)
            &&& full.contents().len() <= full.spec_capacity()
            &&& out.1 == out.0 + before.contents() + data.take(n)
            &&& out.2 == out.1
            &&& after.in_use()
            &&& after.written() == before.written() + n
            &&& after.consumed() == after.written()
            &&& after.contents() == Seq::<u8>::empty()
            &&& again.consumed() == after.consumed()
            &&& again.written() == after.written()
        }),
{
}

/// The slots of waiting bytes lie outside the runs that new bytes go to.
proof fn lemma_other_slot(read: int, i: int, len: int, spans: Spans, n: int, capacity: int)
    requires
        0 <= read,
        0 <= i < len,
        0 < n,
        len + n <= capacity,
        spans.covers(read + len, n, capacity),
    ensures
        ({
            let s = slot(read + i, capacity);
            !(spans.start <= s < spans.start + spans.first) && !(0 <= s < spans.second)
        }),
{
    let s = slot(read + i, capacity);
    lemma_slot(read, i, capacity);
    if spans.start <= s < spans.start + spans.first {
        let k = s - spans.start;
        assert(slot(read + len + k, capacity) == s);
        lemma_slot(read, len + k, capacity);
    }
    if 0 <= s < spans.second {
        let k = s + spans.first;
        assert(slot(read + len + k, capacity) == s);
        lemma_slot(read, len + k, capacity);
    }
}

} // verus!
