use vstd::prelude::*;

use crate::error::DecodeError;

verus! {

/// How many of the latest bytes a back-reference can reach.
pub const HISTORY_SIZE: usize = 32768;

/// The CRC-32/ISO-HDLC checksum of a byte string.
pub uninterp spec fn crc32_of(data: Seq<u8>) -> u32;

/// Relies on `crc::Crc::<u32>::checksum` with the `CRC_32_ISO_HDLC` parameters: the checksum
/// is a function of the bytes alone, and that of no bytes is zero (initial value and final
/// xor are both 0xFFFFFFFF).
#[verifier::external_body]
pub(crate) fn crc32_checksum(data: &[u8]) -> (r: u32)
    ensures
        r == crc32_of(data@),
        data@.len() == 0 ==> r == 0,
{
    crc::Crc::<u32>::new(&crc::CRC_32_ISO_HDLC).checksum(data)
}

pub open spec fn min_nat(a: nat, b: nat) -> nat {
    if a <= b {
        a
    } else {
        b
    }
}

/// An in-memory output that accepts bytes until it holds `capacity` of them.
pub struct ByteSink {
    data: Vec<u8>,
    capacity: usize,
}

impl ByteSink {
    /// The bytes accepted so far.
    pub closed spec fn contents(&self) -> Seq<u8> {
        self.data@
    }

    /// The most bytes the sink will ever hold.
    pub closed spec fn limit(&self) -> nat {
        self.capacity as nat
    }

    pub open spec fn wf(&self) -> bool {
        self.contents().len() <= self.limit()
    }

    /// How many more bytes the sink accepts.
    pub open spec fn room(&self) -> nat {
        (self.limit() - self.contents().len()) as nat
    }

    /// A sink that accepts every byte that fits in memory.
    pub fn new() -> (r: Self)
        ensures
            r.wf(),
            r.contents().len() == 0,
            r.limit() == usize::MAX,
    {
        ByteSink { data: Vec::new(), capacity: usize::MAX }
    }

    /// A sink that accepts at most `capacity` bytes.
    pub fn with_capacity(capacity: usize) -> (r: Self)
        ensures
            r.wf(),
            r.contents().len() == 0,
            r.limit() == capacity,
    {
        ByteSink { data: Vec::new(), capacity }
    }

    pub fn len(&self) -> (n: usize)
        ensures
            n == self.contents().len(),
    {
        self.data.len()
    }

    pub fn as_slice(&self) -> (s: &[u8])
        ensures
            s@ == self.contents(),
    {
        self.data.as_slice()
    }

    pub fn into_vec(self) -> (v: Vec<u8>)
        ensures
            v@ == self.contents(),
    {
        self.data
    }

    /// Accepts as many leading bytes of `buf` as there is room for and returns their number.
    pub fn write(&mut self, buf: &[u8]) -> (k: usize)
        requires
            old(self).wf(),
        ensures
            final(self).wf(),
            final(self).limit() == old(self).limit(),
            k == min_nat(buf@.len(), old(self).room()),
            final(self).contents() == old(self).contents() + buf@.take(k as int),
    {
        let room = self.capacity - self.data.len();
        let k = if buf.len() <= room {
            buf.len()
        } else {
            room
        };
        let mut i: usize = 0;
        while i < k
            invariant
                i <= k,
                k <= buf@.len(),
                k <= old(self).room(),
                self.capacity == old(self).capacity,
                self.data@ == old(self).data@ + buf@.take(i as int),
            decreases k - i,
        {
            self.data.push(buf[i]);
            i = i + 1;
            assert(self.data@ =~= old(self).data@ + buf@.take(i as int));
        }
        k
    }
}

/// The bytes that a back-reference of `len` bytes at distance `dist` produces after `out`:
/// the last `dist` bytes of `out`, read cyclically.
pub open spec fn expansion(out: Seq<u8>, dist: nat, len: nat) -> Seq<u8> {
    Seq::new(len, |i: int| out[out.len() - dist + i % (dist as int)])
}

/// Forwards bytes to a sink while counting them, so that back-references can copy the
/// latest of them and the checksum of all of them can be had at the end.
pub struct TrackingWriter {
    inner: ByteSink,
    start: usize,
    byte_count: usize,
}

impl TrackingWriter {
    /// The sink behind the writer.
    pub closed spec fn sink(&self) -> ByteSink {
        self.inner
    }

    /// The bytes that this writer has forwarded to the sink.
    pub closed spec fn emitted(&self) -> Seq<u8> {
        self.inner.contents().subrange(self.start as int, self.inner.contents().len() as int)
    }

    pub closed spec fn wf(&self) -> bool {
        &&& self.inner.wf()
        &&& self.start <= self.inner.contents().len()
        &&& self.byte_count == self.inner.contents().len() - self.start
    }

    /// What the sink held before this writer was made.
    pub closed spec fn base(&self) -> Seq<u8> {
        self.inner.contents().subrange(0, self.start as int)
    }

    pub proof fn lemma_contents(&self)
        requires
            self.wf(),
        ensures
            self.sink().contents() == self.base() + self.emitted(),
            self.sink().wf(),
    {
        assert(self.sink().contents() =~= self.base() + self.emitted());
    }

    /// The bytes a back-reference can reach: the last `HISTORY_SIZE` emitted, or all of them.
    pub open spec fn history(&self) -> Seq<u8> {
        let n = self.emitted().len();
        self.emitted().subrange(n - min_nat(n, HISTORY_SIZE as nat), n as int)
    }

    /// In every state the history holds the last `HISTORY_SIZE` of the bytes counted and
    /// checksummed, or all of them when fewer were written.
    pub proof fn lemma_history_tail(&self)
        requires
            self.wf(),
        ensures
            self.history().len() == min_nat(self.emitted().len(), HISTORY_SIZE as nat),
            self.history() == self.emitted().subrange(
                self.emitted().len() - self.history().len(),
                self.emitted().len() as int,
            ),
    {
    }

    /// A writer over `inner`; what the sink already holds is not part of its history.
    pub fn new(inner: ByteSink) -> (r: Self)
        requires
            inner.wf(),
        ensures
            r.wf(),
            r.sink() == inner,
            r.emitted().len() == 0,
            r.base() == inner.contents(),
    {
        let start = inner.len();
        let r = TrackingWriter { inner, start, byte_count: 0 };
        assert(r.base() =~= inner.contents());
        r
    }

    /// The number of bytes this writer has forwarded.
    pub fn byte_count(&self) -> (n: usize)
        requires
            self.wf(),
        ensures
            n == self.emitted().len(),
    {
        self.byte_count
    }

    /// Forwards `buf` to the sink and returns how many of its bytes the sink took.
    pub fn write(&mut self, buf: &[u8]) -> (k: usize)
        requires
            old(self).wf(),
        ensures
            final(self).wf(),
            k == min_nat(buf@.len(), old(self).sink().room()),
            final(self).emitted() == old(self).emitted() + buf@.take(k as int),
            final(self).sink().contents() == old(self).sink().contents() + buf@.take(k as int),
            final(self).sink().limit() == old(self).sink().limit(),
            final(self).base() == old(self).base(),
            final(self).history().len() == min_nat(
                final(self).emitted().len(),
                HISTORY_SIZE as nat,
            ),
    {
        let k = self.inner.write(buf);
        self.byte_count = self.byte_count + k;
        assert(self.emitted() =~= old(self).emitted() + buf@.take(k as int));
        assert(self.base() =~= old(self).base());
        k
    }

    /// Forwards all of `buf`, or fails with `SinkFull` once the sink has taken what it can.
    pub fn write_all(&mut self, buf: &[u8]) -> (r: Result<(), DecodeError>)
        requires
            old(self).wf(),
        ensures
            final(self).wf(),
            final(self).emitted() == old(self).emitted() + buf@.take(
                min_nat(buf@.len(), old(self).sink().room()) as int,
            ),
            final(self).sink().limit() == old(self).sink().limit(),
            final(self).base() == old(self).base(),
            r is Ok <==> buf@.len() <= old(self).sink().room(),
            r is Err ==> r == Err::<(), DecodeError>(DecodeError::SinkFull),
    {
        let k = self.write(buf);
        if k < buf.len() {
            Err(DecodeError::SinkFull)
        } else {
            Ok(())
        }
    }

    /// Forwards one byte.
    pub fn write_u8(&mut self, b: u8) -> (r: Result<(), DecodeError>)
        requires
            old(self).wf(),
        ensures
            final(self).wf(),
            final(self).sink().limit() == old(self).sink().limit(),
            final(self).base() == old(self).base(),
            old(self).sink().room() >= 1 ==> r is Ok && final(self).emitted() == old(
                self,
            ).emitted().push(b),
            old(self).sink().room() < 1 ==> r == Err::<(), DecodeError>(DecodeError::SinkFull)
                && final(self).emitted() == old(self).emitted(),
    {
        let buf = [b];
        let r = self.write_all(buf.as_slice());
        assert(buf@ =~= seq![b]);
        assert(old(self).emitted().push(b) =~= old(self).emitted() + seq![b].take(1));
        assert(old(self).emitted() =~= old(self).emitted() + seq![b].take(0));
        r
    }

    /// Writes again `len` bytes that were written `dist` bytes ago. Where `len > dist` the
    /// copy reads the bytes it is writing, so the last `dist` bytes repeat.
    pub fn write_previous(&mut self, dist: usize, len: usize) -> (r: Result<(), DecodeError>)
        requires
            old(self).wf(),
        ensures
            final(self).wf(),
            final(self).sink().limit() == old(self).sink().limit(),
            final(self).base() == old(self).base(),
            (dist == 0 || len == 0 || dist > old(self).history().len()) ==> r == Err::<
                (),
                DecodeError,
            >(DecodeError::BadBackReference) && *final(self) == *old(self),
            !(dist == 0 || len == 0 || dist > old(self).history().len()) ==> {
                let copy = expansion(old(self).emitted(), dist as nat, len as nat);
                &&& final(self).emitted() == old(self).emitted() + copy.take(
                    min_nat(len as nat, old(self).sink().room()) as int,
                )
                &&& (r is Ok <==> len <= old(self).sink().room())
                &&& (r is Err ==> r == Err::<(), DecodeError>(DecodeError::SinkFull))
            },
    {
        let hist_len = if self.byte_count < HISTORY_SIZE {
            self.byte_count
        } else {
            HISTORY_SIZE
        };
        if dist == 0 || len == 0 || dist > hist_len {
            return Err(DecodeError::BadBackReference);
        }
        let end = self.inner.data.len();
        let from = end - dist;
        let ghost out = self.emitted();
        let mut copy: Vec<u8> = Vec::new();
        let mut i: usize = 0;
        while i < len
            invariant
                self.wf(),
                self.emitted() == out,
                end == self.inner.data.len(),
                0 < dist <= out.len(),
                from == end - dist,
                i <= len,
                copy@ == expansion(out, dist as nat, len as nat).take(i as int),
            decreases len - i,
        {
            assert(self.inner.data@[from + (i % dist) as int] == out[out.len() - dist + (i as int)
                % (dist as int)]);
            copy.push(self.inner.data[from + i % dist]);
            i = i + 1;
            assert(copy@ =~= expansion(out, dist as nat, len as nat).take(i as int));
        }
        assert(copy@ =~= expansion(out, dist as nat, len as nat));
        self.write_all(copy.as_slice())
    }

    /// Hands back the checksum of all the bytes this writer forwarded, and the sink.
    pub fn crc32(self) -> (r: (u32, ByteSink))
        requires
            self.wf(),
        ensures
            r.0 == crc32_of(self.emitted()),
            r.1 == self.sink(),
            r.1.wf(),
            r.1.contents() == self.base() + self.emitted(),
    {
        proof {
            self.lemma_contents();
        }
        let all = self.inner.as_slice();
        let mine = vstd::slice::slice_subrange(all, self.start, all.len());
        let c = crc32_checksum(mine);
        (c, self.inner)
    }
}

/// Copying at distance one repeats the last byte.
pub proof fn lemma_distance_one_repeats(out: Seq<u8>, len: nat)
    requires
        out.len() >= 1,
    ensures
        expansion(out, 1, len) == Seq::new(len, |i: int| out.last()),
{
    assert forall|i: int| 0 <= i < len implies #[trigger] expansion(out, 1, len)[i] == out.last() by {
        assert(i % 1 == 0);
    }
    assert(expansion(out, 1, len) =~= Seq::new(len, |i: int| out.last()));
}

/// Copying as many bytes as the distance duplicates the last `dist` bytes once.
pub proof fn lemma_distance_equal_length_duplicates(out: Seq<u8>, dist: nat)
    requires
        1 <= dist <= out.len(),
    ensures
        expansion(out, dist, dist) == out.subrange(out.len() - dist, out.len() as int),
{
    assert forall|i: int| 0 <= i < dist implies #[trigger] expansion(out, dist, dist)[i] == out[out.len()
        - dist + i] by {
        vstd::arithmetic::div_mod::lemma_small_mod(i as nat, dist);
    }
    assert(expansion(out, dist, dist) =~= out.subrange(out.len() - dist, out.len() as int));
}

} // verus!
