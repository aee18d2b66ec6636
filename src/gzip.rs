use vstd::prelude::*;

use crate::bit_reader::{le_u16, le_u32, BitReader, ByteReader};
use crate::deflate::DeflateReader;
use crate::error::DecodeError;
use crate::tracking_writer::{crc32_checksum, crc32_of, ByteSink, TrackingWriter};

verus! {

pub const ID1: u8 = 0x1f;

pub const ID2: u8 = 0x8b;

pub const CM_DEFLATE: u8 = 8;

pub const FTEXT_OFFSET: u8 = 0;

pub const FHCRC_OFFSET: u8 = 1;

pub const FEXTRA_OFFSET: u8 = 2;

pub const FNAME_OFFSET: u8 = 3;

pub const FCOMMENT_OFFSET: u8 = 4;

/// Whether bit `n` of the flag byte `v` is set.
pub open spec fn flag_bit(v: u8, n: u8) -> bool {
    (v >> n) & 1u8 != 0
}

/// The compression method byte of a member.
#[derive(Debug, Clone, Copy, PartialEq, Eq, Structural)]
pub enum CompressionMethod {
    Deflate,
    Unknown(u8),
}

pub open spec fn method_of(v: u8) -> CompressionMethod {
    if v == CM_DEFLATE {
        CompressionMethod::Deflate
    } else {
        CompressionMethod::Unknown(v)
    }
}

pub open spec fn method_byte(m: CompressionMethod) -> u8 {
    match m {
        CompressionMethod::Deflate => CM_DEFLATE,
        CompressionMethod::Unknown(x) => x,
    }
}

impl From<u8> for CompressionMethod {
    fn from(value: u8) -> (r: Self)
        ensures
            r == method_of(value),
    {
        if value == CM_DEFLATE {
            CompressionMethod::Deflate
        } else {
            CompressionMethod::Unknown(value)
        }
    }
}

impl vstd::std_specs::convert::FromSpecImpl<u8> for CompressionMethod {
    open spec fn obeys_from_spec() -> bool {
        true
    }

    open spec fn from_spec(v: u8) -> Self {
        method_of(v)
    }
}

impl From<CompressionMethod> for u8 {
    fn from(method: CompressionMethod) -> (r: u8)
        ensures
            r == method_byte(method),
    {
        match method {
            CompressionMethod::Deflate => CM_DEFLATE,
            CompressionMethod::Unknown(x) => x,
        }
    }
}

impl vstd::std_specs::convert::FromSpecImpl<CompressionMethod> for u8 {
    open spec fn obeys_from_spec() -> bool {
        true
    }

    open spec fn from_spec(m: CompressionMethod) -> Self {
        method_byte(m)
    }
}

/// The flag byte of a member header.
#[derive(Debug)]
pub struct MemberFlags(u8);

impl MemberFlags {
    pub closed spec fn value(&self) -> u8 {
        self.0
    }

    fn bit(&self, n: u8) -> (r: bool)
        requires
            n < 8,
        ensures
            r == flag_bit(self.value(), n),
    {
        (self.0 >> n) & 1 != 0
    }

    fn set_bit(&mut self, n: u8, value: bool)
        requires
            n < 8,
        ensures
            flag_bit(final(self).value(), n) == value,
            forall|m: u8| m < 8 && m != n ==> flag_bit(final(self).value(), m) == flag_bit(old(self).value(), m),
    {
        let v = self.0;
        if value {
            self.0 = v | (1u8 << n);
            assert(forall|m: u8| m < 8 && m != n ==> ((v | (1u8 << n)) >> m) & 1u8 == (v >> m) & 1u8) by (bit_vector)
                requires
                    n < 8,
            ;
            assert(((v | (1u8 << n)) >> n) & 1u8 != 0) by (bit_vector)
                requires
                    n < 8,
            ;
        } else {
            self.0 = v & !(1u8 << n);
            assert(forall|m: u8| m < 8 && m != n ==> ((v & !(1u8 << n)) >> m) & 1u8 == (v >> m) & 1u8) by (bit_vector)
                requires
                    n < 8,
            ;
            assert(((v & !(1u8 << n)) >> n) & 1u8 == 0) by (bit_vector)
                requires
                    n < 8,
            ;
        }
    }

    pub fn is_text(&self) -> (r: bool)
        ensures
            r == flag_bit(self.value(), FTEXT_OFFSET),
    {
        self.bit(FTEXT_OFFSET)
    }

    pub fn set_is_text(&mut self, value: bool)
        ensures
            flag_bit(final(self).value(), FTEXT_OFFSET) == value,
            forall|m: u8| m < 8 && m != FTEXT_OFFSET ==> flag_bit(final(self).value(), m) == flag_bit(old(self).value(), m),
    {
        self.set_bit(FTEXT_OFFSET, value)
    }

    pub fn has_crc(&self) -> (r: bool)
        ensures
            r == flag_bit(self.value(), FHCRC_OFFSET),
    {
        self.bit(FHCRC_OFFSET)
    }

    pub fn set_has_crc(&mut self, value: bool)
        ensures
            flag_bit(final(self).value(), FHCRC_OFFSET) == value,
            forall|m: u8| m < 8 && m != FHCRC_OFFSET ==> flag_bit(final(self).value(), m) == flag_bit(old(self).value(), m),
    {
        self.set_bit(FHCRC_OFFSET, value)
    }

    pub fn has_extra(&self) -> (r: bool)
        ensures
            r == flag_bit(self.value(), FEXTRA_OFFSET),
    {
        self.bit(FEXTRA_OFFSET)
    }

    pub fn set_has_extra(&mut self, value: bool)
        ensures
            flag_bit(final(self).value(), FEXTRA_OFFSET) == value,
            forall|m: u8| m < 8 && m != FEXTRA_OFFSET ==> flag_bit(final(self).value(), m) == flag_bit(old(self).value(), m),
    {
        self.set_bit(FEXTRA_OFFSET, value)
    }

    pub fn has_name(&self) -> (r: bool)
        ensures
            r == flag_bit(self.value(), FNAME_OFFSET),
    {
        self.bit(FNAME_OFFSET)
    }

    pub fn set_has_name(&mut self, value: bool)
        ensures
            flag_bit(final(self).value(), FNAME_OFFSET) == value,
            forall|m: u8| m < 8 && m != FNAME_OFFSET ==> flag_bit(final(self).value(), m) == flag_bit(old(self).value(), m),
    {
        self.set_bit(FNAME_OFFSET, value)
    }

    pub fn has_comment(&self) -> (r: bool)
        ensures
            r == flag_bit(self.value(), FCOMMENT_OFFSET),
    {
        self.bit(FCOMMENT_OFFSET)
    }

    pub fn set_has_comment(&mut self, value: bool)
        ensures
            flag_bit(final(self).value(), FCOMMENT_OFFSET) == value,
            forall|m: u8| m < 8 && m != FCOMMENT_OFFSET ==> flag_bit(final(self).value(), m) == flag_bit(old(self).value(), m),
    {
        self.set_bit(FCOMMENT_OFFSET, value)
    }
}


/// The index of the first zero byte of `s` at or after `k`.
pub open spec fn nul_index(s: Seq<u8>, k: int) -> Option<int>
    decreases s.len() - k,
{
    if k < 0 || k >= s.len() {
        None
    } else if s[k] == 0 {
        Some(k)
    } else {
        nul_index(s, k + 1)
    }
}

/// Where a zero-terminated header string that starts at `k` of the member `s` ends (after
/// its zero byte), or `k` where the header has none.
pub open spec fn string_end(s: Seq<u8>, k: int, present: bool) -> Option<int> {
    if !present {
        Some(k)
    } else {
        match nul_index(s, k) {
            Some(i) => Some(i + 1),
            None => None,
        }
    }
}

/// Where the extra field of the member `s` ends, or 10 where the header has none.
pub open spec fn extra_end(s: Seq<u8>) -> Option<int> {
    if !flag_bit(s[3], FEXTRA_OFFSET) {
        Some(10)
    } else if s.len() < 12 {
        None
    } else {
        let e = 12 + le_u16(s[10], s[11]);
        if e > s.len() {
            None
        } else {
            Some(e as int)
        }
    }
}

/// Where the fields of the header at the start of `s` end, before its optional checksum;
/// none where they are cut short.
pub open spec fn fields_end(s: Seq<u8>) -> Option<int> {
    if s.len() < 10 {
        None
    } else {
        match extra_end(s) {
            None => None,
            Some(a) => match string_end(s, a, flag_bit(s[3], FNAME_OFFSET)) {
                None => None,
                Some(b) => string_end(s, b, flag_bit(s[3], FCOMMENT_OFFSET)),
            },
        }
    }
}

/// The length of the well-formed member header at the start of `s`, its checksum field
/// included; none where it is cut short, lacks the magic bytes or fails its checksum.
pub open spec fn header_len(s: Seq<u8>) -> Option<int> {
    if s.len() < 2 || s[0] != ID1 || s[1] != ID2 {
        None
    } else {
        match fields_end(s) {
            None => None,
            Some(c) => if !flag_bit(s[3], FHCRC_OFFSET) {
                Some(c)
            } else if s.len() < c + 2 {
                None
            } else if le_u16(s[c], s[c + 1]) == crc32_of(s.take(c)) as nat % 65536 {
                Some(c + 2)
            } else {
                None
            },
        }
    }
}

proof fn lemma_nul_found(s: Seq<u8>, k: int, j: int)
    requires
        0 <= k <= j < s.len(),
        forall|i: int| k <= i < j ==> s[i] != 0,
        s[j] == 0,
    ensures
        nul_index(s, k) == Some(j),
    decreases j - k,
{
    if k < j {
        lemma_nul_found(s, k + 1, j);
    }
}

proof fn lemma_nul_none(s: Seq<u8>, k: int)
    requires
        0 <= k,
        forall|i: int| k <= i < s.len() ==> s[i] != 0,
    ensures
        nul_index(s, k) is None,
    decreases s.len() - k,
{
    if k < s.len() {
        lemma_nul_none(s, k + 1);
    }
}

proof fn lemma_string_at(rest: Seq<u8>, a: int, v: Seq<u8>)
    requires
        0 <= a,
        a + v.len() + 1 <= rest.len(),
        string_read(rest.subrange(a, rest.len() as int), v),
    ensures
        nul_index(rest, a) == Some(a + v.len()),
        v == rest.subrange(a, a + v.len()),
        string_end(rest, a, true) == Some(a + v.len() + 1),
{
    let cur = rest.subrange(a, rest.len() as int);
    assert(v.push(0).len() == v.len() + 1);
    assert(cur.take(v.len() + 1int).len() == v.len() + 1);
    assert forall|i: int| 0 <= i < v.len() implies v[i] == rest[a + i] by {
        assert(v.push(0)[i] == cur.take(v.len() + 1int)[i]);
    }
    assert forall|i: int| a <= i < a + v.len() implies rest[i] != 0 by {
        assert(v[i - a] == rest[a + (i - a)]);
    }
    assert(v.push(0)[v.len() as int] == cur.take(v.len() + 1int)[v.len() as int]);
    lemma_nul_found(rest, a, a + v.len());
    assert(v =~= rest.subrange(a, a + v.len()));
}

/// A zero-terminated string `v` was read from the start of `rest`.
pub open spec fn string_read(rest: Seq<u8>, v: Seq<u8>) -> bool {
    &&& v.push(0) == rest.take(v.len() + 1int)
    &&& forall|i: int| 0 <= i < v.len() ==> v[i] != 0
}

/// The fields of a member header.
#[derive(Debug)]
pub struct MemberHeader {
    pub compression_method: CompressionMethod,
    pub modification_time: u32,
    pub extra: Option<Vec<u8>>,
    /// The file name, without its terminating zero byte.
    pub name: Option<Vec<u8>>,
    /// The comment, without its terminating zero byte.
    pub comment: Option<Vec<u8>>,
    pub extra_flags: u8,
    pub os: u8,
    pub has_crc: bool,
    pub is_text: bool,
}

/// The flag byte that describes a header.
pub open spec fn header_flag_byte(h: MemberHeader) -> u8 {
    ((if h.is_text { 1nat } else { 0nat }) + (if h.has_crc { 2nat } else { 0nat }) + (if h.extra is Some {
        4nat
    } else {
        0nat
    }) + (if h.name is Some { 8nat } else { 0nat }) + (if h.comment is Some { 16nat } else { 0nat })) as u8
}

/// A zero-terminated header string as it stands in the header.
pub open spec fn terminated(o: Option<Vec<u8>>) -> Seq<u8> {
    match o {
        Some(v) => v@.push(0),
        None => Seq::empty(),
    }
}

/// The bytes of a header up to its checksum field.
pub open spec fn header_bytes(h: MemberHeader) -> Seq<u8> {
    let m = h.modification_time as nat;
    seq![
        ID1,
        ID2,
        method_byte(h.compression_method),
        header_flag_byte(h),
        (m % 256) as u8,
        ((m / 256) % 256) as u8,
        ((m / 65536) % 256) as u8,
        (m / 16777216) as u8,
        h.extra_flags,
        h.os,
    ] + match h.extra {
        Some(e) => seq![(e@.len() % 256) as u8, (e@.len() / 256) as u8] + e@,
        None => Seq::empty(),
    } + terminated(h.name) + terminated(h.comment)
}

fn append_bytes(out: &mut Vec<u8>, src: &[u8])
    ensures
        final(out)@ == old(out)@ + src@,
{
    let mut i: usize = 0;
    while i < src.len()
        invariant
            i <= src@.len(),
            out@ == old(out)@ + src@.take(i as int),
        decreases src@.len() - i,
    {
        out.push(src[i]);
        i = i + 1;
        assert(out@ =~= old(out)@ + src@.take(i as int));
    }
    assert(src@.take(src@.len() as int) =~= src@);
}

impl MemberHeader {
    /// The low 16 bits of the CRC-32 of the header's bytes.
    pub fn crc16(&self) -> (r: u16)
        requires
            self.extra is Some ==> self.extra->Some_0@.len() <= 65535,
        ensures
            r as nat == crc32_of(header_bytes(*self)) as nat % 65536,
    {
        let mut bytes: Vec<u8> = Vec::new();
        let method: u8 = u8::from(self.compression_method);
        let flags = self.flags();
        let m = self.modification_time;
        bytes.push(ID1);
        bytes.push(ID2);
        bytes.push(method);
        bytes.push(flags.0);
        bytes.push((m % 256) as u8);
        bytes.push(((m / 256) % 256) as u8);
        bytes.push(((m / 65536) % 256) as u8);
        bytes.push((m / 16777216) as u8);
        bytes.push(self.extra_flags);
        bytes.push(self.os);
        let ghost fixed = bytes@;
        match &self.extra {
            Some(extra) => {
                let n = extra.len();
                bytes.push((n % 256) as u8);
                bytes.push((n / 256) as u8);
                append_bytes(&mut bytes, extra.as_slice());
            },
            None => {},
        }
        let ghost with_extra = bytes@;
        match &self.name {
            Some(name) => {
                append_bytes(&mut bytes, name.as_slice());
                bytes.push(0);
            },
            None => {},
        }
        let ghost with_name = bytes@;
        match &self.comment {
            Some(comment) => {
                append_bytes(&mut bytes, comment.as_slice());
                bytes.push(0);
            },
            None => {},
        }
        proof {
            assert(with_extra =~= fixed + match self.extra {
                Some(e) => seq![(e@.len() % 256) as u8, (e@.len() / 256) as u8] + e@,
                None => Seq::empty(),
            });
            assert(with_name =~= with_extra + terminated(self.name));
            assert(bytes@ =~= with_name + terminated(self.comment));
            assert(bytes@ =~= header_bytes(*self));
        }
        let c = crc32_checksum(bytes.as_slice());
        assert(c & 0xffff == c % 65536) by (bit_vector);
        (c & 0xffff) as u16
    }

    /// The flag byte that this header is written with.
    pub fn flags(&self) -> (r: MemberFlags)
        ensures
            r.value() == header_flag_byte(*self),
    {
        let mut v: u8 = 0;
        if self.is_text {
            v = v + 1;
        }
        if self.has_crc {
            v = v + 2;
        }
        if self.extra.is_some() {
            v = v + 4;
        }
        if self.name.is_some() {
            v = v + 8;
        }
        if self.comment.is_some() {
            v = v + 16;
        }
        MemberFlags(v)
    }
}

/// The footer at byte `k` of `data` records the checksum and the size of `member`.
pub open spec fn footer_matches(data: Seq<u8>, k: int, member: Seq<u8>) -> bool {
    &&& 0 <= k
    &&& k + 8 <= data.len()
    &&& le_u32(data[k], data[k + 1], data[k + 2], data[k + 3]) == crc32_of(member) as nat
    &&& le_u32(data[k + 4], data[k + 5], data[k + 6], data[k + 7]) == member.len() % 0x1_0000_0000
}

/// The two fields that close a member.
#[derive(Debug)]
pub struct MemberFooter {
    pub data_crc32: u32,
    pub data_size: u32,
}

/// A gzip stream at a member boundary, with the sink that decoded members go to.
pub struct GzipReader {
    reader: ByteReader,
    underlying_writer: ByteSink,
}

impl GzipReader {
    pub closed spec fn reader(&self) -> ByteReader {
        self.reader
    }

    pub closed spec fn writer(&self) -> ByteSink {
        self.underlying_writer
    }

    pub open spec fn wf(&self) -> bool {
        self.reader().wf() && self.writer().wf()
    }

    pub fn new(reader: ByteReader, underlying_writer: ByteSink) -> (r: Self)
        ensures
            r.reader() == reader,
            r.writer() == underlying_writer,
    {
        Self { reader, underlying_writer }
    }

    /// Whether the input holds no further member.
    pub fn is_empty(&self) -> (r: bool)
        requires
            self.wf(),
        ensures
            r == (self.reader().rest().len() == 0),
    {
        self.reader.is_empty()
    }

    /// Hands back the sink.
    pub fn into_writer(self) -> (r: ByteSink)
        ensures
            r == self.writer(),
    {
        self.underlying_writer
    }

    /// Reads a member header and starts decoding the member's compressed data.
    pub fn next_member(self) -> (r: Result<(MemberHeader, DeflateReader), DecodeError>)
        requires
            self.wf(),
        ensures
            ({
                let rest = self.reader().rest();
                &&& rest.len() < 2 ==> r == Err::<(MemberHeader, DeflateReader), DecodeError>(
                    DecodeError::UnexpectedEnd,
                )
                &&& rest.len() >= 2 && (rest[0] != ID1 || rest[1] != ID2) ==> r == Err::<
                    (MemberHeader, DeflateReader),
                    DecodeError,
                >(DecodeError::BadMagic)
                &&& rest.len() >= 4 && rest[0] == ID1 && rest[1] == ID2 && rest[2] != CM_DEFLATE
                    ==> r is Err
                &&& (r is Ok <==> header_len(rest) is Some && rest[2] == CM_DEFLATE)
                &&& (header_len(rest) is Some && rest[2] != CM_DEFLATE ==> r == Err::<
                    (MemberHeader, DeflateReader),
                    DecodeError,
                >(DecodeError::UnsupportedMethod))
                &&& (r is Ok ==> r->Ok_0.1.reader().bit_pos() == (self.reader().position()
                    + header_len(rest)->Some_0) * 8 && r->Ok_0.1.reader().pending() == 0)
            }),
            r is Ok ==> {
                let (h, d) = r->Ok_0;
                let rest = self.reader().rest();
                &&& d.wf()
                &&& !d.exhausted()
                &&& rest.len() >= 10
                &&& rest[0] == ID1 && rest[1] == ID2 && rest[2] == CM_DEFLATE
                &&& h.compression_method == CompressionMethod::Deflate
                &&& h.modification_time as nat == le_u32(rest[4], rest[5], rest[6], rest[7])
                &&& h.extra_flags == rest[8] && h.os == rest[9]
                &&& h.is_text == flag_bit(rest[3], FTEXT_OFFSET)
                &&& h.has_crc == flag_bit(rest[3], FHCRC_OFFSET)
                &&& (h.extra is Some) == flag_bit(rest[3], FEXTRA_OFFSET)
                &&& (h.name is Some) == flag_bit(rest[3], FNAME_OFFSET)
                &&& (h.comment is Some) == flag_bit(rest[3], FCOMMENT_OFFSET)
                &&& d.reader().bytes() == self.reader().bytes()
                &&& d.reader().bit_pos() >= (self.reader().position() + 10) * 8
                &&& d.writer().sink() == self.writer()
                &&& d.writer().emitted().len() == 0
                &&& d.writer().base() == self.writer().contents()
            },
    {
        let mut this = self;
        let header = this.read_header()?;
        match header.compression_method {
            CompressionMethod::Unknown(_) => Err(DecodeError::UnsupportedMethod),
            CompressionMethod::Deflate => {
                let bits = BitReader::new(this.reader);
                let writer = TrackingWriter::new(this.underlying_writer);
                Ok((header, DeflateReader::new(bits, writer)))
            },
        }
    }

    #[verifier::rlimit(100)]
    fn read_header(&mut self) -> (r: Result<MemberHeader, DecodeError>)
        requires
            old(self).wf(),
        ensures
            final(self).wf(),
            final(self).reader().bytes() == old(self).reader().bytes(),
            final(self).writer() == old(self).writer(),
            ({
                let rest = old(self).reader().rest();
                &&& rest.len() < 2 ==> r == Err::<MemberHeader, DecodeError>(DecodeError::UnexpectedEnd)
                &&& rest.len() >= 2 && (rest[0] != ID1 || rest[1] != ID2) ==> r == Err::<
                    MemberHeader,
                    DecodeError,
                >(DecodeError::BadMagic)
                &&& rest.len() >= 2 && rest[0] == ID1 && rest[1] == ID2 ==> match fields_end(rest) {
                    None => r is Err,
                    Some(c) => if !flag_bit(rest[3], FHCRC_OFFSET) {
                        r is Ok && final(self).reader().position() == old(self).reader().position() + c
                    } else if rest.len() < c + 2 {
                        r == Err::<MemberHeader, DecodeError>(DecodeError::UnexpectedEnd)
                    } else if le_u16(rest[c], rest[c + 1]) == crc32_of(rest.take(c)) as nat % 65536 {
                        r is Ok && final(self).reader().position() == old(self).reader().position() + c
                            + 2
                    } else {
                        r == Err::<MemberHeader, DecodeError>(DecodeError::HeaderCrcMismatch)
                    },
                }
                &&& (r is Ok <==> header_len(rest) is Some)
                &&& (r is Ok ==> final(self).reader().position() == old(self).reader().position()
                    + header_len(rest)->Some_0)
                &&& r is Ok ==> {
                    let h = r->Ok_0;
                    let a = extra_end(rest)->Some_0;
                    let b = string_end(rest, a, flag_bit(rest[3], FNAME_OFFSET))->Some_0;
                    let c = string_end(rest, b, flag_bit(rest[3], FCOMMENT_OFFSET))->Some_0;
                    &&& rest.len() >= 10
                    &&& rest[0] == ID1 && rest[1] == ID2
                    &&& fields_end(rest) == Some(c)
                    &&& h.compression_method == method_of(rest[2])
                    &&& h.modification_time as nat == le_u32(rest[4], rest[5], rest[6], rest[7])
                    &&& h.extra_flags == rest[8] && h.os == rest[9]
                    &&& h.is_text == flag_bit(rest[3], FTEXT_OFFSET)
                    &&& h.has_crc == flag_bit(rest[3], FHCRC_OFFSET)
                    &&& (h.extra is Some) == flag_bit(rest[3], FEXTRA_OFFSET)
                    &&& (h.name is Some) == flag_bit(rest[3], FNAME_OFFSET)
                    &&& (h.comment is Some) == flag_bit(rest[3], FCOMMENT_OFFSET)
                    &&& (h.extra is Some ==> h.extra->Some_0@ == rest.subrange(12, a))
                    &&& (h.name is Some ==> h.name->Some_0@ == rest.subrange(a, b - 1))
                    &&& (h.comment is Some ==> h.comment->Some_0@ == rest.subrange(b, c - 1))
                    &&& final(self).reader().position() >= old(self).reader().position() + 10
                }
            }),
    {
        let ghost rest = self.reader.rest();
        let ghost p0 = self.reader.position();
        let start = self.reader.pos();
        let id1 = self.reader.read_u8()?;
        let id2 = self.reader.read_u8()?;
        if id1 != ID1 || id2 != ID2 {
            return Err(DecodeError::BadMagic);
        }
        let compression_method = CompressionMethod::from(self.reader.read_u8()?);
        let member_flags = MemberFlags(self.reader.read_u8()?);
        let modification_time = self.reader.read_u32_le()?;
        let extra_flags = self.reader.read_u8()?;
        let os = self.reader.read_u8()?;
        proof {
            assert(rest.len() >= 10);
            assert(self.reader.rest() =~= rest.subrange(10, rest.len() as int));
        }
        let extra = self.read_extra(member_flags.has_extra())?;
        let ghost a = extra_end(rest)->Some_0;
        proof {
            assert(extra_end(rest) is Some);
            assert(self.reader.position() == p0 + a);
            assert(self.reader.rest() =~= rest.subrange(a, rest.len() as int));
            if extra is Some {
                assert(extra->Some_0@ =~= rest.subrange(12, a));
            }
        }
        let ghost cur_a = self.reader.rest();
        let name = match self.read_name(member_flags.has_name()) {
            Ok(n) => n,
            Err(e) => {
                proof {
                    assert forall|i: int| a <= i < rest.len() implies rest[i] != 0 by {
                        assert(rest[i] == cur_a[i - a]);
                    }
                    lemma_nul_none(rest, a);
                }
                return Err(e);
            },
        };
        proof {
            if name is Some {
                self.reader.lemma_bounds();
                lemma_string_at(rest, a, name->Some_0@);
            }
        }
        let ghost b = string_end(rest, a, flag_bit(rest[3], FNAME_OFFSET))->Some_0;
        proof {
            assert(self.reader.position() == p0 + b);
            assert(self.reader.rest() =~= rest.subrange(b, rest.len() as int));
        }
        let ghost cur_b = self.reader.rest();
        let comment = match self.read_comment(member_flags.has_comment()) {
            Ok(n) => n,
            Err(e) => {
                proof {
                    assert forall|i: int| b <= i < rest.len() implies rest[i] != 0 by {
                        assert(rest[i] == cur_b[i - b]);
                    }
                    lemma_nul_none(rest, b);
                }
                return Err(e);
            },
        };
        proof {
            if comment is Some {
                self.reader.lemma_bounds();
                lemma_string_at(rest, b, comment->Some_0@);
            }
        }
        let ghost c = string_end(rest, b, flag_bit(rest[3], FCOMMENT_OFFSET))->Some_0;
        proof {
            assert(fields_end(rest) == Some(c));
            assert(self.reader.position() == p0 + c);
            assert(self.reader.rest() =~= rest.subrange(c, rest.len() as int));
        }
        let has_crc = member_flags.has_crc();
        let header = MemberHeader {
            compression_method,
            modification_time,
            extra,
            name,
            comment,
            extra_flags,
            os,
            has_crc,
            is_text: member_flags.is_text(),
        };
        if has_crc {
            let raw = self.reader.consumed(start);
            proof {
                assert(raw@ =~= rest.take(c));
            }
            let sum = crc32_checksum(raw);
            let expected = (sum & 0xffff) as u16;
            assert(sum & 0xffff == sum % 65536) by (bit_vector);
            let crc16 = self.reader.read_u16_le()?;
            if crc16 != expected {
                return Err(DecodeError::HeaderCrcMismatch);
            }
        }
        Ok(header)
    }

    /// Reads the extra field, a 16-bit little-endian length and that many bytes, where the
    /// header announces one.
    fn read_extra(&mut self, has_extra: bool) -> (r: Result<Option<Vec<u8>>, DecodeError>)
        requires
            old(self).wf(),
        ensures
            final(self).wf(),
            final(self).reader().bytes() == old(self).reader().bytes(),
            final(self).writer() == old(self).writer(),
            final(self).reader().position() >= old(self).reader().position(),
            !has_extra ==> r is Ok && r->Ok_0 is None && *final(self) == *old(self),
            has_extra ==> {
                let rest = old(self).reader().rest();
                let len = le_u16(rest[0], rest[1]);
                if rest.len() < 2 || rest.len() < 2 + len {
                    r == Err::<Option<Vec<u8>>, DecodeError>(DecodeError::UnexpectedEnd)
                } else {
                    r is Ok && r->Ok_0 is Some && r->Ok_0->Some_0@ == rest.subrange(2, 2 + len as int)
                        && r->Ok_0->Some_0@.len() <= 65535 && final(self).reader().position()
                        == old(self).reader().position() + 2 + len
                }
            },
    {
        if !has_extra {
            return Ok(None);
        }
        let ghost rest = self.reader.rest();
        let len = self.reader.read_u16_le()?;
        let buf = match self.reader.read_exact(len as usize) {
            Ok(b) => b,
            Err(e) => {
                return Err(e);
            },
        };
        proof {
            assert(buf@ =~= rest.subrange(2, 2 + len as int));
        }
        Ok(Some(buf))
    }

    /// Reads a zero-terminated string and returns it without the zero byte.
    fn read_null_term_string(&mut self) -> (r: Result<Vec<u8>, DecodeError>)
        requires
            old(self).wf(),
        ensures
            final(self).wf(),
            final(self).reader().bytes() == old(self).reader().bytes(),
            final(self).writer() == old(self).writer(),
            final(self).reader().position() >= old(self).reader().position(),
            r is Ok ==> r->Ok_0@.push(0) == old(self).reader().rest().take(r->Ok_0@.len() + 1int)
                && (forall|i: int| 0 <= i < r->Ok_0@.len() ==> r->Ok_0@[i] != 0)
                && final(self).reader().position() == old(self).reader().position() + r->Ok_0@.len() + 1,
            (r is Err) == (forall|i: int| 0 <= i < old(self).reader().rest().len() ==> old(self).reader().rest()[i] != 0),
            r is Err ==> r->Err_0 == DecodeError::UnterminatedString,
    {
        let ghost rest = self.reader.rest();
        let mut buffer = self.reader.read_until_nul();
        let n = buffer.len();
        if n == 0 || buffer[n - 1] != 0 {
            proof {
                assert forall|i: int| 0 <= i < rest.len() implies rest[i] != 0 by {
                    assert(rest.take(buffer@.len() as int)[i] == rest[i]);
                }
            }
            return Err(DecodeError::UnterminatedString);
        }
        let ghost full = buffer@;
        buffer.pop();
        proof {
            assert(buffer@.push(0) =~= full);
            assert(rest.take(full.len() as int)[full.len() - 1] == 0);
        }
        Ok(buffer)
    }

    fn read_name(&mut self, has_name: bool) -> (r: Result<Option<Vec<u8>>, DecodeError>)
        requires
            old(self).wf(),
        ensures
            final(self).wf(),
            final(self).reader().bytes() == old(self).reader().bytes(),
            final(self).writer() == old(self).writer(),
            final(self).reader().position() >= old(self).reader().position(),
            r is Ok ==> (r->Ok_0 is Some) == has_name,
            !has_name ==> r is Ok && *final(self) == *old(self),
            has_name ==> (r is Err) == (forall|i: int|
                0 <= i < old(self).reader().rest().len() ==> old(self).reader().rest()[i] != 0),
            has_name && r is Ok ==> string_read(old(self).reader().rest(), r->Ok_0->Some_0@)
                && final(self).reader().position() == old(self).reader().position()
                + r->Ok_0->Some_0@.len() + 1,
            r is Err ==> r->Err_0 == DecodeError::UnterminatedString,
    {
        if !has_name {
            return Ok(None);
        }
        Ok(Some(self.read_null_term_string()?))
    }

    fn read_comment(&mut self, has_comment: bool) -> (r: Result<Option<Vec<u8>>, DecodeError>)
        requires
            old(self).wf(),
        ensures
            final(self).wf(),
            final(self).reader().bytes() == old(self).reader().bytes(),
            final(self).writer() == old(self).writer(),
            final(self).reader().position() >= old(self).reader().position(),
            r is Ok ==> (r->Ok_0 is Some) == has_comment,
            !has_comment ==> r is Ok && *final(self) == *old(self),
            has_comment ==> (r is Err) == (forall|i: int|
                0 <= i < old(self).reader().rest().len() ==> old(self).reader().rest()[i] != 0),
            has_comment && r is Ok ==> string_read(old(self).reader().rest(), r->Ok_0->Some_0@)
                && final(self).reader().position() == old(self).reader().position()
                + r->Ok_0->Some_0@.len() + 1,
            r is Err ==> r->Err_0 == DecodeError::UnterminatedString,
    {
        if !has_comment {
            return Ok(None);
        }
        Ok(Some(self.read_null_term_string()?))
    }
}

/// A gzip member after its compressed data, before its footer.
pub struct GzipFooter {
    reader: ByteReader,
    writer: TrackingWriter,
}

impl GzipFooter {
    pub closed spec fn reader(&self) -> ByteReader {
        self.reader
    }

    pub closed spec fn writer(&self) -> TrackingWriter {
        self.writer
    }

    pub fn new(reader: ByteReader, writer: TrackingWriter) -> (r: Self)
        ensures
            r.reader() == reader,
            r.writer() == writer,
    {
        GzipFooter { reader, writer }
    }

    /// Reads the footer and checks it against the member's decoded bytes.
    pub fn read_footer(self) -> (r: Result<(MemberFooter, GzipReader), DecodeError>)
        requires
            self.reader().wf(),
            self.writer().wf(),
        ensures
            ({
                let rest = self.reader().rest();
                let out = self.writer().emitted();
                let crc = le_u32(rest[0], rest[1], rest[2], rest[3]);
                let size = le_u32(rest[4], rest[5], rest[6], rest[7]);
                if rest.len() < 8 {
                    r == Err::<(MemberFooter, GzipReader), DecodeError>(DecodeError::UnexpectedEnd)
                } else if size != out.len() % 0x1_0000_0000 {
                    r == Err::<(MemberFooter, GzipReader), DecodeError>(DecodeError::LengthMismatch)
                } else if crc != crc32_of(out) as nat {
                    r == Err::<(MemberFooter, GzipReader), DecodeError>(DecodeError::CrcMismatch)
                } else {
                    r is Ok && {
                        let (f, g) = r->Ok_0;
                        &&& f.data_crc32 as nat == crc && f.data_size as nat == size
                        &&& g.wf()
                        &&& g.reader().bytes() == self.reader().bytes()
                        &&& g.reader().position() == self.reader().position() + 8
                        &&& g.writer() == self.writer().sink()
                        &&& g.writer().contents() == self.writer().base() + out
                        &&& footer_matches(self.reader().bytes(), self.reader().position() as int, out)
                    }
                }
            }),
    {
        let mut reader = self.reader;
        let data_crc32 = reader.read_u32_le()?;
        let data_size = match reader.read_u32_le() {
            Ok(v) => v,
            Err(e) => {
                return Err(e);
            },
        };
        let count = self.writer.byte_count();
        if ((count as u64) % 0x1_0000_0000u64) as u32 != data_size {
            return Err(DecodeError::LengthMismatch);
        }
        let (crc32, underlying) = self.writer.crc32();
        if crc32 != data_crc32 {
            return Err(DecodeError::CrcMismatch);
        }
        Ok((MemberFooter { data_crc32, data_size }, GzipReader::new(reader, underlying)))
    }
}

} // verus!
