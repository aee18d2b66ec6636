use vstd::arithmetic::div_mod::lemma_fundamental_div_mod_converse;
use vstd::arithmetic::power2::lemma2_to64;
use vstd::prelude::*;

use crate::bit_reader::{bits_value, le_u16, BitReader, ByteReader};
use crate::error::DecodeError;
use crate::huffman_coding::{
    build_fixed_trees, code_key, decode_litlen_distance_trees, dynamic_lengths, first_match,
    codelen_code_ok, codelen_lengths, header_ncode, header_nlit, header_run, is_codelen_code, lemma_canonical_table_unique,
    lengths_fit,
    TreeCodeToken,
    fixed_distance_lengths, fixed_litlen_lengths, is_canonical_table, msb_value, symbol_len,
    DistanceToken, HuffmanCoding, LitLenToken,
};
use crate::tracking_writer::{expansion, min_nat, TrackingWriter, HISTORY_SIZE};

verus! {

/// How the content of a block is encoded.
#[derive(Debug, Clone, Copy, PartialEq, Eq, Structural)]
pub enum CompressionType {
    Uncompressed,
    FixedTree,
    DynamicTree,
    Reserved,
}

/// The three bits that open a block.
#[derive(Debug, Clone, Copy, PartialEq, Eq, Structural)]
pub struct BlockHeader {
    pub is_final: bool,
    pub compression_type: CompressionType,
}

/// The block header held by the three stream bits from `p` on.
pub open spec fn header_at(data: Seq<u8>, p: int) -> BlockHeader {
    let t = bits_value(data, p + 1, 2);
    BlockHeader {
        is_final: bits_value(data, p, 1) == 1,
        compression_type: if t == 0 {
            CompressionType::Uncompressed
        } else if t == 1 {
            CompressionType::FixedTree
        } else if t == 2 {
            CompressionType::DynamicTree
        } else {
            CompressionType::Reserved
        },
    }
}

/// What follows a block boundary: the end of the compressed data, with the byte source
/// and the writer handed back, or the next block.
pub enum NextBlock {
    Footer(ByteReader, TrackingWriter),
    BlockOrError(Result<DeflateBlock, DecodeError>),
}

/// A DEFLATE stream between two blocks.
pub struct DeflateReader {
    bit_reader: BitReader,
    writer: TrackingWriter,
    is_exhausted: bool,
}

impl DeflateReader {
    pub closed spec fn reader(&self) -> BitReader {
        self.bit_reader
    }

    pub closed spec fn writer(&self) -> TrackingWriter {
        self.writer
    }

    /// Whether the final block has been read.
    pub closed spec fn exhausted(&self) -> bool {
        self.is_exhausted
    }

    pub open spec fn wf(&self) -> bool {
        self.reader().wf() && self.writer().wf()
    }

    pub fn new(bit_reader: BitReader, writer: TrackingWriter) -> (r: Self)
        ensures
            r.reader() == bit_reader,
            r.writer() == writer,
            !r.exhausted(),
    {
        Self { bit_reader, writer, is_exhausted: false }
    }

    /// Reads the next block header, or hands back the byte source and the writer once the
    /// final block has been read.
    pub fn next_block(self) -> (r: NextBlock)
        requires
            self.wf(),
        ensures
            self.exhausted() ==> match r {
                NextBlock::Footer(src, w) => src == self.reader().source() && w == self.writer(),
                _ => false,
            },
            !self.exhausted() ==> match r {
                NextBlock::BlockOrError(Ok(b)) => {
                    &&& b.wf()
                    &&& self.reader().bits_left() >= 3
                    &&& b.header() == header_at(self.reader().bytes(), self.reader().bit_pos())
                    &&& b.reader().bytes() == self.reader().bytes()
                    &&& b.reader().bit_pos() == self.reader().bit_pos() + 3
                    &&& b.writer() == self.writer()
                },
                NextBlock::BlockOrError(Err(e)) => self.reader().bits_left() < 3 && e
                    == DecodeError::UnexpectedEnd,
                _ => false,
            },
    {
        let mut this = self;
        if this.is_exhausted {
            return NextBlock::Footer(this.bit_reader.into_inner(), this.writer);
        }
        match this.read_header() {
            Ok(header) => NextBlock::BlockOrError(
                Ok(DeflateBlock { bit_reader: this.bit_reader, writer: this.writer, header }),
            ),
            Err(error) => NextBlock::BlockOrError(Err(error)),
        }
    }

    fn read_header(&mut self) -> (r: Result<BlockHeader, DecodeError>)
        requires
            old(self).wf(),
        ensures
            final(self).wf(),
            final(self).writer() == old(self).writer(),
            final(self).reader().bytes() == old(self).reader().bytes(),
            r is Ok <==> old(self).reader().bits_left() >= 3,
            r is Ok ==> r->Ok_0 == header_at(old(self).reader().bytes(), old(self).reader().bit_pos())
                && final(self).reader().bit_pos() == old(self).reader().bit_pos() + 3,
            r is Err ==> r->Err_0 == DecodeError::UnexpectedEnd,
    {
        let ghost data = self.bit_reader.bytes();
        let ghost p = self.bit_reader.bit_pos();
        proof {
            lemma2_to64();
        }
        if !self.bit_reader.has_bits(3) {
            return Err(DecodeError::UnexpectedEnd);
        }
        let bfinal = match self.bit_reader.read_bits(1) {
            Ok(b) => b.bits(),
            Err(e) => {
                return Err(e);
            },
        };
        let btype = match self.bit_reader.read_bits(2) {
            Ok(b) => b.bits(),
            Err(e) => {
                return Err(e);
            },
        };
        let compression_type = if btype == 0 {
            CompressionType::Uncompressed
        } else if btype == 1 {
            CompressionType::FixedTree
        } else if btype == 2 {
            CompressionType::DynamicTree
        } else {
            CompressionType::Reserved
        };
        Ok(BlockHeader { is_final: bfinal == 1, compression_type })
    }
}

/// A DEFLATE stream inside one block, just after its header.
pub struct DeflateBlock {
    bit_reader: BitReader,
    writer: TrackingWriter,
    header: BlockHeader,
}

/// What a stored block whose content starts at byte `q` of `data` holds, if its two length
/// fields agree and all its bytes are there.
pub open spec fn stored_content(data: Seq<u8>, q: int) -> Option<Seq<u8>> {
    let rest = data.subrange(q, data.len() as int);
    if rest.len() < 4 {
        None
    } else {
        let len = le_u16(rest[0], rest[1]);
        let nlen = le_u16(rest[2], rest[3]);
        if len + nlen != 65535 || rest.len() < 4 + len {
            None
        } else {
            Some(rest.subrange(4, 4 + len as int))
        }
    }
}


/// The back-reference that a length symbol opens at bit `p`: `(length, distance, next)`,
/// where the length's extra bits start at `p`, and `next` is the bit after the distance's
/// extra bits; none where the distance symbol cannot be read.
pub open spec fn back_reference_at(
    base: u16,
    extra_bits: u8,
    dist_table: Map<u32, Option<DistanceToken>>,
    data: Seq<u8>,
    p: int,
) -> Option<(nat, nat, int)> {
    let len = base + bits_value(data, p, extra_bits as nat);
    let q = p + extra_bits;
    let fm = first_match(dist_table, data, q, 1);
    let n = symbol_len(dist_table, data, q);
    let found = dist_table[code_key(msb_value(data, q, n), n)];
    if extra_bits > 16 || fm is None || data.len() * 8 < q + n || found is None {
        None
    } else {
        let t = found->Some_0;
        if t.extra_bits > 16 || data.len() * 8 < q + n + t.extra_bits {
            None
        } else {
            Some(
                (
                    len as nat,
                    (t.base + bits_value(data, q + n, t.extra_bits as nat)) as nat,
                    q + n + t.extra_bits,
                ),
            )
        }
    }
}

/// What decoding a compressed block's content from bit `p` gives, with `out` written so
/// far, in at most `fuel` symbols: the bit after the end-of-block symbol and the bytes
/// written by then; none where the content is malformed or needs more symbols.
#[verifier::opaque]
pub open spec fn block_output(
    lit_table: Map<u32, Option<LitLenToken>>,
    dist_table: Map<u32, Option<DistanceToken>>,
    data: Seq<u8>,
    p: int,
    out: Seq<u8>,
    fuel: nat,
) -> Option<(int, Seq<u8>)>
    decreases fuel,
{
    let fm = first_match(lit_table, data, p, 1);
    let n = symbol_len(lit_table, data, p);
    let found = lit_table[code_key(msb_value(data, p, n), n)];
    if fuel == 0 || fm is None || data.len() * 8 < p + n || found is None {
        None
    } else {
        match found->Some_0 {
            LitLenToken::EndOfBlock => Some((p + n, out)),
            LitLenToken::Literal(b) => block_output(lit_table, dist_table, data, p + n, out.push(b), (fuel - 1) as nat),
            LitLenToken::Length { base, extra_bits } => {
                match back_reference_at(base, extra_bits, dist_table, data, p + n) {
                    None => None,
                    Some((len, dist, next)) => {
                        let hist = min_nat(out.len(), HISTORY_SIZE as nat);
                        if len == 0 || dist == 0 || dist > hist {
                            None
                        } else {
                            block_output(
                                lit_table,
                                dist_table,
                                data,
                                next,
                                out + expansion(out, dist, len),
                                (fuel - 1) as nat,
                            )
                        }
                    },
                }
            },
        }
    }
}

/// `lt` and `dt` are the codes that the dynamic block header at bit `p`, ending at bit
/// `end`, describes: the canonical codes for the first HLIT + 257 and the remaining
/// HDIST + 1 of the code lengths it encodes.
pub open spec fn dynamic_tables(
    lt: Map<u32, Option<LitLenToken>>,
    dt: Map<u32, Option<DistanceToken>>,
    lengths: Seq<u8>,
    data: Seq<u8>,
    p: int,
    end: int,
) -> bool {
    let nlit = header_nlit(data, p);
    &&& dynamic_lengths(data, p, lengths, end)
    &&& is_canonical_table(lt, lengths.take(nlit as int))
    &&& is_canonical_table(dt, lengths.skip(nlit as int))
}

/// Why a stored block whose content starts at byte `q` of `data` cannot be read.
pub open spec fn stored_error(data: Seq<u8>, q: int) -> DecodeError {
    let rest = data.subrange(q, data.len() as int);
    if rest.len() >= 4 && le_u16(rest[0], rest[1]) + le_u16(rest[2], rest[3]) != 65535 {
        DecodeError::StoredLengthMismatch
    } else {
        DecodeError::UnexpectedEnd
    }
}

/// Decoding a compressed block from bit `p` ends, within `room` more bytes than `out`.
pub open spec fn block_succeeds(
    lit_table: Map<u32, Option<LitLenToken>>,
    dist_table: Map<u32, Option<DistanceToken>>,
    data: Seq<u8>,
    p: int,
    out: Seq<u8>,
    room: nat,
) -> bool {
    exists|fuel: nat|
        (#[trigger] block_output(lit_table, dist_table, data, p, out, fuel)) is Some && block_output(
            lit_table,
            dist_table,
            data,
            p,
            out,
            fuel,
        )->Some_0.1.len() <= out.len() + room
}

proof fn lemma_block_no_fuel(
    lt: Map<u32, Option<LitLenToken>>,
    dt: Map<u32, Option<DistanceToken>>,
    data: Seq<u8>,
    p: int,
    out: Seq<u8>,
)
    ensures
        block_output(lt, dt, data, p, out, 0) is None,
{
    reveal(block_output);
}

proof fn lemma_block_fail(
    lt: Map<u32, Option<LitLenToken>>,
    dt: Map<u32, Option<DistanceToken>>,
    data: Seq<u8>,
    p: int,
    out: Seq<u8>,
)
    requires
        ({
            let n = symbol_len(lt, data, p);
            first_match(lt, data, p, 1) is None || data.len() * 8 < p + n || lt[code_key(
                msb_value(data, p, n),
                n,
            )] is None
        }),
    ensures
        forall|g: nat| (#[trigger] block_output(lt, dt, data, p, out, g + 1)) is None,
{
    reveal(block_output);
}

proof fn lemma_block_token(
    lt: Map<u32, Option<LitLenToken>>,
    dt: Map<u32, Option<DistanceToken>>,
    data: Seq<u8>,
    p: int,
    out: Seq<u8>,
    t: LitLenToken,
)
    requires
        ({
            let n = symbol_len(lt, data, p);
            first_match(lt, data, p, 1) is Some && data.len() * 8 >= p + n && lt[code_key(
                msb_value(data, p, n),
                n,
            )] == Some(t)
        }),
    ensures
        ({
            let q = p + symbol_len(lt, data, p);
            forall|f: nat|
                #[trigger] block_output(lt, dt, data, p, out, f + 1) == match t {
                    LitLenToken::EndOfBlock => Some((q, out)),
                    LitLenToken::Literal(b) => block_output(lt, dt, data, q, out.push(b), f),
                    LitLenToken::Length { base, extra_bits } => match back_reference_at(
                        base,
                        extra_bits,
                        dt,
                        data,
                        q,
                    ) {
                        None => None,
                        Some((len, dist, next)) => {
                            let hist = min_nat(out.len(), HISTORY_SIZE as nat);
                            if len == 0 || dist == 0 || dist > hist {
                                None
                            } else {
                                block_output(lt, dt, data, next, out + expansion(out, dist, len), f)
                            }
                        },
                    },
                }
        }),
{
    reveal(block_output);
}

proof fn lemma_block_output_grows(
    lt: Map<u32, Option<LitLenToken>>,
    dt: Map<u32, Option<DistanceToken>>,
    data: Seq<u8>,
    p: int,
    out: Seq<u8>,
    fuel: nat,
)
    ensures
        block_output(lt, dt, data, p, out, fuel) is Some ==> block_output(lt, dt, data, p, out, fuel)->Some_0.1.len()
            >= out.len(),
    decreases fuel,
{
    reveal(block_output);
    if fuel > 0 {
        let fm = first_match(lt, data, p, 1);
        let n = symbol_len(lt, data, p);
        let found = lt[code_key(msb_value(data, p, n), n)];
        if !(fm is None || data.len() * 8 < p + n || found is None) {
            match found->Some_0 {
                LitLenToken::EndOfBlock => {},
                LitLenToken::Literal(b) => {
                    lemma_block_output_grows(lt, dt, data, p + n, out.push(b), (fuel - 1) as nat);
                },
                LitLenToken::Length { base, extra_bits } => {
                    match back_reference_at(base, extra_bits, dt, data, p + n) {
                        None => {},
                        Some((len, dist, next)) => {
                            lemma_block_output_grows(
                                lt,
                                dt,
                                data,
                                next,
                                out + expansion(out, dist, len),
                                (fuel - 1) as nat,
                            );
                        },
                    }
                },
            }
        }
    }
}

/// A block decoding that cannot take its next step within `bound` bytes cannot succeed.
proof fn lemma_block_stuck(
    lt: Map<u32, Option<LitLenToken>>,
    dt: Map<u32, Option<DistanceToken>>,
    data: Seq<u8>,
    p0: int,
    out0: Seq<u8>,
    room0: nat,
    steps: nat,
    cur: int,
    out: Seq<u8>,
)
    requires
        forall|f: nat|
            #[trigger] block_output(lt, dt, data, p0, out0, f + steps) == block_output(lt, dt, data, cur, out, f),
        forall|f: nat| f <= steps ==> (#[trigger] block_output(lt, dt, data, p0, out0, f)) is None,
        forall|g: nat|
            (#[trigger] block_output(lt, dt, data, cur, out, g + 1)) is Some ==> block_output(
                lt,
                dt,
                data,
                cur,
                out,
                g + 1,
            )->Some_0.1.len() > out0.len() + room0,
    ensures
        !block_succeeds(lt, dt, data, p0, out0, room0),
{
    if block_succeeds(lt, dt, data, p0, out0, room0) {
        let f = choose|fuel: nat|
            (#[trigger] block_output(lt, dt, data, p0, out0, fuel)) is Some && block_output(
                lt,
                dt,
                data,
                p0,
                out0,
                fuel,
            )->Some_0.1.len() <= out0.len() + room0;
        let g = (f - steps - 1) as nat;
        assert(f == (g + 1) + steps);
        assert(block_output(lt, dt, data, p0, out0, (g + 1) + steps) == block_output(lt, dt, data, cur, out, g + 1));
    }
}

/// The dynamic block whose header starts at bit `p` has the code-length code `ct`, the
/// code lengths `lengths` ending at bit `end`, the codes `lt` and `dt` built from them, and
/// content that decodes within `room` more bytes than `out`.
pub open spec fn dynamic_block_ready(
    ct: Map<u32, Option<TreeCodeToken>>,
    fuel: nat,
    end: int,
    lengths: Seq<u8>,
    lt: Map<u32, Option<LitLenToken>>,
    dt: Map<u32, Option<DistanceToken>>,
    data: Seq<u8>,
    p: int,
    out: Seq<u8>,
    room: nat,
) -> bool {
    let nlit = header_nlit(data, p) as int;
    &&& is_codelen_code(ct, data, p)
    &&& header_run(ct, data, p, fuel) == Some(Ok::<(int, Seq<u8>), DecodeError>((end, lengths)))
    &&& lengths_fit(lengths.take(nlit)) && lengths_fit(lengths.skip(nlit))
    &&& is_canonical_table(lt, lengths.take(nlit)) && is_canonical_table(dt, lengths.skip(nlit))
    &&& block_succeeds(lt, dt, data, end, out, room)
}

/// Block decoding gives the same outcome with any fuel that lets it finish.
proof fn lemma_block_output_det(
    lt: Map<u32, Option<LitLenToken>>,
    dt: Map<u32, Option<DistanceToken>>,
    data: Seq<u8>,
    p: int,
    out: Seq<u8>,
    f1: nat,
    f2: nat,
)
    requires
        block_output(lt, dt, data, p, out, f1) is Some,
        block_output(lt, dt, data, p, out, f2) is Some,
    ensures
        block_output(lt, dt, data, p, out, f1) == block_output(lt, dt, data, p, out, f2),
    decreases f1,
{
    reveal(block_output);
    let n = symbol_len(lt, data, p);
    let found = lt[code_key(msb_value(data, p, n), n)];
    match found->Some_0 {
        LitLenToken::EndOfBlock => {},
        LitLenToken::Literal(b) => {
            lemma_block_output_det(lt, dt, data, p + n, out.push(b), (f1 - 1) as nat, (f2 - 1) as nat);
        },
        LitLenToken::Length { base, extra_bits } => {
            let (len, dist, next) = back_reference_at(base, extra_bits, dt, data, p + n)->Some_0;
            lemma_block_output_det(
                lt,
                dt,
                data,
                next,
                out + expansion(out, dist, len),
                (f1 - 1) as nat,
                (f2 - 1) as nat,
            );
        },
    }
}

/// The fixed literal/length code.
pub open spec fn fixed_lit_table() -> Map<u32, Option<LitLenToken>> {
    choose|lt: Map<u32, Option<LitLenToken>>| is_canonical_table(lt, fixed_litlen_lengths())
}

/// The fixed distance code.
pub open spec fn fixed_dist_table() -> Map<u32, Option<DistanceToken>> {
    choose|dt: Map<u32, Option<DistanceToken>>| is_canonical_table(dt, fixed_distance_lengths())
}

/// What a compressed block's content from bit `p` gives with the codes `lt` and `dt`, where it
/// decodes within `room` more bytes than `out`.
pub open spec fn huffman_result(
    lt: Map<u32, Option<LitLenToken>>,
    dt: Map<u32, Option<DistanceToken>>,
    data: Seq<u8>,
    p: int,
    out: Seq<u8>,
    room: nat,
) -> Option<(int, Seq<u8>)> {
    if block_succeeds(lt, dt, data, p, out, room) {
        let f = choose|fuel: nat|
            (#[trigger] block_output(lt, dt, data, p, out, fuel)) is Some && block_output(
                lt,
                dt,
                data,
                p,
                out,
                fuel,
            )->Some_0.1.len() <= out.len() + room;
        block_output(lt, dt, data, p, out, f)
    } else {
        None
    }
}

/// What a dynamic block whose header starts at bit `p` gives, within `room` more bytes
/// than `out`.
pub open spec fn dynamic_result(data: Seq<u8>, p: int, out: Seq<u8>, room: nat) -> Option<(int, Seq<u8>)> {
    if !codelen_code_ok(data, p) {
        None
    } else {
        let ct = choose|ct: Map<u32, Option<TreeCodeToken>>| #[trigger] is_codelen_code(ct, data, p);
        if !(exists|f: nat| (#[trigger] header_run(ct, data, p, f)) is Some) {
            None
        } else {
            let f = choose|f: nat| (#[trigger] header_run(ct, data, p, f)) is Some;
            match header_run(ct, data, p, f)->Some_0 {
                Err(_) => None,
                Ok((end, lengths)) => {
                    let nlit = header_nlit(data, p) as int;
                    if lengths_fit(lengths.take(nlit)) && lengths_fit(lengths.skip(nlit)) {
                        huffman_result(
                            choose|lt: Map<u32, Option<LitLenToken>>| is_canonical_table(lt, lengths.take(nlit)),
                            choose|dt: Map<u32, Option<DistanceToken>>| is_canonical_table(dt, lengths.skip(nlit)),
                            data,
                            end,
                            out,
                            room,
                        )
                    } else {
                        None
                    }
                },
            }
        }
    }
}

/// What the content of a block with header `h`, starting at bit `p`, gives when `out` was
/// written before it and `room` more bytes fit: the bit after it and the bytes written.
pub open spec fn block_result(data: Seq<u8>, p: int, h: BlockHeader, out: Seq<u8>, room: nat) -> Option<
    (int, Seq<u8>),
> {
    match h.compression_type {
        CompressionType::Reserved => None,
        CompressionType::Uncompressed => {
            let q = (p + 7) / 8;
            match stored_content(data, q) {
                Some(c) => if c.len() <= room {
                    Some(((q + 4 + c.len()) * 8, out + c))
                } else {
                    None
                },
                None => None,
            }
        },
        CompressionType::FixedTree => huffman_result(fixed_lit_table(), fixed_dist_table(), data, p, out, room),
        CompressionType::DynamicTree => dynamic_result(data, p, out, room),
    }
}

/// A stored block of length zero holds nothing, and its content ends right after its four
/// length bytes.
pub proof fn lemma_stored_empty(data: Seq<u8>, q: int)
    requires
        0 <= q,
        q + 4 <= data.len(),
        data[q] == 0 && data[q + 1] == 0 && data[q + 2] == 0xff && data[q + 3] == 0xff,
    ensures
        stored_content(data, q) == Some(Seq::<u8>::empty()),
{
    let rest = data.subrange(q, data.len() as int);
    assert(rest[0] == data[q] && rest[1] == data[q + 1] && rest[2] == data[q + 2] && rest[3] == data[q + 3]);
    assert(rest.subrange(4, 4) =~= Seq::<u8>::empty());
}

/// A stored block of the largest length, 65535, holds the 65535 bytes after its length
/// bytes when they are all there.
pub proof fn lemma_stored_largest(data: Seq<u8>, q: int)
    requires
        0 <= q,
        q + 4 + 65535 <= data.len(),
        data[q] == 0xff && data[q + 1] == 0xff && data[q + 2] == 0 && data[q + 3] == 0,
    ensures
        stored_content(data, q) == Some(data.subrange(q + 4, q + 4 + 65535)),
{
    let rest = data.subrange(q, data.len() as int);
    assert(rest[0] == data[q] && rest[1] == data[q + 1] && rest[2] == data[q + 2] && rest[3] == data[q + 3]);
    assert(rest.subrange(4, 4 + 65535int) =~= data.subrange(q + 4, q + 4 + 65535));
}

impl DeflateBlock {
    pub closed spec fn reader(&self) -> BitReader {
        self.bit_reader
    }

    pub closed spec fn writer(&self) -> TrackingWriter {
        self.writer
    }

    pub closed spec fn header(&self) -> BlockHeader {
        self.header
    }

    pub open spec fn wf(&self) -> bool {
        self.reader().wf() && self.writer().wf()
    }

    pub fn get_header(&self) -> (r: &BlockHeader)
        ensures
            *r == self.header(),
    {
        &self.header
    }

    /// Decodes the block's content into the writer and returns to the block boundary.
    pub fn read_content(self) -> (r: Result<DeflateReader, DecodeError>)
        requires
            self.wf(),
        ensures
            self.header().compression_type == CompressionType::Reserved ==> r == Err::<
                DeflateReader,
                DecodeError,
            >(DecodeError::ReservedBlockType),
            r is Ok ==> {
                let d = r->Ok_0;
                &&& d.wf()
                &&& d.exhausted() == self.header().is_final
                &&& d.reader().bytes() == self.reader().bytes()
                &&& d.reader().bit_pos() > self.reader().bit_pos()
                &&& d.writer().sink().limit() == self.writer().sink().limit()
                &&& d.writer().base() == self.writer().base()
            },
            self.header().compression_type == CompressionType::FixedTree && r is Ok ==> exists|
                lt: Map<u32, Option<LitLenToken>>,
                dt: Map<u32, Option<DistanceToken>>,
                fuel: nat,
            |
                is_canonical_table(lt, fixed_litlen_lengths()) && is_canonical_table(
                    dt,
                    fixed_distance_lengths(),
                ) && #[trigger] block_output(
                    lt,
                    dt,
                    self.reader().bytes(),
                    self.reader().bit_pos(),
                    self.writer().emitted(),
                    fuel,
                ) == Some((r->Ok_0.reader().bit_pos(), r->Ok_0.writer().emitted())),
            self.header().compression_type == CompressionType::DynamicTree && r is Ok ==> exists|
                lt: Map<u32, Option<LitLenToken>>,
                dt: Map<u32, Option<DistanceToken>>,
                lengths: Seq<u8>,
                p: int,
                fuel: nat,
            |
                #[trigger] dynamic_tables(lt, dt, lengths, self.reader().bytes(), self.reader().bit_pos(), p)
                    && #[trigger] block_output(
                    lt,
                    dt,
                    self.reader().bytes(),
                    p,
                    self.writer().emitted(),
                    fuel,
                ) == Some((r->Ok_0.reader().bit_pos(), r->Ok_0.writer().emitted())),
            self.header().compression_type == CompressionType::FixedTree && (exists|
                lt: Map<u32, Option<LitLenToken>>,
                dt: Map<u32, Option<DistanceToken>>,
            |
                is_canonical_table(lt, fixed_litlen_lengths()) && is_canonical_table(
                    dt,
                    fixed_distance_lengths(),
                ) && #[trigger] block_succeeds(
                    lt,
                    dt,
                    self.reader().bytes(),
                    self.reader().bit_pos(),
                    self.writer().emitted(),
                    self.writer().sink().room(),
                )) ==> r is Ok,
            self.header().compression_type == CompressionType::DynamicTree && (exists|
                ct: Map<u32, Option<TreeCodeToken>>,
                fuel: nat,
                end: int,
                lengths: Seq<u8>,
                lt: Map<u32, Option<LitLenToken>>,
                dt: Map<u32, Option<DistanceToken>>,
            |
                #[trigger] dynamic_block_ready(
                    ct,
                    fuel,
                    end,
                    lengths,
                    lt,
                    dt,
                    self.reader().bytes(),
                    self.reader().bit_pos(),
                    self.writer().emitted(),
                    self.writer().sink().room(),
                )) ==> r is Ok,
            ({
                let res = block_result(
                    self.reader().bytes(),
                    self.reader().bit_pos(),
                    self.header(),
                    self.writer().emitted(),
                    self.writer().sink().room(),
                );
                &&& (r is Ok <==> res is Some)
                &&& (r is Ok ==> res->Some_0 == (r->Ok_0.reader().bit_pos(), r->Ok_0.writer().emitted()))
            }),
            self.header().compression_type == CompressionType::Uncompressed ==> {
                let q = self.reader().source().position() as int;
                match stored_content(self.reader().bytes(), q) {
                    Some(content) => (r is Ok <==> content.len() <= self.writer().sink().room())
                        && (r is Ok ==> r->Ok_0.writer().emitted() == self.writer().emitted()
                        + content && r->Ok_0.reader().bit_pos() == (q + 4 + content.len()) * 8)
                        && (r is Err ==> r->Err_0 == DecodeError::SinkFull),
                    None => r == Err::<DeflateReader, DecodeError>(stored_error(self.reader().bytes(), q)),
                }
            },
    {
        let ghost data = self.reader().bytes();
        let ghost out = self.writer().emitted();
        let ghost room = self.writer().sink().room();
        proof {
            self.reader().lemma_wf_bounds();
            self.writer().lemma_contents();
            let pos = self.reader().source().position() as int;
            lemma_fundamental_div_mod_converse(
                self.reader().bit_pos() + 7,
                8,
                pos,
                7 - self.reader().pending(),
            );
        }
        let mut this = self;
        if this.header.compression_type == CompressionType::Reserved {
            return Err(DecodeError::ReservedBlockType);
        } else if this.header.compression_type == CompressionType::Uncompressed {
            this.process_uncompressed()?;
        } else {
            let ghost q = this.bit_reader.bit_pos();
            let trees = if this.header.compression_type == CompressionType::FixedTree {
                build_fixed_trees()
            } else {
                decode_litlen_distance_trees(&mut this.bit_reader)
            };
            let (litlen_tree, distance_tree) = match trees {
                Ok(t) => t,
                Err(e) => {
                    proof {
                        if dynamic_result(data, q, out, room) is Some {
                            let ct = choose|ct: Map<u32, Option<TreeCodeToken>>| #[trigger] is_codelen_code(ct, data, q);
                            assert(is_codelen_code(ct, data, q));
                            let f = choose|f: nat| (#[trigger] header_run(ct, data, q, f)) is Some;
                            assert(header_run(ct, data, q, f) is Some);
                        }
                    }
                    return Err(e);
                },
            };
            let ghost p = this.bit_reader.bit_pos();
            let ghost lte = litlen_tree.table();
            let ghost dte = distance_tree.table();
            proof {
                if self.header().compression_type == CompressionType::FixedTree {
                    assert forall|lt: Map<u32, Option<LitLenToken>>, dt: Map<u32, Option<DistanceToken>>|
                        is_canonical_table(lt, fixed_litlen_lengths()) && is_canonical_table(dt, fixed_distance_lengths())
                        implies lt == lte && dt == dte by {
                        lemma_canonical_table_unique(lt, lte, fixed_litlen_lengths());
                        lemma_canonical_table_unique(dt, dte, fixed_distance_lengths());
                    }
                    assert(is_canonical_table(fixed_lit_table(), fixed_litlen_lengths()));
                    assert(is_canonical_table(fixed_dist_table(), fixed_distance_lengths()));
                    assert(block_result(data, q, self.header(), out, room) == huffman_result(lte, dte, data, p, out, room));
                } else {
                    let nlit = header_nlit(data, q) as int;
                    assert forall|ct: Map<u32, Option<TreeCodeToken>>, fuel: nat, end: int, lengths: Seq<u8>,
                        lt: Map<u32, Option<LitLenToken>>, dt: Map<u32, Option<DistanceToken>>|
                        #[trigger] dynamic_block_ready(ct, fuel, end, lengths, lt, dt, data, q, out, room)
                        implies lt == lte && dt == dte && p == end by {
                        assert(header_run(ct, data, q, fuel) is Some);
                        lemma_canonical_table_unique(lt, lte, lengths.take(nlit));
                        lemma_canonical_table_unique(dt, dte, lengths.skip(nlit));
                    }
                    let ct = choose|ct: Map<u32, Option<TreeCodeToken>>| #[trigger] is_codelen_code(ct, data, q);
                    assert(is_codelen_code(ct, data, q));
                    let lengths0 = choose|lengths: Seq<u8>|
                        #[trigger] dynamic_lengths(data, q, lengths, p) && is_canonical_table(lte, lengths.take(nlit))
                            && is_canonical_table(dte, lengths.skip(nlit));
                    assert(dynamic_lengths(data, q, lengths0, p));
                    let (ct0, f0) = choose|ct0: Map<u32, Option<TreeCodeToken>>, f0: nat|
                        is_codelen_code(ct0, data, q) && #[trigger] header_run(ct0, data, q, f0) == Some(
                            Ok::<(int, Seq<u8>), DecodeError>((p, lengths0)));
                    lemma_canonical_table_unique(ct0, ct, codelen_lengths(data, q + 14, header_ncode(data, q)));
                    assert(header_run(ct, data, q, f0) is Some);
                    let f = choose|f: nat| (#[trigger] header_run(ct, data, q, f)) is Some;
                    assert(header_run(ct, data, q, f) is Some);
                    let (end, lengths) = header_run(ct, data, q, f)->Some_0->Ok_0;
                    assert(lengths_fit(lengths.take(nlit)) && lengths_fit(lengths.skip(nlit)));
                    assert(p == end);
                    let lt = choose|lt: Map<u32, Option<LitLenToken>>| is_canonical_table(lt, lengths.take(nlit));
                    let dt = choose|dt: Map<u32, Option<DistanceToken>>| is_canonical_table(dt, lengths.skip(nlit));
                    assert(is_canonical_table(lte, lengths.take(nlit)));
                    assert(is_canonical_table(dte, lengths.skip(nlit)));
                    lemma_canonical_table_unique(lt, lte, lengths.take(nlit));
                    lemma_canonical_table_unique(dt, dte, lengths.skip(nlit));
                    assert(block_result(data, q, self.header(), out, room) == huffman_result(lte, dte, data, p, out, room));
                }
            }
            match this.process_with_trees(&litlen_tree, &distance_tree) {
                Ok(()) => {},
                Err(e) => {
                    return Err(e);
                },
            }
            proof {
                let fuel = choose|fuel: nat|
                    block_output(lte, dte, data, p, out, fuel) == Some((this.bit_reader.bit_pos(), this.writer.emitted()));
                assert(block_output(lte, dte, data, p, out, fuel) == Some((this.bit_reader.bit_pos(), this.writer.emitted())));
                this.writer.lemma_contents();
                assert(block_succeeds(lte, dte, data, p, out, room));
                let f = choose|f: nat|
                    (#[trigger] block_output(lte, dte, data, p, out, f)) is Some && block_output(
                        lte, dte, data, p, out, f)->Some_0.1.len() <= out.len() + room;
                lemma_block_output_det(lte, dte, data, p, out, f, fuel);
                if self.header().compression_type == CompressionType::DynamicTree {
                    let nlit = header_nlit(data, q);
                    let lengths = choose|lengths: Seq<u8>|
                        #[trigger] dynamic_lengths(data, q, lengths, p) && is_canonical_table(
                            lte,
                            lengths.take(nlit as int),
                        ) && is_canonical_table(dte, lengths.skip(nlit as int));
                    assert(dynamic_tables(lte, dte, lengths, data, q, p));
                }
            }
        }
        Ok(
            DeflateReader {
                bit_reader: this.bit_reader,
                writer: this.writer,
                is_exhausted: this.header.is_final,
            },
        )
    }

    /// Copies a stored block's bytes to the writer.
    fn process_uncompressed(&mut self) -> (r: Result<(), DecodeError>)
        requires
            old(self).wf(),
        ensures
            final(self).wf(),
            final(self).header() == old(self).header(),
            final(self).reader().bytes() == old(self).reader().bytes(),
            final(self).writer().sink().limit() == old(self).writer().sink().limit(),
            final(self).writer().base() == old(self).writer().base(),
            r is Ok ==> final(self).reader().bit_pos() >= old(self).reader().bit_pos() + 32,
            ({
                let q = old(self).reader().source().position() as int;
                match stored_content(old(self).reader().bytes(), q) {
                    Some(content) => (r is Ok <==> content.len() <= old(self).writer().sink().room())
                        && (r is Ok ==> final(self).writer().emitted() == old(self).writer().emitted()
                        + content && final(self).reader().bit_pos() == (q + 4 + content.len()) * 8)
                        && (r is Err ==> r->Err_0 == DecodeError::SinkFull),
                    None => r == Err::<(), DecodeError>(stored_error(old(self).reader().bytes(), q))
                        && final(self).writer() == old(self).writer(),
                }
            }),
    {
        proof {
            self.bit_reader.lemma_wf_bounds();
        }
        let ghost data = self.bit_reader.bytes();
        let reader = self.bit_reader.borrow_reader_from_boundary();
        let len = match reader.read_u16_le() {
            Ok(v) => v,
            Err(e) => {
                return Err(e);
            },
        };
        let nlen = match reader.read_u16_le() {
            Ok(v) => v,
            Err(e) => {
                return Err(e);
            },
        };
        if len as u32 + nlen as u32 != 65535 {
            return Err(DecodeError::StoredLengthMismatch);
        }
        let buf = match reader.read_exact(len as usize) {
            Ok(b) => b,
            Err(e) => {
                return Err(e);
            },
        };
        proof {
            let q = old(self).reader().source().position() as int;
            let rest = data.subrange(q, data.len() as int);
            assert(buf@ =~= rest.subrange(4, 4 + len as int));
        }
        self.writer.write_all(buf.as_slice())
    }

    /// Decodes literals and back-references until the end-of-block symbol.
    /// Decodes one literal/length symbol and what it stands for; returns whether it was the
    /// end of the block.
    #[verifier::rlimit(100)]
    fn decode_step(
        &mut self,
        litlen_tree: &HuffmanCoding<LitLenToken>,
        distance_tree: &HuffmanCoding<DistanceToken>,
    ) -> (r: Result<bool, DecodeError>)
        requires
            old(self).wf(),
        ensures
            final(self).wf(),
            final(self).header() == old(self).header(),
            final(self).reader().bytes() == old(self).reader().bytes(),
            final(self).writer().sink().limit() == old(self).writer().sink().limit(),
            final(self).writer().base() == old(self).writer().base(),
            final(self).writer().sink().room() + final(self).writer().emitted().len() == old(
                self,
            ).writer().sink().room() + old(self).writer().emitted().len(),
            ({
                let lt = litlen_tree.table();
                let dt = distance_tree.table();
                let data = old(self).reader().bytes();
                let p = old(self).reader().bit_pos();
                let out = old(self).writer().emitted();
                let q = final(self).reader().bit_pos();
                let out2 = final(self).writer().emitted();
                &&& (r is Ok ==> q > p)
                &&& (r == Ok::<bool, DecodeError>(true) ==> forall|f: nat|
                    #[trigger] block_output(lt, dt, data, p, out, f + 1) == Some((q, out)) && out2 == out)
                &&& (r == Ok::<bool, DecodeError>(false) ==> forall|f: nat|
                    #[trigger] block_output(lt, dt, data, p, out, f + 1) == block_output(lt, dt, data, q, out2, f))
                &&& (r is Err ==> forall|g: nat|
                    (#[trigger] block_output(lt, dt, data, p, out, g + 1)) is Some ==> block_output(
                        lt,
                        dt,
                        data,
                        p,
                        out,
                        g + 1,
                    )->Some_0.1.len() > out.len() + old(self).writer().sink().room())
            }),
    {
        let ghost lt = litlen_tree.table();
        let ghost dt = distance_tree.table();
        let ghost data = self.reader().bytes();
        let ghost p = self.reader().bit_pos();
        let ghost out = self.writer().emitted();
        proof {
            self.writer().lemma_contents();
        }
        let token = match litlen_tree.read_symbol(&mut self.bit_reader) {
            Ok(t) => t,
            Err(e) => {
                proof {
                    lemma_block_fail(lt, dt, data, p, out);
                }
                return Err(e);
            },
        };
        let ghost q = self.reader().bit_pos();
        proof {
            lemma_block_token(lt, dt, data, p, out, token);
        }
        match token {
            LitLenToken::Literal(byte) => {
                match self.writer.write_u8(byte) {
                    Ok(()) => {},
                    Err(e) => {
                        proof {
                            assert forall|g: nat| (#[trigger] block_output(lt, dt, data, p, out, g + 1)) is Some implies block_output(
                                lt, dt, data, p, out, g + 1)->Some_0.1.len() > out.len() + old(self).writer().sink().room() by {
                                assert(block_output(lt, dt, data, p, out, g + 1) == block_output(lt, dt, data, q, out.push(byte), g));
                                lemma_block_output_grows(lt, dt, data, q, out.push(byte), g);
                            }
                            self.writer().lemma_contents();
                        }
                        return Err(e);
                    },
                }
                proof {
                    self.writer().lemma_contents();
                    assert forall|f: nat| #[trigger] block_output(lt, dt, data, p, out, f + 1) == block_output(
                        lt, dt, data, self.reader().bit_pos(), self.writer().emitted(), f) by {}
                }
                Ok(false)
            },
            LitLenToken::Length { base, extra_bits } => {
                match self.process_length_token(base, extra_bits, distance_tree) {
                    Ok(()) => {},
                    Err(e) => {
                        proof {
                            assert forall|g: nat| (#[trigger] block_output(lt, dt, data, p, out, g + 1)) is Some implies block_output(
                                lt, dt, data, p, out, g + 1)->Some_0.1.len() > out.len() + old(self).writer().sink().room() by {
                                let (len, dist, next) = back_reference_at(base, extra_bits, dt, data, q)->Some_0;
                                assert(block_output(lt, dt, data, p, out, g + 1) == block_output(lt, dt, data, next, out + expansion(out, dist, len), g));
                                lemma_block_output_grows(lt, dt, data, next, out + expansion(out, dist, len), g);
                            }
                            self.writer().lemma_contents();
                        }
                        return Err(e);
                    },
                }
                proof {
                    self.writer().lemma_contents();
                    assert forall|f: nat| #[trigger] block_output(lt, dt, data, p, out, f + 1) == block_output(
                        lt, dt, data, self.reader().bit_pos(), self.writer().emitted(), f) by {}
                }
                Ok(false)
            },
            LitLenToken::EndOfBlock => {
                proof {
                    assert forall|f: nat| #[trigger] block_output(lt, dt, data, p, out, f + 1) == Some((q, out)) by {}
                }
                Ok(true)
            },
        }
    }

    /// Decodes literals and back-references until the end-of-block symbol.
    fn process_with_trees(
        &mut self,
        litlen_tree: &HuffmanCoding<LitLenToken>,
        distance_tree: &HuffmanCoding<DistanceToken>,
    ) -> (r: Result<(), DecodeError>)
        requires
            old(self).wf(),
        ensures
            final(self).wf(),
            final(self).header() == old(self).header(),
            final(self).reader().bytes() == old(self).reader().bytes(),
            final(self).writer().sink().limit() == old(self).writer().sink().limit(),
            final(self).writer().base() == old(self).writer().base(),
            r is Ok ==> final(self).reader().bit_pos() > old(self).reader().bit_pos(),
            r is Ok ==> exists|fuel: nat|
                block_output(
                    litlen_tree.table(),
                    distance_tree.table(),
                    old(self).reader().bytes(),
                    old(self).reader().bit_pos(),
                    old(self).writer().emitted(),
                    fuel,
                ) == Some((final(self).reader().bit_pos(), final(self).writer().emitted())),
            block_succeeds(
                litlen_tree.table(),
                distance_tree.table(),
                old(self).reader().bytes(),
                old(self).reader().bit_pos(),
                old(self).writer().emitted(),
                old(self).writer().sink().room(),
            ) ==> r is Ok,
    {
        let ghost lt = litlen_tree.table();
        let ghost dt = distance_tree.table();
        let ghost data = old(self).reader().bytes();
        let ghost p0 = old(self).reader().bit_pos();
        let ghost out0 = old(self).writer().emitted();
        let ghost room0 = old(self).writer().sink().room();
        let ghost mut steps: nat = 0;
        proof {
            lemma_block_no_fuel(lt, dt, data, p0, out0);
            old(self).writer().lemma_contents();
        }
        loop
            invariant
                self.wf(),
                self.header() == old(self).header(),
                self.reader().bytes() == data,
                self.writer().sink().limit() == old(self).writer().sink().limit(),
                self.writer().base() == old(self).writer().base(),
                self.reader().bit_pos() >= p0,
                lt == litlen_tree.table(),
                dt == distance_tree.table(),
                data == old(self).reader().bytes(),
                p0 == old(self).reader().bit_pos(),
                out0 == old(self).writer().emitted(),
                room0 == old(self).writer().sink().room(),
                self.writer().sink().room() + self.writer().emitted().len() == room0 + out0.len(),
                forall|f: nat|
                    #[trigger] block_output(lt, dt, data, p0, out0, f + steps) == block_output(
                        lt,
                        dt,
                        data,
                        self.reader().bit_pos(),
                        self.writer().emitted(),
                        f,
                    ),
                forall|f: nat| f <= steps ==> (#[trigger] block_output(lt, dt, data, p0, out0, f)) is None,
            decreases self.reader().bits_left(),
        {
            proof {
                self.bit_reader.lemma_wf_bounds();
            }
            let ghost p = self.reader().bit_pos();
            let ghost out = self.writer().emitted();
            let ended = match self.decode_step(litlen_tree, distance_tree) {
                Ok(b) => b,
                Err(e) => {
                    proof {
                        lemma_block_stuck(lt, dt, data, p0, out0, room0, steps, p, out);
                    }
                    return Err(e);
                },
            };
            if ended {
                proof {
                    assert(block_output(lt, dt, data, p0, out0, 1 + steps) == block_output(lt, dt, data, p, out, 1));
                    assert(block_output(lt, dt, data, p, out, 0 + 1) == Some((self.reader().bit_pos(), out)));
                }
                return Ok(());
            }
            proof {
                assert forall|f: nat| #[trigger] block_output(lt, dt, data, p0, out0, f + (steps + 1)) == block_output(
                    lt, dt, data, self.reader().bit_pos(), self.writer().emitted(), f) by {
                    assert(f + (steps + 1) == (f + 1) + steps);
                    assert(block_output(lt, dt, data, p0, out0, (f + 1) + steps) == block_output(lt, dt, data, p, out, f + 1));
                }
                assert(block_output(lt, dt, data, p0, out0, 0 + (steps + 1)) == block_output(lt, dt, data, self.reader().bit_pos(), self.writer().emitted(), 0));
                lemma_block_no_fuel(lt, dt, data, self.reader().bit_pos(), self.writer().emitted());
                steps = steps + 1;
                self.bit_reader.lemma_wf_bounds();
            }
        }
    }

    /// Reads the rest of a back-reference after its length symbol and copies it.
    fn process_length_token(
        &mut self,
        len_base: u16,
        len_extra_bits: u8,
        distance_tree: &HuffmanCoding<DistanceToken>,
    ) -> (r: Result<(), DecodeError>)
        requires
            old(self).wf(),
        ensures
            final(self).wf(),
            final(self).header() == old(self).header(),
            final(self).reader().bytes() == old(self).reader().bytes(),
            final(self).writer().sink().limit() == old(self).writer().sink().limit(),
            final(self).writer().base() == old(self).writer().base(),
            r is Ok ==> final(self).reader().bit_pos() > old(self).reader().bit_pos(),
            r is Ok ==> {
                let data = old(self).reader().bytes();
                let p = old(self).reader().bit_pos();
                let out = old(self).writer().emitted();
                match back_reference_at(len_base, len_extra_bits, distance_tree.table(), data, p) {
                    Some((len, dist, next)) => {
                        &&& 0 < len && 0 < dist <= min_nat(out.len(), HISTORY_SIZE as nat)
                        &&& final(self).reader().bit_pos() == next
                        &&& final(self).writer().emitted() == out + expansion(out, dist, len)
                    },
                    None => false,
                }
            },
            ({
                let data = old(self).reader().bytes();
                let p = old(self).reader().bit_pos();
                let hist = min_nat(old(self).writer().emitted().len(), HISTORY_SIZE as nat);
                match back_reference_at(len_base, len_extra_bits, distance_tree.table(), data, p) {
                    Some((len, dist, next)) => (r is Ok <==> 0 < len && 0 < dist <= hist && len
                        <= old(self).writer().sink().room()) && (len == 0 || dist == 0 || dist
                        > hist ==> r == Err::<(), DecodeError>(DecodeError::BadBackReference)),
                    None => r is Err && final(self).writer() == old(self).writer(),
                }
            }),
    {
        proof {
            self.bit_reader.lemma_wf_bounds();
        }
        if len_extra_bits > 16 {
            return Err(DecodeError::ReservedSymbol);
        }
        let len_offset = self.bit_reader.read_bits(len_extra_bits)?.bits();
        let len: usize = len_base as usize + len_offset as usize;
        let distance_token = distance_tree.read_symbol(&mut self.bit_reader)?;
        if distance_token.extra_bits > 16 {
            return Err(DecodeError::ReservedSymbol);
        }
        let dist_offset = self.bit_reader.read_bits(distance_token.extra_bits)?.bits();
        let dist: usize = distance_token.base as usize + dist_offset as usize;
        let r = self.writer.write_previous(dist, len);
        proof {
            self.bit_reader.lemma_wf_bounds();
        }
        r
    }
}

} // verus!
