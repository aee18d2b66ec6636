use vstd::prelude::*;

pub mod bit_reader;
pub mod deflate;
pub mod error;
pub mod gzip;
pub mod huffman_coding;
pub mod tracking_writer;

use vstd::arithmetic::div_mod::lemma_fundamental_div_mod_converse;

use crate::bit_reader::ByteReader;
use crate::deflate::{block_result, header_at, DeflateBlock, DeflateReader, NextBlock};
use crate::error::DecodeError;
use crate::gzip::{footer_matches, header_len, GzipFooter, GzipReader, CM_DEFLATE};
use crate::tracking_writer::ByteSink;

verus! {

/// The blocks of a member's compressed data from bit `p` on, `out` being what they wrote so
/// far, with at most `cap` bytes in all, in at most `fuel` blocks: the bit after the final
/// block and the bytes written.
pub open spec fn blocks_output(data: Seq<u8>, p: int, out: Seq<u8>, cap: nat, fuel: nat) -> Option<
    (int, Seq<u8>),
>
    decreases fuel,
{
    if fuel == 0 || data.len() * 8 < p + 3 {
        None
    } else {
        let h = header_at(data, p);
        match block_result(data, p + 3, h, out, (cap - out.len()) as nat) {
            None => None,
            Some((np, nout)) => if h.is_final {
                Some((np, nout))
            } else {
                blocks_output(data, np, nout, cap, (fuel - 1) as nat)
            },
        }
    }
}

/// What a member's compressed data from bit `p` on and its footer give, with at most `cap`
/// bytes written: the byte after the footer and the member's bytes; none where a block is
/// malformed, the output does not fit, or the footer does not match.
pub open spec fn member_body(data: Seq<u8>, p: int, cap: nat) -> Option<(int, Seq<u8>)> {
    if exists|f: nat| (#[trigger] blocks_output(data, p, Seq::empty(), cap, f)) is Some {
        let f = choose|f: nat| (#[trigger] blocks_output(data, p, Seq::empty(), cap, f)) is Some;
        let (end, member) = blocks_output(data, p, Seq::empty(), cap, f)->Some_0;
        let k = (end + 7) / 8;
        if footer_matches(data, k, member) {
            Some((k + 8, member))
        } else {
            None
        }
    } else {
        None
    }
}

/// What the member at byte `k` gives: the byte after it and its bytes.
#[verifier::opaque]
pub open spec fn member_output(data: Seq<u8>, k: int, cap: nat) -> Option<(int, Seq<u8>)> {
    let rest = data.subrange(k, data.len() as int);
    match header_len(rest) {
        None => None,
        Some(h) => if rest[2] != CM_DEFLATE {
            None
        } else {
            member_body(data, (k + h) * 8, cap)
        },
    }
}

/// The members from byte `k` to the end of `data`, appended to `out`, with at most `cap`
/// bytes in all, in at most `fuel` members.
pub open spec fn gzip_members(data: Seq<u8>, k: int, out: Seq<u8>, cap: nat, fuel: nat) -> Option<Seq<u8>>
    decreases fuel,
{
    if k >= data.len() {
        Some(out)
    } else if fuel == 0 {
        None
    } else {
        match member_output(data, k, (cap - out.len()) as nat) {
            None => None,
            Some((nk, m)) => gzip_members(data, nk, out + m, cap, (fuel - 1) as nat),
        }
    }
}

/// What a gzip stream decompresses to, with at most `cap` bytes of output: the members'
/// contents one after another; none where some member is malformed.
pub open spec fn gzip_output(data: Seq<u8>, cap: nat) -> Option<Seq<u8>> {
    if exists|f: nat| (#[trigger] gzip_members(data, 0, Seq::empty(), cap, f)) is Some {
        gzip_members(data, 0, Seq::empty(), cap, choose|f: nat| (#[trigger] gzip_members(data, 0, Seq::empty(), cap, f)) is Some)
    } else {
        None
    }
}

fn process_gzip_footer(gzip_footer: GzipFooter) -> (r: Result<GzipReader, DecodeError>)
    requires
        gzip_footer.reader().wf(),
        gzip_footer.writer().wf(),
    ensures
        (r is Ok <==> footer_matches(
            gzip_footer.reader().bytes(),
            gzip_footer.reader().position() as int,
            gzip_footer.writer().emitted(),
        )),
        r is Ok ==> {
            let g = r->Ok_0;
            &&& g.wf()
            &&& g.reader().bytes() == gzip_footer.reader().bytes()
            &&& g.reader().position() == gzip_footer.reader().position() + 8
            &&& g.writer().contents() == gzip_footer.writer().base() + gzip_footer.writer().emitted()
            &&& g.writer().limit() == gzip_footer.writer().sink().limit()
        },
{
    proof {
        gzip_footer.reader().lemma_bounds();
        let data = gzip_footer.reader().bytes();
        let k = gzip_footer.reader().position() as int;
        let rest = gzip_footer.reader().rest();
        if rest.len() >= 8 {
            assert(rest[0] == data[k] && rest[1] == data[k + 1] && rest[2] == data[k + 2] && rest[3] == data[k + 3]);
            assert(rest[4] == data[k + 4] && rest[5] == data[k + 5] && rest[6] == data[k + 6] && rest[7] == data[k + 7]);
        }
    }
    match gzip_footer.read_footer() {
        Ok((_footer, gzip_reader)) => Ok(gzip_reader),
        Err(error) => Err(error),
    }
}

fn process_deflate_block(block: DeflateBlock) -> (r: Result<DeflateReader, DecodeError>)
    requires
        block.wf(),
    ensures
        ({
            let res = block_result(
                block.reader().bytes(),
                block.reader().bit_pos(),
                block.header(),
                block.writer().emitted(),
                block.writer().sink().room(),
            );
            &&& (r is Ok <==> res is Some)
            &&& (r is Ok ==> res->Some_0 == (r->Ok_0.reader().bit_pos(), r->Ok_0.writer().emitted()))
        }),
        r is Ok ==> {
            let d = r->Ok_0;
            &&& d.wf()
            &&& d.exhausted() == block.header().is_final
            &&& d.reader().bytes() == block.reader().bytes()
            &&& d.reader().bit_pos() > block.reader().bit_pos()
            &&& d.writer().base() == block.writer().base()
            &&& d.writer().sink().limit() == block.writer().sink().limit()
        },
{
    block.read_content()
}

/// Decodes the blocks of one member and checks its footer.
fn process_compressed_data(deflate_reader: DeflateReader) -> (r: Result<GzipReader, DecodeError>)
    requires
        deflate_reader.wf(),
        !deflate_reader.exhausted(),
        deflate_reader.writer().emitted().len() == 0,
    ensures
        ({
            let cap = (deflate_reader.writer().sink().limit() - deflate_reader.writer().base().len()) as nat;
            let res = member_body(deflate_reader.reader().bytes(), deflate_reader.reader().bit_pos(), cap);
            &&& (r is Ok <==> res is Some)
            &&& r is Ok ==> {
                let g = r->Ok_0;
                &&& g.wf()
                &&& g.reader().bytes() == deflate_reader.reader().bytes()
                &&& g.reader().position() == res->Some_0.0
                &&& g.writer().contents() == deflate_reader.writer().base() + res->Some_0.1
                &&& g.writer().limit() == deflate_reader.writer().sink().limit()
                &&& g.reader().position() * 8 >= deflate_reader.reader().bit_pos() + 64
            }
        }),
{
    let ghost data = deflate_reader.reader().bytes();
    let ghost p0 = deflate_reader.reader().bit_pos();
    let ghost base = deflate_reader.writer().base();
    let ghost limit = deflate_reader.writer().sink().limit();
    let ghost cap = (limit - base.len()) as nat;
    proof {
        deflate_reader.writer().lemma_contents();
        assert(deflate_reader.writer().emitted() =~= Seq::<u8>::empty());
    }
    let ghost mut steps: nat = 0;
    let mut current = deflate_reader;
    loop
        invariant
            current.wf(),
            current.reader().bytes() == data,
            current.writer().base() == base,
            current.writer().sink().limit() == limit,
            current.reader().bit_pos() >= p0,
            limit >= base.len(),
            cap == limit - base.len(),
            data == deflate_reader.reader().bytes(),
            p0 == deflate_reader.reader().bit_pos(),
            base == deflate_reader.writer().base(),
            limit == deflate_reader.writer().sink().limit(),
            deflate_reader.writer().emitted() == Seq::<u8>::empty(),
            current.writer().sink().room() == cap - current.writer().emitted().len(),
            !current.exhausted() ==> forall|f: nat|
                #[trigger] blocks_output(data, p0, Seq::empty(), cap, f + steps) == blocks_output(
                    data,
                    current.reader().bit_pos(),
                    current.writer().emitted(),
                    cap,
                    f,
                ),
            current.exhausted() ==> forall|f: nat|
                #[trigger] blocks_output(data, p0, Seq::empty(), cap, f + steps) == Some(
                    (current.reader().bit_pos(), current.writer().emitted()),
                ),
            forall|f: nat| f < steps ==> (#[trigger] blocks_output(data, p0, Seq::empty(), cap, f)) is None,
        decreases current.reader().bits_left(), (if current.exhausted() { 0int } else { 1int }),
    {
        proof {
            current.reader().lemma_wf_bounds();
            current.writer().lemma_contents();
        }
        let ghost cur = current.reader();
        let ghost cur_p = current.reader().bit_pos();
        let ghost cur_out = current.writer().emitted();
        let ghost was_exhausted = current.exhausted();
        let ghost cur_w = current.writer();
        match current.next_block() {
            NextBlock::BlockOrError(Ok(block)) => {
                let ghost h = block.header();
                match process_deflate_block(block) {
                    Ok(d) => {
                        current = d;
                    },
                    Err(e) => {
                        proof {
                            assert forall|f: nat| (#[trigger] blocks_output(data, cur_p, cur_out, cap, f + 1)) is None by {}
                            assert forall|f: nat| (#[trigger] blocks_output(data, p0, Seq::empty(), cap, f)) is None by {
                                if f >= steps + 1 {
                                    let g = (f - steps - 1) as nat;
                                    assert(f == (g + 1) + steps);
                                    assert(blocks_output(data, p0, Seq::empty(), cap, (g + 1) + steps) == blocks_output(data, cur_p, cur_out, cap, g + 1));
                                } else if f == steps {
                                    assert(blocks_output(data, p0, Seq::empty(), cap, 0 + steps) == blocks_output(data, cur_p, cur_out, cap, 0));
                                }
                            }
                        }
                        return Err(e);
                    },
                }
                proof {
                    current.reader().lemma_wf_bounds();
                    current.writer().lemma_contents();
                    if h.is_final {
                        assert forall|f: nat| #[trigger] blocks_output(data, p0, Seq::empty(), cap, f + (steps + 1)) == Some(
                            (current.reader().bit_pos(), current.writer().emitted())) by {
                            assert(f + (steps + 1) == (f + 1) + steps);
                            assert(blocks_output(data, p0, Seq::empty(), cap, (f + 1) + steps) == blocks_output(data, cur_p, cur_out, cap, f + 1));
                        }
                    } else {
                        assert forall|f: nat| #[trigger] blocks_output(data, p0, Seq::empty(), cap, f + (steps + 1)) == blocks_output(
                            data, current.reader().bit_pos(), current.writer().emitted(), cap, f) by {
                            assert(f + (steps + 1) == (f + 1) + steps);
                            assert(blocks_output(data, p0, Seq::empty(), cap, (f + 1) + steps) == blocks_output(data, cur_p, cur_out, cap, f + 1));
                        }
                    }
                    assert(blocks_output(data, p0, Seq::empty(), cap, 0 + steps) == blocks_output(data, cur_p, cur_out, cap, 0));
                    steps = steps + 1;
                }
            },
            NextBlock::BlockOrError(Err(error)) => {
                proof {
                    assert forall|f: nat| (#[trigger] blocks_output(data, p0, Seq::empty(), cap, f)) is None by {
                        if f >= steps + 1 {
                            let g = (f - steps - 1) as nat;
                            assert(f == (g + 1) + steps);
                            assert(blocks_output(data, p0, Seq::empty(), cap, (g + 1) + steps) == blocks_output(data, cur_p, cur_out, cap, g + 1));
                        } else if f == steps {
                            assert(blocks_output(data, p0, Seq::empty(), cap, 0 + steps) == blocks_output(data, cur_p, cur_out, cap, 0));
                        }
                    }
                }
                return Err(error);
            },
            NextBlock::Footer(reader, writer) => {
                proof {
                    cur.lemma_wf_bounds();
                    lemma_fundamental_div_mod_converse(cur_p + 7, 8, reader.position() as int, 7 - cur.pending());
                    assert(reader.position() * 8 >= p0);
                    assert(blocks_output(data, p0, Seq::empty(), cap, 0 + steps) == Some((cur_p, cur_out)));
                    assert(member_body(data, p0, cap) == if footer_matches(data, reader.position() as int, cur_out) {
                        Some(((reader.position() + 8) as int, cur_out))
                    } else {
                        None::<(int, Seq<u8>)>
                    }) by {
                        let f = choose|f: nat| (#[trigger] blocks_output(data, p0, Seq::empty(), cap, f)) is Some;
                        assert(blocks_output(data, p0, Seq::empty(), cap, f) is Some);
                        if f >= steps {
                            let g = (f - steps) as nat;
                            assert(f == g + steps);
                        }
                    }
                }
                return process_gzip_footer(GzipFooter::new(reader, writer));
            },
        }
    }
}

/// Decodes the member at the reader's position into its sink.
fn decode_member(gzip_reader: GzipReader) -> (r: Result<GzipReader, DecodeError>)
    requires
        gzip_reader.wf(),
    ensures
        ({
            let data = gzip_reader.reader().bytes();
            let k = gzip_reader.reader().position() as int;
            let out = gzip_reader.writer().contents();
            let res = member_output(data, k, (gzip_reader.writer().limit() - out.len()) as nat);
            &&& (r is Ok <==> res is Some)
            &&& r is Ok ==> {
                let g = r->Ok_0;
                &&& g.wf()
                &&& g.reader().bytes() == data
                &&& g.reader().position() == res->Some_0.0
                &&& g.writer().contents() == out + res->Some_0.1
                &&& g.writer().limit() == gzip_reader.writer().limit()
                &&& g.reader().position() > gzip_reader.reader().position()
            }
        }),
{
    proof {
        reveal(member_output);
        gzip_reader.reader().lemma_bounds();
        let data = gzip_reader.reader().bytes();
        let k = gzip_reader.reader().position() as int;
        assert(gzip_reader.reader().rest() =~= data.subrange(k, data.len() as int));
    }
    match gzip_reader.next_member() {
        Ok((_header, deflate_reader)) => process_compressed_data(deflate_reader),
        Err(error) => Err(error),
    }
}

/// Decompresses a gzip stream of one or more members into the concatenation of their
/// contents.
#[verifier::rlimit(50)]
pub fn decompress(input: Vec<u8>) -> (r: Result<Vec<u8>, DecodeError>)
    ensures
        r is Ok <==> gzip_output(input@, usize::MAX as nat) is Some,
        r is Ok ==> r->Ok_0@ == gzip_output(input@, usize::MAX as nat)->Some_0,
{
    let ghost data = input@;
    let ghost cap = usize::MAX as nat;
    let mut gzip_reader = GzipReader::new(ByteReader::new(input), ByteSink::new());
    let ghost mut steps: nat = 0;
    while !gzip_reader.is_empty()
        invariant
            gzip_reader.wf(),
            data == input@,
            cap == usize::MAX as nat,
            gzip_reader.reader().bytes() == data,
            gzip_reader.writer().limit() == cap,
            forall|f: nat|
                #[trigger] gzip_members(data, 0, Seq::empty(), cap, f + steps) == gzip_members(
                    data,
                    gzip_reader.reader().position() as int,
                    gzip_reader.writer().contents(),
                    cap,
                    f,
                ),
            forall|f: nat| f < steps ==> (#[trigger] gzip_members(data, 0, Seq::empty(), cap, f)) is None,
        decreases gzip_reader.reader().rest().len(),
    {
        proof {
            gzip_reader.reader().lemma_bounds();
        }
        let ghost k = gzip_reader.reader().position() as int;
        let ghost out = gzip_reader.writer().contents();
        match decode_member(gzip_reader) {
            Ok(g) => {
                gzip_reader = g;
            },
            Err(error) => {
                proof {
                    assert forall|f: nat| (#[trigger] gzip_members(data, 0, Seq::empty(), cap, f)) is None by {
                        if f >= steps + 1 {
                            let g = (f - steps - 1) as nat;
                            assert(f == (g + 1) + steps);
                            assert(gzip_members(data, 0, Seq::empty(), cap, (g + 1) + steps) == gzip_members(data, k, out, cap, g + 1));
                        } else if f == steps {
                            assert(gzip_members(data, 0, Seq::empty(), cap, 0 + steps) == gzip_members(data, k, out, cap, 0));
                        }
                    }
                }
                return Err(error);
            },
        }
        proof {
            gzip_reader.reader().lemma_bounds();
            assert forall|f: nat| #[trigger] gzip_members(data, 0, Seq::empty(), cap, f + (steps + 1)) == gzip_members(
                data, gzip_reader.reader().position() as int, gzip_reader.writer().contents(), cap, f) by {
                assert(f + (steps + 1) == (f + 1) + steps);
                assert(gzip_members(data, 0, Seq::empty(), cap, (f + 1) + steps) == gzip_members(data, k, out, cap, f + 1));
            }
            assert(gzip_members(data, 0, Seq::empty(), cap, 0 + steps) == gzip_members(data, k, out, cap, 0));
            steps = steps + 1;
        }
    }
    proof {
        gzip_reader.reader().lemma_bounds();
        assert(gzip_members(data, 0, Seq::empty(), cap, 0 + steps) == Some(gzip_reader.writer().contents()));
        let f = choose|f: nat| (#[trigger] gzip_members(data, 0, Seq::empty(), cap, f)) is Some;
        if gzip_members(data, 0, Seq::empty(), cap, f) is Some && f >= steps {
            let g = (f - steps) as nat;
            assert(f == g + steps);
        }
    }
    Ok(gzip_reader.into_writer().into_vec())
}

} // verus!
