use std::collections::HashMap;

use vstd::arithmetic::power2::{lemma2_to64, lemma_pow2_pos, lemma_pow2_strictly_increases, lemma_pow2_unfold, pow2};
use vstd::bits::lemma_u32_shl_is_mul;
use vstd::prelude::*;

use crate::bit_reader::{bit_at, bits_value, BitReader, BitSequence};
use crate::error::DecodeError;

verus! {

broadcast use vstd::std_specs::hash::group_hash_axioms;

/// The longest code a table may hold.
pub const MAX_BITS: usize = 15;

/// The index of a symbol in its alphabet.
pub struct HuffmanCodeWord(pub u16);

/// A symbol of an alphabet, made from its index.
pub trait FromCodeWord: Sized + Copy {
    /// The symbol of index `w`, or none where the alphabet reserves or lacks `w`.
    spec fn spec_from_word(w: u16) -> Option<Self>;

    fn from_word(word: HuffmanCodeWord) -> (r: Result<Self, DecodeError>)
        ensures
            match r {
                Ok(t) => Self::spec_from_word(word.0) == Some(t),
                Err(e) => Self::spec_from_word(word.0) is None && e == DecodeError::ReservedSymbol,
            },
    ;
}

/// A symbol of the code-length alphabet.
#[derive(Clone, Copy, Debug, PartialEq, Eq, Structural)]
pub enum TreeCodeToken {
    /// A code length of 0 to 15.
    Length(u8),
    /// Repeat the previous length 3 to 6 times.
    CopyPrev,
    /// Repeat a zero length `base` plus the value of `extra_bits` more bits times.
    RepeatZero { base: u16, extra_bits: u8 },
}

pub open spec fn spec_tree_code_token(w: u16) -> Option<TreeCodeToken> {
    if w <= 15 {
        Some(TreeCodeToken::Length(w as u8))
    } else if w == 16 {
        Some(TreeCodeToken::CopyPrev)
    } else if w == 17 {
        Some(TreeCodeToken::RepeatZero { base: 3, extra_bits: 3 })
    } else if w == 18 {
        Some(TreeCodeToken::RepeatZero { base: 11, extra_bits: 7 })
    } else {
        None
    }
}

impl FromCodeWord for TreeCodeToken {
    open spec fn spec_from_word(w: u16) -> Option<Self> {
        spec_tree_code_token(w)
    }

    fn from_word(word: HuffmanCodeWord) -> (r: Result<Self, DecodeError>) {
        let w = word.0;
        if w <= 15 {
            Ok(TreeCodeToken::Length(w as u8))
        } else if w == 16 {
            Ok(TreeCodeToken::CopyPrev)
        } else if w == 17 {
            Ok(TreeCodeToken::RepeatZero { base: 3, extra_bits: 3 })
        } else if w == 18 {
            Ok(TreeCodeToken::RepeatZero { base: 11, extra_bits: 7 })
        } else {
            Err(DecodeError::ReservedSymbol)
        }
    }
}

/// A symbol of the literal/length alphabet.
#[derive(Clone, Copy, Debug, PartialEq, Eq, Structural)]
pub enum LitLenToken {
    Literal(u8),
    EndOfBlock,
    /// A match length of `base` plus the value of `extra_bits` more bits.
    Length { base: u16, extra_bits: u8 },
}

pub open spec fn spec_litlen_token(w: u16) -> Option<LitLenToken> {
    if w <= 255 {
        Some(LitLenToken::Literal(w as u8))
    } else if w == 256 {
        Some(LitLenToken::EndOfBlock)
    } else if w <= 264 {
        Some(LitLenToken::Length { base: (w - 254) as u16, extra_bits: 0 })
    } else if w <= 268 {
        Some(LitLenToken::Length { base: (11 + 2 * (w - 265)) as u16, extra_bits: 1 })
    } else if w <= 272 {
        Some(LitLenToken::Length { base: (19 + 4 * (w - 269)) as u16, extra_bits: 2 })
    } else if w <= 276 {
        Some(LitLenToken::Length { base: (35 + 8 * (w - 273)) as u16, extra_bits: 3 })
    } else if w <= 280 {
        Some(LitLenToken::Length { base: (67 + 16 * (w - 277)) as u16, extra_bits: 4 })
    } else if w <= 284 {
        Some(LitLenToken::Length { base: (131 + 32 * (w - 281)) as u16, extra_bits: 5 })
    } else if w == 285 {
        Some(LitLenToken::Length { base: 258, extra_bits: 0 })
    } else {
        None
    }
}

impl FromCodeWord for LitLenToken {
    open spec fn spec_from_word(w: u16) -> Option<Self> {
        spec_litlen_token(w)
    }

    fn from_word(word: HuffmanCodeWord) -> (r: Result<Self, DecodeError>) {
        let w = word.0;
        if w <= 255 {
            Ok(LitLenToken::Literal(w as u8))
        } else if w == 256 {
            Ok(LitLenToken::EndOfBlock)
        } else if w <= 264 {
            Ok(LitLenToken::Length { base: w - 254, extra_bits: 0 })
        } else if w <= 268 {
            Ok(LitLenToken::Length { base: 11 + 2 * (w - 265), extra_bits: 1 })
        } else if w <= 272 {
            Ok(LitLenToken::Length { base: 19 + 4 * (w - 269), extra_bits: 2 })
        } else if w <= 276 {
            Ok(LitLenToken::Length { base: 35 + 8 * (w - 273), extra_bits: 3 })
        } else if w <= 280 {
            Ok(LitLenToken::Length { base: 67 + 16 * (w - 277), extra_bits: 4 })
        } else if w <= 284 {
            Ok(LitLenToken::Length { base: 131 + 32 * (w - 281), extra_bits: 5 })
        } else if w == 285 {
            Ok(LitLenToken::Length { base: 258, extra_bits: 0 })
        } else {
            Err(DecodeError::ReservedSymbol)
        }
    }
}

/// A symbol of the distance alphabet: a distance of `base` plus the value of `extra_bits`
/// more bits.
#[derive(Clone, Copy, Debug, PartialEq, Eq, Structural)]
pub struct DistanceToken {
    pub base: u16,
    pub extra_bits: u8,
}

pub open spec fn spec_distance_token(w: u16) -> Option<DistanceToken> {
    if w <= 1 {
        Some(DistanceToken { base: (w + 1) as u16, extra_bits: 0 })
    } else if w <= 29 {
        let extra = (w / 2 - 1) as nat;
        Some(DistanceToken { base: ((w % 2 + 2) * pow2(extra) + 1) as u16, extra_bits: extra as u8 })
    } else {
        None
    }
}

impl FromCodeWord for DistanceToken {
    open spec fn spec_from_word(w: u16) -> Option<Self> {
        spec_distance_token(w)
    }

    fn from_word(word: HuffmanCodeWord) -> (r: Result<Self, DecodeError>) {
        let w = word.0;
        if w <= 1 {
            Ok(DistanceToken { base: w + 1, extra_bits: 0 })
        } else if w <= 29 {
            let extra: u16 = w / 2 - 1;
            proof {
                lemma2_to64();
                if extra < 13 {
                    lemma_pow2_strictly_increases(extra as nat, 13);
                }
                assert(((w % 2 + 2) as u32) * pow2(extra as nat) <= 3 * 8192) by (nonlinear_arith)
                    requires
                        w % 2 + 2 <= 3,
                        pow2(extra as nat) <= 8192,
                ;
                lemma_u32_shl_is_mul((w % 2 + 2) as u32, extra as u32);
            }
            let base: u32 = ((w % 2 + 2) as u32) << (extra as u32);
            Ok(DistanceToken { base: (base + 1) as u16, extra_bits: extra as u8 })
        } else {
            Err(DecodeError::ReservedSymbol)
        }
    }
}

/// Symbols standing for their own index, for tables over a plain numbered alphabet.
impl FromCodeWord for u16 {
    open spec fn spec_from_word(w: u16) -> Option<Self> {
        Some(w)
    }

    fn from_word(word: HuffmanCodeWord) -> (r: Result<Self, DecodeError>) {
        Ok(word.0)
    }
}

/// The table key of the code `bits` of `len` bits.
pub open spec fn code_key(bits: nat, len: nat) -> u32 {
    (len * 65536 + bits) as u32
}

/// How many entries of `s` equal `len`.
pub open spec fn count_len(s: Seq<u8>, len: nat) -> nat
    decreases s.len(),
{
    if s.len() == 0 {
        0
    } else {
        count_len(s.drop_last(), len) + if s.last() == len {
            1nat
        } else {
            0nat
        }
    }
}

/// The first code of length `len` in the canonical code for the lengths `s`.
pub open spec fn first_code(s: Seq<u8>, len: nat) -> nat
    decreases len,
{
    if len == 0 {
        0
    } else {
        2 * (first_code(s, (len - 1) as nat) + if len == 1 {
            0
        } else {
            count_len(s, (len - 1) as nat)
        })
    }
}

/// The code of symbol `i` in the canonical code for the lengths `s`: the codes of one
/// length are consecutive, in symbol order.
pub open spec fn code_of(s: Seq<u8>, i: int) -> nat {
    first_code(s, s[i] as nat) + count_len(s.take(i), s[i] as nat)
}

/// Lengths a table can be built from: at most 15 bits each, and each code fitting in its
/// length, which holds exactly when the lengths do not over-subscribe the code space.
pub open spec fn lengths_fit(s: Seq<u8>) -> bool {
    &&& s.len() <= 65536
    &&& forall|i: int| 0 <= i < s.len() ==> s[i] <= MAX_BITS
    &&& forall|i: int|
        0 <= i < s.len() && s[i] > 0 ==> #[trigger] code_of(s, i) < pow2(s[i] as nat)
}

/// `m` is the canonical code for the lengths `s`: each symbol with a nonzero length is
/// found under its code (as none where the alphabet reserves it), and nothing else is in
/// the table.
pub open spec fn is_canonical_table<T: FromCodeWord>(m: Map<u32, Option<T>>, s: Seq<u8>) -> bool {
    &&& forall|i: int|
        0 <= i < s.len() && s[i] > 0 ==> #[trigger] m.contains_key(code_key(code_of(s, i), s[i] as nat))
            && m[code_key(code_of(s, i), s[i] as nat)] == T::spec_from_word(i as u16)
    &&& forall|k: u32|
        #[trigger] m.contains_key(k) ==> exists|i: int|
            0 <= i < s.len() && s[i] > 0 && k == #[trigger] code_key(code_of(s, i), s[i] as nat)
}

proof fn lemma_count_le(s: Seq<u8>, len: nat)
    ensures
        count_len(s, len) <= s.len(),
    decreases s.len(),
{
    if s.len() > 0 {
        lemma_count_le(s.drop_last(), len);
    }
}

proof fn lemma_count_take_step(s: Seq<u8>, i: int, len: nat)
    requires
        0 <= i < s.len(),
    ensures
        count_len(s.take(i + 1), len) == count_len(s.take(i), len) + if s[i] == len {
            1nat
        } else {
            0nat
        },
{
    assert(s.take(i + 1).drop_last() =~= s.take(i));
}

proof fn lemma_count_take_mono(s: Seq<u8>, j: int, i: int, len: nat)
    requires
        0 <= j <= i <= s.len(),
    ensures
        count_len(s.take(j), len) <= count_len(s.take(i), len),
    decreases i - j,
{
    if j < i {
        lemma_count_take_mono(s, j, i - 1, len);
        lemma_count_take_step(s, i - 1, len);
    }
}

/// Two symbols of one length have different codes.
proof fn lemma_codes_distinct(s: Seq<u8>, j: int, i: int)
    requires
        0 <= j < i < s.len(),
        s[i] == s[j],
    ensures
        code_of(s, j) < code_of(s, i),
{
    lemma_count_take_step(s, j, s[j] as nat);
    lemma_count_take_mono(s, j + 1, i, s[j] as nat);
}


/// The number whose bits, most significant first, are the `n` stream bits from `start` on:
/// the code that `n` bits read one at a time form.
pub open spec fn msb_value(data: Seq<u8>, start: int, n: nat) -> nat
    decreases n,
{
    if n == 0 {
        0
    } else {
        2 * msb_value(data, start, (n - 1) as nat) + bit_at(data, start + n - 1)
    }
}

/// The shortest length from `n` to 15 at which the bits from `start` on form a code of `m`.
pub open spec fn first_match<T>(m: Map<u32, T>, data: Seq<u8>, start: int, n: nat) -> Option<nat>
    decreases 16 - n,
{
    if n > 15 {
        None
    } else if m.contains_key(code_key(msb_value(data, start, n), n)) {
        Some(n)
    } else {
        first_match(m, data, start, n + 1)
    }
}

/// How many bits decoding a symbol at `start` reads before it stops.
pub open spec fn symbol_len<T>(m: Map<u32, T>, data: Seq<u8>, start: int) -> nat {
    match first_match(m, data, start, 1) {
        Some(n) => n,
        None => 15,
    }
}

proof fn lemma_first_match_ge<T>(m: Map<u32, T>, data: Seq<u8>, start: int, n: nat)
    ensures
        first_match(m, data, start, n) is Some ==> first_match(m, data, start, n)->Some_0 >= n
            && first_match(m, data, start, n)->Some_0 <= 15,
    decreases 16 - n,
{
    if n <= 15 && !m.contains_key(code_key(msb_value(data, start, n), n)) {
        lemma_first_match_ge(m, data, start, n + 1);
    }
}

#[verifier::rlimit(30)]
proof fn lemma_first_code_bound(s: Seq<u8>, len: nat)
    ensures
        first_code(s, len) + 2 * s.len() <= s.len() * pow2(len + 1),
    decreases len,
{
    lemma_pow2_unfold(len + 1);
    if len == 0 {
        lemma2_to64();
        assert(first_code(s, 0) == 0);
        assert(pow2(len + 1) == 2);
        let q = pow2(len + 1);
        let n = s.len();
        assert(n * q == 2 * n) by (nonlinear_arith)
            requires
                q == 2,
        ;
    } else {
        lemma_first_code_bound(s, (len - 1) as nat);
        lemma_count_le(s, (len - 1) as nat);
        let n = s.len();
        let p = pow2(len);
        assert(((len - 1) as nat + 1) as nat == len);
        assert(first_code(s, (len - 1) as nat) + 2 * n <= n * p);
        assert(n * (2 * p) == 2 * (n * p)) by (nonlinear_arith);
        assert(pow2(len + 1) == 2 * p);
        let f0 = first_code(s, (len - 1) as nat);
        let c: nat = if len == 1 {
            0
        } else {
            count_len(s, (len - 1) as nat)
        };
        assert(first_code(s, len) == 2 * (f0 + c));
        assert(c <= n);
        assert(first_code(s, len) + 2 * n <= 2 * (n * p));
        assert(n * pow2(len + 1) == n * (2 * p));
        assert(first_code(s, len) + 2 * s.len() <= s.len() * pow2(len + 1));
    }
}


/// The code `a` of `la` bits is a prefix of the code `b` of `lb` bits.
pub open spec fn is_prefix_of(a: nat, la: nat, b: nat, lb: nat) -> bool {
    la <= lb && b / pow2((lb - la) as nat) == a
}

proof fn lemma_first_code_grows(s: Seq<u8>, la: nat, lb: nat)
    requires
        1 <= la < lb,
    ensures
        first_code(s, lb) >= (first_code(s, la) + count_len(s, la)) * pow2((lb - la) as nat),
    decreases lb - la,
{
    if lb == la + 1 {
        lemma2_to64();
        assert(((lb - la) as nat) == 1);
    } else {
        lemma_first_code_grows(s, la, (lb - 1) as nat);
        let a = first_code(s, la) + count_len(s, la);
        let p = pow2((lb - 1 - la) as nat);
        lemma_pow2_unfold((lb - la) as nat);
        assert(((lb - la) as nat - 1) as nat == (lb - 1 - la) as nat);
        assert(first_code(s, lb) >= 2 * first_code(s, (lb - 1) as nat));
        assert(2 * (a * p) == a * (2 * p)) by (nonlinear_arith);
    }
}

proof fn lemma_rank_below_count(s: Seq<u8>, i: int)
    requires
        0 <= i < s.len(),
    ensures
        count_len(s.take(i), s[i] as nat) < count_len(s, s[i] as nat),
{
    lemma_count_take_step(s, i, s[i] as nat);
    lemma_count_take_mono(s, i + 1, s.len() as int, s[i] as nat);
    assert(s.take(s.len() as int) =~= s);
}

/// The canonical code is a prefix code: for lengths a table can be built from, no
/// symbol's code is a prefix of another symbol's code.
pub proof fn lemma_canonical_codes_prefix_free(s: Seq<u8>, i: int, j: int)
    requires
        lengths_fit(s),
        0 <= i < s.len(),
        0 <= j < s.len(),
        i != j,
        s[i] > 0,
        s[j] > 0,
    ensures
        !is_prefix_of(code_of(s, i), s[i] as nat, code_of(s, j), s[j] as nat),
{
    let la = s[i] as nat;
    let lb = s[j] as nat;
    if la == lb {
        lemma2_to64();
        assert(((lb - la) as nat) == 0);
        if i < j {
            lemma_codes_distinct(s, i, j);
        } else {
            lemma_codes_distinct(s, j, i);
        }
    } else if la < lb {
        let d = (lb - la) as nat;
        let a = first_code(s, la) + count_len(s, la);
        lemma_rank_below_count(s, i);
        lemma_first_code_grows(s, la, lb);
        lemma_pow2_pos(d);
        assert(code_of(s, j) >= a * pow2(d));
        vstd::arithmetic::div_mod::lemma_div_is_ordered((a * pow2(d)) as int, code_of(s, j) as int, pow2(d) as int);
        vstd::arithmetic::div_mod::lemma_div_multiples_vanish(a as int, pow2(d) as int);
        assert((a * pow2(d)) / pow2(d) == a) by {
            assert(pow2(d) * a == a * pow2(d)) by (nonlinear_arith);
        }
        assert(code_of(s, j) / pow2(d) >= a);
        assert(code_of(s, i) < a);
    }
}

/// Building a table from the same lengths twice gives the same table.
pub proof fn lemma_canonical_table_unique<T: FromCodeWord>(
    m1: Map<u32, Option<T>>,
    m2: Map<u32, Option<T>>,
    s: Seq<u8>,
)
    requires
        is_canonical_table(m1, s),
        is_canonical_table(m2, s),
    ensures
        m1 == m2,
{
    assert forall|k: u32| m1.contains_key(k) implies m2.contains_key(k) && m1[k] == m2[k] by {
        let i = choose|i: int|
            0 <= i < s.len() && s[i] > 0 && k == #[trigger] code_key(code_of(s, i), s[i] as nat);
    }
    assert forall|k: u32| m2.contains_key(k) implies m1.contains_key(k) by {
        let i = choose|i: int|
            0 <= i < s.len() && s[i] > 0 && k == #[trigger] code_key(code_of(s, i), s[i] as nat);
    }
    assert(m1 =~= m2);
}

/// A prefix code table built from lengths.
pub struct HuffmanCoding<T> {
    map: HashMap<u32, Option<T>>,
}

impl<T: FromCodeWord> HuffmanCoding<T> {
    /// The table, keyed by `code_key` of each code.
    pub closed spec fn table(&self) -> Map<u32, Option<T>> {
        self.map@
    }

    /// A table from a map keyed by `len * 65536 + bits`; a reserved symbol maps to none.
    pub fn new(map: HashMap<u32, Option<T>>) -> (r: Self)
        ensures
            r.table() == map@,
    {
        Self { map }
    }

    /// The symbol whose code is `seq`, if any and if the alphabet does not reserve it.
    pub fn decode_symbol(&self, seq: BitSequence) -> (r: Option<T>)
        ensures
            r == if self.table().contains_key(code_key(seq.bits() as nat, seq.len() as nat)) {
                self.table()[code_key(seq.bits() as nat, seq.len() as nat)]
            } else {
                None::<T>
            },
    {
        let key: u32 = (seq.len() as u32) * 65536 + (seq.bits() as u32);
        match self.lookup(key) {
            Some(t) => t,
            None => None,
        }
    }

    fn lookup(&self, key: u32) -> (r: Option<Option<T>>)
        ensures
            r == if self.table().contains_key(key) {
                Some(self.table()[key])
            } else {
                None::<Option<T>>
            },
    {
        match self.map.get(&key) {
            Some(t) => Some(*t),
            None => None,
        }
    }

    /// Reads bits one at a time, each the next lower bit of the code, until they form a
    /// code of the table; fails after 15 bits without a match.
    pub fn read_symbol(&self, bit_reader: &mut BitReader) -> (r: Result<T, DecodeError>)
        requires
            old(bit_reader).wf(),
        ensures
            final(bit_reader).wf(),
            final(bit_reader).bytes() == old(bit_reader).bytes(),
            r is Ok ==> final(bit_reader).bit_pos() > old(bit_reader).bit_pos(),
            ({
                let data = old(bit_reader).bytes();
                let p = old(bit_reader).bit_pos();
                let fm = first_match(self.table(), data, p, 1);
                let n = symbol_len(self.table(), data, p);
                let found = self.table()[code_key(msb_value(data, p, n), n)];
                &&& (r is Ok <==> fm is Some && old(bit_reader).bits_left() >= n && found is Some)
                &&& (r is Ok ==> Some(r->Ok_0) == found && final(bit_reader).bit_pos() == p + n)
                &&& (r is Err ==> (r->Err_0 == DecodeError::UnexpectedEnd && old(
                    bit_reader,
                ).bits_left() < n) || (r->Err_0 == DecodeError::MalformedCode && fm is None
                    && old(bit_reader).bits_left() >= 15) || (r->Err_0 == DecodeError::ReservedSymbol
                    && fm is Some && old(bit_reader).bits_left() >= n && found is None))
            }),
    {
        let ghost data = bit_reader.bytes();
        let ghost p = bit_reader.bit_pos();
        let ghost m = self.table();
        proof {
            bit_reader.lemma_wf_bounds();
            lemma2_to64();
            lemma_first_match_ge(m, data, p, 1);
        }
        let mut code = BitSequence::new(0, 0);
        let mut i: u8 = 0;
        while i < 15
            invariant
                bit_reader.wf(),
                bit_reader.bytes() == data,
                data == old(bit_reader).bytes(),
                p == old(bit_reader).bit_pos(),
                m == self.table(),
                i <= 15,
                code.wf(),
                code.len() == i,
                code.bits() as nat == msb_value(data, p, i as nat),
                bit_reader.bit_pos() == p + i,
                first_match(m, data, p, 1) == first_match(m, data, p, (i + 1) as nat),
                bit_reader.bits_left() >= 0,
            decreases 15 - i,
        {
            proof {
                lemma_first_match_ge(m, data, p, (i + 1) as nat);
            }
            let bit = match bit_reader.read_bits(1) {
                Ok(b) => b,
                Err(e) => {
                    return Err(e);
                },
            };
            proof {
                reveal_with_fuel(crate::bit_reader::bits_value, 2);
                lemma2_to64();
                assert(pow2(1) == 2);
            }
            code = code.concat(bit);
            i = i + 1;
            proof {
                assert(msb_value(data, p, i as nat) == 2 * msb_value(data, p, (i - 1) as nat) + bit_at(
                    data,
                    p + i - 1,
                ));
            }
            let key: u32 = (code.len() as u32) * 65536 + (code.bits() as u32);
            match self.lookup(key) {
                Some(Some(t)) => {
                    return Ok(t);
                },
                Some(None) => {
                    return Err(DecodeError::ReservedSymbol);
                },
                None => {},
            }
        }
        Err(DecodeError::MalformedCode)
    }

    /// Builds the canonical prefix code for the given code lengths, symbol `i` having
    /// length `code_lengths[i]` and no code where that is zero.
    pub fn from_lengths(code_lengths: &[u8]) -> (r: Result<Self, DecodeError>)
        ensures
            match r {
                Ok(h) => lengths_fit(code_lengths@) && is_canonical_table(h.table(), code_lengths@),
                Err(e) => !lengths_fit(code_lengths@) && e == DecodeError::MalformedCode,
            },
    {
        let ghost s = code_lengths@;
        let n = code_lengths.len();
        if n > 65536 {
            return Err(DecodeError::MalformedCode);
        }
        let mut i: usize = 0;
        while i < n
            invariant
                s == code_lengths@,
                n == s.len(),
                i <= n,
                forall|j: int| 0 <= j < i ==> s[j] <= MAX_BITS,
            decreases n - i,
        {
            if code_lengths[i] as usize > MAX_BITS {
                return Err(DecodeError::MalformedCode);
            }
            i = i + 1;
        }
        let mut bl_count: Vec<u64> = vec![0u64; MAX_BITS + 1];
        i = 0;
        while i < n
            invariant
                s == code_lengths@,
                n == s.len(),
                n <= 65536,
                i <= n,
                forall|j: int| 0 <= j < n ==> s[j] <= MAX_BITS,
                bl_count@.len() == 16,
                forall|l: int| 0 <= l < 16 ==> bl_count@[l] == count_len(s.take(i as int), l as nat),
            decreases n - i,
        {
            let l = code_lengths[i] as usize;
            proof {
                lemma_count_le(s.take(i as int), l as nat);
                assert forall|k: int| 0 <= k < 16 implies #[trigger] count_len(s.take(i + 1), k as nat) == count_len(
                    s.take(i as int),
                    k as nat,
                ) + if s[i as int] == k {
                    1nat
                } else {
                    0nat
                } by {
                    lemma_count_take_step(s, i as int, k as nat);
                }
            }
            bl_count.set(l, bl_count[l] + 1);
            i = i + 1;
        }
        proof {
            assert(s.take(n as int) =~= s);
        }
        let mut next_code: Vec<u64> = vec![0u64; MAX_BITS + 1];
        let mut code: u64 = 0;
        let mut len: usize = 1;
        while len <= MAX_BITS
            invariant
                s == code_lengths@,
                n == s.len(),
                n <= 65536,
                1 <= len <= 16,
                bl_count@.len() == 16,
                forall|l: int| 0 <= l < 16 ==> bl_count@[l] == count_len(s, l as nat),
                next_code@.len() == 16,
                code == first_code(s, (len - 1) as nat),
                forall|l: int| 1 <= l < len ==> next_code@[l] == first_code(s, l as nat),
            decreases 16 - len,
        {
            proof {
                lemma_first_code_bound(s, len as nat);
                lemma_first_code_bound(s, (len - 1) as nat);
                lemma_count_le(s, (len - 1) as nat);
                lemma_pow2_strictly_increases((len + 1) as nat, 32);
                lemma2_to64();
                assert(n * pow2((len + 1) as nat) <= 65536 * 0x1_0000_0000) by (nonlinear_arith)
                    requires
                        n <= 65536,
                        pow2((len + 1) as nat) < 0x1_0000_0000,
                ;
            }
            let prev = if len == 1 {
                0
            } else {
                bl_count[len - 1]
            };
            code = (code + prev) * 2;
            next_code.set(len, code);
            len = len + 1;
        }
        let mut codes: Vec<u16> = Vec::new();
        i = 0;
        while i < n
            invariant
                s == code_lengths@,
                n == s.len(),
                n <= 65536,
                i <= n,
                forall|j: int| 0 <= j < n ==> s[j] <= MAX_BITS,
                next_code@.len() == 16,
                forall|l: int|
                    1 <= l < 16 ==> next_code@[l] == first_code(s, l as nat) + count_len(
                        s.take(i as int),
                        l as nat,
                    ),
                codes@.len() == i,
                forall|j: int|
                    0 <= j < i && s[j] > 0 ==> codes@[j] == code_of(s, j) && #[trigger] code_of(s, j)
                        < pow2(s[j] as nat),
            decreases n - i,
        {
            let l = code_lengths[i] as usize;
            proof {
                assert forall|k: int| 1 <= k < 16 implies #[trigger] count_len(s.take(i + 1), k as nat) == count_len(
                    s.take(i as int),
                    k as nat,
                ) + if s[i as int] == k {
                    1nat
                } else {
                    0nat
                } by {
                    lemma_count_take_step(s, i as int, k as nat);
                }
            }
            if l != 0 {
                proof {
                    lemma2_to64();
                    lemma_u32_shl_is_mul(1, l as u32);
                    lemma_pow2_strictly_increases(l as nat, (l + 1) as nat);
                    lemma_first_code_bound(s, l as nat);
                    lemma_count_le(s.take(i as int), l as nat);
                    if l + 1 < 16 {
                        lemma_pow2_strictly_increases((l + 1) as nat, 16);
                    }
                    lemma_pow2_strictly_increases((l + 1) as nat, 32);
                    assert(n * pow2((l + 1) as nat) <= 65536 * 0x1_0000_0000) by (nonlinear_arith)
                        requires
                            n <= 65536,
                            pow2((l + 1) as nat) < 0x1_0000_0000,
                    ;
                }
                let c = next_code[l];
                let limit: u32 = 1u32 << (l as u32);
                if c >= limit as u64 {
                    proof {
                        assert(c == code_of(s, i as int));
                        assert(code_of(s, i as int) >= pow2(s[i as int] as nat));
                    }
                    return Err(DecodeError::MalformedCode);
                }
                codes.push(c as u16);
                next_code.set(l, c + 1);
            } else {
                codes.push(0);
            }
            i = i + 1;
        }
        let mut map: HashMap<u32, Option<T>> = HashMap::new();
        i = 0;
        while i < n
            invariant
                s == code_lengths@,
                n == s.len(),
                n <= 65536,
                i <= n,
                forall|j: int| 0 <= j < n ==> s[j] <= MAX_BITS,
                codes@.len() == n,
                lengths_fit(s),
                forall|j: int| 0 <= j < n && s[j] > 0 ==> codes@[j] == code_of(s, j),
                forall|j: int|
                    #![trigger code_of(s, j)]
                    0 <= j < i && s[j] > 0 ==> map@.contains_key(
                        code_key(code_of(s, j), s[j] as nat),
                    ) && map@[code_key(code_of(s, j), s[j] as nat)] == T::spec_from_word(
                        j as u16,
                    ),
                forall|k: u32|
                    #[trigger] map@.contains_key(k) ==> exists|j: int|
                        0 <= j < i && s[j] > 0 && k == #[trigger] code_key(code_of(s, j), s[j] as nat),
            decreases n - i,
        {
            let l = code_lengths[i];
            if l != 0 {
                let token = match T::from_word(HuffmanCodeWord(i as u16)) {
                    Ok(t) => Some(t),
                    Err(_) => None,
                };
                let ghost ki = code_key(code_of(s, i as int), l as nat);
                proof {
                    assert(code_of(s, i as int) < pow2(s[i as int] as nat));
                    lemma2_to64();
                    lemma_pow2_strictly_increases(l as nat, 16);
                    assert forall|j: int| 0 <= j < i && s[j] > 0 implies code_key(code_of(s, j), s[j] as nat)
                        != ki by {
                        assert(code_of(s, j) < pow2(s[j] as nat));
                        lemma_pow2_strictly_increases(s[j] as nat, 16);
                        if s[j] == l {
                            lemma_codes_distinct(s, j, i as int);
                        }
                    }
                }
                let key: u32 = (l as u32) * 65536 + (codes[i] as u32);
                assert(key == ki);
                map.insert(key, token);
                proof {
                    assert forall|j: int| #![trigger code_of(s, j)] 0 <= j < i + 1 && s[j] > 0 implies map@.contains_key(
                        code_key(code_of(s, j), s[j] as nat),
                    ) && map@[code_key(code_of(s, j), s[j] as nat)] == T::spec_from_word(
                        j as u16,
                    ) by {
                        if j < i {
                            assert(code_key(code_of(s, j), s[j] as nat) != ki);
                        }
                    }
                    assert forall|k: u32| #[trigger] map@.contains_key(k) implies exists|j: int|
                        0 <= j < i + 1 && s[j] > 0 && k == #[trigger] code_key(code_of(s, j), s[j] as nat) by {
                        if k == ki {
                            assert(0 <= i < i + 1 && s[i as int] > 0 && k == code_key(code_of(s, i as int), s[i as int] as nat));
                        }
                    }
                }
            } else {
                assert forall|j: int| #![trigger code_of(s, j)] 0 <= j < i + 1 && s[j] > 0 implies map@.contains_key(
                    code_key(code_of(s, j), s[j] as nat),
                ) && map@[code_key(code_of(s, j), s[j] as nat)] == T::spec_from_word(
                    j as u16,
                ) by {
                    assert(j < i);
                }
            }
            i = i + 1;
        }
        Ok(HuffmanCoding { map })
    }
}


/// The code lengths of the fixed literal/length code.
pub open spec fn fixed_litlen_lengths() -> Seq<u8> {
    Seq::new(288, |i: int| if i < 144 { 8u8 } else if i < 256 { 9u8 } else if i < 280 { 7u8 } else { 8u8 })
}

/// The code lengths of the fixed distance code.
pub open spec fn fixed_distance_lengths() -> Seq<u8> {
    Seq::new(32, |i: int| 5u8)
}


proof fn lemma_count_concat(a: Seq<u8>, b: Seq<u8>, len: nat)
    ensures
        count_len(a + b, len) == count_len(a, len) + count_len(b, len),
    decreases b.len(),
{
    if b.len() > 0 {
        assert((a + b).drop_last() =~= a + b.drop_last());
        lemma_count_concat(a, b.drop_last(), len);
    } else {
        assert(a + b =~= a);
    }
}

proof fn lemma_count_const(n: nat, c: u8, len: nat)
    ensures
        count_len(Seq::new(n, |i: int| c), len) == if c == len {
            n
        } else {
            0
        },
    decreases n,
{
    if n > 0 {
        assert(Seq::new(n, |i: int| c).drop_last() =~= Seq::new((n - 1) as nat, |i: int| c));
        lemma_count_const((n - 1) as nat, c, len);
    }
}

/// Lengths fit when every used length has room for all its codes.
proof fn lemma_fit_from_counts(s: Seq<u8>)
    requires
        s.len() <= 65536,
        forall|i: int| 0 <= i < s.len() ==> s[i] <= MAX_BITS,
        forall|i: int|
            0 <= i < s.len() && s[i] > 0 ==> first_code(s, s[i] as nat) + count_len(s, s[i] as nat)
                <= pow2(#[trigger] s[i] as nat),
    ensures
        lengths_fit(s),
{
    assert forall|i: int| 0 <= i < s.len() && s[i] > 0 implies #[trigger] code_of(s, i) < pow2(
        s[i] as nat,
    ) by {
        lemma_rank_below_count(s, i);
    }
}

proof fn lemma_fixed_lengths_fit()
    ensures
        lengths_fit(fixed_litlen_lengths()),
        lengths_fit(fixed_distance_lengths()),
{
    let s = fixed_litlen_lengths();
    let a = Seq::new(144, |i: int| 8u8);
    let b = Seq::new(112, |i: int| 9u8);
    let c = Seq::new(24, |i: int| 7u8);
    let d = Seq::new(8, |i: int| 8u8);
    assert(s =~= a + b + c + d);
    assert forall|l: nat| #[trigger] count_len(s, l) == (if l == 8 { 152nat } else if l == 9 { 112nat } else if l == 7 { 24nat } else { 0nat }) by {
        lemma_count_concat(a + b + c, d, l);
        lemma_count_concat(a + b, c, l);
        lemma_count_concat(a, b, l);
        lemma_count_const(144, 8, l);
        lemma_count_const(112, 9, l);
        lemma_count_const(24, 7, l);
        lemma_count_const(8, 8, l);
    }
    reveal_with_fuel(first_code, 10);
    lemma2_to64();
    assert(first_code(s, 7) == 0);
    assert(first_code(s, 8) == 48);
    assert(first_code(s, 9) == 400);
    lemma_fit_from_counts(s);
    let t = fixed_distance_lengths();
    assert(t =~= Seq::new(32, |i: int| 5u8));
    assert forall|l: nat| #[trigger] count_len(t, l) == (if l == 5 { 32nat } else { 0nat }) by {
        lemma_count_const(32, 5, l);
    }
    assert(first_code(t, 5) == 0);
    lemma_fit_from_counts(t);
}

/// Builds the two fixed codes of DEFLATE.
pub fn build_fixed_trees() -> (r: Result<(HuffmanCoding<LitLenToken>, HuffmanCoding<DistanceToken>), DecodeError>)
    ensures
        r is Ok,
        r is Ok ==> is_canonical_table(r->Ok_0.0.table(), fixed_litlen_lengths())
            && is_canonical_table(r->Ok_0.1.table(), fixed_distance_lengths()),
{
    let mut litlen_tree_lengths: Vec<u8> = Vec::new();
    let mut i: usize = 0;
    while i < 288
        invariant
            i <= 288,
            litlen_tree_lengths@ == fixed_litlen_lengths().take(i as int),
        decreases 288 - i,
    {
        let l: u8 = if i < 144 {
            8
        } else if i < 256 {
            9
        } else if i < 280 {
            7
        } else {
            8
        };
        litlen_tree_lengths.push(l);
        i = i + 1;
        assert(litlen_tree_lengths@ =~= fixed_litlen_lengths().take(i as int));
    }
    assert(litlen_tree_lengths@ =~= fixed_litlen_lengths());
    let distance_tree_lengths: Vec<u8> = vec![5u8; 32];
    assert(distance_tree_lengths@ =~= fixed_distance_lengths());
    proof {
        lemma_fixed_lengths_fit();
    }
    let litlen = HuffmanCoding::<LitLenToken>::from_lengths(litlen_tree_lengths.as_slice())?;
    let distance = HuffmanCoding::<DistanceToken>::from_lengths(distance_tree_lengths.as_slice())?;
    Ok((litlen, distance))
}

/// The slot of the `k`-th code-length code length in the 19-entry table.
pub open spec fn codelen_slot(k: int) -> int {
    if k == 0 {
        16
    } else if k == 1 {
        17
    } else if k == 2 {
        18
    } else if k == 3 {
        0
    } else if (k - 4) % 2 == 0 {
        8 + (k - 4) / 2
    } else {
        7 - (k - 4) / 2
    }
}

/// The 19 code lengths of the code-length code after reading `count` 3-bit lengths from
/// bit `start` on, each to its slot.
pub open spec fn codelen_lengths(data: Seq<u8>, start: int, count: nat) -> Seq<u8>
    decreases count,
{
    if count == 0 {
        Seq::new(19, |i: int| 0u8)
    } else {
        codelen_lengths(data, start, (count - 1) as nat).update(
            codelen_slot(count - 1),
            crate::bit_reader::bits_value(data, start + 3 * (count - 1), 3) as u8,
        )
    }
}

fn read_codelen_length(bit_reader: &mut BitReader) -> (r: Result<u8, DecodeError>)
    requires
        old(bit_reader).wf(),
    ensures
        final(bit_reader).wf(),
        final(bit_reader).bytes() == old(bit_reader).bytes(),
        r is Ok <==> old(bit_reader).bits_left() >= 3,
        r is Ok ==> r->Ok_0 as nat == crate::bit_reader::bits_value(
            old(bit_reader).bytes(),
            old(bit_reader).bit_pos(),
            3,
        ) && final(bit_reader).bit_pos() == old(bit_reader).bit_pos() + 3,
        r is Err ==> r->Err_0 == DecodeError::UnexpectedEnd,
{
    let s = bit_reader.read_bits(3)?;
    proof {
        lemma2_to64();
    }
    Ok(s.bits() as u8)
}

/// Reads `count` 3-bit lengths into their slots and builds the code-length code.
fn build_codelen_coding(bit_reader: &mut BitReader, count: u16) -> (r: Result<
    HuffmanCoding<TreeCodeToken>,
    DecodeError,
>)
    requires
        old(bit_reader).wf(),
        4 <= count <= 19,
    ensures
        final(bit_reader).wf(),
        final(bit_reader).bytes() == old(bit_reader).bytes(),
        r is Ok ==> lengths_fit(
            codelen_lengths(old(bit_reader).bytes(), old(bit_reader).bit_pos(), count as nat),
        ),
        r is Ok ==> final(bit_reader).bit_pos() == old(bit_reader).bit_pos() + 3 * count
            && is_canonical_table(
            r->Ok_0.table(),
            codelen_lengths(old(bit_reader).bytes(), old(bit_reader).bit_pos(), count as nat),
        ),
        old(bit_reader).bits_left() < 3 * count ==> r is Err,
        old(bit_reader).bits_left() >= 3 * count && lengths_fit(
            codelen_lengths(old(bit_reader).bytes(), old(bit_reader).bit_pos(), count as nat),
        ) ==> r is Ok,
{
    let ghost data = bit_reader.bytes();
    let ghost p = bit_reader.bit_pos();
    let mut lengths: Vec<u8> = vec![0u8; 19];
    assert(lengths@ =~= codelen_lengths(data, p, 0));
    proof {
        bit_reader.lemma_wf_bounds();
    }
    let mut k: u16 = 0;
    while k < count
        invariant
            bit_reader.wf(),
            bit_reader.bytes() == data,
            data == old(bit_reader).bytes(),
            p == old(bit_reader).bit_pos(),
            k <= count <= 19,
            bit_reader.bit_pos() == p + 3 * k,
            lengths@ == codelen_lengths(data, p, k as nat),
            lengths@.len() == 19,
            p + 3 * k <= data.len() * 8,
        decreases count - k,
    {
        let j: usize = if k == 0 {
            16
        } else if k == 1 {
            17
        } else if k == 2 {
            18
        } else if k == 3 {
            0
        } else if (k - 4) % 2 == 0 {
            (8 + (k - 4) / 2) as usize
        } else {
            (7 - (k - 4) / 2) as usize
        };
        let v = read_codelen_length(bit_reader)?;
        lengths.set(j, v);
        k = k + 1;
    }
    HuffmanCoding::<TreeCodeToken>::from_lengths(lengths.as_slice())
}

/// The code lengths that the code-length symbols from bit `p` on encode, appended to
/// `acc` until `total` lengths are there, in at most `fuel` symbols: the bit after the last
/// symbol and the lengths, or the error that stops the decoding; none where `fuel` symbols
/// do not suffice.
pub open spec fn lengths_output(
    ct: Map<u32, Option<TreeCodeToken>>,
    data: Seq<u8>,
    p: int,
    acc: Seq<u8>,
    total: nat,
    fuel: nat,
) -> Option<Result<(int, Seq<u8>), DecodeError>>
    decreases fuel,
{
    if acc.len() >= total {
        Some(Ok((p, acc)))
    } else if fuel == 0 {
        None
    } else {
        let fm = first_match(ct, data, p, 1);
        let n = symbol_len(ct, data, p);
        let found = ct[code_key(msb_value(data, p, n), n)];
        let q = p + n;
        if data.len() * 8 < q {
            Some(Err(DecodeError::UnexpectedEnd))
        } else if fm is None {
            Some(Err(DecodeError::MalformedCode))
        } else if found is None {
            Some(Err(DecodeError::ReservedSymbol))
        } else {
            let next: Result<(int, Seq<u8>), DecodeError> = match found->Some_0 {
                TreeCodeToken::Length(v) => Ok((q, acc.push(v))),
                TreeCodeToken::CopyPrev => {
                    if data.len() * 8 < q + 2 {
                        Err(DecodeError::UnexpectedEnd)
                    } else if acc.len() == 0 {
                        Err(DecodeError::NoPrevLength)
                    } else {
                        Ok((q + 2, acc + Seq::new(3 + bits_value(data, q, 2), |i: int| acc.last())))
                    }
                },
                TreeCodeToken::RepeatZero { base, extra_bits } => {
                    let x = bits_value(data, q, extra_bits as nat);
                    if extra_bits > 16 {
                        Err(DecodeError::ReservedSymbol)
                    } else if data.len() * 8 < q + extra_bits {
                        Err(DecodeError::UnexpectedEnd)
                    } else if base > 11 || base + x > 138 {
                        Err(DecodeError::ReservedSymbol)
                    } else {
                        Ok((q + extra_bits, acc + Seq::new((base + x) as nat, |i: int| 0u8)))
                    }
                },
            };
            match next {
                Err(e) => Some(Err(e)),
                Ok((np, nacc)) => if nacc.len() > total {
                    Some(Err(DecodeError::OverrunLengths))
                } else {
                    lengths_output(ct, data, np, nacc, total, (fuel - 1) as nat)
                },
            }
        }
    }
}

/// The number of literal/length codes that a dynamic block header at bit `p` announces.
pub open spec fn header_nlit(data: Seq<u8>, p: int) -> nat {
    257 + bits_value(data, p, 5)
}

/// The number of distance codes that a dynamic block header at bit `p` announces.
pub open spec fn header_ndist(data: Seq<u8>, p: int) -> nat {
    1 + bits_value(data, p + 5, 5)
}

/// The number of code-length code lengths that a dynamic block header at bit `p` announces.
pub open spec fn header_ncode(data: Seq<u8>, p: int) -> nat {
    4 + bits_value(data, p + 10, 4)
}

/// A dynamic block header at bit `p` holds its three counts and its code-length code, and
/// that code can be built.
pub open spec fn codelen_code_ok(data: Seq<u8>, p: int) -> bool {
    &&& data.len() * 8 >= p + 14 + 3 * header_ncode(data, p)
    &&& lengths_fit(codelen_lengths(data, p + 14, header_ncode(data, p)))
}

/// Decoding the code lengths of the dynamic block header at bit `p` with the code-length
/// code `ct`, in at most `fuel` symbols.
pub open spec fn header_run(
    ct: Map<u32, Option<TreeCodeToken>>,
    data: Seq<u8>,
    p: int,
    fuel: nat,
) -> Option<Result<(int, Seq<u8>), DecodeError>> {
    lengths_output(
        ct,
        data,
        p + 14 + 3 * header_ncode(data, p),
        Seq::empty(),
        header_nlit(data, p) + header_ndist(data, p),
        fuel,
    )
}

/// `ct` is the code-length code of the dynamic block header at bit `p`.
pub open spec fn is_codelen_code(ct: Map<u32, Option<TreeCodeToken>>, data: Seq<u8>, p: int) -> bool {
    codelen_code_ok(data, p) && is_canonical_table(
        ct,
        codelen_lengths(data, p + 14, header_ncode(data, p)),
    )
}

/// `lengths` are the code lengths that the dynamic block header at bit `p` of `data`
/// describes, and the header ends at bit `end`.
pub open spec fn dynamic_lengths(data: Seq<u8>, p: int, lengths: Seq<u8>, end: int) -> bool {
    exists|ct: Map<u32, Option<TreeCodeToken>>, fuel: nat|
        is_codelen_code(ct, data, p) && #[trigger] header_run(ct, data, p, fuel) == Some(
            Ok::<(int, Seq<u8>), DecodeError>((end, lengths)),
        )
}

/// Once the decoding of code lengths from `p1` has stopped with `res` after `steps`
/// symbols, more fuel gives the same outcome.
proof fn lemma_run_settles(
    ct: Map<u32, Option<TreeCodeToken>>,
    data: Seq<u8>,
    p1: int,
    total: nat,
    steps: nat,
    cur: int,
    acc: Seq<u8>,
    res: Result<(int, Seq<u8>), DecodeError>,
)
    requires
        forall|f: nat|
            #[trigger] lengths_output(ct, data, p1, Seq::empty(), total, f + steps) == lengths_output(
                ct,
                data,
                cur,
                acc,
                total,
                f,
            ),
        forall|f: nat| f < steps ==> (#[trigger] lengths_output(ct, data, p1, Seq::empty(), total, f)) is None,
        forall|f: nat| #[trigger] lengths_output(ct, data, cur, acc, total, f + 1) == Some(res),
    ensures
        forall|f: nat|
            (#[trigger] lengths_output(ct, data, p1, Seq::empty(), total, f)) is Some ==> lengths_output(
                ct,
                data,
                p1,
                Seq::empty(),
                total,
                f,
            ) == Some(res),
{
    assert forall|f: nat| (#[trigger] lengths_output(ct, data, p1, Seq::empty(), total, f)) is Some implies lengths_output(
        ct,
        data,
        p1,
        Seq::empty(),
        total,
        f,
    ) == Some(res) by {
        if f < steps {
        } else if f == steps {
            assert(lengths_output(ct, data, p1, Seq::empty(), total, 0 + steps) == lengths_output(ct, data, cur, acc, total, 0));
            assert(((f - steps) as nat) == 0);
            if acc.len() < total {
                assert(lengths_output(ct, data, cur, acc, total, 0) is None);
            } else {
                assert(lengths_output(ct, data, cur, acc, total, 0) == lengths_output(ct, data, cur, acc, total, 0 + 1));
            }
        } else {
            let g = (f - steps - 1) as nat;
            assert(f == (g + 1) + steps);
            assert(lengths_output(ct, data, p1, Seq::empty(), total, (g + 1) + steps) == lengths_output(ct, data, cur, acc, total, g + 1));
        }
    }
}

/// Reads the header of a dynamic block, its code-length code and the code lengths it
/// encodes, and builds the literal/length and distance codes from them.
pub fn decode_litlen_distance_trees(bit_reader: &mut BitReader) -> (r: Result<
    (HuffmanCoding<LitLenToken>, HuffmanCoding<DistanceToken>),
    DecodeError,
>)
    requires
        old(bit_reader).wf(),
    ensures
        final(bit_reader).wf(),
        final(bit_reader).bytes() == old(bit_reader).bytes(),
        r is Ok ==> final(bit_reader).bit_pos() >= old(bit_reader).bit_pos(),
        r is Ok ==> {
            let data = old(bit_reader).bytes();
            let p = old(bit_reader).bit_pos();
            let nlit = header_nlit(data, p);
            exists|lengths: Seq<u8>|
                #[trigger] dynamic_lengths(data, p, lengths, final(bit_reader).bit_pos())
                    && is_canonical_table(r->Ok_0.0.table(), lengths.take(nlit as int))
                    && is_canonical_table(r->Ok_0.1.table(), lengths.skip(nlit as int))
        },
        !codelen_code_ok(old(bit_reader).bytes(), old(bit_reader).bit_pos()) ==> r is Err,
        codelen_code_ok(old(bit_reader).bytes(), old(bit_reader).bit_pos()) ==> exists|
            ct: Map<u32, Option<TreeCodeToken>>,
        | #[trigger] is_codelen_code(ct, old(bit_reader).bytes(), old(bit_reader).bit_pos()),
        forall|ct: Map<u32, Option<TreeCodeToken>>, fuel: nat|
            (#[trigger] header_run(ct, old(bit_reader).bytes(), old(bit_reader).bit_pos(), fuel)) is Some
                && is_codelen_code(ct, old(bit_reader).bytes(), old(bit_reader).bit_pos()) ==> {
                let nlit = header_nlit(old(bit_reader).bytes(), old(bit_reader).bit_pos());
                match header_run(ct, old(bit_reader).bytes(), old(bit_reader).bit_pos(), fuel)->Some_0 {
                    Err(e) => r == Err::<(HuffmanCoding<LitLenToken>, HuffmanCoding<DistanceToken>), DecodeError>(e),
                    Ok((end, lengths)) => if lengths_fit(lengths.take(nlit as int)) && lengths_fit(
                        lengths.skip(nlit as int),
                    ) {
                        r is Ok && final(bit_reader).bit_pos() == end && is_canonical_table(
                            r->Ok_0.0.table(),
                            lengths.take(nlit as int),
                        ) && is_canonical_table(r->Ok_0.1.table(), lengths.skip(nlit as int))
                    } else {
                        r == Err::<(HuffmanCoding<LitLenToken>, HuffmanCoding<DistanceToken>), DecodeError>(
                            DecodeError::MalformedCode,
                        )
                    },
                }
            },
{
    let ghost data = bit_reader.bytes();
    let ghost p = bit_reader.bit_pos();
    proof {
        lemma2_to64();
        bit_reader.lemma_wf_bounds();
    }
    let hlit = bit_reader.read_bits(5)?;
    let litlen_codes_count: usize = hlit.bits() as usize + 257;
    let hdist = bit_reader.read_bits(5)?;
    let dist_codes_count: usize = hdist.bits() as usize + 1;
    let hclen = bit_reader.read_bits(4)?;
    let codelen_codes_count: u16 = hclen.bits() + 4;
    assert(codelen_codes_count == header_ncode(data, p));
    let codelen_coding = build_codelen_coding(bit_reader, codelen_codes_count)?;
    let total: usize = litlen_codes_count + dist_codes_count;
    let ghost ct = codelen_coding.table();
    let ghost p1 = bit_reader.bit_pos();
    let ghost tot = total as nat;
    proof {
        bit_reader.lemma_wf_bounds();
        assert(p1 == p + 14 + 3 * header_ncode(data, p));
        assert(tot == header_nlit(data, p) + header_ndist(data, p));
        assert forall|ct2: Map<u32, Option<TreeCodeToken>>| is_codelen_code(ct2, data, p) implies ct2 == ct by {
            lemma_canonical_table_unique(ct2, ct, codelen_lengths(data, p + 14, header_ncode(data, p)));
        }
    }
    let ghost mut steps: nat = 0;
    let mut code_lengths: Vec<u8> = Vec::new();
    while code_lengths.len() < total
        invariant
            bit_reader.wf(),
            bit_reader.bytes() == data,
            data == old(bit_reader).bytes(),
            p == old(bit_reader).bit_pos(),
            bit_reader.bit_pos() >= p,
            total == litlen_codes_count + dist_codes_count,
            tot == total,
            total <= 288 + 32,
            code_lengths@.len() <= total,
            hlit.bits() as nat == bits_value(data, p, 5),
            hdist.bits() as nat == bits_value(data, p + 5, 5),
            litlen_codes_count == hlit.bits() + 257,
            ct == codelen_coding.table(),
            p1 == p + 14 + 3 * header_ncode(data, p),
            tot == header_nlit(data, p) + header_ndist(data, p),
            is_codelen_code(ct, data, p),
            forall|ct2: Map<u32, Option<TreeCodeToken>>| is_codelen_code(ct2, data, p) ==> ct2 == ct,
            forall|f: nat|
                #[trigger] lengths_output(ct, data, p1, Seq::empty(), tot, f + steps)
                    == lengths_output(ct, data, bit_reader.bit_pos(), code_lengths@, tot, f),
            forall|f: nat| f < steps ==> (#[trigger] lengths_output(ct, data, p1, Seq::empty(), tot, f)) is None,
        decreases bit_reader.bits_left(),
    {
        let ghost cur = bit_reader.bit_pos();
        let ghost acc = code_lengths@;
        proof {
            bit_reader.lemma_wf_bounds();
        }
        let token = match codelen_coding.read_symbol(bit_reader) {
            Ok(t) => t,
            Err(e) => {
                proof {
                    assert forall|f: nat| #[trigger] lengths_output(ct, data, cur, acc, tot, f + 1) == Some(
                        Err::<(int, Seq<u8>), DecodeError>(e),
                    ) by {}
                    lemma_run_settles(ct, data, p1, tot, steps, cur, acc, Err(e));
                }
                return Err(e);
            },
        };
        let ghost q = bit_reader.bit_pos();
        match token {
            TreeCodeToken::Length(val) => {
                code_lengths.push(val);
            },
            TreeCodeToken::CopyPrev => {
                let offset = match bit_reader.read_bits(2) {
                    Ok(o) => o,
                    Err(e) => {
                        proof {
                            assert forall|f: nat| #[trigger] lengths_output(ct, data, cur, acc, tot, f + 1) == Some(
                                Err::<(int, Seq<u8>), DecodeError>(e),
                            ) by {}
                            lemma_run_settles(ct, data, p1, tot, steps, cur, acc, Err(e));
                        }
                        return Err(e);
                    },
                };
                if code_lengths.len() == 0 {
                    proof {
                        assert forall|f: nat| #[trigger] lengths_output(ct, data, cur, acc, tot, f + 1) == Some(
                            Err::<(int, Seq<u8>), DecodeError>(DecodeError::NoPrevLength),
                        ) by {}
                        lemma_run_settles(ct, data, p1, tot, steps, cur, acc, Err(DecodeError::NoPrevLength));
                    }
                    return Err(DecodeError::NoPrevLength);
                }
                let prev = code_lengths[code_lengths.len() - 1];
                proof {
                    lemma2_to64();
                }
                let times: usize = 3 + offset.bits() as usize;
                let mut t: usize = 0;
                while t < times
                    invariant
                        t <= times,
                        times <= 6,
                        acc.len() <= total,
                        acc.len() > 0,
                        prev == acc.last(),
                        code_lengths@ == acc + Seq::new(t as nat, |i: int| acc.last()),
                    decreases times - t,
                {
                    code_lengths.push(prev);
                    t = t + 1;
                    assert(code_lengths@ =~= acc + Seq::new(t as nat, |i: int| acc.last()));
                }
            },
            TreeCodeToken::RepeatZero { base, extra_bits } => {
                if extra_bits > 16 {
                    proof {
                        assert forall|f: nat| #[trigger] lengths_output(ct, data, cur, acc, tot, f + 1) == Some(
                            Err::<(int, Seq<u8>), DecodeError>(DecodeError::ReservedSymbol),
                        ) by {}
                        lemma_run_settles(ct, data, p1, tot, steps, cur, acc, Err(DecodeError::ReservedSymbol));
                    }
                    return Err(DecodeError::ReservedSymbol);
                }
                let offset = match bit_reader.read_bits(extra_bits) {
                    Ok(o) => o,
                    Err(e) => {
                        proof {
                            assert forall|f: nat| #[trigger] lengths_output(ct, data, cur, acc, tot, f + 1) == Some(
                                Err::<(int, Seq<u8>), DecodeError>(e),
                            ) by {}
                            lemma_run_settles(ct, data, p1, tot, steps, cur, acc, Err(e));
                        }
                        return Err(e);
                    },
                };
                let times: usize = base as usize + offset.bits() as usize;
                if base > 11 || times > 138 {
                    proof {
                        assert forall|f: nat| #[trigger] lengths_output(ct, data, cur, acc, tot, f + 1) == Some(
                            Err::<(int, Seq<u8>), DecodeError>(DecodeError::ReservedSymbol),
                        ) by {}
                        lemma_run_settles(ct, data, p1, tot, steps, cur, acc, Err(DecodeError::ReservedSymbol));
                    }
                    return Err(DecodeError::ReservedSymbol);
                }
                let mut t: usize = 0;
                while t < times
                    invariant
                        t <= times,
                        times <= 138,
                        acc.len() <= total,
                        code_lengths@ == acc + Seq::new(t as nat, |i: int| 0u8),
                    decreases times - t,
                {
                    code_lengths.push(0);
                    t = t + 1;
                    assert(code_lengths@ =~= acc + Seq::new(t as nat, |i: int| 0u8));
                }
            },
        }
        if code_lengths.len() > total {
            proof {
                assert forall|f: nat| #[trigger] lengths_output(ct, data, cur, acc, tot, f + 1) == Some(
                    Err::<(int, Seq<u8>), DecodeError>(DecodeError::OverrunLengths),
                ) by {}
                lemma_run_settles(ct, data, p1, tot, steps, cur, acc, Err(DecodeError::OverrunLengths));
            }
            return Err(DecodeError::OverrunLengths);
        }
        proof {
            assert forall|f: nat| #[trigger] lengths_output(ct, data, p1, Seq::empty(), tot, f + (steps + 1))
                == lengths_output(ct, data, bit_reader.bit_pos(), code_lengths@, tot, f) by {
                assert(f + (steps + 1) == (f + 1) + steps);
                assert(lengths_output(ct, data, p1, Seq::empty(), tot, (f + 1) + steps)
                    == lengths_output(ct, data, cur, acc, tot, f + 1));
            }
            assert(lengths_output(ct, data, p1, Seq::empty(), tot, 0 + steps) == lengths_output(ct, data, cur, acc, tot, 0));
            steps = steps + 1;
        }
    }
    let ghost fin = bit_reader.bit_pos();
    let ghost res = Ok::<(int, Seq<u8>), DecodeError>((fin, code_lengths@));
    proof {
        assert forall|f: nat| #[trigger] lengths_output(ct, data, fin, code_lengths@, tot, f + 1) == Some(res) by {}
        lemma_run_settles(ct, data, p1, tot, steps, fin, code_lengths@, res);
        assert(lengths_output(ct, data, p1, Seq::empty(), tot, 0 + steps) == lengths_output(ct, data, fin, code_lengths@, tot, 0));
        assert(header_run(ct, data, p, steps) == Some(res));
        assert(dynamic_lengths(data, p, code_lengths@, fin));
    }
    let lit_part = vstd::slice::slice_subrange(code_lengths.as_slice(), 0, litlen_codes_count);
    let dist_part = vstd::slice::slice_subrange(code_lengths.as_slice(), litlen_codes_count, total);
    proof {
        let lengths = code_lengths@;
        assert(lit_part@ =~= lengths.take(litlen_codes_count as int));
        assert(dist_part@ =~= lengths.skip(litlen_codes_count as int));
    }
    let litlen = HuffmanCoding::<LitLenToken>::from_lengths(lit_part)?;
    let distance = HuffmanCoding::<DistanceToken>::from_lengths(dist_part)?;
    Ok((litlen, distance))
}

} // verus!
