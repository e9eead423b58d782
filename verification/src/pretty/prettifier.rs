//! The reversible pretty transform: decimal numeral, checksum digit,
//! fixed-width chunks, alternating raw/encoded rendering, delimited join —
//! and its exact inverse.
//!
//! The spec functions here are the mathematical model of the transform; the
//! executable methods of [`IdPrettifier`] are proved to match them, and the
//! laws module proves the round trip, the fixed width, and the order
//! preservation over the same model.

use vstd::prelude::*;
use vstd::arithmetic::div_mod::lemma_div_plus_one;
use vstd::arithmetic::power::{pow, lemma_pow_increases};
use vstd::arithmetic::mul::lemma_mul_inequality;
use vstd::pervasive::unreached;
use crate::pretty::chars::{
    all_digits, chars_to_string, dec_alpha, dec_numeral, dec_value, is_digit,
    lemma_all_digits_all_in, lemma_dec_alpha_wf, lemma_digit_facts, parse_decimal,
    render_decimal, str_to_chars,
};
use crate::pretty::codec::{AlphabetCodec, Codec};
use crate::pretty::damm;
use crate::pretty::damm::{checksum_spec, lemma_fold_range};
use crate::pretty::numeral::{
    alpha_value, alpha_wf, all_in, left_pad, numeral, lemma_numeral_wf, lemma_numeral_len,
    lemma_value_bounds,
};

verus! {

/// Why a pretty string could not be converted back to a seed.
#[derive(Debug)]
pub enum ConversionError {
    /// The checksum does not hold (or a decoded chunk denotes a value out of
    /// range): the input is not a string this configuration ever produced.
    /// Carries the rejected input.
    InvalidId(String),
    /// The checksum-stripped numeral is empty, holds a non-digit, or does
    /// not fit the 64-bit target width.
    ParseIntError,
    /// A character outside the configured alphabet appeared in an encoded
    /// chunk.
    InvalidCharacter,
}

/// The configuration of a prettifier, at the specification level: the
/// encoder is represented by its alphabet alone.
pub ghost struct PrettifierModel {
    /// The encoder's ordered symbols.
    pub alphabet: Seq<char>,
    /// Width, in decimal digits, of each chunk.
    pub parts_size: int,
    /// Separator between rendered chunks.
    pub delimiter: Seq<char>,
    /// Whether output is padded to a constant total length.
    pub leading_zeros: bool,
    /// The padding symbol for encoded chunks.
    pub zero_char: char,
    /// The width encoded chunks are padded to.
    pub max_encoder_length: int,
}

impl PrettifierModel {
    /// Enough structure to run the transform at all: a usable alphabet and
    /// a positive chunk width.
    pub open spec fn wf(&self) -> bool {
        alpha_wf(self.alphabet) && 1 <= self.parts_size
    }

    /// Enough structure for the transform to be reversible: additionally a
    /// non-empty delimiter that shares no character with the digits or the
    /// alphabet, and the zero symbol of the configured alphabet.
    pub open spec fn reversible(&self) -> bool {
        self.wf()
        && 1 <= self.delimiter.len()
        && (forall|i: int| 0 <= i < self.delimiter.len()
            ==> !is_digit(#[trigger] self.delimiter[i]))
        && (forall|i: int| 0 <= i < self.delimiter.len()
            ==> !self.alphabet.contains(#[trigger] self.delimiter[i]))
        && self.zero_char == self.alphabet[0]
    }
}

/// `s` cut into chunks of `width` from the right, so only the first chunk
/// may be shorter; an empty string has no chunks.
pub open spec fn chunks_rev(s: Seq<char>, width: int) -> Seq<Seq<char>>
    decreases s.len(),
        when 1 <= width
{
    if s.len() == 0 {
        Seq::empty()
    } else if s.len() <= width {
        seq![s]
    } else {
        chunks_rev(s.take(s.len() - width), width).push(s.skip(s.len() - width))
    }
}

/// Chunk lists are padded on the left with `"0"` chunks up to this count,
/// sized so the longest possible digit string (nineteen digits of `i64::MAX`
/// plus the check digit) is covered.
pub open spec fn max_parts(width: int) -> int {
    (20 + width - 1) / width
}

/// `parts` left-padded with single-`'0'` chunks to `count` chunks.
pub open spec fn pad_chunks(parts: Seq<Seq<char>>, count: int) -> Seq<Seq<char>> {
    if parts.len() >= count {
        parts
    } else {
        Seq::new((count - parts.len()) as nat, |i| seq!['0']) + parts
    }
}

/// The alternation rule: a chunk is rendered directly (kept decimal) when
/// its distance from the right end is even, so the rightmost chunk — the one
/// holding the check digit — is always direct.
pub open spec fn is_direct(count: int, i: int) -> bool {
    (count - 1 - i) % 2 == 0
}

/// One chunk rendered: direct chunks keep their digits (zero-padded to the
/// chunk width when leading zeros are on); encoded chunks are re-rendered
/// over the alphabet (padded with the zero symbol to the encoder width when
/// leading zeros are on).
pub open spec fn render_chunk(m: PrettifierModel, chunk: Seq<char>, direct: bool) -> Seq<char> {
    if direct {
        if m.leading_zeros {
            left_pad(chunk, '0', m.parts_size)
        } else {
            chunk
        }
    } else {
        let e = numeral(m.alphabet, dec_value(chunk));
        if m.leading_zeros {
            left_pad(e, m.zero_char, m.max_encoder_length)
        } else {
            e
        }
    }
}

/// All chunks rendered under the alternation rule.
pub open spec fn render_chunks(m: PrettifierModel, parts: Seq<Seq<char>>) -> Seq<Seq<char>> {
    Seq::new(parts.len(), |i| render_chunk(m, parts[i], is_direct(parts.len() as int, i)))
}

/// Chunks joined with the delimiter.
pub open spec fn join_chunks(parts: Seq<Seq<char>>, d: Seq<char>) -> Seq<char>
    decreases parts.len(),
{
    if parts.len() == 0 {
        Seq::empty()
    } else if parts.len() == 1 {
        parts[0]
    } else {
        parts[0] + d + join_chunks(parts.drop_first(), d)
    }
}

/// All chunks concatenated, without a separator.
pub open spec fn concat_chunks(parts: Seq<Seq<char>>) -> Seq<char>
    decreases parts.len(),
{
    if parts.len() == 0 {
        Seq::empty()
    } else {
        parts[0] + concat_chunks(parts.drop_first())
    }
}

/// The decimal digits of a seed with its check digit appended.
pub open spec fn damm_digits(seed: int) -> Seq<char> {
    dec_numeral(seed).push(dec_alpha()[checksum_spec(dec_numeral(seed))])
}

/// The chunk list a seed is rendered from: the checksummed numeral cut from
/// the right, left-padded with `"0"` chunks when leading zeros are on.
pub open spec fn seed_chunks(m: PrettifierModel, seed: int) -> Seq<Seq<char>> {
    let parts = chunks_rev(damm_digits(seed), m.parts_size);
    if m.leading_zeros {
        pad_chunks(parts, max_parts(m.parts_size))
    } else {
        parts
    }
}

/// The full pretty rendering of a seed.
pub open spec fn prettify_spec(m: PrettifierModel, seed: int) -> Seq<char> {
    join_chunks(render_chunks(m, seed_chunks(m, seed)), m.delimiter)
}

/// Index of the first occurrence of `d` in `s`, or a negative value when
/// `s` has none.
pub open spec fn find_sub(s: Seq<char>, d: Seq<char>) -> int
    decreases s.len(),
{
    if d.len() == 0 {
        0
    } else if s.len() < d.len() {
        -1
    } else if s.take(d.len() as int) == d {
        0
    } else if find_sub(s.drop_first(), d) < 0 {
        -1
    } else {
        1 + find_sub(s.drop_first(), d)
    }
}

/// The first occurrence, when there is one, lies within `s`.
pub proof fn lemma_find_sub_range(s: Seq<char>, d: Seq<char>)
    ensures
        0 <= find_sub(s, d) ==> find_sub(s, d) + d.len() <= s.len(),
        0 <= find_sub(s, d) ==> s.subrange(find_sub(s, d), find_sub(s, d) + d.len()) == d,
    decreases s.len(),
{
    if d.len() == 0 {
        assert(s.subrange(0, 0) =~= d);
    } else if s.len() < d.len() {
    } else if s.take(d.len() as int) == d {
        assert(s.subrange(0, d.len() as int) =~= s.take(d.len() as int));
    } else {
        lemma_find_sub_range(s.drop_first(), d);
        let r = find_sub(s.drop_first(), d);
        if r >= 0 {
            assert(s.subrange(1 + r, 1 + r + d.len()) =~= s.drop_first().subrange(
                r,
                r + d.len(),
            ));
        }
    }
}

/// `s` split on `d`, leftmost occurrence first; the whole string when `d`
/// never occurs or is empty.
pub open spec fn split_chars(s: Seq<char>, d: Seq<char>) -> Seq<Seq<char>>
    decreases s.len(),
        via split_chars_decreases
{
    if d.len() == 0 {
        seq![s]
    } else {
        let i = find_sub(s, d);
        if i < 0 {
            seq![s]
        } else {
            seq![s.take(i)] + split_chars(s.skip(i + d.len()), d)
        }
    }
}

#[via_fn]
proof fn split_chars_decreases(s: Seq<char>, d: Seq<char>) {
    lemma_find_sub_range(s, d);
}

/// The characters an encoded chunk may hold: all of them alphabet symbols.
pub open spec fn chunk_ok(m: PrettifierModel, chunk: Seq<char>, direct: bool) -> bool {
    direct || all_in(m.alphabet, chunk)
}

/// Every encoded chunk holds alphabet symbols only.
pub open spec fn chunks_ok(m: PrettifierModel, parts: Seq<Seq<char>>) -> bool {
    forall|i: int| 0 <= i < parts.len()
        ==> chunk_ok(m, #[trigger] parts[i], is_direct(parts.len() as int, i))
}

/// Every encoded chunk denotes a value representable in an `i64`.
pub open spec fn chunks_fit(m: PrettifierModel, parts: Seq<Seq<char>>) -> bool {
    forall|i: int| 0 <= i < parts.len()
        ==> (is_direct(parts.len() as int, i)
            || alpha_value(m.alphabet, #[trigger] parts[i]) <= i64::MAX)
}

/// One chunk taken back to digits: direct chunks pass through unchanged;
/// encoded chunks are decoded and re-rendered as decimal, zero-padded to the
/// chunk width.
pub open spec fn unrender_chunk(m: PrettifierModel, chunk: Seq<char>, direct: bool) -> Seq<char> {
    if direct {
        chunk
    } else {
        left_pad(dec_numeral(alpha_value(m.alphabet, chunk)), '0', m.parts_size)
    }
}

/// The checksummed digit string reconstructed from split chunks.
pub open spec fn reconstruct(m: PrettifierModel, parts: Seq<Seq<char>>) -> Seq<char> {
    concat_chunks(
        Seq::new(parts.len(), |i| unrender_chunk(m, parts[i], is_direct(parts.len() as int, i))),
    )
}

/// What converting a pretty string back to a seed yields.
pub ghost enum SeedOutcome {
    /// The reconstructed numeral is checksum-valid and parses: the seed.
    Seed(int),
    /// An encoded chunk holds a character outside the alphabet.
    BadChar,
    /// The checksum does not hold of the reconstruction (or an encoded chunk
    /// overflows), so the string was never produced by this configuration.
    Invalid,
    /// The checksum holds but the remaining numeral is empty, non-decimal,
    /// or too large for the target width.
    ParseFail,
}

/// The exact outcome of the inverse transform on any input text.
pub open spec fn to_seed_spec(m: PrettifierModel, text: Seq<char>) -> SeedOutcome {
    let parts = split_chars(text, m.delimiter);
    if !chunks_ok(m, parts) {
        SeedOutcome::BadChar
    } else if !chunks_fit(m, parts) {
        SeedOutcome::Invalid
    } else {
        let digits = reconstruct(m, parts);
        if checksum_spec(digits) != 0 || digits.len() == 0 {
            SeedOutcome::Invalid
        } else {
            let body = digits.drop_last();
            if body.len() == 0 || !all_digits(body) || dec_value(body) > i64::MAX {
                SeedOutcome::ParseFail
            } else {
                SeedOutcome::Seed(dec_value(body))
            }
        }
    }
}

/// Validity of a pretty string: its reconstruction exists and is
/// checksum-valid (steps one to four of the inverse, as a boolean).
pub open spec fn is_valid_spec(m: PrettifierModel, text: Seq<char>) -> bool {
    let parts = split_chars(text, m.delimiter);
    chunks_ok(m, parts) && chunks_fit(m, parts) && checksum_spec(reconstruct(m, parts)) == 0
}

/// Shape of right-anchored chunking: at least one chunk for a non-empty
/// string, every chunk after the first exactly `width` long, the first
/// between one and `width` long, and the concatenation restoring the string.
pub proof fn lemma_chunks_rev_shape(s: Seq<char>, width: int)
    requires
        1 <= width,
        1 <= s.len(),
    ensures
        1 <= chunks_rev(s, width).len(),
        1 <= chunks_rev(s, width)[0].len() <= width,
        forall|i: int| 1 <= i < chunks_rev(s, width).len()
            ==> (#[trigger] chunks_rev(s, width)[i]).len() == width,
        concat_chunks(chunks_rev(s, width)) == s,
        s.len() == chunks_rev(s, width)[0].len()
            + (chunks_rev(s, width).len() - 1) * width,
    decreases s.len(),
{
    let cs = chunks_rev(s, width);
    if s.len() <= width {
        assert(cs =~= seq![s]);
        assert(concat_chunks(cs.drop_first()) =~= Seq::<char>::empty());
        assert(concat_chunks(cs) =~= s + Seq::<char>::empty());
        assert(s + Seq::<char>::empty() =~= s);
        assert((cs.len() - 1) * width == 0) by (nonlinear_arith)
            requires cs.len() == 1;
    } else {
        let head = s.take(s.len() - width);
        let tail = s.skip(s.len() - width);
        lemma_chunks_rev_shape(head, width);
        let hs = chunks_rev(head, width);
        assert(cs =~= hs.push(tail));
        assert(cs[0] == hs[0]);
        assert forall|i: int| 1 <= i < cs.len() implies (#[trigger] cs[i]).len() == width by {
            if i < hs.len() {
                assert(cs[i] == hs[i]);
            } else {
                assert(cs[i] == tail);
            }
        }
        lemma_concat_chunks_push(hs, tail);
        assert(head + tail =~= s);
        assert((cs.len() - 1) * width == (hs.len() - 1) * width + width) by (nonlinear_arith)
            requires cs.len() == hs.len() + 1;
        assert(s.len() == cs[0].len() + (cs.len() - 1) * width);
    }
}

/// Appending a chunk appends its characters to the concatenation.
pub proof fn lemma_concat_chunks_push(parts: Seq<Seq<char>>, c: Seq<char>)
    ensures
        concat_chunks(parts.push(c)) == concat_chunks(parts) + c,
    decreases parts.len(),
{
    if parts.len() == 0 {
        assert(parts.push(c).drop_first() =~= Seq::<Seq<char>>::empty());
        assert(parts.push(c)[0] == c);
        assert(concat_chunks(Seq::<Seq<char>>::empty()) =~= Seq::<char>::empty());
        assert(concat_chunks(parts.push(c)) =~= c + Seq::<char>::empty());
        assert(c + Seq::<char>::empty() =~= c);
        assert(concat_chunks(parts) + c =~= c);
    } else {
        assert(parts.push(c).drop_first() =~= parts.drop_first().push(c));
        assert(parts.push(c)[0] == parts[0]);
        lemma_concat_chunks_push(parts.drop_first(), c);
        assert(parts[0] + (concat_chunks(parts.drop_first()) + c)
            =~= (parts[0] + concat_chunks(parts.drop_first())) + c);
    }
}

/// A chunk list the renderer accepts: every chunk is a non-empty digit
/// string, and every encoded chunk denotes a value representable in an
/// `i64` (the renderer parses those back to numbers).
pub open spec fn parts_encodable(parts: Seq<Seq<char>>) -> bool {
    forall|i: int| 0 <= i < parts.len() ==> {
        &&& 1 <= (#[trigger] parts[i]).len()
        &&& all_digits(parts[i])
        &&& (is_direct(parts.len() as int, i) || dec_value(parts[i]) <= i64::MAX)
    }
}

/// Chunking a digit string yields digit chunks.
pub proof fn lemma_chunks_rev_digits(s: Seq<char>, width: int)
    requires
        1 <= width,
        all_digits(s),
    ensures
        forall|i: int| 0 <= i < chunks_rev(s, width).len()
            ==> all_digits(#[trigger] chunks_rev(s, width)[i]),
    decreases s.len(),
{
    let cs = chunks_rev(s, width);
    if s.len() == 0 {
    } else if s.len() <= width {
        assert(cs =~= seq![s]);
    } else {
        let head = s.take(s.len() - width);
        let tail = s.skip(s.len() - width);
        assert(all_digits(head)) by {
            assert(forall|k: int| 0 <= k < head.len() ==> head[k] == s[k]);
        }
        assert(all_digits(tail)) by {
            assert(forall|k: int| 0 <= k < tail.len() ==> tail[k] == s[s.len() - width + k]);
        }
        lemma_chunks_rev_digits(head, width);
        let hs = chunks_rev(head, width);
        assert(cs =~= hs.push(tail));
        assert forall|i: int| 0 <= i < cs.len() implies all_digits(#[trigger] cs[i]) by {
            if i < hs.len() {
                assert(cs[i] == hs[i]);
            } else {
                assert(cs[i] == tail);
            }
        }
    }
}

/// A copy of the characters of `v` between two positions.
fn chars_subrange(v: &Vec<char>, start: usize, end: usize) -> (r: Vec<char>)
    requires
        start <= end <= v@.len(),
    ensures
        r@ == v@.subrange(start as int, end as int),
{
    let mut r: Vec<char> = Vec::new();
    let mut i: usize = start;
    while i < end
        invariant
            start <= i <= end <= v@.len(),
            r@ == v@.subrange(start as int, i as int),
        decreases end - i,
    {
        r.push(v[i]);
        proof {
            assert(v@.subrange(start as int, (i + 1) as int)
                =~= v@.subrange(start as int, i as int).push(v@[i as int]));
        }
        i += 1;
    }
    r
}

/// It makes long ids more readable and user friendly; it also adds a
/// checksum. The encoder turns chunk values into strings over its alphabet
/// (use a monotonic alphabet if the result needs to be monotonic);
/// `parts_size` is the width of the chunks the numeral is chopped into
/// (only alternate chunks are encoded); `delimiter` separates chunks;
/// `leading_zeros` makes every id render at a constant length. The two
/// derived fields `zero_char` and `max_encoder_length` must be recomputed
/// whenever `encoder` or `parts_size` changes.
#[derive(Debug, Clone)]
pub struct IdPrettifier<C: Codec> {
    /// Turns chunk values into strings over its alphabet and back.
    pub encoder: C,
    /// Width, in decimal digits, of the chunks.
    pub parts_size: usize,
    /// Separator placed between rendered chunks.
    pub delimiter: String,
    /// Whether ids render at a constant length.
    pub leading_zeros: bool,
    /// The encoding of zero in the configured alphabet (derived).
    pub zero_char: char,
    /// The encoded length of the largest value a chunk can hold (derived).
    pub max_encoder_length: usize,
}

impl<C: Codec> IdPrettifier<C> {
    /// The configuration as the specification-level model.
    pub open spec fn model(&self) -> PrettifierModel {
        PrettifierModel {
            alphabet: self.encoder.alphabet(),
            parts_size: self.parts_size as int,
            delimiter: self.delimiter@,
            leading_zeros: self.leading_zeros,
            zero_char: self.zero_char,
            max_encoder_length: self.max_encoder_length as int,
        }
    }

    /// A usable configuration: a well-formed alphabet and a positive chunk
    /// width.
    pub open spec fn wf(&self) -> bool {
        self.model().wf()
    }

    /// `part` left-padded with `zero_char` to `max_part_size` characters.
    pub fn add_leading_zeros(encoded_part: String, zero_char: char, max_part_size: usize) -> (r:
        String)
        ensures
            r@ == left_pad(encoded_part@, zero_char, max_part_size as int),
    {
        let v = str_to_chars(encoded_part.as_str());
        if v.len() >= max_part_size {
            return encoded_part;
        }
        let mut padded: Vec<char> = Vec::new();
        let fill = max_part_size - v.len();
        let mut i: usize = 0;
        while i < fill
            invariant
                i <= fill,
                padded@ =~= Seq::new(i as nat, |k: int| zero_char),
            decreases fill - i,
        {
            padded.push(zero_char);
            proof {
                assert(padded@ =~= Seq::new((i + 1) as nat, |k: int| zero_char));
            }
            i += 1;
        }
        let mut j: usize = 0;
        let ghost zeros = padded@;
        while j < v.len()
            invariant
                j <= v@.len(),
                padded@ == zeros + v@.subrange(0, j as int),
            decreases v@.len() - j,
        {
            padded.push(v[j]);
            proof {
                assert(zeros + v@.subrange(0, (j + 1) as int)
                    =~= (zeros + v@.subrange(0, j as int)).push(v@[j as int]));
            }
            j += 1;
        }
        proof {
            assert(zeros + v@.subrange(0, v@.len() as int) =~= zeros + v@);
            assert(left_pad(encoded_part@, zero_char, max_part_size as int) =~= zeros + v@);
        }
        chars_to_string(&padded)
    }

    /// Chops the checksummed numeral into chunks of `parts_size` from the
    /// least significant end, so only the leftmost chunk may be shorter.
    pub fn divide(&self, rep: String) -> (r: Vec<String>)
        requires
            1 <= self.parts_size,
        ensures
            r.deep_view() == chunks_rev(rep@, self.parts_size as int),
    {
        let k = self.parts_size;
        let v = str_to_chars(rep.as_str());
        let mut parts_rev: Vec<String> = Vec::new();
        let mut end: usize = v.len();
        proof {
            assert(v@.subrange(0, end as int) =~= v@);
            assert(chunks_rev(rep@, k as int)
                =~= chunks_rev(v@.subrange(0, end as int), k as int)
                    + parts_rev.deep_view().reverse());
        }
        while end > 0
            invariant
                end <= v@.len(),
                v@ == rep@,
                1 <= k,
                chunks_rev(rep@, k as int) == chunks_rev(v@.subrange(0, end as int), k as int)
                    + parts_rev.deep_view().reverse(),
            decreases end,
        {
            let start = if end > k {
                end - k
            } else {
                0
            };
            let chunk = chars_subrange(&v, start, end);
            let chunk_str = chars_to_string(&chunk);
            let ghost old_parts = parts_rev.deep_view();
            let ghost cur = v@.subrange(0, end as int);
            parts_rev.push(chunk_str);
            proof {
                assert(parts_rev.deep_view() =~= old_parts.push(chunk@));
                assert(parts_rev.deep_view().reverse()
                    =~= seq![chunk@] + old_parts.reverse());
                if end > k {
                    assert(cur.take(cur.len() - k as int) =~= v@.subrange(0, start as int));
                    assert(cur.skip(cur.len() - k as int) =~= chunk@);
                    assert(chunks_rev(cur, k as int)
                        =~= chunks_rev(v@.subrange(0, start as int), k as int).push(chunk@));
                    assert(chunks_rev(v@.subrange(0, start as int), k as int).push(chunk@)
                        + old_parts.reverse()
                        =~= chunks_rev(v@.subrange(0, start as int), k as int)
                            + (seq![chunk@] + old_parts.reverse()));
                } else {
                    assert(cur =~= chunk@);
                    assert(chunks_rev(cur, k as int) =~= seq![chunk@]);
                    assert(v@.subrange(0, 0) =~= Seq::<char>::empty());
                    assert(chunks_rev(v@.subrange(0, 0), k as int)
                        =~= Seq::<Seq<char>>::empty());
                    assert(seq![chunk@] + old_parts.reverse()
                        =~= chunks_rev(v@.subrange(0, 0), k as int)
                            + (seq![chunk@] + old_parts.reverse()));
                }
            }
            end = start;
        }
        proof {
            assert(v@.subrange(0, 0) =~= Seq::<char>::empty());
            assert(chunks_rev(Seq::<char>::empty(), k as int) =~= Seq::<Seq<char>>::empty());
            assert(chunks_rev(rep@, k as int) =~= parts_rev.deep_view().reverse());
        }
        let n = parts_rev.len();
        let mut parts: Vec<String> = Vec::new();
        let mut i: usize = 0;
        while i < n
            invariant
                i <= n,
                n == parts_rev.deep_view().len(),
                n == parts_rev@.len(),
                parts.deep_view() == parts_rev.deep_view().reverse().subrange(0, i as int),
            decreases n - i,
        {
            let ghost before = parts.deep_view();
            parts.push(parts_rev[n - 1 - i].clone());
            proof {
                assert(parts.deep_view() =~= before.push(parts_rev.deep_view()[n - 1 - i]));
                assert(parts_rev.deep_view().reverse().subrange(0, (i + 1) as int)
                    =~= parts_rev.deep_view().reverse().subrange(0, i as int).push(
                        parts_rev.deep_view().reverse()[i as int],
                    ));
            }
            i += 1;
        }
        proof {
            assert(parts_rev.deep_view().reverse().subrange(
                0,
                parts_rev.deep_view().reverse().len() as int,
            ) =~= parts_rev.deep_view().reverse());
        }
        parts
    }

    /// Left-pads the chunk list with `"0"` chunks to the canonical chunk
    /// count, so the rendered id keeps a constant length.
    pub fn add_leading_zeros_parts(&self, parts: Vec<String>) -> (r: Vec<String>)
        requires
            1 <= self.parts_size,
        ensures
            r.deep_view() == pad_chunks(parts.deep_view(), max_parts(self.parts_size as int)),
    {
        let target = 19 / self.parts_size + 1;
        proof {
            lemma_div_plus_one(19, self.parts_size as int);
            assert(max_parts(self.parts_size as int) == 19int / self.parts_size as int + 1);
        }
        if parts.len() >= target {
            return parts;
        }
        let fill = target - parts.len();
        let mut out: Vec<String> = Vec::new();
        let mut i: usize = 0;
        proof {
            reveal_strlit("0");
        }
        while i < fill
            invariant
                i <= fill,
                out.deep_view() =~= Seq::new(i as nat, |k: int| seq!['0']),
            decreases fill - i,
        {
            let ghost before = out.deep_view();
            out.push(String::from_str("0"));
            proof {
                reveal_strlit("0");
                assert("0"@ =~= seq!['0']);
                assert(out.deep_view() =~= before.push(seq!['0']));
                assert(out.deep_view() =~= Seq::new((i + 1) as nat, |k: int| seq!['0']));
            }
            i += 1;
        }
        let ghost zeros = out.deep_view();
        let mut j: usize = 0;
        while j < parts.len()
            invariant
                j <= parts@.len(),
                parts@.len() == parts.deep_view().len(),
                out.deep_view() == zeros + parts.deep_view().subrange(0, j as int),
            decreases parts@.len() - j,
        {
            let ghost before = out.deep_view();
            out.push(parts[j].clone());
            proof {
                assert(out.deep_view() =~= before.push(parts.deep_view()[j as int]));
                assert(zeros + parts.deep_view().subrange(0, (j + 1) as int)
                    =~= (zeros + parts.deep_view().subrange(0, j as int)).push(
                        parts.deep_view()[j as int],
                    ));
            }
            j += 1;
        }
        proof {
            assert(zeros + parts.deep_view().subrange(0, parts.deep_view().len() as int)
                =~= zeros + parts.deep_view());
            assert(pad_chunks(parts.deep_view(), max_parts(self.parts_size as int))
                =~= zeros + parts.deep_view());
        }
        out
    }
}

/// Joining one more chunk on the right appends a delimiter and the chunk.
pub proof fn lemma_join_chunks_push(parts: Seq<Seq<char>>, c: Seq<char>, d: Seq<char>)
    ensures
        join_chunks(parts.push(c), d) == if parts.len() == 0 {
            c
        } else {
            join_chunks(parts, d) + d + c
        },
    decreases parts.len(),
{
    if parts.len() == 0 {
        assert(parts.push(c)[0] == c);
    } else if parts.len() == 1 {
        assert(parts.push(c).drop_first() =~= seq![c]);
        assert(parts.push(c)[0] == parts[0]);
        assert(join_chunks(seq![c], d) == seq![c][0]);
    } else {
        assert(parts.push(c).drop_first() =~= parts.drop_first().push(c));
        assert(parts.push(c)[0] == parts[0]);
        lemma_join_chunks_push(parts.drop_first(), c, d);
        assert(parts[0] + d + (join_chunks(parts.drop_first(), d) + d + c)
            =~= (parts[0] + d + join_chunks(parts.drop_first(), d)) + d + c);
    }
}

/// The chunk list a representable seed renders from is acceptable to the
/// renderer: chunks are non-empty digit strings and every encoded chunk's
/// value fits comfortably (it has at most ten digits, because an encoded
/// chunk always has at least one full-width chunk to its right and the whole
/// checksummed numeral has at most twenty digits).
pub proof fn lemma_seed_chunks_encodable(m: PrettifierModel, seed: int)
    requires
        m.wf(),
        0 <= seed <= i64::MAX,
    ensures
        parts_encodable(seed_chunks(m, seed)),
        1 <= seed_chunks(m, seed).len(),
        forall|i: int| 0 <= i < seed_chunks(m, seed).len()
            ==> (#[trigger] seed_chunks(m, seed)[i]).len() <= m.parts_size,
{
    lemma_dec_alpha_wf();
    let k = m.parts_size;
    let numeral_part = dec_numeral(seed);
    let digits = damm_digits(seed);
    lemma_numeral_wf(dec_alpha(), seed);
    assert(pow(10int, 19nat) == 10_000_000_000_000_000_000) by {
        reveal_with_fuel(vstd::arithmetic::power::pow, 20);
    }
    lemma_numeral_len(dec_alpha(), seed, 19);
    assert(numeral_part.len() <= 19);
    assert(2 <= digits.len() <= 20);
    lemma_fold_range(numeral_part, 0);
    let cs = checksum_spec(numeral_part);
    assert(dec_alpha()[cs] as int == 48 + cs);
    assert(all_digits(digits)) by {
        lemma_all_digits_all_in(numeral_part);
        assert(forall|i: int| 0 <= i < numeral_part.len() ==> digits[i] == numeral_part[i]);
        assert(digits.last() == dec_alpha()[cs]);
        assert(is_digit(dec_alpha()[cs]));
    }
    let parts = chunks_rev(digits, k);
    lemma_chunks_rev_shape(digits, k);
    lemma_chunks_rev_digits(digits, k);
    let padded = seed_chunks(m, seed);
    let pad_n = padded.len() - parts.len();
    assert(pad_n >= 0 && forall|i: int| 0 <= i < pad_n ==> padded[i] == seq!['0']) by {
        if m.leading_zeros && parts.len() < max_parts(k) {
            assert(padded =~= Seq::new((max_parts(k) - parts.len()) as nat, |i: int| seq!['0'])
                + parts);
        } else {
            assert(padded =~= parts);
        }
    }
    assert(forall|i: int| pad_n <= i < padded.len() ==> padded[i] == parts[i - pad_n]) by {
        if m.leading_zeros && parts.len() < max_parts(k) {
            assert(padded =~= Seq::new((max_parts(k) - parts.len()) as nat, |i: int| seq!['0'])
                + parts);
        } else {
            assert(padded =~= parts);
        }
    }
    assert(dec_value(seq!['0']) == 0) by {
        assert(seq!['0'].drop_last() =~= Seq::<char>::empty());
        assert(alpha_value(dec_alpha(), Seq::<char>::empty()) == 0);
        assert(seq!['0'].last() == '0');
        lemma_digit_facts('0');
    }
    assert(pow(10int, 10nat) == 10_000_000_000) by {
        reveal_with_fuel(vstd::arithmetic::power::pow, 11);
    }
    assert forall|i: int| 0 <= i < padded.len() implies {
        &&& 1 <= (#[trigger] padded[i]).len() <= m.parts_size
        &&& all_digits(padded[i])
        &&& (is_direct(padded.len() as int, i) || dec_value(padded[i]) <= i64::MAX)
    } by {
        if i < pad_n {
            assert(padded[i] == seq!['0']);
            assert(all_digits(seq!['0'])) by {
                assert(seq!['0'][0] == '0');
            }
        } else {
            let j = i - pad_n;
            assert(padded[i] == parts[j]);
            let count_o = parts.len() as int;
            if !is_direct(padded.len() as int, i) {
                assert((padded.len() - 1 - i) % 2 != 0);
                assert(padded.len() - 1 - i >= 1) by {
                    if padded.len() - 1 - i == 0 {
                        assert((0int % 2) == 0);
                    }
                }
                assert(count_o - 1 - j == padded.len() - 1 - i);
                assert(j <= count_o - 2);
                let len_j = parts[j].len() as int;
                assert(len_j <= 10) by {
                    if j == 0 {
                        assert(count_o - 1 >= 1);
                        lemma_mul_inequality(1, count_o - 1, k);
                        assert(digits.len() >= parts[0].len() + k);
                        assert(len_j <= 20 - k);
                        assert(len_j <= k);
                    } else {
                        assert(len_j == k);
                        assert(count_o - 1 >= 2);
                        lemma_mul_inequality(2, count_o - 1, k);
                        assert(2 * k <= (count_o - 1) * k);
                        assert(digits.len() >= parts[0].len() + 2 * k);
                        assert(2 * k <= 19);
                    }
                }
                lemma_all_digits_all_in(parts[j]);
                lemma_value_bounds(dec_alpha(), parts[j]);
                lemma_pow_increases(10, parts[j].len(), 10);
                assert(dec_value(parts[j]) < pow(10int, parts[j].len()));
                assert(pow(10int, parts[j].len()) <= pow(10int, 10nat));
            }
        }
    }
}

impl<C: Codec> IdPrettifier<C> {
    /// Renders the chunk list: chunks alternate between direct decimal form
    /// and alphabet-encoded form (anchored so the rightmost chunk is
    /// direct), each padded to its fixed width when leading zeros are on,
    /// and the results are joined with the delimiter.
    pub fn convert_parts(&self, parts: Vec<String>) -> (r: String)
        requires
            self.wf(),
            parts_encodable(parts.deep_view()),
        ensures
            r@ == join_chunks(render_chunks(self.model(), parts.deep_view()), self.delimiter@),
    {
        let ghost m = self.model();
        let ghost all = render_chunks(m, parts.deep_view());
        let count = parts.len();
        let mut rendered: Vec<String> = Vec::new();
        let mut i: usize = 0;
        while i < count
            invariant
                i <= count,
                count == parts.deep_view().len(),
                count == parts@.len(),
                self.wf(),
                parts_encodable(parts.deep_view()),
                m == self.model(),
                all == render_chunks(m, parts.deep_view()),
                rendered.deep_view() == all.subrange(0, i as int),
            decreases count - i,
        {
            let direct = (count - 1 - i) % 2 == 0;
            proof {
                assert(direct == is_direct(count as int, i as int));
            }
            let part = parts[i].clone();
            let ghost part_view = parts.deep_view()[i as int];
            proof {
                assert(part@ == part_view);
            }
            let chunk_str = if direct {
                if self.leading_zeros {
                    Self::add_leading_zeros(part, '0', self.parts_size)
                } else {
                    part
                }
            } else {
                let chars = str_to_chars(part.as_str());
                let parsed = parse_decimal(&chars);
                let n = if let Some(n) = parsed {
                    n
                } else {
                    proof {
                        assert(1 <= part_view.len() && all_digits(part_view)
                            && dec_value(part_view) <= i64::MAX);
                        assert(false);
                    }
                    unreached()
                };
                let encoded = self.encoder.encode(n);
                if self.leading_zeros {
                    Self::add_leading_zeros(encoded, self.zero_char, self.max_encoder_length)
                } else {
                    encoded
                }
            };
            proof {
                assert(chunk_str@ == render_chunk(m, part_view, direct));
            }
            let ghost before = rendered.deep_view();
            rendered.push(chunk_str);
            proof {
                assert(rendered.deep_view() =~= before.push(chunk_str@));
                assert(all.subrange(0, (i + 1) as int)
                    =~= all.subrange(0, i as int).push(all[i as int]));
            }
            i += 1;
        }
        proof {
            assert(all.subrange(0, all.len() as int) =~= all);
        }
        let mut out = String::new();
        let mut j: usize = 0;
        while j < count
            invariant
                j <= count,
                count == rendered.deep_view().len(),
                count == rendered@.len(),
                rendered.deep_view() == all,
                out@ == join_chunks(all.subrange(0, j as int), self.delimiter@),
            decreases count - j,
        {
            if j > 0 {
                out.append(self.delimiter.as_str());
            }
            out.append(rendered[j].as_str());
            proof {
                let pre = all.subrange(0, j as int);
                let ext = all.subrange(0, (j + 1) as int);
                assert(ext =~= pre.push(all[j as int]));
                lemma_join_chunks_push(pre, all[j as int], self.delimiter@);
                if j == 0 {
                    assert(out@ =~= all[0]);
                } else {
                    assert(out@ =~= join_chunks(pre, self.delimiter@) + self.delimiter@
                        + all[j as int]);
                }
            }
            j += 1;
        }
        proof {
            assert(all.subrange(0, all.len() as int) =~= all);
            if count == 0 {
                assert(all.subrange(0, 0) =~= all);
            }
        }
        out
    }

    /// Renders a seed as its pretty string: decimal numeral, check digit,
    /// right-anchored chunks, optional constant-width padding, alternating
    /// rendering, delimited join.
    pub fn prettify(&self, id_seed: i64) -> (r: String)
        requires
            self.wf(),
            0 <= id_seed,
        ensures
            r@ == prettify_spec(self.model(), id_seed as int),
    {
        let ghost m = self.model();
        let digits = render_decimal(id_seed);
        let digits_str = chars_to_string(&digits);
        let with_checksum = damm::encode(digits_str.as_str());
        proof {
            assert(with_checksum@ == damm_digits(id_seed as int));
        }
        let parts = self.divide(with_checksum);
        let parts_to_convert = if self.leading_zeros {
            self.add_leading_zeros_parts(parts)
        } else {
            parts
        };
        proof {
            assert(parts_to_convert.deep_view() == seed_chunks(m, id_seed as int));
            lemma_seed_chunks_encodable(m, id_seed as int);
        }
        self.convert_parts(parts_to_convert)
    }
}

/// A split has at least one part.
pub proof fn lemma_split_chars_len(s: Seq<char>, d: Seq<char>)
    ensures
        1 <= split_chars(s, d).len(),
    decreases s.len(),
{
    if d.len() > 0 {
        let i = find_sub(s, d);
        if i >= 0 {
            lemma_find_sub_range(s, d);
            lemma_split_chars_len(s.skip(i + d.len()), d);
        }
    }
}

/// There is an occurrence of `d` at position `i` of `s`.
pub open spec fn occurs_at(s: Seq<char>, d: Seq<char>, i: int) -> bool {
    0 <= i && i + d.len() <= s.len() && s.subrange(i, i + d.len()) == d
}

/// `find_sub` finds the leftmost occurrence: a negative result means there
/// is none, a non-negative result is an occurrence with none before it.
pub proof fn lemma_find_sub_iff(s: Seq<char>, d: Seq<char>)
    requires
        1 <= d.len(),
    ensures
        find_sub(s, d) < 0 ==> forall|i: int| !occurs_at(s, d, i),
        find_sub(s, d) >= 0 ==> occurs_at(s, d, find_sub(s, d)),
        find_sub(s, d) >= 0 ==> forall|i: int| 0 <= i < find_sub(s, d) ==> !occurs_at(s, d, i),
    decreases s.len(),
{
    lemma_find_sub_range(s, d);
    if s.len() < d.len() {
        assert(forall|i: int| !occurs_at(s, d, i));
    } else if s.take(d.len() as int) == d {
        assert(s.subrange(0, d.len() as int) =~= s.take(d.len() as int));
    } else {
        lemma_find_sub_iff(s.drop_first(), d);
        let r = find_sub(s.drop_first(), d);
        assert forall|i: int| 1 <= i && i + d.len() <= s.len() implies (occurs_at(s, d, i)
            <==> occurs_at(s.drop_first(), d, i - 1)) by {
            assert(s.subrange(i, i + d.len()) =~= s.drop_first().subrange(
                i - 1,
                i - 1 + d.len(),
            ));
        }
        assert(!occurs_at(s, d, 0)) by {
            assert(s.subrange(0, d.len() as int) =~= s.take(d.len() as int));
        }
        if r < 0 {
            assert forall|i: int| !occurs_at(s, d, i) by {
                if 1 <= i && i + d.len() <= s.len() {
                    assert(!occurs_at(s.drop_first(), d, i - 1));
                }
            }
        } else {
            assert(occurs_at(s.drop_first(), d, r));
            assert(s.subrange(r + 1, r + 1 + d.len()) =~= s.drop_first().subrange(
                r,
                r + d.len(),
            ));
            assert forall|i: int| 0 <= i < r + 1 implies !occurs_at(s, d, i) by {
                if 1 <= i && i + d.len() <= s.len() {
                    assert(!occurs_at(s.drop_first(), d, i - 1));
                }
            }
        }
    }
}

/// Position of the leftmost occurrence of `needle` in `hay`, scanning left
/// to right.
fn find_in_chars(hay: &Vec<char>, needle: &Vec<char>) -> (r: Option<usize>)
    requires
        1 <= needle@.len(),
    ensures
        r matches Some(k) ==> k as int == find_sub(hay@, needle@),
        r is None ==> find_sub(hay@, needle@) < 0,
{
    let hlen = hay.len();
    let nlen = needle.len();
    proof {
        lemma_find_sub_iff(hay@, needle@);
    }
    if hlen < nlen {
        return None;
    }
    let last_start = hlen - nlen;
    let mut i: usize = 0;
    while i <= last_start
        invariant
            i <= last_start + 1,
            hlen == hay@.len(),
            nlen == needle@.len(),
            1 <= nlen,
            last_start == hlen - nlen,
            forall|k: int| 0 <= k < i ==> !occurs_at(hay@, needle@, k),
        decreases last_start + 1 - i,
    {
        let mut j: usize = 0;
        let mut ok = true;
        while ok && j < nlen
            invariant
                j <= nlen,
                hlen == hay@.len(),
                nlen == needle@.len(),
                i + nlen <= hlen,
                ok ==> forall|t: int| 0 <= t < j ==> hay@[i + t] == needle@[t],
                !ok ==> !occurs_at(hay@, needle@, i as int),
            decreases nlen - j, (if ok { 1int } else { 0int }),
        {
            if hay[i + j] != needle[j] {
                proof {
                    if occurs_at(hay@, needle@, i as int) {
                        assert(hay@.subrange(i as int, i + needle@.len())[j as int]
                            == hay@[i + j]);
                    }
                }
                ok = false;
            } else {
                proof {
                    assert forall|t: int| 0 <= t < j + 1 implies hay@[i + t] == needle@[t] by {
                        if t == j {
                            assert(hay@[i + j] == needle@[j as int]);
                        }
                    }
                }
                j += 1;
            }
        }
        if ok {
            proof {
                lemma_find_sub_iff(hay@, needle@);
                assert(hay@.subrange(i as int, i + needle@.len()) =~= needle@);
                assert(occurs_at(hay@, needle@, i as int));
                let f = find_sub(hay@, needle@);
                if f < 0 {
                    assert(!occurs_at(hay@, needle@, i as int));
                }
                if f < i {
                    assert(!occurs_at(hay@, needle@, f));
                }
                if f > i {
                    assert(!occurs_at(hay@, needle@, i as int));
                }
            }
            return Some(i);
        }
        i += 1;
    }
    proof {
        let f = find_sub(hay@, needle@);
        if f >= 0 {
            assert(occurs_at(hay@, needle@, f));
            assert(!occurs_at(hay@, needle@, f));
        }
    }
    None
}

/// `text` split on `delim`, leftmost occurrence first; the whole string as
/// one part when `delim` is empty or never occurs.
fn split_text(text: &Vec<char>, delim: &Vec<char>) -> (r: Vec<String>)
    ensures
        r.deep_view() == split_chars(text@, delim@),
{
    let mut parts: Vec<String> = Vec::new();
    if delim.len() == 0 {
        parts.push(chars_to_string(text));
        proof {
            assert(parts.deep_view() =~= seq![text@]);
        }
        return parts;
    }
    let mut rem: Vec<char> = chars_subrange(text, 0, text.len());
    proof {
        assert(text@.subrange(0, text@.len() as int) =~= text@);
        assert(Seq::<Seq<char>>::empty() + split_chars(rem@, delim@)
            =~= split_chars(text@, delim@));
    }
    loop
        invariant_except_break
            1 <= delim@.len(),
            split_chars(text@, delim@) == parts.deep_view() + split_chars(rem@, delim@),
        ensures
            parts.deep_view() == split_chars(text@, delim@),
        decreases rem@.len(),
    {
        let found = find_in_chars(&rem, delim);
        let ghost old_parts = parts.deep_view();
        let ghost old_rem = rem@;
        match found {
            None => {
                parts.push(chars_to_string(&rem));
                proof {
                    assert(split_chars(old_rem, delim@) =~= seq![old_rem]);
                    assert(parts.deep_view() =~= old_parts.push(old_rem));
                    assert(parts.deep_view() =~= old_parts + seq![old_rem]);
                }
                break;
            },
            Some(k) => {
                proof {
                    lemma_find_sub_range(old_rem, delim@);
                }
                let chunk = chars_subrange(&rem, 0, k);
                parts.push(chars_to_string(&chunk));
                let rlen = rem.len();
                let next_start = k + delim.len();
                rem = chars_subrange(&rem, next_start, rlen);
                proof {
                    assert(chunk@ =~= old_rem.take(k as int));
                    assert(rem@ =~= old_rem.skip(k + delim@.len()));
                    assert(split_chars(old_rem, delim@)
                        =~= seq![old_rem.take(k as int)] + split_chars(rem@, delim@));
                    assert(parts.deep_view() =~= old_parts.push(old_rem.take(k as int)));
                    assert(old_parts + (seq![old_rem.take(k as int)] + split_chars(rem@, delim@))
                        =~= (old_parts + seq![old_rem.take(k as int)]) + split_chars(rem@, delim@));
                    assert(old_parts.push(old_rem.take(k as int))
                        =~= old_parts + seq![old_rem.take(k as int)]);
                }
            },
        }
    }
    parts
}

impl<C: Codec> IdPrettifier<C> {
    /// Undoes the alternating rendering: splits on the delimiter, passes
    /// direct chunks through, decodes encoded chunks and re-renders them as
    /// zero-padded decimal, and concatenates everything back into the
    /// checksummed digit string.
    pub fn decode_seed_with_check_digit(&self, rep: &str) -> (r: Result<String, ConversionError>)
        requires
            self.wf(),
        ensures
            r matches Ok(s) ==> {
                let parts = split_chars(rep@, self.delimiter@);
                chunks_ok(self.model(), parts) && chunks_fit(self.model(), parts)
                    && s@ == reconstruct(self.model(), parts)
            },
            r matches Err(e) ==> (e is InvalidCharacter
                <==> !chunks_ok(self.model(), split_chars(rep@, self.delimiter@))),
            r matches Err(e) ==> (e matches ConversionError::InvalidId(t)
                ==> t@ == rep@ && chunks_ok(self.model(), split_chars(rep@, self.delimiter@))
                    && !chunks_fit(self.model(), split_chars(rep@, self.delimiter@))),
            r matches Err(e) ==> (e is ParseIntError ==> false),
    {
        let ghost m = self.model();
        let text = str_to_chars(rep);
        let delim = str_to_chars(self.delimiter.as_str());
        let parts = split_text(&text, &delim);
        let ghost pv = parts.deep_view();
        proof {
            lemma_split_chars_len(rep@, self.delimiter@);
        }
        let count = parts.len();
        let mut i: usize = 0;
        while i < count
            invariant
                i <= count,
                count == pv.len(),
                count == parts@.len(),
                pv == parts.deep_view(),
                pv == split_chars(rep@, self.delimiter@),
                m == self.model(),
                self.wf(),
                forall|k: int| 0 <= k < i
                    ==> chunk_ok(m, #[trigger] pv[k], is_direct(count as int, k)),
            decreases count - i,
        {
            let direct = (count - 1 - i) % 2 == 0;
            proof {
                assert(direct == is_direct(count as int, i as int));
            }
            if !direct {
                let chunk = str_to_chars(parts[i].as_str());
                proof {
                    assert(chunk@ == pv[i as int]);
                }
                let clen = chunk.len();
                let mut j: usize = 0;
                while j < clen
                    invariant
                        j <= clen,
                        clen == chunk@.len(),
                        m == self.model(),
                        self.wf(),
                        chunk@ == pv[i as int],
                        0 <= i < count == pv.len(),
                        pv == split_chars(rep@, self.delimiter@),
                        !is_direct(count as int, i as int),
                        forall|t: int| 0 <= t < j ==> m.alphabet.contains(#[trigger] chunk@[t]),
                    decreases clen - j,
                {
                    if !self.encoder.contains_char(chunk[j]) {
                        proof {
                            assert(!all_in(m.alphabet, pv[i as int]));
                            assert(!chunk_ok(m, pv[i as int], is_direct(count as int, i as int)));
                            assert(!chunks_ok(m, pv));
                        }
                        return Err(ConversionError::InvalidCharacter);
                    }
                    j += 1;
                }
                proof {
                    assert(all_in(m.alphabet, pv[i as int]));
                }
            }
            i += 1;
        }
        proof {
            assert(chunks_ok(m, pv));
        }
        let ghost unrendered = Seq::new(
            pv.len(),
            |k: int| unrender_chunk(m, pv[k], is_direct(pv.len() as int, k)),
        );
        let mut out = String::new();
        let mut i2: usize = 0;
        while i2 < count
            invariant
                i2 <= count,
                count == pv.len(),
                count == parts@.len(),
                pv == parts.deep_view(),
                pv == split_chars(rep@, self.delimiter@),
                m == self.model(),
                self.wf(),
                chunks_ok(m, pv),
                unrendered == Seq::new(
                    pv.len(),
                    |k: int| unrender_chunk(m, pv[k], is_direct(pv.len() as int, k)),
                ),
                out@ == concat_chunks(unrendered.subrange(0, i2 as int)),
                forall|k: int| 0 <= k < i2
                    ==> (is_direct(count as int, k)
                        || alpha_value(m.alphabet, #[trigger] pv[k]) <= i64::MAX),
            decreases count - i2,
        {
            let direct = (count - 1 - i2) % 2 == 0;
            proof {
                assert(direct == is_direct(count as int, i2 as int));
            }
            let ghost before = out@;
            if direct {
                out.append(parts[i2].as_str());
                proof {
                    assert(out@ == before + pv[i2 as int]);
                }
            } else {
                proof {
                    assert(chunk_ok(m, pv[i2 as int], is_direct(count as int, i2 as int)));
                    assert(all_in(m.alphabet, pv[i2 as int]));
                }
                let decoded = self.encoder.try_decode(parts[i2].as_str());
                let n = match decoded {
                    Some(n) => n,
                    None => {
                        proof {
                            assert(alpha_value(m.alphabet, pv[i2 as int]) > i64::MAX);
                            assert(!chunks_fit(m, pv));
                        }
                        return Err(ConversionError::InvalidId(rep.to_owned()));
                    },
                };
                let digits = render_decimal(n);
                let digits_str = chars_to_string(&digits);
                let padded = Self::add_leading_zeros(digits_str, '0', self.parts_size);
                out.append(padded.as_str());
                proof {
                    assert(padded@ == unrender_chunk(m, pv[i2 as int], false));
                    assert(out@ == before + padded@);
                }
            }
            proof {
                let pre = unrendered.subrange(0, i2 as int);
                let ext = unrendered.subrange(0, (i2 + 1) as int);
                assert(ext =~= pre.push(unrendered[i2 as int]));
                lemma_concat_chunks_push(pre, unrendered[i2 as int]);
                assert(out@ == concat_chunks(ext));
            }
            i2 += 1;
        }
        proof {
            assert(chunks_fit(m, pv));
            assert(unrendered.subrange(0, unrendered.len() as int) =~= unrendered);
            assert(out@ == reconstruct(m, pv));
        }
        Ok(out)
    }

    /// Converts a pretty string back to its seed: undoes the rendering,
    /// validates the checksum, strips the check digit, and parses the
    /// remaining numeral; each failure is reported as its own error.
    pub fn convert_to_id(&self, rep: &str) -> (r: Result<i64, ConversionError>)
        requires
            self.wf(),
        ensures
            to_seed_spec(self.model(), rep@) matches SeedOutcome::Seed(v)
                ==> (r matches Ok(x) && x as int == v),
            to_seed_spec(self.model(), rep@) is BadChar
                ==> r matches Err(ConversionError::InvalidCharacter),
            to_seed_spec(self.model(), rep@) is Invalid
                ==> (r matches Err(ConversionError::InvalidId(t)) && t@ == rep@),
            to_seed_spec(self.model(), rep@) is ParseFail
                ==> r matches Err(ConversionError::ParseIntError),
    {
        let decoded = match self.decode_seed_with_check_digit(rep) {
            Ok(s) => s,
            Err(e) => {
                return Err(e);
            },
        };
        if !damm::is_valid(decoded.as_str()) {
            return Err(ConversionError::InvalidId(rep.to_owned()));
        }
        let chars = str_to_chars(decoded.as_str());
        if chars.len() == 0 {
            return Err(ConversionError::InvalidId(rep.to_owned()));
        }
        let body = chars_subrange(&chars, 0, chars.len() - 1);
        proof {
            assert(body@ =~= decoded@.drop_last());
        }
        match parse_decimal(&body) {
            Some(x) => Ok(x),
            None => Err(ConversionError::ParseIntError),
        }
    }

    /// The inverse of [`Self::prettify`]: recovers the exact seed of a
    /// pretty string, or says why the string is not one.
    pub fn to_id_seed(&self, id: &str) -> (r: Result<i64, ConversionError>)
        requires
            self.wf(),
        ensures
            to_seed_spec(self.model(), id@) matches SeedOutcome::Seed(v)
                ==> (r matches Ok(x) && x as int == v),
            to_seed_spec(self.model(), id@) is BadChar
                ==> r matches Err(ConversionError::InvalidCharacter),
            to_seed_spec(self.model(), id@) is Invalid
                ==> (r matches Err(ConversionError::InvalidId(t)) && t@ == id@),
            to_seed_spec(self.model(), id@) is ParseFail
                ==> r matches Err(ConversionError::ParseIntError),
    {
        self.convert_to_id(id)
    }

    /// Whether a string reconstructs to a checksum-valid numeral (the first
    /// four steps of the inverse, as a boolean).
    pub fn is_valid(&self, id: &str) -> (r: bool)
        requires
            self.wf(),
        ensures
            r == is_valid_spec(self.model(), id@),
    {
        match self.decode_seed_with_check_digit(id) {
            Ok(s) => damm::is_valid(s.as_str()),
            Err(_) => false,
        }
    }
}

impl Default for IdPrettifier<AlphabetCodec> {
    /// The default configuration: the 23-symbol monotonic alphabet, chunks
    /// of five digits, `"-"` as delimiter, constant-length output, and the
    /// two derived fields computed from the encoder.
    fn default() -> (result: Self)
        ensures
            result.wf(),
            result.model().reversible(),
            result.encoder.alphabet() == "ABCDEFGHJKLMNPQRSTUVXYZ"@,
            result.parts_size == 5,
            result.delimiter@ == "-"@,
            result.leading_zeros == true,
            result.zero_char == result.encoder.alphabet()[0],
            result.max_encoder_length as int == numeral(
                result.encoder.alphabet(),
                99999,
            ).len(),
    {
        let encoder = AlphabetCodec::default();
        let ghost alpha = encoder.alphabet();
        proof {
            reveal_strlit("ABCDEFGHJKLMNPQRSTUVXYZ");
            assert(alpha.len() == 23);
            assert(alpha_wf(alpha)) by {
                assert forall|i: int, j: int| 0 <= i < j < alpha.len()
                    implies alpha[i] != alpha[j] by {
                    assert(alpha[i] != alpha[j]);
                }
            }
        }
        let zero_str = encoder.encode(0);
        proof {
            assert(numeral(alpha, 0) =~= seq![alpha[0]]);
        }
        let zero_char = zero_str.as_str().get_char(0);
        let max_str = encoder.encode(99999);
        let max_encoder_length = max_str.as_str().unicode_len();
        let delimiter = String::from_str("-");
        let result = IdPrettifier {
            encoder,
            parts_size: 5,
            delimiter,
            leading_zeros: true,
            zero_char,
            max_encoder_length,
        };
        proof {
            reveal_strlit("-");
            reveal_strlit("ABCDEFGHJKLMNPQRSTUVXYZ");
            assert(result.model().delimiter.len() == 1);
            assert(result.model().delimiter[0] == '-');
            assert(!is_digit('-'));
            assert(!alpha.contains('-')) by {
                if alpha.contains('-') {
                    let k = choose|k: int| 0 <= k < alpha.len() && alpha[k] == '-';
                    assert(alpha[k] == '-');
                }
            }
            assert forall|i: int| 0 <= i < result.model().delimiter.len()
                implies !is_digit(#[trigger] result.model().delimiter[i])
                    && !alpha.contains(result.model().delimiter[i]) by {
                assert(result.model().delimiter[i] == '-');
            }
        }
        result
    }
}

} // verus!
