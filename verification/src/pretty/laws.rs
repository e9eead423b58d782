//! The laws of the pretty transform, proved over its model: the round trip
//! recovers every representable seed exactly; with leading zeros the output
//! length is constant; and over a monotonic alphabet the rendering preserves
//! the numeric order lexicographically.

use vstd::prelude::*;
use vstd::arithmetic::power::{pow, lemma_pow_positive, lemma_pow_increases};
use vstd::arithmetic::div_mod::{lemma_fundamental_div_mod, lemma_mod_bound};
use vstd::arithmetic::mul::lemma_mul_inequality;
use crate::pretty::numeral::lemma_numeral_len_mono;
use crate::pretty::chars::{
    all_digits, dec_alpha, dec_numeral, dec_value, is_digit,
    lemma_all_digits_all_in, lemma_dec_alpha_wf, lemma_digit_facts,
};
use crate::pretty::damm::{
    checksum_spec, lemma_fold_concat, lemma_fold_zeros, lemma_encode_valid,
};
use crate::pretty::numeral::{
    alpha_value, alpha_wf, all_in, left_pad, numeral, sym_index,
    lemma_numeral_wf, lemma_numeral_len, lemma_value_of_numeral, lemma_value_bounds,
    lemma_value_concat, lemma_pad_value, lemma_zeros_value, lemma_sym_index_of,
    lemma_reconstruct,
};
use crate::pretty::prettifier::{
    PrettifierModel, SeedOutcome, chunks_rev, chunks_ok, chunks_fit, chunk_ok, concat_chunks,
    damm_digits, find_sub, is_direct, join_chunks, lemma_chunks_rev_digits,
    lemma_chunks_rev_shape, lemma_find_sub_iff, lemma_seed_chunks_encodable, max_parts,
    occurs_at, pad_chunks, parts_encodable, prettify_spec, render_chunk, render_chunks,
    reconstruct, seed_chunks, split_chars, to_seed_spec, unrender_chunk,
};

verus! {

/// Every character of `s` is the digit zero.
pub open spec fn all_zero_chars(s: Seq<char>) -> bool {
    forall|i: int| 0 <= i < s.len() ==> s[i] == '0'
}

/// No character of any chunk begins the delimiter, so the delimiter occurs
/// in the joined string exactly at the join points.
pub open spec fn chunk_avoids(chunk: Seq<char>, d: Seq<char>) -> bool {
    forall|i: int| 0 <= i < chunk.len() ==> chunk[i] != d[0]
}

/// Splitting on the delimiter undoes joining with it, provided no chunk
/// holds the delimiter's first character.
pub proof fn lemma_split_join(parts: Seq<Seq<char>>, d: Seq<char>)
    requires
        1 <= d.len(),
        1 <= parts.len(),
        forall|i: int| 0 <= i < parts.len() ==> chunk_avoids(#[trigger] parts[i], d),
    ensures
        split_chars(join_chunks(parts, d), d) == parts,
    decreases parts.len(),
{
    let text = join_chunks(parts, d);
    if parts.len() == 1 {
        assert(text == parts[0]);
        lemma_find_sub_iff(text, d);
        let f = find_sub(text, d);
        if f >= 0 {
            assert(occurs_at(text, d, f));
            assert(text.subrange(f, f + d.len())[0] == text[f]);
            assert(text[f] == d[0]);
            assert(chunk_avoids(parts[0], d));
        }
        assert(split_chars(text, d) =~= parts);
    } else {
        let rest = parts.drop_first();
        let tail_text = join_chunks(rest, d);
        assert(text == parts[0] + d + tail_text);
        let c0 = parts[0];
        let cut = c0.len() as int;
        assert(occurs_at(text, d, cut)) by {
            assert(text.subrange(cut, cut + d.len()) =~= d);
        }
        assert forall|p: int| 0 <= p < cut implies !occurs_at(text, d, p) by {
            if occurs_at(text, d, p) {
                assert(text.subrange(p, p + d.len())[0] == text[p]);
                assert(text[p] == c0[p]);
                assert(chunk_avoids(c0, d));
            }
        }
        lemma_find_sub_iff(text, d);
        let f = find_sub(text, d);
        assert(f >= 0);
        assert(f == cut) by {
            if f < cut {
                assert(!occurs_at(text, d, f));
            }
            if f > cut {
                assert(!occurs_at(text, d, cut));
            }
        }
        assert(text.take(cut) =~= c0);
        assert(text.skip(cut + d.len()) =~= tail_text);
        assert forall|i: int| 0 <= i < rest.len() implies chunk_avoids(#[trigger] rest[i], d) by {
            assert(rest[i] == parts[i + 1]);
        }
        lemma_split_join(rest, d);
        assert(split_chars(text, d) =~= seq![c0] + rest);
        assert(seq![c0] + rest =~= parts);
    }
}

/// Concatenation of chunk lists concatenates their texts.
pub proof fn lemma_concat_chunks_concat(a: Seq<Seq<char>>, b: Seq<Seq<char>>)
    ensures
        concat_chunks(a + b) == concat_chunks(a) + concat_chunks(b),
    decreases a.len(),
{
    if a.len() == 0 {
        assert(a + b =~= b);
        assert(Seq::<char>::empty() + concat_chunks(b) =~= concat_chunks(b));
    } else {
        assert((a + b).drop_first() =~= a.drop_first() + b);
        assert((a + b)[0] == a[0]);
        lemma_concat_chunks_concat(a.drop_first(), b);
        assert(a[0] + (concat_chunks(a.drop_first()) + concat_chunks(b))
            =~= (a[0] + concat_chunks(a.drop_first())) + concat_chunks(b));
    }
}

/// Concatenating all-zero chunks yields an all-zero string.
pub proof fn lemma_concat_zero_chunks(parts: Seq<Seq<char>>)
    requires
        forall|i: int| 0 <= i < parts.len() ==> all_zero_chars(#[trigger] parts[i]),
    ensures
        all_zero_chars(concat_chunks(parts)),
    decreases parts.len(),
{
    if parts.len() > 0 {
        lemma_concat_zero_chunks(parts.drop_first());
        let whole = concat_chunks(parts);
        assert forall|i: int| 0 <= i < whole.len() implies whole[i] == '0' by {
            if i < parts[0].len() {
                assert(whole[i] == parts[0][i]);
                assert(all_zero_chars(parts[0]));
            } else {
                assert(whole[i] == concat_chunks(parts.drop_first())[i - parts[0].len()]);
            }
        }
    }
}

/// Padding further left splits into more fill and the narrower padding.
pub proof fn lemma_left_pad_stack(s: Seq<char>, fill: char, w1: int, w2: int)
    requires
        s.len() <= w1 <= w2,
    ensures
        left_pad(s, fill, w2) == Seq::new((w2 - w1) as nat, |i: int| fill) + left_pad(s, fill, w1),
{
    assert(left_pad(s, fill, w2)
        =~= Seq::new((w2 - w1) as nat, |i: int| fill) + left_pad(s, fill, w1));
}

/// The checksummed numeral of a representable seed: all digits, two to
/// twenty of them, checksum-valid, and the seed's numeral once the check
/// digit is stripped.
pub proof fn lemma_damm_digits_facts(seed: int)
    requires
        0 <= seed <= i64::MAX,
    ensures
        all_digits(damm_digits(seed)),
        2 <= damm_digits(seed).len() <= 20,
        checksum_spec(damm_digits(seed)) == 0,
        damm_digits(seed).drop_last() == dec_numeral(seed),
        dec_value(dec_numeral(seed)) == seed,
{
    lemma_dec_alpha_wf();
    let numeral_part = dec_numeral(seed);
    let digits = damm_digits(seed);
    lemma_numeral_wf(dec_alpha(), seed);
    assert(pow(10int, 19nat) == 10_000_000_000_000_000_000) by {
        reveal_with_fuel(vstd::arithmetic::power::pow, 20);
    }
    lemma_numeral_len(dec_alpha(), seed, 19);
    lemma_encode_valid(numeral_part);
    let cs = checksum_spec(numeral_part);
    assert(dec_alpha()[cs] as int == 48 + cs);
    assert(all_digits(digits)) by {
        lemma_all_digits_all_in(numeral_part);
        assert(forall|i: int| 0 <= i < numeral_part.len() ==> digits[i] == numeral_part[i]);
        assert(digits.last() == dec_alpha()[cs]);
    }
    assert(digits.drop_last() =~= numeral_part);
    lemma_value_of_numeral(dec_alpha(), seed);
}

/// Rendering and taking back one chunk: the rendered text holds only digits
/// and alphabet symbols; an encoded chunk decodes to the chunk's value; and
/// the reconstruction is the chunk itself behind a run of zero digits.
proof fn lemma_chunk_round(m: PrettifierModel, chunk: Seq<char>, direct: bool)
    requires
        m.reversible(),
        all_digits(chunk),
        1 <= chunk.len() <= m.parts_size,
        !direct ==> dec_value(chunk) <= i64::MAX,
    ensures
        forall|t: int| 0 <= t < render_chunk(m, chunk, direct).len()
            ==> (is_digit(#[trigger] render_chunk(m, chunk, direct)[t])
                || m.alphabet.contains(render_chunk(m, chunk, direct)[t])),
        !direct ==> all_in(m.alphabet, render_chunk(m, chunk, direct)),
        !direct ==> alpha_value(m.alphabet, render_chunk(m, chunk, direct)) == dec_value(chunk),
        unrender_chunk(m, render_chunk(m, chunk, direct), direct) == if direct
            && !m.leading_zeros {
            chunk
        } else {
            left_pad(chunk, '0', m.parts_size)
        },
{
    lemma_dec_alpha_wf();
    let rendered = render_chunk(m, chunk, direct);
    if direct {
        if m.leading_zeros {
            assert forall|t: int| 0 <= t < rendered.len()
                implies is_digit(#[trigger] rendered[t]) || m.alphabet.contains(rendered[t]) by {
                if chunk.len() < m.parts_size {
                    let zeros = Seq::new((m.parts_size - chunk.len()) as nat, |i: int| '0');
                    assert(rendered =~= zeros + chunk);
                    if t < zeros.len() {
                        assert(rendered[t] == '0');
                    } else {
                        assert(rendered[t] == chunk[t - zeros.len()]);
                    }
                }
            }
        }
    } else {
        lemma_all_digits_all_in(chunk);
        lemma_value_bounds(dec_alpha(), chunk);
        let v = dec_value(chunk);
        lemma_numeral_wf(m.alphabet, v);
        lemma_value_of_numeral(m.alphabet, v);
        let e = numeral(m.alphabet, v);
        lemma_pad_value(m.alphabet, e, m.max_encoder_length);
        assert(m.zero_char == m.alphabet[0]);
        if m.leading_zeros {
            assert(rendered == left_pad(e, m.alphabet[0], m.max_encoder_length));
        } else {
            assert(rendered == e);
        }
        assert(all_in(m.alphabet, rendered)) by {
            if m.leading_zeros && e.len() < m.max_encoder_length {
                assert(rendered == left_pad(e, m.alphabet[0], m.max_encoder_length));
            } else {
                assert(rendered =~= e);
            }
        }
        assert(alpha_value(m.alphabet, rendered) == v) by {
            if m.leading_zeros {
            } else {
                assert(rendered =~= e);
            }
        }
        assert forall|t: int| 0 <= t < rendered.len()
            implies is_digit(#[trigger] rendered[t]) || m.alphabet.contains(rendered[t]) by {
            assert(all_in(m.alphabet, rendered));
            assert(m.alphabet.contains(rendered[t]));
        }
        // the reconstruction: decode, render decimal, pad to the chunk width
        let un = unrender_chunk(m, rendered, direct);
        assert(un == left_pad(dec_numeral(v), '0', m.parts_size));
        lemma_reconstruct(dec_alpha(), chunk);
        assert(left_pad(dec_numeral(v), '0', chunk.len() as int) == chunk);
        lemma_numeral_len(dec_alpha(), v, chunk.len());
        lemma_left_pad_stack(dec_numeral(v), '0', chunk.len() as int, m.parts_size);
        assert(un =~= Seq::new((m.parts_size - chunk.len()) as nat, |i: int| '0') + chunk);
        assert(left_pad(chunk, '0', m.parts_size)
            =~= Seq::new((m.parts_size - chunk.len()) as nat, |i: int| '0') + chunk);
    }
}

/// The round trip: for every representable seed, converting the pretty
/// rendering back yields exactly that seed, under any reversible
/// configuration (with or without leading zeros, for any conforming alphabet,
/// chunk width, and delimiter).
#[verifier::rlimit(100)]
pub proof fn lemma_round_trip(m: PrettifierModel, seed: int)
    requires
        m.reversible(),
        0 <= seed <= i64::MAX,
    ensures
        to_seed_spec(m, prettify_spec(m, seed)) == SeedOutcome::Seed(seed),
{
    lemma_dec_alpha_wf();
    lemma_damm_digits_facts(seed);
    let digits = damm_digits(seed);
    let ps = m.parts_size;
    let orig = chunks_rev(digits, ps);
    lemma_chunks_rev_shape(digits, ps);
    lemma_chunks_rev_digits(digits, ps);
    let parts = seed_chunks(m, seed);
    lemma_seed_chunks_encodable(m, seed);
    let count = parts.len() as int;
    let p_n = count - orig.len();
    assert(p_n >= 0 && (forall|i: int| 0 <= i < p_n ==> parts[i] == seq!['0'])
        && (forall|i: int| p_n <= i < count ==> parts[i] == orig[i - p_n])) by {
        if m.leading_zeros && orig.len() < max_parts(ps) {
            assert(parts =~= Seq::new((max_parts(ps) - orig.len()) as nat, |i: int| seq!['0'])
                + orig);
        } else {
            assert(parts =~= orig);
        }
    }
    let rendered = render_chunks(m, parts);
    let text = prettify_spec(m, seed);
    assert(text == join_chunks(rendered, m.delimiter));
    assert(rendered.len() == count);

    // per-chunk facts, including for the "0" padding chunks
    assert(all_digits(seq!['0']) && dec_value(seq!['0']) == 0) by {
        assert(seq!['0'][0] == '0');
        assert(seq!['0'].drop_last() =~= Seq::<char>::empty());
        assert(alpha_value(dec_alpha(), Seq::<char>::empty()) == 0);
        assert(seq!['0'].last() == '0');
        lemma_digit_facts('0');
    }
    assert forall|i: int| 0 <= i < count implies {
        &&& all_digits(#[trigger] parts[i])
        &&& 1 <= parts[i].len() <= ps
        &&& (is_direct(count, i) || dec_value(parts[i]) <= i64::MAX)
    } by {
        assert(parts_encodable(parts));
    }

    // the rendered chunks avoid the delimiter, so splitting undoes joining
    assert forall|i: int| 0 <= i < count implies chunk_avoids(#[trigger] rendered[i], m.delimiter)
        by {
        lemma_chunk_round(m, parts[i], is_direct(count, i));
        assert(rendered[i] == render_chunk(m, parts[i], is_direct(count, i)));
        assert forall|t: int| 0 <= t < rendered[i].len()
            implies rendered[i][t] != m.delimiter[0] by {
            assert(is_digit(rendered[i][t]) || m.alphabet.contains(rendered[i][t]));
            assert(!is_digit(m.delimiter[0]));
            assert(!m.alphabet.contains(m.delimiter[0]));
        }
    }
    lemma_split_join(rendered, m.delimiter);
    assert(split_chars(text, m.delimiter) == rendered);

    // the rendered chunks decode: alphabet symbols only, values in range
    assert forall|i: int| 0 <= i < count
        implies chunk_ok(m, #[trigger] rendered[i], is_direct(count, i))
            && (is_direct(count, i) || alpha_value(m.alphabet, rendered[i]) <= i64::MAX) by {
        lemma_chunk_round(m, parts[i], is_direct(count, i));
    }
    assert(chunks_ok(m, rendered));
    assert(chunks_fit(m, rendered));

    // the reconstruction is the checksummed numeral behind a run of zeros
    let un = Seq::new(
        rendered.len(),
        |k: int| unrender_chunk(m, rendered[k], is_direct(rendered.len() as int, k)),
    );
    assert(reconstruct(m, rendered) == concat_chunks(un));
    assert forall|i: int| 0 <= i < count implies #[trigger] un[i] == (
        if is_direct(count, i) && !m.leading_zeros {
            parts[i]
        } else {
            left_pad(parts[i], '0', ps)
        }) by {
        lemma_chunk_round(m, parts[i], is_direct(count, i));
    }
    // chunks after the first unpadded chunk reconstruct to themselves
    assert forall|i: int| p_n < i < count implies #[trigger] un[i] == parts[i] by {
        assert(parts[i] == orig[i - p_n]);
        assert(parts[i].len() == ps);
        assert(left_pad(parts[i], '0', ps) == parts[i]);
    }
    let a = un.take(p_n + 1);
    let b = un.skip(p_n + 1);
    assert(un =~= a + b);
    lemma_concat_chunks_concat(a, b);
    assert(b =~= orig.drop_first());
    let pads_un = a.take(p_n);
    assert(a =~= pads_un + seq![un[p_n]]);
    lemma_concat_chunks_concat(pads_un, seq![un[p_n]]);
    assert(concat_chunks(seq![un[p_n]]) =~= un[p_n]) by {
        assert(seq![un[p_n]].drop_first() =~= Seq::<Seq<char>>::empty());
        assert(concat_chunks(Seq::<Seq<char>>::empty()) =~= Seq::<char>::empty());
        assert(un[p_n] + Seq::<char>::empty() =~= un[p_n]);
    }
    assert forall|i: int| 0 <= i < pads_un.len() implies all_zero_chars(#[trigger] pads_un[i])
        by {
        assert(pads_un[i] == un[i]);
        assert(parts[i] == seq!['0']);
        assert(un[i] == left_pad(seq!['0'], '0', ps) || un[i] == seq!['0']);
        assert forall|t: int| 0 <= t < un[i].len() implies un[i][t] == '0' by {
            if un[i].len() > 1 {
                let zeros = Seq::new((ps - 1) as nat, |k: int| '0');
                assert(un[i] =~= zeros + seq!['0']);
                if t < zeros.len() {
                    assert(un[i][t] == '0');
                } else {
                    assert(un[i][t] == '0');
                }
            } else {
                assert(un[i][0] == '0');
            }
        }
    }
    lemma_concat_zero_chunks(pads_un);
    // the first unpadded chunk reconstructs behind its own zero padding
    let head_chunk = un[p_n];
    let first = orig[0];
    assert(parts[p_n] == first);
    let zeros0: Seq<char> = if head_chunk.len() > first.len() {
        Seq::new((head_chunk.len() - first.len()) as nat, |k: int| '0')
    } else {
        Seq::<char>::empty()
    };
    assert(head_chunk =~= zeros0 + first) by {
        if is_direct(count, p_n) && !m.leading_zeros {
            assert(head_chunk == first);
            assert(head_chunk =~= Seq::<char>::empty() + first);
        } else {
            assert(head_chunk == left_pad(first, '0', ps));
            if first.len() < ps {
                assert(head_chunk =~= Seq::new((ps - first.len()) as nat, |k: int| '0') + first);
            } else {
                assert(head_chunk =~= Seq::<char>::empty() + first);
            }
        }
    }
    assert(all_zero_chars(zeros0));
    let big_zeros = concat_chunks(pads_un) + zeros0;
    assert(all_zero_chars(big_zeros)) by {
        assert forall|t: int| 0 <= t < big_zeros.len() implies big_zeros[t] == '0' by {
            if t < concat_chunks(pads_un).len() {
                assert(big_zeros[t] == concat_chunks(pads_un)[t]);
            } else {
                assert(big_zeros[t] == zeros0[t - concat_chunks(pads_un).len()]);
            }
        }
    }
    assert(concat_chunks(un) =~= big_zeros + digits) by {
        assert(concat_chunks(un) == concat_chunks(a) + concat_chunks(b));
        assert(concat_chunks(a) == concat_chunks(pads_un) + head_chunk);
        assert(concat_chunks(b) == concat_chunks(orig.drop_first()));
        assert(digits == concat_chunks(orig));
        assert(concat_chunks(orig) == orig[0] + concat_chunks(orig.drop_first()));
        assert(concat_chunks(pads_un) + (zeros0 + first) + concat_chunks(orig.drop_first())
            =~= (concat_chunks(pads_un) + zeros0) + (first + concat_chunks(orig.drop_first())));
    }
    let full = big_zeros + digits;

    // evaluate the inverse on the reconstruction
    lemma_fold_concat(big_zeros, digits, 0);
    lemma_fold_zeros(big_zeros);
    assert(checksum_spec(full) == 0);
    assert(full.len() > 0);
    let body = full.drop_last();
    assert(body =~= big_zeros + dec_numeral(seed)) by {
        assert(digits.len() >= 1);
        assert(body =~= big_zeros + digits.drop_last());
    }
    lemma_numeral_wf(dec_alpha(), seed);
    assert(all_digits(body)) by {
        lemma_all_digits_all_in(dec_numeral(seed));
        assert forall|t: int| 0 <= t < body.len() implies is_digit(#[trigger] body[t]) by {
            if t < big_zeros.len() {
                assert(body[t] == '0');
            } else {
                assert(body[t] == dec_numeral(seed)[t - big_zeros.len()]);
                assert(all_digits(damm_digits(seed)));
                assert(dec_numeral(seed)[t - big_zeros.len()]
                    == damm_digits(seed)[t - big_zeros.len()]);
            }
        }
    }
    assert(dec_value(body) == seed) by {
        lemma_value_concat(dec_alpha(), big_zeros, dec_numeral(seed));
        assert(forall|t: int| 0 <= t < big_zeros.len() ==> big_zeros[t] == dec_alpha()[0]);
        lemma_zeros_value(dec_alpha(), big_zeros);
        assert(alpha_value(dec_alpha(), big_zeros) == 0);
        assert(0 * pow(10int, dec_numeral(seed).len()) == 0) by (nonlinear_arith);
    }
    assert(body.len() >= 1);
    assert(to_seed_spec(m, text) == SeedOutcome::Seed(seed));
}

/// Joining chunk lists of pointwise-equal lengths yields strings of equal
/// length.
pub proof fn lemma_join_len_congruent(a: Seq<Seq<char>>, b: Seq<Seq<char>>, d: Seq<char>)
    requires
        a.len() == b.len(),
        forall|i: int| 0 <= i < a.len() ==> (#[trigger] a[i]).len() == (#[trigger] b[i]).len(),
    ensures
        join_chunks(a, d).len() == join_chunks(b, d).len(),
    decreases a.len(),
{
    if a.len() > 1 {
        assert(forall|i: int| 0 <= i < a.drop_first().len()
            ==> (#[trigger] a.drop_first()[i]).len() == (#[trigger] b.drop_first()[i]).len());
        lemma_join_len_congruent(a.drop_first(), b.drop_first(), d);
    }
}

/// With leading zeros on, a representable seed renders to exactly the
/// canonical chunk count, direct chunks `parts_size` wide and encoded chunks
/// `max_encoder_length` wide — provided the configured encoder width covers
/// the largest chunk value, as the derived-field rule demands.
pub proof fn lemma_rendered_widths(m: PrettifierModel, seed: int)
    requires
        m.wf(),
        m.leading_zeros,
        numeral(m.alphabet, pow(10, m.parts_size as nat) - 1).len() <= m.max_encoder_length,
        0 <= seed <= i64::MAX,
    ensures
        render_chunks(m, seed_chunks(m, seed)).len() == max_parts(m.parts_size),
        forall|i: int| 0 <= i < max_parts(m.parts_size)
            ==> (#[trigger] render_chunks(m, seed_chunks(m, seed))[i]).len() == (
            if is_direct(max_parts(m.parts_size), i) {
                m.parts_size
            } else {
                m.max_encoder_length
            }),
{
    lemma_dec_alpha_wf();
    lemma_damm_digits_facts(seed);
    let ps = m.parts_size;
    let digits = damm_digits(seed);
    let orig = chunks_rev(digits, ps);
    lemma_chunks_rev_shape(digits, ps);
    lemma_chunks_rev_digits(digits, ps);
    lemma_seed_chunks_encodable(m, seed);
    let parts = seed_chunks(m, seed);
    // the unpadded chunk count never exceeds the canonical count
    assert(orig.len() <= max_parts(ps)) by {
        lemma_fundamental_div_mod(19 + ps, ps);
        lemma_mod_bound(19 + ps, ps);
        let q = (19 + ps) / ps;
        assert(max_parts(ps) == q);
        if orig.len() > q {
            assert(orig.len() - 1 >= q);
            lemma_mul_inequality(q, orig.len() - 1, ps);
            assert(q * ps <= (orig.len() - 1) * ps) by (nonlinear_arith)
                requires q <= orig.len() - 1 && 0 <= ps;
            assert(ps * q == q * ps) by (nonlinear_arith);
            assert(q * ps >= 20);
            assert(digits.len() >= orig[0].len() + q * ps);
        }
    }
    assert(parts.len() == max_parts(ps)) by {
        if orig.len() < max_parts(ps) {
            assert(parts =~= Seq::new((max_parts(ps) - orig.len()) as nat, |i: int| seq!['0'])
                + orig);
        } else {
            assert(parts =~= orig);
        }
    }
    let rendered = render_chunks(m, parts);
    let count = parts.len() as int;
    assert forall|i: int| 0 <= i < count implies (#[trigger] rendered[i]).len() == (
        if is_direct(count, i) {
            ps
        } else {
            m.max_encoder_length
        }) by {
        assert(parts_encodable(parts));
        let chunk = parts[i];
        assert(1 <= chunk.len() <= ps && all_digits(chunk));
        if is_direct(count, i) {
            assert(rendered[i] == left_pad(chunk, '0', ps));
            if chunk.len() < ps {
                assert(rendered[i].len() == ps);
            }
        } else {
            lemma_all_digits_all_in(chunk);
            lemma_value_bounds(dec_alpha(), chunk);
            let v = dec_value(chunk);
            let e = numeral(m.alphabet, v);
            assert(rendered[i] == left_pad(e, m.zero_char, m.max_encoder_length));
            assert(e.len() <= m.max_encoder_length) by {
                lemma_pow_increases(10, chunk.len(), ps as nat);
                assert(v <= pow(10, ps as nat) - 1);
                lemma_numeral_len_mono(m.alphabet, v, pow(10, ps as nat) - 1);
            }
            if e.len() < m.max_encoder_length {
                assert(rendered[i].len() == m.max_encoder_length);
            }
        }
    }
}

/// Fixed width: with leading zeros enabled, every representable seed renders
/// to a string of the same length — in particular the rendering of zero and
/// of the largest seed coincide in length.
pub proof fn lemma_fixed_width(m: PrettifierModel, s1: int, s2: int)
    requires
        m.wf(),
        m.leading_zeros,
        numeral(m.alphabet, pow(10, m.parts_size as nat) - 1).len() <= m.max_encoder_length,
        0 <= s1 <= i64::MAX,
        0 <= s2 <= i64::MAX,
    ensures
        prettify_spec(m, s1).len() == prettify_spec(m, s2).len(),
{
    lemma_rendered_widths(m, s1);
    lemma_rendered_widths(m, s2);
    lemma_join_len_congruent(
        render_chunks(m, seed_chunks(m, s1)),
        render_chunks(m, seed_chunks(m, s2)),
        m.delimiter,
    );
}

/// Lexicographic order on character strings: by the first differing
/// character, a prefix before its extensions.
pub open spec fn lex_leq(s1: Seq<char>, s2: Seq<char>) -> bool
    decreases s1.len(),
{
    if s1.len() == 0 {
        true
    } else if s2.len() == 0 {
        false
    } else if s1[0] == s2[0] {
        lex_leq(s1.drop_first(), s2.drop_first())
    } else {
        s1[0] < s2[0]
    }
}

/// The alphabet's symbols strictly increase in character order, so encoded
/// strings sort consistently with their values.
pub open spec fn alpha_sorted(alpha: Seq<char>) -> bool {
    forall|i: int, j: int| 0 <= i < j < alpha.len() ==> alpha[i] < alpha[j]
}

/// Lexicographic order is reflexive.
pub proof fn lemma_lex_refl(s: Seq<char>)
    ensures
        lex_leq(s, s),
    decreases s.len(),
{
    if s.len() > 0 {
        lemma_lex_refl(s.drop_first());
    }
}

/// On equal lengths, mutual lexicographic order is equality.
pub proof fn lemma_lex_antisymmetric(s1: Seq<char>, s2: Seq<char>)
    requires
        s1.len() == s2.len(),
        lex_leq(s1, s2),
        lex_leq(s2, s1),
    ensures
        s1 == s2,
    decreases s1.len(),
{
    if s1.len() == 0 {
        assert(s1 =~= s2);
    } else {
        assert(s1[0] == s2[0]);
        lemma_lex_antisymmetric(s1.drop_first(), s2.drop_first());
        assert(s1 =~= s2) by {
            assert(forall|i: int| 1 <= i < s1.len()
                ==> s1[i] == s1.drop_first()[i - 1] && s2[i] == s2.drop_first()[i - 1]);
        }
    }
}

/// Concatenations compare by their aligned left parts first: strictly
/// smaller left parts decide, equal left parts defer to the right parts.
pub proof fn lemma_lex_concat(a1: Seq<char>, b1: Seq<char>, a2: Seq<char>, b2: Seq<char>)
    requires
        a1.len() == a2.len(),
        lex_leq(a1, a2),
        a1 == a2 ==> lex_leq(b1, b2),
    ensures
        lex_leq(a1 + b1, a2 + b2),
    decreases a1.len(),
{
    if a1.len() == 0 {
        assert(a1 =~= a2);
        assert(a1 + b1 =~= b1);
        assert(a2 + b2 =~= b2);
    } else {
        assert((a1 + b1)[0] == a1[0]);
        assert((a2 + b2)[0] == a2[0]);
        if a1[0] == a2[0] {
            assert((a1 + b1).drop_first() =~= a1.drop_first() + b1);
            assert((a2 + b2).drop_first() =~= a2.drop_first() + b2);
            if a1.drop_first() == a2.drop_first() {
                assert(a1 =~= a2) by {
                    assert(forall|i: int| 1 <= i < a1.len()
                        ==> a1[i] == a1.drop_first()[i - 1] && a2[i] == a2.drop_first()[i - 1]);
                }
            }
            lemma_lex_concat(a1.drop_first(), b1, a2.drop_first(), b2);
        }
    }
}

/// The converse split: a comparison of concatenations with aligned left
/// parts yields the comparison of the left parts, and of the right parts
/// when the left parts coincide.
pub proof fn lemma_lex_split(a1: Seq<char>, b1: Seq<char>, a2: Seq<char>, b2: Seq<char>)
    requires
        a1.len() == a2.len(),
        lex_leq(a1 + b1, a2 + b2),
    ensures
        lex_leq(a1, a2),
        a1 == a2 ==> lex_leq(b1, b2),
    decreases a1.len(),
{
    if a1.len() == 0 {
        assert(a1 =~= a2);
        assert(a1 + b1 =~= b1);
        assert(a2 + b2 =~= b2);
    } else {
        assert((a1 + b1)[0] == a1[0]);
        assert((a2 + b2)[0] == a2[0]);
        if a1[0] == a2[0] {
            assert((a1 + b1).drop_first() =~= a1.drop_first() + b1);
            assert((a2 + b2).drop_first() =~= a2.drop_first() + b2);
            lemma_lex_split(a1.drop_first(), b1, a2.drop_first(), b2);
            if a1 == a2 {
                assert(a1.drop_first() =~= a2.drop_first());
            }
        } else {
            assert(a1[0] < a2[0]);
        }
    }
}

/// Over a sorted alphabet, strings of equal length compare lexicographically
/// as their values do.
pub proof fn lemma_value_lex(alpha: Seq<char>, s1: Seq<char>, s2: Seq<char>)
    requires
        alpha_wf(alpha),
        alpha_sorted(alpha),
        all_in(alpha, s1),
        all_in(alpha, s2),
        s1.len() == s2.len(),
        alpha_value(alpha, s1) <= alpha_value(alpha, s2),
    ensures
        lex_leq(s1, s2),
    decreases s1.len(),
{
    if s1.len() > 0 {
        let b = alpha.len() as int;
        let t1 = s1.drop_first();
        let t2 = s2.drop_first();
        assert(s1 =~= seq![s1[0]] + t1);
        assert(s2 =~= seq![s2[0]] + t2);
        lemma_value_concat(alpha, seq![s1[0]], t1);
        lemma_value_concat(alpha, seq![s2[0]], t2);
        assert(alpha_value(alpha, seq![s1[0]]) == sym_index(alpha, s1[0])) by {
            assert(seq![s1[0]].drop_last() =~= Seq::<char>::empty());
            assert(alpha_value(alpha, Seq::<char>::empty()) == 0);
        }
        assert(alpha_value(alpha, seq![s2[0]]) == sym_index(alpha, s2[0])) by {
            assert(seq![s2[0]].drop_last() =~= Seq::<char>::empty());
            assert(alpha_value(alpha, Seq::<char>::empty()) == 0);
        }
        assert(all_in(alpha, t1) && all_in(alpha, t2)) by {
            assert(forall|i: int| 0 <= i < t1.len() ==> t1[i] == s1[i + 1]);
            assert(forall|i: int| 0 <= i < t2.len() ==> t2[i] == s2[i + 1]);
        }
        lemma_value_bounds(alpha, t1);
        lemma_value_bounds(alpha, t2);
        let p = pow(b, t1.len());
        lemma_pow_positive(b, t1.len());
        assert(alpha.contains(s1[0]) && alpha.contains(s2[0])) by {
            assert(s1[0] == s1.index(0));
            assert(s2[0] == s2.index(0));
        }
        crate::pretty::numeral::lemma_sym_index(alpha, s1[0]);
        crate::pretty::numeral::lemma_sym_index(alpha, s2[0]);
        let k1 = sym_index(alpha, s1[0]);
        let k2 = sym_index(alpha, s2[0]);
        let v1 = alpha_value(alpha, t1);
        let v2 = alpha_value(alpha, t2);
        assert(alpha_value(alpha, s1) == k1 * p + v1);
        assert(alpha_value(alpha, s2) == k2 * p + v2);
        if k1 == k2 {
            assert(s1[0] == s2[0]);
            assert(v1 <= v2) by {
                assert(k1 * p == k2 * p);
            }
            lemma_value_lex(alpha, t1, t2);
        } else if k1 < k2 {
            assert(s1[0] < s2[0]);
        } else {
            // impossible: a larger leading symbol forces a larger value
            assert(k1 * p >= k2 * p + p) by (nonlinear_arith)
                requires k1 >= k2 + 1 && p >= 1;
            assert(alpha_value(alpha, s1) > alpha_value(alpha, s2));
        }
    }
}

/// The digit alphabet is sorted by character.
pub proof fn lemma_dec_alpha_sorted()
    ensures
        alpha_sorted(dec_alpha()),
{
    assert forall|i: int, j: int| 0 <= i < j < dec_alpha().len()
        implies dec_alpha()[i] < dec_alpha()[j] by {
        assert(dec_alpha()[i] as int == 48 + i);
        assert(dec_alpha()[j] as int == 48 + j);
    }
}

/// With leading zeros on, each rendered chunk is a function of the chunk's
/// value alone: that value's numeral over the chunk's alphabet, padded to
/// the chunk's fixed width with the zero symbol.
proof fn lemma_render_by_value(m: PrettifierModel, chunk: Seq<char>, direct: bool)
    requires
        m.wf(),
        m.leading_zeros,
        m.zero_char == m.alphabet[0],
        all_digits(chunk),
        1 <= chunk.len() <= m.parts_size,
    ensures
        direct ==> render_chunk(m, chunk, true) == left_pad(
            dec_numeral(dec_value(chunk)),
            '0',
            m.parts_size,
        ),
        !direct ==> render_chunk(m, chunk, false) == left_pad(
            numeral(m.alphabet, dec_value(chunk)),
            m.alphabet[0],
            m.max_encoder_length,
        ),
{
    lemma_dec_alpha_wf();
    if direct {
        lemma_all_digits_all_in(chunk);
        lemma_value_bounds(dec_alpha(), chunk);
        let v = dec_value(chunk);
        lemma_reconstruct(dec_alpha(), chunk);
        lemma_numeral_len(dec_alpha(), v, chunk.len());
        lemma_left_pad_stack(dec_numeral(v), '0', chunk.len() as int, m.parts_size);
        assert(left_pad(dec_numeral(v), '0', m.parts_size)
            =~= Seq::new((m.parts_size - chunk.len()) as nat, |i: int| '0') + chunk);
        assert(render_chunk(m, chunk, true) == left_pad(chunk, '0', m.parts_size));
        assert(left_pad(chunk, '0', m.parts_size)
            =~= Seq::new((m.parts_size - chunk.len()) as nat, |i: int| '0') + chunk);
    }
}

/// Padded numerals over a sorted alphabet order as their values do, and
/// distinct values render to distinct strings.
proof fn lemma_padded_numeral_mono(alpha: Seq<char>, v: int, w: int, width: int)
    requires
        alpha_wf(alpha),
        alpha_sorted(alpha),
        0 <= v <= w,
        numeral(alpha, w).len() <= width,
    ensures
        lex_leq(left_pad(numeral(alpha, v), alpha[0], width), left_pad(
            numeral(alpha, w),
            alpha[0],
            width,
        )),
        v < w ==> left_pad(numeral(alpha, v), alpha[0], width) != left_pad(
            numeral(alpha, w),
            alpha[0],
            width,
        ),
{
    let pv = left_pad(numeral(alpha, v), alpha[0], width);
    let pw = left_pad(numeral(alpha, w), alpha[0], width);
    lemma_numeral_len_mono(alpha, v, w);
    lemma_numeral_wf(alpha, v);
    lemma_numeral_wf(alpha, w);
    lemma_pad_value(alpha, numeral(alpha, v), width);
    lemma_pad_value(alpha, numeral(alpha, w), width);
    lemma_value_of_numeral(alpha, v);
    lemma_value_of_numeral(alpha, w);
    assert(pv.len() == width && pw.len() == width);
    lemma_value_lex(alpha, pv, pw);
    if v < w && pv == pw {
        assert(alpha_value(alpha, pv) == alpha_value(alpha, pw));
    }
}

/// The width of a concatenation of equal-width chunks.
proof fn lemma_concat_equal_width(parts: Seq<Seq<char>>, width: int)
    requires
        forall|i: int| 0 <= i < parts.len() ==> (#[trigger] parts[i]).len() == width,
    ensures
        concat_chunks(parts).len() == parts.len() * width,
    decreases parts.len(),
{
    if parts.len() == 0 {
        assert(parts.len() * width == 0) by (nonlinear_arith)
            requires parts.len() == 0;
    } else {
        lemma_concat_equal_width(parts.drop_first(), width);
        assert(parts.len() * width == width + (parts.len() - 1) * width) by (nonlinear_arith);
    }
}

/// Padding every chunk of a right-anchored (and possibly `"0"`-padded)
/// chunk list to the chunk width and concatenating yields the underlying digit
/// string behind a run of zero digits.
proof fn lemma_padded_chunks_concat(digits: Seq<char>, ps: int, n: int)
    requires
        1 <= ps,
        1 <= digits.len(),
    ensures
        ({
            let parts = pad_chunks(chunks_rev(digits, ps), n);
            let padded = Seq::new(parts.len(), |i: int| left_pad(parts[i], '0', ps));
            let whole = concat_chunks(padded);
            &&& digits.len() <= whole.len()
            &&& whole =~= whole.take(whole.len() - digits.len()) + digits
            &&& all_zero_chars(whole.take(whole.len() - digits.len()))
        }),
{
    let orig = chunks_rev(digits, ps);
    lemma_chunks_rev_shape(digits, ps);
    let parts = pad_chunks(orig, n);
    let p_n = parts.len() - orig.len();
    assert(p_n >= 0 && (forall|i: int| 0 <= i < p_n ==> parts[i] == seq!['0'])
        && (forall|i: int| p_n <= i < parts.len() ==> parts[i] == orig[i - p_n])) by {
        if orig.len() < n {
            assert(parts =~= Seq::new((n - orig.len()) as nat, |i: int| seq!['0']) + orig);
        } else {
            assert(parts =~= orig);
        }
    }
    let padded = Seq::new(parts.len(), |i: int| left_pad(parts[i], '0', ps));
    let whole = concat_chunks(padded);
    assert forall|i: int| p_n < i < padded.len() implies #[trigger] padded[i] == orig[i - p_n]
        by {
        assert(parts[i] == orig[i - p_n]);
        assert(orig[i - p_n].len() == ps);
    }
    let a = padded.take(p_n + 1);
    let b = padded.skip(p_n + 1);
    assert(padded =~= a + b);
    lemma_concat_chunks_concat(a, b);
    assert(b =~= orig.drop_first());
    let pads_only = a.take(p_n);
    assert(a =~= pads_only + seq![padded[p_n]]);
    lemma_concat_chunks_concat(pads_only, seq![padded[p_n]]);
    assert(concat_chunks(seq![padded[p_n]]) =~= padded[p_n]) by {
        assert(seq![padded[p_n]].drop_first() =~= Seq::<Seq<char>>::empty());
        assert(concat_chunks(Seq::<Seq<char>>::empty()) =~= Seq::<char>::empty());
        assert(padded[p_n] + Seq::<char>::empty() =~= padded[p_n]);
    }
    assert forall|i: int| 0 <= i < pads_only.len() implies all_zero_chars(#[trigger] pads_only[i])
        by {
        assert(pads_only[i] == padded[i]);
        assert(parts[i] == seq!['0']);
        assert(padded[i] == left_pad(seq!['0'], '0', ps));
        assert forall|t: int| 0 <= t < padded[i].len() implies padded[i][t] == '0' by {
            if ps > 1 {
                let zeros = Seq::new((ps - 1) as nat, |k: int| '0');
                assert(padded[i] =~= zeros + seq!['0']);
                if t < zeros.len() {
                    assert(padded[i][t] == '0');
                } else {
                    assert(padded[i][t] == '0');
                }
            } else {
                assert(padded[i] =~= seq!['0']);
            }
        }
    }
    lemma_concat_zero_chunks(pads_only);
    let first = orig[0];
    assert(parts[p_n] == first);
    let zeros0: Seq<char> = if first.len() < ps {
        Seq::new((ps - first.len()) as nat, |k: int| '0')
    } else {
        Seq::<char>::empty()
    };
    assert(padded[p_n] =~= zeros0 + first) by {
        if first.len() < ps {
            assert(padded[p_n] =~= Seq::new((ps - first.len()) as nat, |k: int| '0') + first);
        } else {
            assert(padded[p_n] =~= Seq::<char>::empty() + first);
        }
    }
    assert(all_zero_chars(zeros0));
    let big_zeros = concat_chunks(pads_only) + zeros0;
    assert(all_zero_chars(big_zeros)) by {
        assert forall|t: int| 0 <= t < big_zeros.len() implies big_zeros[t] == '0' by {
            if t < concat_chunks(pads_only).len() {
                assert(big_zeros[t] == concat_chunks(pads_only)[t]);
            } else {
                assert(big_zeros[t] == zeros0[t - concat_chunks(pads_only).len()]);
            }
        }
    }
    assert(whole =~= big_zeros + digits) by {
        assert(whole == concat_chunks(a) + concat_chunks(b));
        assert(concat_chunks(a) == concat_chunks(pads_only) + padded[p_n]);
        assert(concat_chunks(b) == concat_chunks(orig.drop_first()));
        assert(digits == concat_chunks(orig));
        assert(concat_chunks(orig) == orig[0] + concat_chunks(orig.drop_first()));
        assert(concat_chunks(pads_only) + (zeros0 + first) + concat_chunks(orig.drop_first())
            =~= (concat_chunks(pads_only) + zeros0) + (first + concat_chunks(orig.drop_first())));
    }
    assert(whole.take(whole.len() - digits.len()) =~= big_zeros);
}

/// A digit chunk padded to the chunk width is the padded numeral of its
/// value.
proof fn lemma_pad_digits_by_value(chunk: Seq<char>, ps: int)
    requires
        all_digits(chunk),
        1 <= chunk.len() <= ps,
    ensures
        left_pad(chunk, '0', ps) == left_pad(dec_numeral(dec_value(chunk)), '0', ps),
        left_pad(chunk, '0', ps).len() == ps,
        0 <= dec_value(chunk),
        numeral(dec_alpha(), dec_value(chunk)).len() <= chunk.len(),
{
    lemma_dec_alpha_wf();
    lemma_all_digits_all_in(chunk);
    lemma_value_bounds(dec_alpha(), chunk);
    let v = dec_value(chunk);
    lemma_reconstruct(dec_alpha(), chunk);
    lemma_numeral_len(dec_alpha(), v, chunk.len());
    lemma_left_pad_stack(dec_numeral(v), '0', chunk.len() as int, ps);
    assert(left_pad(dec_numeral(v), '0', ps)
        =~= Seq::new((ps - chunk.len()) as nat, |i: int| '0') + chunk);
    assert(left_pad(chunk, '0', ps)
        =~= Seq::new((ps - chunk.len()) as nat, |i: int| '0') + chunk);
}

/// Chunk lists whose width-padded concatenations are lexicographically
/// ordered render (under the alternation rule, with leading zeros and a
/// sorted alphabet) to lexicographically ordered joined strings.
proof fn lemma_render_lex(m: PrettifierModel, p1: Seq<Seq<char>>, p2: Seq<Seq<char>>)
    requires
        m.wf(),
        m.leading_zeros,
        alpha_sorted(m.alphabet),
        m.zero_char == m.alphabet[0],
        numeral(m.alphabet, pow(10, m.parts_size as nat) - 1).len() <= m.max_encoder_length,
        p1.len() == p2.len(),
        forall|i: int| 0 <= i < p1.len()
            ==> all_digits(#[trigger] p1[i]) && 1 <= p1[i].len() <= m.parts_size,
        forall|i: int| 0 <= i < p2.len()
            ==> all_digits(#[trigger] p2[i]) && 1 <= p2[i].len() <= m.parts_size,
        lex_leq(
            concat_chunks(Seq::new(p1.len(), |i: int| left_pad(p1[i], '0', m.parts_size))),
            concat_chunks(Seq::new(p2.len(), |i: int| left_pad(p2[i], '0', m.parts_size))),
        ),
    ensures
        lex_leq(
            join_chunks(render_chunks(m, p1), m.delimiter),
            join_chunks(render_chunks(m, p2), m.delimiter),
        ),
    decreases p1.len(),
{
    lemma_dec_alpha_wf();
    lemma_dec_alpha_sorted();
    let ps = m.parts_size;
    let count = p1.len() as int;
    let rc1 = render_chunks(m, p1);
    let rc2 = render_chunks(m, p2);
    if count == 0 {
        assert(lex_leq(join_chunks(rc1, m.delimiter), join_chunks(rc2, m.delimiter)));
        return;
    }
    let pad1 = Seq::new(p1.len(), |i: int| left_pad(p1[i], '0', ps));
    let pad2 = Seq::new(p2.len(), |i: int| left_pad(p2[i], '0', ps));
    let q1 = pad1[0];
    let q2 = pad2[0];
    lemma_pad_digits_by_value(p1[0], ps);
    lemma_pad_digits_by_value(p2[0], ps);
    let v1 = dec_value(p1[0]);
    let v2 = dec_value(p2[0]);
    assert(concat_chunks(pad1) == q1 + concat_chunks(pad1.drop_first()));
    assert(concat_chunks(pad2) == q2 + concat_chunks(pad2.drop_first()));
    lemma_lex_split(q1, concat_chunks(pad1.drop_first()), q2, concat_chunks(pad2.drop_first()));
    // chunk values follow the chunk order
    lemma_value_bounds(dec_alpha(), p1[0]);
    lemma_value_bounds(dec_alpha(), p2[0]);
    assert(v1 <= v2) by {
        if v1 > v2 {
            lemma_padded_numeral_mono(dec_alpha(), v2, v1, ps);
            lemma_lex_antisymmetric(q1, q2);
        }
    }
    let flag0 = is_direct(count, 0);
    lemma_render_by_value(m, p1[0], flag0);
    lemma_render_by_value(m, p2[0], flag0);
    let r1 = rc1[0];
    let r2 = rc2[0];
    // the rendered widths agree and the rendered chunks follow the values
    assert(numeral(m.alphabet, v2).len() <= m.max_encoder_length) by {
        lemma_pow_increases(10, p2[0].len(), ps as nat);
        lemma_numeral_len_mono(m.alphabet, v2, pow(10int, ps as nat) - 1);
    }
    assert(numeral(m.alphabet, v1).len() <= m.max_encoder_length) by {
        lemma_numeral_len_mono(m.alphabet, v1, v2);
    }
    assert(r1.len() == r2.len() && lex_leq(r1, r2) && (v1 < v2 ==> r1 != r2) && (v1 == v2
        ==> r1 == r2)) by {
        if flag0 {
            assert(r1 == left_pad(dec_numeral(v1), '0', ps));
            assert(r2 == left_pad(dec_numeral(v2), '0', ps));
            lemma_numeral_len_mono(dec_alpha(), v1, v2);
            lemma_padded_numeral_mono(dec_alpha(), v1, v2, ps);
            assert(r1.len() == ps && r2.len() == ps);
        } else {
            assert(r1 == left_pad(numeral(m.alphabet, v1), m.alphabet[0], m.max_encoder_length));
            assert(r2 == left_pad(numeral(m.alphabet, v2), m.alphabet[0], m.max_encoder_length));
            lemma_padded_numeral_mono(m.alphabet, v1, v2, m.max_encoder_length);
            lemma_numeral_wf(m.alphabet, v1);
            lemma_numeral_wf(m.alphabet, v2);
            assert(r1.len() == m.max_encoder_length && r2.len() == m.max_encoder_length);
        }
    }
    if count == 1 {
        assert(join_chunks(rc1, m.delimiter) == r1);
        assert(join_chunks(rc2, m.delimiter) == r2);
        return;
    }
    // align the tails: dropping the first chunk keeps each chunk's distance
    // from the right end, so the alternation flags carry over
    assert(rc1.drop_first() =~= render_chunks(m, p1.drop_first())) by {
        assert forall|i: int| 0 <= i < rc1.drop_first().len()
            implies rc1.drop_first()[i] == render_chunks(m, p1.drop_first())[i] by {
            assert(rc1.drop_first()[i] == render_chunk(m, p1[i + 1], is_direct(count, i + 1)));
            assert(p1.drop_first()[i] == p1[i + 1]);
            assert(is_direct(count, i + 1) == is_direct(count - 1, i));
        }
    }
    assert(rc2.drop_first() =~= render_chunks(m, p2.drop_first())) by {
        assert forall|i: int| 0 <= i < rc2.drop_first().len()
            implies rc2.drop_first()[i] == render_chunks(m, p2.drop_first())[i] by {
            assert(rc2.drop_first()[i] == render_chunk(m, p2[i + 1], is_direct(count, i + 1)));
            assert(p2.drop_first()[i] == p2[i + 1]);
            assert(is_direct(count, i + 1) == is_direct(count - 1, i));
        }
    }
    assert(join_chunks(rc1, m.delimiter)
        =~= (r1 + m.delimiter) + join_chunks(rc1.drop_first(), m.delimiter));
    assert(join_chunks(rc2, m.delimiter)
        =~= (r2 + m.delimiter) + join_chunks(rc2.drop_first(), m.delimiter));
    if v1 == v2 {
        assert(q1 == q2);
        assert(pad1.drop_first() =~= Seq::new(
            p1.drop_first().len(),
            |i: int| left_pad(p1.drop_first()[i], '0', ps),
        )) by {
            assert(forall|i: int| 0 <= i < pad1.drop_first().len()
                ==> pad1.drop_first()[i] == left_pad(p1[i + 1], '0', ps));
        }
        assert(pad2.drop_first() =~= Seq::new(
            p2.drop_first().len(),
            |i: int| left_pad(p2.drop_first()[i], '0', ps),
        )) by {
            assert(forall|i: int| 0 <= i < pad2.drop_first().len()
                ==> pad2.drop_first()[i] == left_pad(p2[i + 1], '0', ps));
        }
        assert(forall|i: int| 0 <= i < p1.drop_first().len()
            ==> all_digits(#[trigger] p1.drop_first()[i]) && 1 <= p1.drop_first()[i].len()
                <= ps) by {
            assert(forall|i: int| 0 <= i < p1.drop_first().len()
                ==> p1.drop_first()[i] == p1[i + 1]);
        }
        assert(forall|i: int| 0 <= i < p2.drop_first().len()
            ==> all_digits(#[trigger] p2.drop_first()[i]) && 1 <= p2.drop_first()[i].len()
                <= ps) by {
            assert(forall|i: int| 0 <= i < p2.drop_first().len()
                ==> p2.drop_first()[i] == p2[i + 1]);
        }
        lemma_render_lex(m, p1.drop_first(), p2.drop_first());
        lemma_lex_refl(r1 + m.delimiter);
        lemma_lex_concat(
            r1 + m.delimiter,
            join_chunks(rc1.drop_first(), m.delimiter),
            r2 + m.delimiter,
            join_chunks(rc2.drop_first(), m.delimiter),
        );
    } else {
        assert(r1 != r2);
        lemma_lex_concat(r1, m.delimiter, r2, m.delimiter);
        assert(r1 + m.delimiter != r2 + m.delimiter) by {
            if r1 + m.delimiter == r2 + m.delimiter {
                assert(r1 =~= (r1 + m.delimiter).take(r1.len() as int));
                assert(r2 =~= (r2 + m.delimiter).take(r2.len() as int));
            }
        }
        lemma_lex_concat(
            r1 + m.delimiter,
            join_chunks(rc1.drop_first(), m.delimiter),
            r2 + m.delimiter,
            join_chunks(rc2.drop_first(), m.delimiter),
        );
    }
}

/// Monotonic preservation: with leading zeros and a character-sorted
/// alphabet (as the default configuration has), the rendering of seeds is
/// lexicographically non-decreasing in the seed — so ids issued in
/// increasing numeric order sort as strings in the same order, and in the
/// reverse order when reversed.
#[verifier::rlimit(100)]
pub proof fn lemma_monotonic(m: PrettifierModel, s1: int, s2: int)
    requires
        m.wf(),
        m.leading_zeros,
        alpha_sorted(m.alphabet),
        m.zero_char == m.alphabet[0],
        numeral(m.alphabet, pow(10, m.parts_size as nat) - 1).len() <= m.max_encoder_length,
        0 <= s1 <= s2 <= i64::MAX,
    ensures
        lex_leq(prettify_spec(m, s1), prettify_spec(m, s2)),
{
    if s1 == s2 {
        lemma_lex_refl(prettify_spec(m, s1));
        return;
    }
    lemma_dec_alpha_wf();
    lemma_dec_alpha_sorted();
    lemma_damm_digits_facts(s1);
    lemma_damm_digits_facts(s2);
    let ps = m.parts_size;
    let d1 = damm_digits(s1);
    let d2 = damm_digits(s2);
    lemma_seed_chunks_encodable(m, s1);
    lemma_seed_chunks_encodable(m, s2);
    let parts1 = seed_chunks(m, s1);
    let parts2 = seed_chunks(m, s2);
    // both chunk lists are padded to the canonical count
    lemma_chunks_rev_shape(d1, ps);
    lemma_chunks_rev_shape(d2, ps);
    assert(parts1.len() == max_parts(ps) && parts2.len() == max_parts(ps)) by {
        lemma_canonical_count(d1, ps);
        lemma_canonical_count(d2, ps);
        if chunks_rev(d1, ps).len() < max_parts(ps) {
            assert(parts1 =~= Seq::new(
                (max_parts(ps) - chunks_rev(d1, ps).len()) as nat,
                |i: int| seq!['0'],
            ) + chunks_rev(d1, ps));
        } else {
            assert(parts1 =~= chunks_rev(d1, ps));
        }
        if chunks_rev(d2, ps).len() < max_parts(ps) {
            assert(parts2 =~= Seq::new(
                (max_parts(ps) - chunks_rev(d2, ps).len()) as nat,
                |i: int| seq!['0'],
            ) + chunks_rev(d2, ps));
        } else {
            assert(parts2 =~= chunks_rev(d2, ps));
        }
    }
    // the width-padded concatenations carry the checksummed values, which
    // follow the seed order
    lemma_padded_chunks_concat(d1, ps, max_parts(ps));
    lemma_padded_chunks_concat(d2, ps, max_parts(ps));
    let pad1 = Seq::new(parts1.len(), |i: int| left_pad(parts1[i], '0', ps));
    let pad2 = Seq::new(parts2.len(), |i: int| left_pad(parts2[i], '0', ps));
    let whole1 = concat_chunks(pad1);
    let whole2 = concat_chunks(pad2);
    assert(whole1.len() == whole2.len()) by {
        assert(forall|i: int| 0 <= i < pad1.len() ==> (#[trigger] pad1[i]).len() == ps) by {
            assert forall|i: int| 0 <= i < pad1.len() implies (#[trigger] pad1[i]).len() == ps by {
                assert(parts1[i].len() <= ps);
            }
        }
        assert(forall|i: int| 0 <= i < pad2.len() ==> (#[trigger] pad2[i]).len() == ps) by {
            assert forall|i: int| 0 <= i < pad2.len() implies (#[trigger] pad2[i]).len() == ps by {
                assert(parts2[i].len() <= ps);
            }
        }
        lemma_concat_equal_width(pad1, ps);
        lemma_concat_equal_width(pad2, ps);
    }
    let z1 = whole1.take(whole1.len() - d1.len());
    let z2 = whole2.take(whole2.len() - d2.len());
    assert(all_digits(whole1)) by {
        assert forall|t: int| 0 <= t < whole1.len() implies is_digit(#[trigger] whole1[t]) by {
            assert(whole1 =~= z1 + d1);
            if t < z1.len() {
                assert(whole1[t] == '0');
            } else {
                assert(whole1[t] == d1[t - z1.len()]);
            }
        }
    }
    assert(all_digits(whole2)) by {
        assert forall|t: int| 0 <= t < whole2.len() implies is_digit(#[trigger] whole2[t]) by {
            assert(whole2 =~= z2 + d2);
            if t < z2.len() {
                assert(whole2[t] == '0');
            } else {
                assert(whole2[t] == d2[t - z2.len()]);
            }
        }
    }
    // the checksummed value of the smaller seed is smaller
    let x1 = dec_value(d1);
    let x2 = dec_value(d2);
    assert(x1 < x2) by {
        lemma_checked_value(s1);
        lemma_checked_value(s2);
    }
    assert(dec_value(whole1) == x1) by {
        lemma_value_concat(dec_alpha(), z1, d1);
        assert(forall|t: int| 0 <= t < z1.len() ==> z1[t] == dec_alpha()[0]);
        lemma_zeros_value(dec_alpha(), z1);
        assert(0 * pow(10int, d1.len()) == 0) by (nonlinear_arith);
        assert(whole1 =~= z1 + d1);
    }
    assert(dec_value(whole2) == x2) by {
        lemma_value_concat(dec_alpha(), z2, d2);
        assert(forall|t: int| 0 <= t < z2.len() ==> z2[t] == dec_alpha()[0]);
        lemma_zeros_value(dec_alpha(), z2);
        assert(0 * pow(10int, d2.len()) == 0) by (nonlinear_arith);
        assert(whole2 =~= z2 + d2);
    }
    lemma_all_digits_all_in(whole1);
    lemma_all_digits_all_in(whole2);
    lemma_value_lex(dec_alpha(), whole1, whole2);
    lemma_render_lex(m, parts1, parts2);
}

/// The right-anchored chunking of at most twenty digits never exceeds the
/// canonical chunk count.
proof fn lemma_canonical_count(digits: Seq<char>, ps: int)
    requires
        1 <= ps,
        1 <= digits.len() <= 20,
    ensures
        chunks_rev(digits, ps).len() <= max_parts(ps),
{
    lemma_chunks_rev_shape(digits, ps);
    let orig = chunks_rev(digits, ps);
    lemma_fundamental_div_mod(19 + ps, ps);
    lemma_mod_bound(19 + ps, ps);
    let q = (19 + ps) / ps;
    if orig.len() > q {
        lemma_mul_inequality(q, orig.len() - 1, ps);
        assert(q * ps <= (orig.len() - 1) * ps) by (nonlinear_arith)
            requires q <= orig.len() - 1 && 0 <= ps;
        assert(ps * q == q * ps) by (nonlinear_arith);
        assert(q * ps >= 20);
        assert(digits.len() >= orig[0].len() + q * ps);
    }
}

/// The checksummed value of a seed is ten times the seed plus the check
/// digit, so it orders as the seed does.
proof fn lemma_checked_value(seed: int)
    requires
        0 <= seed <= i64::MAX,
    ensures
        10 * seed <= dec_value(damm_digits(seed)) < 10 * seed + 10,
{
    lemma_dec_alpha_wf();
    lemma_damm_digits_facts(seed);
    let numeral_part = dec_numeral(seed);
    let digits = damm_digits(seed);
    lemma_encode_valid(numeral_part);
    let cs = checksum_spec(numeral_part);
    assert(digits.drop_last() =~= numeral_part);
    assert(digits.last() == dec_alpha()[cs]);
    assert(dec_value(digits)
        == dec_value(numeral_part) * 10 + sym_index(dec_alpha(), dec_alpha()[cs]));
    lemma_sym_index_of(dec_alpha(), cs);
    assert(dec_value(numeral_part) * 10 == 10 * seed) by (nonlinear_arith)
        requires dec_value(numeral_part) == seed;
}

/// The default configuration satisfies every law's hypothesis: its alphabet
/// is well-formed and character-sorted, its delimiter avoids the digits and
/// the alphabet, its zero symbol is the alphabet's first, and its encoder
/// width covers the largest chunk value — so the round trip, the fixed
/// width, and the monotonic rendering all hold of it.
pub proof fn lemma_default_config_laws(m: PrettifierModel)
    requires
        m.alphabet == "ABCDEFGHJKLMNPQRSTUVXYZ"@,
        m.parts_size == 5,
        m.delimiter == "-"@,
        m.leading_zeros,
        m.zero_char == m.alphabet[0],
        m.max_encoder_length == numeral(m.alphabet, 99999).len(),
    ensures
        m.reversible(),
        alpha_sorted(m.alphabet),
        numeral(m.alphabet, pow(10, m.parts_size as nat) - 1).len() <= m.max_encoder_length,
{
    reveal_strlit("ABCDEFGHJKLMNPQRSTUVXYZ");
    reveal_strlit("-");
    assert(m.alphabet.len() == 23);
    assert(alpha_sorted(m.alphabet)) by {
        assert forall|i: int, j: int| 0 <= i < j < m.alphabet.len()
            implies m.alphabet[i] < m.alphabet[j] by {
            assert(m.alphabet[i] < m.alphabet[j]);
        }
    }
    assert(alpha_wf(m.alphabet));
    assert(m.delimiter.len() == 1 && m.delimiter[0] == '-');
    assert(!is_digit('-'));
    assert(!m.alphabet.contains('-')) by {
        if m.alphabet.contains('-') {
            let k = choose|k: int| 0 <= k < m.alphabet.len() && m.alphabet[k] == '-';
            assert(m.alphabet[k] == '-');
        }
    }
    assert forall|i: int| 0 <= i < m.delimiter.len()
        implies !is_digit(#[trigger] m.delimiter[i])
            && !m.alphabet.contains(m.delimiter[i]) by {
        assert(m.delimiter[i] == '-');
    }
    assert(pow(10int, 5nat) - 1 == 99999) by {
        reveal_with_fuel(vstd::arithmetic::power::pow, 6);
    }
}

} // verus!
