//! Decimal digits, characters, and conversions between strings and
//! character vectors.
//!
//! The decimal alphabet `'0'..'9'` is one instance of the positional-numeral
//! theory of [`crate::pretty::numeral`]; the helpers here bridge between the
//! character level (what strings hold) and the numeric level (what the codec
//! and the checksum compute on).

use vstd::prelude::*;
use crate::pretty::numeral::{
    alpha_wf, all_in, alpha_value, numeral, sym_index, lemma_sym_index_of,
    lemma_value_bounds, lemma_value_concat, lemma_numeral_wf,
};
use vstd::arithmetic::power::{pow, lemma_pow_positive};
use vstd::arithmetic::div_mod::{lemma_fundamental_div_mod, lemma_mod_bound};

verus! {

/// The decimal alphabet: the ten ASCII digits in order.
pub open spec fn dec_alpha() -> Seq<char> {
    seq!['0', '1', '2', '3', '4', '5', '6', '7', '8', '9']
}

/// `c` is an ASCII decimal digit.
pub open spec fn is_digit(c: char) -> bool {
    '0' <= c && c <= '9'
}

/// Numeric value of a digit character.
pub open spec fn digit_val(c: char) -> int {
    c as int - 48
}

/// `s` consists of decimal digits only.
pub open spec fn all_digits(s: Seq<char>) -> bool {
    forall|i: int| 0 <= i < s.len() ==> is_digit(#[trigger] s[i])
}

/// The decimal value of a digit string, most significant digit first.
pub open spec fn dec_value(s: Seq<char>) -> int {
    alpha_value(dec_alpha(), s)
}

/// The minimal decimal rendering of a non-negative number.
pub open spec fn dec_numeral(n: int) -> Seq<char> {
    numeral(dec_alpha(), n)
}

/// The decimal alphabet is a well-formed positional alphabet.
pub proof fn lemma_dec_alpha_wf()
    ensures
        alpha_wf(dec_alpha()),
        dec_alpha().len() == 10,
{
    assert forall|i: int, j: int| 0 <= i < j < dec_alpha().len()
        implies dec_alpha()[i] != dec_alpha()[j] by {
        assert(dec_alpha()[i] as int == 48 + i);
        assert(dec_alpha()[j] as int == 48 + j);
    }
}

/// Digit characters are exactly the members of the decimal alphabet, their
/// symbol index is their numeric value, and indexing inverts `digit_val`.
pub proof fn lemma_digit_facts(c: char)
    requires
        is_digit(c),
    ensures
        dec_alpha().contains(c),
        sym_index(dec_alpha(), c) == digit_val(c),
        dec_alpha()[digit_val(c)] == c,
        0 <= digit_val(c) < 10,
{
    lemma_dec_alpha_wf();
    let d = digit_val(c);
    assert(dec_alpha()[d] as int == 48 + d);
    assert(dec_alpha()[d] == c);
    assert(dec_alpha().contains(c));
    lemma_sym_index_of(dec_alpha(), d);
}

/// Membership in the decimal alphabet coincides with `is_digit`, so
/// digit-only strings are exactly the decimal-alphabet strings.
pub proof fn lemma_all_digits_all_in(s: Seq<char>)
    ensures
        all_digits(s) <==> all_in(dec_alpha(), s),
{
    if all_digits(s) {
        assert forall|i: int| 0 <= i < s.len() implies dec_alpha().contains(#[trigger] s[i]) by {
            lemma_digit_facts(s[i]);
        }
    }
    if all_in(dec_alpha(), s) {
        assert forall|i: int| 0 <= i < s.len() implies is_digit(#[trigger] s[i]) by {
            let k = choose|k: int| 0 <= k < dec_alpha().len() && dec_alpha()[k] == s[i];
            assert(dec_alpha().contains(s[i]));
            assert(dec_alpha()[k] as int == 48 + k);
        }
    }
}

/// Tests whether a character is an ASCII decimal digit.
pub fn is_digit_char(c: char) -> (b: bool)
    ensures
        b == is_digit(c),
{
    '0' <= c && c <= '9'
}

/// The digit character for a value below ten.
pub fn digit_to_char(d: usize) -> (c: char)
    requires
        d < 10,
    ensures
        c == dec_alpha()[d as int],
        is_digit(c),
        digit_val(c) == d,
{
    let c = match d {
        0 => '0',
        1 => '1',
        2 => '2',
        3 => '3',
        4 => '4',
        5 => '5',
        6 => '6',
        7 => '7',
        8 => '8',
        _ => '9',
    };
    c
}

/// The numeric value of a digit character.
pub fn char_to_digit(c: char) -> (d: usize)
    requires
        is_digit(c),
    ensures
        d == digit_val(c),
        d < 10,
{
    let u = c as u32;
    (u - 48) as usize
}

/// Relies on `std::string::String::push`: appends the given character to the
/// end of the string.
#[verifier::external_body]
pub fn string_push(s: &mut String, c: char)
    ensures
        final(s)@ == old(s)@.push(c),
{
    s.push(c)
}

/// The characters of a string slice, in order.
pub fn str_to_chars(s: &str) -> (v: Vec<char>)
    ensures
        v@ == s@,
{
    let n = s.unicode_len();
    let mut v: Vec<char> = Vec::new();
    let mut i: usize = 0;
    while i < n
        invariant
            i <= n,
            n == s@.len(),
            v@ == s@.subrange(0, i as int),
        decreases n - i,
    {
        let c = s.get_char(i);
        v.push(c);
        proof {
            assert(s@.subrange(0, (i + 1) as int) =~= s@.subrange(0, i as int).push(s@[i as int]));
        }
        i += 1;
    }
    proof {
        assert(s@.subrange(0, n as int) =~= s@);
    }
    v
}

/// A string holding exactly the given characters, in order.
pub fn chars_to_string(v: &Vec<char>) -> (s: String)
    ensures
        s@ == v@,
{
    let mut s = String::new();
    let mut i: usize = 0;
    while i < v.len()
        invariant
            i <= v@.len(),
            s@ == v@.subrange(0, i as int),
        decreases v@.len() - i,
    {
        string_push(&mut s, v[i]);
        proof {
            assert(v@.subrange(0, (i + 1) as int) =~= v@.subrange(0, i as int).push(v@[i as int]));
        }
        i += 1;
    }
    proof {
        assert(v@.subrange(0, v@.len() as int) =~= v@);
    }
    s
}

/// The minimal decimal rendering of a non-negative 64-bit number.
pub fn render_decimal(n: i64) -> (v: Vec<char>)
    requires
        0 <= n,
    ensures
        v@ == dec_numeral(n as int),
        all_digits(v@),
        1 <= v@.len(),
{
    proof {
        lemma_dec_alpha_wf();
    }
    let mut rest: i64 = n;
    let mut rev: Vec<char> = Vec::new();
    proof {
        assert(Seq::<char>::empty().reverse() =~= Seq::<char>::empty());
        assert(dec_numeral(n as int) =~= dec_numeral(n as int) + Seq::<char>::empty());
    }
    loop
        invariant_except_break
            0 <= rest,
            dec_numeral(n as int) == dec_numeral(rest as int) + rev@.reverse(),
        ensures
            dec_numeral(n as int) == rev@.reverse(),
        decreases rest,
    {
        let d = (rest % 10) as usize;
        let c = digit_to_char(d);
        let ghost old_rev = rev@;
        let ghost old_rest = rest as int;
        rev.push(c);
        proof {
            assert(rev@.reverse() =~= seq![c] + old_rev.reverse());
            lemma_mod_bound(old_rest, 10);
            lemma_fundamental_div_mod(old_rest, 10);
        }
        rest = rest / 10;
        if rest == 0 {
            proof {
                assert(old_rest < 10);
                assert(dec_numeral(old_rest) =~= seq![dec_alpha()[old_rest]]);
                assert(dec_numeral(n as int) =~= seq![c] + old_rev.reverse());
                assert(dec_numeral(n as int) =~= rev@.reverse());
            }
            break;
        }
        proof {
            assert(old_rest >= 10);
            assert(dec_numeral(old_rest) =~= dec_numeral(old_rest / 10).push(dec_alpha()[old_rest % 10]));
            assert(dec_numeral(old_rest) =~= dec_numeral(rest as int) + seq![c]);
            assert(dec_numeral(n as int) =~= (dec_numeral(rest as int) + seq![c]) + old_rev.reverse());
            assert((dec_numeral(rest as int) + seq![c]) + old_rev.reverse()
                =~= dec_numeral(rest as int) + (seq![c] + old_rev.reverse()));
            assert(dec_numeral(n as int) =~= dec_numeral(rest as int) + rev@.reverse());
        }
    }
    let n_digits = rev.len();
    let mut v: Vec<char> = Vec::new();
    let mut i: usize = 0;
    while i < n_digits
        invariant
            i <= n_digits,
            n_digits == rev@.len(),
            v@ == rev@.reverse().subrange(0, i as int),
        decreases n_digits - i,
    {
        v.push(rev[n_digits - 1 - i]);
        proof {
            assert(rev@.reverse().subrange(0, (i + 1) as int)
                =~= rev@.reverse().subrange(0, i as int).push(rev@.reverse()[i as int]));
        }
        i += 1;
    }
    proof {
        assert(rev@.reverse().subrange(0, rev@.len() as int) =~= rev@.reverse());
        assert(v@ == dec_numeral(n as int));
        lemma_numeral_wf(dec_alpha(), n as int);
        lemma_all_digits_all_in(v@);
    }
    v
}

/// Parses a digit string into a non-negative 64-bit number. Returns the
/// string's decimal value exactly when the string is non-empty, holds digits
/// only, and its value fits; returns nothing otherwise.
pub fn parse_decimal(v: &Vec<char>) -> (r: Option<i64>)
    ensures
        r matches Some(x) ==> 1 <= v@.len() && all_digits(v@) && dec_value(v@) == x as int
            && 0 <= x,
        r is None ==> (v@.len() == 0 || !all_digits(v@) || dec_value(v@) > i64::MAX),
{
    proof {
        lemma_dec_alpha_wf();
    }
    if v.len() == 0 {
        return None;
    }
    let mut acc: i64 = 0;
    let mut i: usize = 0;
    while i < v.len()
        invariant
            i <= v@.len(),
            all_digits(v@.subrange(0, i as int)),
            0 <= acc,
            acc as int == dec_value(v@.subrange(0, i as int)),
        decreases v@.len() - i,
    {
        let c = v[i];
        if !is_digit_char(c) {
            proof {
                assert(!all_digits(v@));
            }
            return None;
        }
        let d = char_to_digit(c) as i64;
        let ghost pre = v@.subrange(0, i as int);
        let ghost ext = v@.subrange(0, (i + 1) as int);
        proof {
            assert(ext =~= pre.push(v@[i as int]));
            assert(ext.drop_last() =~= pre);
            assert(ext.last() == c);
            lemma_digit_facts(c);
            assert(dec_value(ext) == dec_value(pre) * 10 + d);
        }
        if acc > (i64::MAX - d) / 10 {
            proof {
                lemma_parse_overflow(v@, i as int, acc as int, d as int);
            }
            return None;
        }
        proof {
            lemma_fundamental_div_mod(i64::MAX - d, 10);
            lemma_mod_bound(i64::MAX - d, 10);
        }
        acc = acc * 10 + d;
        i += 1;
    }
    proof {
        assert(v@.subrange(0, v@.len() as int) =~= v@);
    }
    Some(acc)
}

/// If the value of a prefix extended by one more digit already exceeds
/// `i64::MAX`, the value of the whole digit string does too.
proof fn lemma_parse_overflow(s: Seq<char>, i: int, acc: int, d: int)
    requires
        0 <= i < s.len(),
        all_digits(s.take(i)),
        is_digit(s[i]),
        acc == dec_value(s.take(i)),
        d == digit_val(s[i]),
        acc > (i64::MAX - d) / 10,
        0 <= acc,
    ensures
        !all_digits(s) || dec_value(s) > i64::MAX,
{
    lemma_dec_alpha_wf();
    if all_digits(s) {
        let head = s.take(i + 1);
        assert(head =~= s.take(i).push(s[i]));
        assert(head.drop_last() =~= s.take(i));
        assert(head.last() == s[i]);
        lemma_digit_facts(s[i]);
        assert(dec_value(head) == acc * 10 + d);
        assert(acc * 10 + d > i64::MAX) by {
            lemma_fundamental_div_mod(i64::MAX - d, 10);
            lemma_mod_bound(i64::MAX - d, 10);
            assert(acc >= (i64::MAX - d) / 10 + 1);
        }
        let tail = s.skip(i + 1);
        assert(s =~= head + tail);
        lemma_value_concat(dec_alpha(), head, tail);
        assert(all_digits(tail)) by {
            assert(forall|k: int| 0 <= k < tail.len() ==> tail[k] == s[i + 1 + k]);
        }
        lemma_all_digits_all_in(tail);
        lemma_value_bounds(dec_alpha(), tail);
        let p = pow(10, tail.len());
        lemma_pow_positive(10, tail.len());
        assert(dec_value(head) * p >= dec_value(head)) by (nonlinear_arith)
            requires p >= 1 && dec_value(head) >= 0;
        assert(dec_value(s) >= dec_value(head));
    }
}

} // verus!
