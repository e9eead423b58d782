//! Damm-style checksum: a single trailing check digit computed over the
//! decimal digits of a string with a fixed 10x10 anti-symmetric totally
//! non-associative quasigroup table.
//!
//! The running state starts at 0 and advances through the table on every
//! digit character; other characters leave it unchanged. A string is valid
//! when the fold of all of it ends at state 0. The table's algebra (zero
//! diagonal, permutation rows and columns, anti-symmetry) is proved below
//! and yields the error-detection guarantees: any single-digit substitution
//! and any transposition of two adjacent distinct digits invalidates a valid
//! string.

use vstd::prelude::*;
use crate::pretty::chars::{
    is_digit, digit_val, dec_alpha, is_digit_char, digit_to_char, char_to_digit,
    str_to_chars, string_push, lemma_digit_facts,
};

verus! {

/// Entry of the fixed 10x10 quasigroup operation table at row `i`, column `j`.
/// Any other table loses the error-detection guarantee, so the values are
/// spelled out row by row.
pub open spec fn damm_cell(i: int, j: int) -> int {
    if i == 0 {
        if j == 0 { 0 } else if j == 1 { 3 } else if j == 2 { 1 } else if j == 3 { 7 } else if j == 4 { 5 } else if j == 5 { 9 } else if j == 6 { 8 } else if j == 7 { 6 } else if j == 8 { 4 } else { 2 }
    } else if i == 1 {
        if j == 0 { 7 } else if j == 1 { 0 } else if j == 2 { 9 } else if j == 3 { 2 } else if j == 4 { 1 } else if j == 5 { 5 } else if j == 6 { 4 } else if j == 7 { 8 } else if j == 8 { 6 } else { 3 }
    } else if i == 2 {
        if j == 0 { 4 } else if j == 1 { 2 } else if j == 2 { 0 } else if j == 3 { 6 } else if j == 4 { 8 } else if j == 5 { 7 } else if j == 6 { 1 } else if j == 7 { 3 } else if j == 8 { 5 } else { 9 }
    } else if i == 3 {
        if j == 0 { 1 } else if j == 1 { 7 } else if j == 2 { 5 } else if j == 3 { 0 } else if j == 4 { 9 } else if j == 5 { 8 } else if j == 6 { 3 } else if j == 7 { 4 } else if j == 8 { 2 } else { 6 }
    } else if i == 4 {
        if j == 0 { 6 } else if j == 1 { 1 } else if j == 2 { 2 } else if j == 3 { 3 } else if j == 4 { 0 } else if j == 5 { 4 } else if j == 6 { 5 } else if j == 7 { 9 } else if j == 8 { 7 } else { 8 }
    } else if i == 5 {
        if j == 0 { 3 } else if j == 1 { 6 } else if j == 2 { 7 } else if j == 3 { 4 } else if j == 4 { 2 } else if j == 5 { 0 } else if j == 6 { 9 } else if j == 7 { 5 } else if j == 8 { 8 } else { 1 }
    } else if i == 6 {
        if j == 0 { 5 } else if j == 1 { 8 } else if j == 2 { 6 } else if j == 3 { 9 } else if j == 4 { 7 } else if j == 5 { 2 } else if j == 6 { 0 } else if j == 7 { 1 } else if j == 8 { 3 } else { 4 }
    } else if i == 7 {
        if j == 0 { 8 } else if j == 1 { 9 } else if j == 2 { 4 } else if j == 3 { 5 } else if j == 4 { 3 } else if j == 5 { 6 } else if j == 6 { 2 } else if j == 7 { 0 } else if j == 8 { 1 } else { 7 }
    } else if i == 8 {
        if j == 0 { 9 } else if j == 1 { 4 } else if j == 2 { 3 } else if j == 3 { 8 } else if j == 4 { 6 } else if j == 5 { 1 } else if j == 6 { 7 } else if j == 7 { 2 } else if j == 8 { 0 } else { 5 }
    } else {
        if j == 0 { 2 } else if j == 1 { 5 } else if j == 2 { 8 } else if j == 3 { 1 } else if j == 4 { 4 } else if j == 5 { 3 } else if j == 6 { 6 } else if j == 7 { 7 } else if j == 8 { 9 } else { 0 }
    }
}

/// Table lookup for the running state and the next digit.
fn damm_lookup(state: usize, d: usize) -> (r: usize)
    requires
        state < 10,
        d < 10,
    ensures
        r as int == damm_cell(state as int, d as int),
        r < 10,
{
    match state {
        0 => match d { 0 => 0, 1 => 3, 2 => 1, 3 => 7, 4 => 5, 5 => 9, 6 => 8, 7 => 6, 8 => 4, _ => 2 },
        1 => match d { 0 => 7, 1 => 0, 2 => 9, 3 => 2, 4 => 1, 5 => 5, 6 => 4, 7 => 8, 8 => 6, _ => 3 },
        2 => match d { 0 => 4, 1 => 2, 2 => 0, 3 => 6, 4 => 8, 5 => 7, 6 => 1, 7 => 3, 8 => 5, _ => 9 },
        3 => match d { 0 => 1, 1 => 7, 2 => 5, 3 => 0, 4 => 9, 5 => 8, 6 => 3, 7 => 4, 8 => 2, _ => 6 },
        4 => match d { 0 => 6, 1 => 1, 2 => 2, 3 => 3, 4 => 0, 5 => 4, 6 => 5, 7 => 9, 8 => 7, _ => 8 },
        5 => match d { 0 => 3, 1 => 6, 2 => 7, 3 => 4, 4 => 2, 5 => 0, 6 => 9, 7 => 5, 8 => 8, _ => 1 },
        6 => match d { 0 => 5, 1 => 8, 2 => 6, 3 => 9, 4 => 7, 5 => 2, 6 => 0, 7 => 1, 8 => 3, _ => 4 },
        7 => match d { 0 => 8, 1 => 9, 2 => 4, 3 => 5, 4 => 3, 5 => 6, 6 => 2, 7 => 0, 8 => 1, _ => 7 },
        8 => match d { 0 => 9, 1 => 4, 2 => 3, 3 => 8, 4 => 6, 5 => 1, 6 => 7, 7 => 2, 8 => 0, _ => 5 },
        _ => match d { 0 => 2, 1 => 5, 2 => 8, 3 => 1, 4 => 4, 5 => 3, 6 => 6, 7 => 7, 8 => 9, _ => 0 },
    }
}

/// One checksum step: a digit advances the state through the table; any
/// other character leaves the state unchanged.
pub open spec fn damm_step(state: int, c: char) -> int {
    if is_digit(c) {
        damm_cell(state, digit_val(c))
    } else {
        state
    }
}

/// The interim state after folding `s` left to right from `state`.
pub open spec fn damm_fold(s: Seq<char>, state: int) -> int
    decreases s.len(),
{
    if s.len() == 0 {
        state
    } else {
        damm_fold(s.drop_first(), damm_step(state, s[0]))
    }
}

/// The checksum of a string: the fold of all its characters from state 0.
pub open spec fn checksum_spec(s: Seq<char>) -> int {
    damm_fold(s, 0)
}

/// Table entries are states again: every cell is below ten.
pub proof fn lemma_cell_range(i: int, j: int)
    requires
        0 <= i < 10,
        0 <= j < 10,
    ensures
        0 <= damm_cell(i, j) < 10,
{
}

/// The diagonal of the table is zero: appending the current state's digit
/// drives the fold to zero.
pub proof fn lemma_cell_diagonal(i: int)
    requires
        0 <= i < 10,
    ensures
        damm_cell(i, i) == 0,
{
}

/// Each row of the table is a permutation: from one state, distinct digits
/// lead to distinct states.
pub proof fn lemma_cell_row_injective(r: int, a: int, b: int)
    requires
        0 <= r < 10,
        0 <= a < 10,
        0 <= b < 10,
        a != b,
    ensures
        damm_cell(r, a) != damm_cell(r, b),
{
}

/// Each column of the table is a permutation: one digit maps distinct
/// states to distinct states.
pub proof fn lemma_cell_col_injective(r: int, t: int, d: int)
    requires
        0 <= r < 10,
        0 <= t < 10,
        0 <= d < 10,
        r != t,
    ensures
        damm_cell(r, d) != damm_cell(t, d),
{
}

/// Anti-symmetry of the quasigroup: swapping two distinct digits processed
/// in a row never reaches the same state.
pub proof fn lemma_cell_antisymmetric(r: int, a: int, b: int)
    requires
        0 <= r < 10,
        0 <= a < 10,
        0 <= b < 10,
        a != b,
    ensures
        damm_cell(damm_cell(r, a), b) != damm_cell(damm_cell(r, b), a),
{
}

/// Folding keeps the state below ten.
pub proof fn lemma_fold_range(s: Seq<char>, state: int)
    requires
        0 <= state < 10,
    ensures
        0 <= damm_fold(s, state) < 10,
    decreases s.len(),
{
    if s.len() > 0 {
        if is_digit(s[0]) {
            lemma_digit_facts(s[0]);
            lemma_cell_range(state, digit_val(s[0]));
        }
        lemma_fold_range(s.drop_first(), damm_step(state, s[0]));
    }
}

/// Folding one more character on the right is one more step.
pub proof fn lemma_fold_snoc(s: Seq<char>, c: char, state: int)
    ensures
        damm_fold(s.push(c), state) == damm_step(damm_fold(s, state), c),
    decreases s.len(),
{
    if s.len() == 0 {
        assert(s.push(c).drop_first() =~= Seq::<char>::empty());
        assert(s.push(c)[0] == c);
        assert(damm_fold(Seq::<char>::empty(), damm_step(state, c)) == damm_step(state, c));
    } else {
        assert(s.push(c).drop_first() =~= s.drop_first().push(c));
        assert(s.push(c)[0] == s[0]);
        lemma_fold_snoc(s.drop_first(), c, damm_step(state, s[0]));
    }
}

/// Folding a concatenation folds the right part from the left part's state.
pub proof fn lemma_fold_concat(a: Seq<char>, b: Seq<char>, state: int)
    ensures
        damm_fold(a + b, state) == damm_fold(b, damm_fold(a, state)),
    decreases a.len(),
{
    if a.len() == 0 {
        assert(a + b =~= b);
    } else {
        assert((a + b).drop_first() =~= a.drop_first() + b);
        assert((a + b)[0] == a[0]);
        lemma_fold_concat(a.drop_first(), b, damm_step(state, a[0]));
    }
}

/// Folding a single character is a single step.
pub proof fn lemma_fold_one(c: char, state: int)
    ensures
        damm_fold(seq![c], state) == damm_step(state, c),
{
    assert(seq![c].drop_first() =~= Seq::<char>::empty());
    assert(damm_fold(Seq::<char>::empty(), damm_step(state, c)) == damm_step(state, c));
}

/// Folding two characters is two steps.
pub proof fn lemma_fold_two(a: char, b: char, state: int)
    ensures
        damm_fold(seq![a, b], state) == damm_step(damm_step(state, a), b),
{
    assert(seq![a, b].drop_first() =~= seq![b]);
    lemma_fold_one(b, damm_step(state, a));
}

/// Distinct states stay distinct under any common suffix: each step is a
/// permutation of the state space.
pub proof fn lemma_fold_state_injective(s: Seq<char>, st1: int, st2: int)
    requires
        0 <= st1 < 10,
        0 <= st2 < 10,
        st1 != st2,
    ensures
        damm_fold(s, st1) != damm_fold(s, st2),
    decreases s.len(),
{
    if s.len() > 0 {
        let n1 = damm_step(st1, s[0]);
        let n2 = damm_step(st2, s[0]);
        if is_digit(s[0]) {
            lemma_digit_facts(s[0]);
            lemma_cell_col_injective(st1, st2, digit_val(s[0]));
            lemma_cell_range(st1, digit_val(s[0]));
            lemma_cell_range(st2, digit_val(s[0]));
        }
        lemma_fold_state_injective(s.drop_first(), n1, n2);
    }
}

/// A run of zero digits from state zero stays at state zero.
pub proof fn lemma_fold_zeros(zeros: Seq<char>)
    requires
        forall|i: int| 0 <= i < zeros.len() ==> zeros[i] == '0',
    ensures
        damm_fold(zeros, 0) == 0,
    decreases zeros.len(),
{
    if zeros.len() > 0 {
        assert(damm_step(0, '0') == 0);
        lemma_fold_zeros(zeros.drop_first());
    }
}

/// Appending the checksum digit of a string makes the whole string fold to
/// zero: the appended digit equals the interim state and the diagonal of the
/// table is zero.
pub proof fn lemma_encode_valid(s: Seq<char>)
    ensures
        0 <= checksum_spec(s) < 10,
        checksum_spec(s.push(dec_alpha()[checksum_spec(s)])) == 0,
{
    lemma_fold_range(s, 0);
    let cs = checksum_spec(s);
    let c = dec_alpha()[cs];
    assert(c as int == 48 + cs);
    assert(is_digit(c) && digit_val(c) == cs);
    lemma_fold_snoc(s, c, 0);
    lemma_cell_diagonal(cs);
}

/// Calculates the checksum of a string; only digit characters participate.
pub fn checksum(rep: &str) -> (r: usize)
    ensures
        r as int == checksum_spec(rep@),
        r < 10,
{
    let v = str_to_chars(rep);
    let mut st: usize = 0;
    let mut i: usize = 0;
    while i < v.len()
        invariant
            i <= v@.len(),
            v@ == rep@,
            st < 10,
            st as int == damm_fold(v@.subrange(0, i as int), 0),
        decreases v@.len() - i,
    {
        let c = v[i];
        proof {
            assert(v@.subrange(0, (i + 1) as int) =~= v@.subrange(0, i as int).push(c));
            lemma_fold_snoc(v@.subrange(0, i as int), c, 0);
            if is_digit(c) {
                lemma_digit_facts(c);
                lemma_cell_range(st as int, digit_val(c));
            }
        }
        if is_digit_char(c) {
            let d = char_to_digit(c);
            st = damm_lookup(st, d);
        }
        i += 1;
    }
    proof {
        assert(v@.subrange(0, v@.len() as int) =~= v@);
    }
    st
}

/// Appends the single checksum digit to the string.
pub fn encode(rep: &str) -> (r: String)
    ensures
        r@ == rep@.push(dec_alpha()[checksum_spec(rep@)]),
        checksum_spec(r@) == 0,
        r@.len() == rep@.len() + 1,
{
    let cs = checksum(rep);
    let c = digit_to_char(cs);
    let mut base = rep.to_owned();
    string_push(&mut base, c);
    proof {
        lemma_encode_valid(rep@);
    }
    base
}

/// A string is valid when folding all of it (checksum digit included) ends
/// at state zero.
pub fn is_valid(rep: &str) -> (r: bool)
    ensures
        r == (checksum_spec(rep@) == 0),
{
    checksum(rep) == 0
}

/// Strips the trailing check digit of a valid non-empty string; yields
/// nothing when the string is invalid or empty.
pub fn decode<'a>(rep: &'a str) -> (r: Option<&'a str>)
    ensures
        r is Some <==> (checksum_spec(rep@) == 0 && 1 <= rep@.len()),
        r matches Some(t) ==> t@ == rep@.drop_last(),
{
    let n = rep.unicode_len();
    if n >= 1 && is_valid(rep) {
        let t = rep.substring_char(0, n - 1);
        proof {
            assert(rep@.subrange(0, n as int - 1) =~= rep@.drop_last());
        }
        Some(t)
    } else {
        None
    }
}

/// Altering one digit of a zero-checksum string to a different digit makes
/// the checksum non-zero: rows of the table are permutations, and distinct
/// interim states stay distinct through the unchanged suffix.
pub proof fn lemma_checksum_detects_substitution(s: Seq<char>, i: int, c: char)
    requires
        checksum_spec(s) == 0,
        0 <= i < s.len(),
        is_digit(s[i]),
        is_digit(c),
        c != s[i],
    ensures
        checksum_spec(s.update(i, c)) != 0,
{
    let t = s.update(i, c);
    let head = s.take(i);
    let tail = s.skip(i + 1);
    assert(s =~= head + (seq![s[i]] + tail));
    assert(t =~= head + (seq![c] + tail));
    let st0 = damm_fold(head, 0);
    lemma_fold_range(head, 0);
    lemma_fold_concat(head, seq![s[i]] + tail, 0);
    lemma_fold_concat(head, seq![c] + tail, 0);
    lemma_fold_concat(seq![s[i]], tail, st0);
    lemma_fold_concat(seq![c], tail, st0);
    lemma_fold_one(s[i], st0);
    lemma_fold_one(c, st0);
    lemma_digit_facts(s[i]);
    lemma_digit_facts(c);
    lemma_cell_row_injective(st0, digit_val(s[i]), digit_val(c));
    lemma_cell_range(st0, digit_val(s[i]));
    lemma_cell_range(st0, digit_val(c));
    lemma_fold_state_injective(tail, damm_step(st0, s[i]), damm_step(st0, c));
}

/// Transposing two adjacent distinct digits of a zero-checksum string makes
/// the checksum non-zero: the table is anti-symmetric, and distinct interim
/// states stay distinct through the unchanged suffix.
pub proof fn lemma_checksum_detects_transposition(s: Seq<char>, i: int)
    requires
        checksum_spec(s) == 0,
        0 <= i,
        i + 1 < s.len(),
        is_digit(s[i]),
        is_digit(s[i + 1]),
        s[i] != s[i + 1],
    ensures
        checksum_spec(s.update(i, s[i + 1]).update(i + 1, s[i])) != 0,
{
    let a = s[i];
    let b = s[i + 1];
    let t = s.update(i, b).update(i + 1, a);
    let head = s.take(i);
    let tail = s.skip(i + 2);
    assert(s =~= head + (seq![a, b] + tail));
    assert(t =~= head + (seq![b, a] + tail));
    let st0 = damm_fold(head, 0);
    lemma_fold_range(head, 0);
    lemma_fold_concat(head, seq![a, b] + tail, 0);
    lemma_fold_concat(head, seq![b, a] + tail, 0);
    lemma_fold_concat(seq![a, b], tail, st0);
    lemma_fold_concat(seq![b, a], tail, st0);
    lemma_digit_facts(a);
    lemma_digit_facts(b);
    lemma_fold_two(a, b, st0);
    lemma_fold_two(b, a, st0);
    lemma_cell_antisymmetric(st0, digit_val(a), digit_val(b));
    lemma_cell_range(st0, digit_val(a));
    lemma_cell_range(st0, digit_val(b));
    lemma_cell_range(damm_cell(st0, digit_val(a)), digit_val(b));
    lemma_cell_range(damm_cell(st0, digit_val(b)), digit_val(a));
    lemma_fold_state_injective(tail, damm_step(damm_step(st0, a), b), damm_step(damm_step(st0, b), a));
}

} // verus!
