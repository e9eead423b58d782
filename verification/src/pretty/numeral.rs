//! Positional numerals over an arbitrary symbol alphabet.
//!
//! An alphabet is an ordered sequence of distinct symbols; its length is the
//! base of the numeral system. These spec functions define the minimal
//! (no leading zero-symbol) rendering of a non-negative integer and the value
//! of a symbol string, together with the algebra the codec and the prettifier
//! rely on: the two maps are mutually inverse, values of concatenations
//! decompose positionally, and padding with the zero symbol preserves value.

use vstd::prelude::*;
use vstd::arithmetic::div_mod::{
    lemma_div_is_strictly_smaller, lemma_fundamental_div_mod, lemma_mod_bound,
    lemma_div_pos_is_pos, lemma_div_non_zero, lemma_fundamental_div_mod_converse,
};
use vstd::arithmetic::power::{pow, lemma_pow0, lemma_pow1, lemma_pow_positive, lemma_pow_adds};
use vstd::arithmetic::mul::lemma_mul_inequality;

verus! {

/// The alphabet has at least two symbols and no repeated symbol, so it can
/// serve as a positional base.
pub open spec fn alpha_wf(alpha: Seq<char>) -> bool {
    2 <= alpha.len() && (forall|i: int, j: int|
        0 <= i < j < alpha.len() ==> alpha[i] != alpha[j])
}

/// Every character of `s` is a symbol of `alpha`.
pub open spec fn all_in(alpha: Seq<char>, s: Seq<char>) -> bool {
    forall|i: int| 0 <= i < s.len() ==> alpha.contains(#[trigger] s[i])
}

/// Position of symbol `c` within `alpha` (meaningful when `alpha` contains `c`).
pub open spec fn sym_index(alpha: Seq<char>, c: char) -> int {
    choose|i: int| 0 <= i < alpha.len() && alpha[i] == c
}

/// Minimal numeral of `n` over `alpha`, most significant symbol first:
/// a single symbol for `n` below the base, otherwise the numeral of the
/// quotient followed by the symbol of the remainder.
pub open spec fn numeral(alpha: Seq<char>, n: int) -> Seq<char>
    decreases n,
        when 0 <= n && 2 <= alpha.len()
        via numeral_decreases
{
    let b = alpha.len() as int;
    if n < b {
        seq![alpha[n]]
    } else {
        numeral(alpha, n / b).push(alpha[n % b])
    }
}

#[via_fn]
proof fn numeral_decreases(alpha: Seq<char>, n: int) {
    let b = alpha.len() as int;
    if 0 <= n && 2 <= b && n >= b {
        lemma_div_is_strictly_smaller(n, b);
        lemma_div_pos_is_pos(n, b);
    }
}

/// Value of the symbol string `s` read as a base-`alpha.len()` numeral,
/// most significant symbol first.
pub open spec fn alpha_value(alpha: Seq<char>, s: Seq<char>) -> int
    decreases s.len(),
{
    if s.len() == 0 {
        0
    } else {
        alpha_value(alpha, s.drop_last()) * alpha.len() + sym_index(alpha, s.last())
    }
}

/// `s` left-padded with `fill` to width `width` (unchanged when already wide enough).
pub open spec fn left_pad(s: Seq<char>, fill: char, width: int) -> Seq<char> {
    if s.len() >= width {
        s
    } else {
        Seq::new((width - s.len()) as nat, |i| fill) + s
    }
}

/// The symbol of a contained character sits at its reported index.
pub proof fn lemma_sym_index(alpha: Seq<char>, c: char)
    requires
        alpha.contains(c),
    ensures
        0 <= sym_index(alpha, c) < alpha.len(),
        alpha[sym_index(alpha, c)] == c,
{
}

/// With distinct symbols, `sym_index` inverts indexing.
pub proof fn lemma_sym_index_of(alpha: Seq<char>, k: int)
    requires
        alpha_wf(alpha),
        0 <= k < alpha.len(),
    ensures
        sym_index(alpha, alpha[k]) == k,
{
    assert(alpha.contains(alpha[k]));
    lemma_sym_index(alpha, alpha[k]);
}

/// Shape of a minimal numeral: non-empty, made of alphabet symbols, one
/// symbol exactly for values below the base, and no leading zero symbol for
/// positive values.
pub proof fn lemma_numeral_wf(alpha: Seq<char>, n: int)
    requires
        alpha_wf(alpha),
        0 <= n,
    ensures
        1 <= numeral(alpha, n).len(),
        all_in(alpha, numeral(alpha, n)),
        n < alpha.len() ==> numeral(alpha, n).len() == 1,
        1 <= n ==> numeral(alpha, n).first() != alpha[0],
    decreases n,
{
    let b = alpha.len() as int;
    if n < b {
        assert(numeral(alpha, n) =~= seq![alpha[n]]);
        assert(alpha.contains(alpha[n]));
        assert(numeral(alpha, n).first() == alpha[n]);
        if 1 <= n {
            assert(alpha[0] != alpha[n]);
        }
    } else {
        lemma_div_is_strictly_smaller(n, b);
        lemma_div_non_zero(n, b);
        lemma_mod_bound(n, b);
        lemma_numeral_wf(alpha, n / b);
        let prefix = numeral(alpha, n / b);
        let whole = numeral(alpha, n);
        assert(whole =~= prefix + seq![alpha[n % b]]);
        assert(alpha.contains(alpha[n % b]));
        assert forall|i: int| 0 <= i < whole.len() implies alpha.contains(#[trigger] whole[i]) by {
            if i < prefix.len() {
                assert(whole[i] == prefix[i]);
            } else {
                assert(whole[i] == alpha[n % b]);
            }
        }
        assert(whole.first() == prefix.first());
    }
}

/// Reading a minimal numeral back yields the number it renders.
pub proof fn lemma_value_of_numeral(alpha: Seq<char>, n: int)
    requires
        alpha_wf(alpha),
        0 <= n,
    ensures
        alpha_value(alpha, numeral(alpha, n)) == n,
    decreases n,
{
    let b = alpha.len() as int;
    if n < b {
        let s = numeral(alpha, n);
        assert(s =~= seq![alpha[n]]);
        assert(s.drop_last() =~= Seq::<char>::empty());
        assert(alpha_value(alpha, Seq::<char>::empty()) == 0);
        lemma_sym_index_of(alpha, n);
        assert(alpha_value(alpha, s) == 0 * b + sym_index(alpha, s.last()));
    } else {
        lemma_div_is_strictly_smaller(n, b);
        lemma_div_pos_is_pos(n, b);
        lemma_mod_bound(n, b);
        lemma_value_of_numeral(alpha, n / b);
        let s = numeral(alpha, n);
        assert(s.drop_last() =~= numeral(alpha, n / b));
        assert(s.last() == alpha[n % b]);
        lemma_sym_index_of(alpha, n % b);
        assert(alpha_value(alpha, s)
            == alpha_value(alpha, s.drop_last()) * b + sym_index(alpha, s.last()));
        lemma_fundamental_div_mod(n, b);
        assert((n / b) * b == b * (n / b)) by (nonlinear_arith);
    }
}

/// Values are non-negative and bounded by the base raised to the length.
pub proof fn lemma_value_bounds(alpha: Seq<char>, s: Seq<char>)
    requires
        alpha_wf(alpha),
        all_in(alpha, s),
    ensures
        0 <= alpha_value(alpha, s) < pow(alpha.len() as int, s.len()),
    decreases s.len(),
{
    let b = alpha.len() as int;
    if s.len() == 0 {
        assert(alpha_value(alpha, s) == 0);
        lemma_pow0(b);
    } else {
        assert(all_in(alpha, s.drop_last())) by {
            assert(forall|i: int| 0 <= i < s.len() - 1 ==> s.drop_last()[i] == s[i]);
        }
        lemma_value_bounds(alpha, s.drop_last());
        assert(alpha.contains(s.last()));
        lemma_sym_index(alpha, s.last());
        let v = alpha_value(alpha, s.drop_last());
        let p = pow(b, (s.len() - 1) as nat);
        assert(v <= p - 1);
        lemma_mul_inequality(v, p - 1, b);
        assert(v * b <= (p - 1) * b) by {
            lemma_mul_inequality(v, p - 1, b);
        }
        assert((p - 1) * b == p * b - b) by (nonlinear_arith);
        assert(pow(b, s.len()) == p * b) by {
            assert(pow(b, s.len()) == pow(b, ((s.len() - 1) as nat + 1) as nat));
            lemma_pow_adds(b, (s.len() - 1) as nat, 1);
            lemma_pow1(b);
            assert(pow(b, 1) == b);
        }
        assert(0 <= v * b) by (nonlinear_arith)
            requires 0 <= v && 0 <= b;
        assert(alpha_value(alpha, s) == v * b + sym_index(alpha, s.last()));
        assert(sym_index(alpha, s.last()) < b);
        assert(alpha_value(alpha, s) < p * b);
    }
}

/// Positional decomposition of a concatenation:
/// the left part is shifted by the base to the power of the right part's length.
pub proof fn lemma_value_concat(alpha: Seq<char>, x: Seq<char>, y: Seq<char>)
    ensures
        alpha_value(alpha, x + y) == alpha_value(alpha, x) * pow(alpha.len() as int, y.len())
            + alpha_value(alpha, y),
    decreases y.len(),
{
    let b = alpha.len() as int;
    if y.len() == 0 {
        assert(x + y =~= x);
        lemma_pow0(b);
        assert(pow(b, 0) == 1);
    } else {
        let y0 = y.drop_last();
        lemma_value_concat(alpha, x, y0);
        assert((x + y).drop_last() =~= x + y0);
        assert((x + y).last() == y.last());
        let vx = alpha_value(alpha, x);
        let vy0 = alpha_value(alpha, y0);
        let p0 = pow(b, y0.len());
        assert(pow(b, y.len()) == p0 * b) by {
            lemma_pow_adds(b, y0.len(), 1);
            lemma_pow1(b);
            assert(pow(b, 1) == b);
        }
        assert(alpha_value(alpha, x + y) == (vx * p0 + vy0) * b + sym_index(alpha, y.last()));
        assert((vx * p0 + vy0) * b == vx * (p0 * b) + vy0 * b) by (nonlinear_arith);
        assert(alpha_value(alpha, y) == vy0 * b + sym_index(alpha, y.last()));
    }
}

/// Numbers below the base to the `k`-th power need at most `k` symbols.
pub proof fn lemma_numeral_len(alpha: Seq<char>, n: int, k: nat)
    requires
        alpha_wf(alpha),
        0 <= n < pow(alpha.len() as int, k),
        1 <= k,
    ensures
        numeral(alpha, n).len() <= k,
    decreases k,
{
    let b = alpha.len() as int;
    if n < b {
    } else {
        assert(k >= 2) by {
            if k == 1 {
                lemma_pow1(b);
            assert(pow(b, 1) == b);
            }
        }
        lemma_div_is_strictly_smaller(n, b);
        lemma_div_pos_is_pos(n, b);
        assert(n / b < pow(b, (k - 1) as nat)) by {
            lemma_pow_adds(b, (k - 1) as nat, 1);
            lemma_pow1(b);
            assert(pow(b, 1) == b);
            let p = pow(b, (k - 1) as nat);
            lemma_pow_positive(b, (k - 1) as nat);
            assert(n < p * b);
            assert(n / b < p) by {
                lemma_fundamental_div_mod(n, b);
                lemma_mod_bound(n, b);
                assert(n == b * (n / b) + n % b);
                if n / b >= p {
                    lemma_mul_inequality(p, n / b, b);
                    assert(p * b <= (n / b) * b) by (nonlinear_arith)
                        requires p <= n / b && 0 <= b;
                    assert((n / b) * b == b * (n / b)) by (nonlinear_arith);
                }
            }
        }
        lemma_numeral_len(alpha, n / b, (k - 1) as nat);
    }
}

/// A longer minimal numeral means a (weakly) larger number; contrapositively
/// the numeral length is monotone in the value.
pub proof fn lemma_numeral_len_mono(alpha: Seq<char>, n: int, m: int)
    requires
        alpha_wf(alpha),
        0 <= n <= m,
    ensures
        numeral(alpha, n).len() <= numeral(alpha, m).len(),
    decreases m,
{
    let b = alpha.len() as int;
    if n < b {
        lemma_numeral_wf(alpha, m);
    } else {
        lemma_div_is_strictly_smaller(n, b);
        lemma_div_is_strictly_smaller(m, b);
        lemma_div_pos_is_pos(n, b);
        lemma_div_pos_is_pos(m, b);
        assert(n / b <= m / b) by {
            lemma_fundamental_div_mod(n, b);
            lemma_fundamental_div_mod(m, b);
            lemma_mod_bound(n, b);
            lemma_mod_bound(m, b);
            if n / b > m / b {
                assert(n / b >= m / b + 1);
                lemma_mul_inequality(m / b + 1, n / b, b);
                assert((m / b + 1) * b <= (n / b) * b) by (nonlinear_arith)
                    requires m / b + 1 <= n / b && 0 <= b;
                assert((m / b + 1) * b == b * (m / b) + b) by (nonlinear_arith);
                assert((n / b) * b == b * (n / b)) by (nonlinear_arith);
            }
        }
        lemma_numeral_len_mono(alpha, n / b, m / b);
    }
}

/// Two symbol strings of equal length and equal value are equal.
pub proof fn lemma_value_injective(alpha: Seq<char>, s1: Seq<char>, s2: Seq<char>)
    requires
        alpha_wf(alpha),
        all_in(alpha, s1),
        all_in(alpha, s2),
        s1.len() == s2.len(),
        alpha_value(alpha, s1) == alpha_value(alpha, s2),
    ensures
        s1 == s2,
    decreases s1.len(),
{
    let b = alpha.len() as int;
    if s1.len() == 0 {
        assert(s1 =~= s2);
    } else {
        assert(alpha.contains(s1.last()));
        assert(alpha.contains(s2.last()));
        lemma_sym_index(alpha, s1.last());
        lemma_sym_index(alpha, s2.last());
        assert(all_in(alpha, s1.drop_last())) by {
            assert(forall|i: int| 0 <= i < s1.len() - 1 ==> s1.drop_last()[i] == s1[i]);
        }
        assert(all_in(alpha, s2.drop_last())) by {
            assert(forall|i: int| 0 <= i < s2.len() - 1 ==> s2.drop_last()[i] == s2[i]);
        }
        let v1 = alpha_value(alpha, s1.drop_last());
        let v2 = alpha_value(alpha, s2.drop_last());
        let r1 = sym_index(alpha, s1.last());
        let r2 = sym_index(alpha, s2.last());
        assert(v1 * b + r1 == v2 * b + r2);
        assert(v1 == v2 && r1 == r2) by {
            lemma_fundamental_div_mod_converse(v1 * b + r1, b, v1, r1);
            lemma_fundamental_div_mod_converse(v2 * b + r2, b, v2, r2);
        }
        assert(s1.last() == alpha[r1] && s2.last() == alpha[r2]);
        lemma_value_injective(alpha, s1.drop_last(), s2.drop_last());
        assert(s1 =~= s1.drop_last().push(s1.last()));
        assert(s2 =~= s2.drop_last().push(s2.last()));
    }
}

/// Padding on the left with the zero symbol does not change the value.
pub proof fn lemma_pad_value(alpha: Seq<char>, s: Seq<char>, width: int)
    requires
        alpha_wf(alpha),
    ensures
        alpha_value(alpha, left_pad(s, alpha[0], width)) == alpha_value(alpha, s),
        all_in(alpha, s) ==> all_in(alpha, left_pad(s, alpha[0], width)),
{
    if s.len() < width {
        let zeros = Seq::new((width - s.len()) as nat, |i| alpha[0]);
        assert(left_pad(s, alpha[0], width) =~= zeros + s);
        lemma_value_concat(alpha, zeros, s);
        lemma_zeros_value(alpha, zeros);
        assert(alpha_value(alpha, zeros) * pow(alpha.len() as int, s.len()) == 0) by (nonlinear_arith)
            requires alpha_value(alpha, zeros) == 0;
        if all_in(alpha, s) {
            assert forall|i: int| 0 <= i < (zeros + s).len()
                implies alpha.contains(#[trigger] (zeros + s)[i]) by {
                if i < zeros.len() {
                    assert((zeros + s)[i] == alpha[0]);
                    assert(alpha.contains(alpha[0]));
                } else {
                    assert((zeros + s)[i] == s[i - zeros.len()]);
                }
            }
        }
    }
}

/// A run of zero symbols has value zero.
pub proof fn lemma_zeros_value(alpha: Seq<char>, zeros: Seq<char>)
    requires
        alpha_wf(alpha),
        forall|i: int| 0 <= i < zeros.len() ==> zeros[i] == alpha[0],
    ensures
        alpha_value(alpha, zeros) == 0,
    decreases zeros.len(),
{
    if zeros.len() > 0 {
        lemma_zeros_value(alpha, zeros.drop_last());
        lemma_sym_index_of(alpha, 0);
    }
}

/// A non-empty all-alphabet string is recovered exactly by rendering its
/// value and padding back to its own length with the zero symbol.
pub proof fn lemma_reconstruct(alpha: Seq<char>, s: Seq<char>)
    requires
        alpha_wf(alpha),
        all_in(alpha, s),
        1 <= s.len(),
    ensures
        left_pad(numeral(alpha, alpha_value(alpha, s)), alpha[0], s.len() as int) == s,
{
    let v = alpha_value(alpha, s);
    lemma_value_bounds(alpha, s);
    lemma_numeral_len(alpha, v, s.len());
    lemma_numeral_wf(alpha, v);
    lemma_value_of_numeral(alpha, v);
    let padded = left_pad(numeral(alpha, v), alpha[0], s.len() as int);
    lemma_pad_value(alpha, numeral(alpha, v), s.len() as int);
    assert(padded.len() == s.len());
    lemma_value_injective(alpha, padded, s);
}

} // verus!
