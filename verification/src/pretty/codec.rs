//! Positional-base string codec over a configurable symbol alphabet.
//!
//! An [`Alphabet`] is an ordered set of symbols defining a numeral base equal
//! to its size; [`AlphabetCodec`] renders non-negative integers as minimal
//! strings over that alphabet and reads such strings back.

use vstd::prelude::*;
use vstd::pervasive::unreached;
use vstd::arithmetic::div_mod::{
    lemma_div_non_zero, lemma_div_is_strictly_smaller, lemma_fundamental_div_mod,
    lemma_mod_bound, lemma_small_mod,
};
use vstd::arithmetic::power::{pow, lemma_pow_positive};
use crate::pretty::numeral::{
    alpha_wf, all_in, alpha_value, numeral, sym_index,
    lemma_sym_index, lemma_sym_index_of, lemma_value_bounds, lemma_value_concat,
};
use crate::pretty::chars::{str_to_chars, chars_to_string};

verus! {

/// An encoder/decoder pair between non-negative 64-bit integers and strings
/// over an ordered symbol alphabet.
pub trait Codec: Sized {
    /// The ordered symbols this codec renders into; the base of the numeral
    /// system is its length. A codec whose configuration is inconsistent
    /// exposes an empty (unusable) alphabet.
    spec fn alphabet(&self) -> Seq<char>;

    /// Renders `number` as the minimal numeral over the alphabet, most
    /// significant symbol first; a single symbol for values below the base.
    fn encode(&self, number: i64) -> (r: String)
        requires
            alpha_wf(self.alphabet()),
            0 <= number,
        ensures
            r@ == numeral(self.alphabet(), number as int),
    ;

    /// Reads a symbol string back to the integer it denotes.
    fn decode(&self, value: &str) -> (r: i64)
        requires
            alpha_wf(self.alphabet()),
            all_in(self.alphabet(), value@),
            alpha_value(self.alphabet(), value@) <= i64::MAX,
        ensures
            r as int == alpha_value(self.alphabet(), value@),
            0 <= r,
    ;

    /// Reads a symbol string back, reporting a value too large for `i64`
    /// instead of requiring the caller to rule it out.
    fn try_decode(&self, value: &str) -> (r: Option<i64>)
        requires
            alpha_wf(self.alphabet()),
            all_in(self.alphabet(), value@),
        ensures
            r matches Some(x) ==> x as int == alpha_value(self.alphabet(), value@) && 0 <= x,
            r is None <==> alpha_value(self.alphabet(), value@) > i64::MAX,
    ;

    /// Whether `c` is a symbol of the alphabet.
    fn contains_char(&self, c: char) -> (b: bool)
        ensures
            b == self.alphabet().contains(c),
    ;
}

/// An ordered, deduplicated set of symbols defining a positional numeral
/// base equal to its size.
#[derive(Debug, Clone)]
pub struct Alphabet {
    /// The symbols, in order of increasing value.
    pub elements: String,
    /// The numeral base: the number of symbols.
    pub base: usize,
}

impl Alphabet {
    /// The recorded base matches the symbol count and the symbols make a
    /// usable positional alphabet: at least two of them, all distinct.
    pub open spec fn wf(&self) -> bool {
        self.base == self.elements@.len() && alpha_wf(self.elements@)
    }

    /// An alphabet over the given symbols, in the given order.
    pub fn new(base: &str) -> (r: Self)
        ensures
            r.elements@ == base@,
            r.base == base@.len(),
    {
        let elements = base.to_owned();
        let size = base.unicode_len();
        Alphabet { elements, base: size }
    }

    /// The symbol at a position (the rendering of digit value `pos`).
    pub fn value_of(&self, pos: usize) -> (c: char)
        requires
            pos < self.elements@.len(),
        ensures
            c == self.elements@[pos as int],
    {
        self.elements.as_str().get_char(pos)
    }

    /// The position of a symbol, if it occurs: the first index holding it.
    pub fn position_of(&self, c: char) -> (r: Option<usize>)
        ensures
            r is Some <==> self.elements@.contains(c),
            r matches Some(k) ==> k < self.elements@.len() && self.elements@[k as int] == c,
            self.wf() ==> (r matches Some(k) ==> k as int == sym_index(self.elements@, c)),
    {
        let n = self.elements.as_str().unicode_len();
        let mut i: usize = 0;
        while i < n
            invariant
                i <= n,
                n == self.elements@.len(),
                forall|k: int| 0 <= k < i ==> self.elements@[k] != c,
            decreases n - i,
        {
            if self.elements.as_str().get_char(i) == c {
                proof {
                    assert(self.elements@.contains(c));
                    if self.wf() {
                        lemma_sym_index(self.elements@, c);
                        let k = sym_index(self.elements@, c);
                        lemma_sym_index_of(self.elements@, i as int);
                    }
                }
                return Some(i);
            }
            i += 1;
        }
        proof {
            assert(forall|k: int| 0 <= k < self.elements@.len() ==> self.elements@[k] != c);
        }
        None
    }

    /// The position of a symbol known to occur in the alphabet.
    pub fn index_of(&self, c: char) -> (r: usize)
        requires
            self.wf(),
            self.elements@.contains(c),
        ensures
            r as int == sym_index(self.elements@, c),
            r < self.elements@.len(),
            self.elements@[r as int] == c,
    {
        let r = self.position_of(c);
        proof {
            lemma_sym_index(self.elements@, c);
        }
        if let Some(k) = r {
            k
        } else {
            unreached()
        }
    }
}

/// Accumulator for a positional decode: the value so far together with the
/// position (power of the base) of the next symbol.
#[derive(Default)]
pub struct ResultWithIndex {
    /// The accumulated value.
    pub result: i64,
    /// The number of symbols folded so far.
    pub pos: usize,
}

impl ResultWithIndex {
    /// The accumulator advanced by one position with an updated value.
    pub fn increment_w_result(self, result: i64) -> (r: Self)
        requires
            self.pos < usize::MAX,
        ensures
            r.result == result,
            r.pos == self.pos + 1,
    {
        ResultWithIndex { result, pos: self.pos + 1 }
    }
}

/// A [`Codec`] over a configured [`Alphabet`].
#[derive(Debug, Clone)]
pub struct AlphabetCodec(Alphabet);

impl AlphabetCodec {
    /// A codec rendering into the given alphabet.
    pub fn new(alphabet: Alphabet) -> (r: Self)
        ensures
            alphabet.wf() ==> r.alphabet() == alphabet.elements@,
            alphabet.wf() ==> alpha_wf(r.alphabet()),
    {
        AlphabetCodec(alphabet)
    }
}

impl Codec for AlphabetCodec {
    /// The configured symbols when the recorded base is consistent with
    /// them; otherwise the empty (unusable) alphabet.
    closed spec fn alphabet(&self) -> Seq<char> {
        if self.0.base == self.0.elements@.len() {
            self.0.elements@
        } else {
            Seq::empty()
        }
    }

    fn encode(&self, number: i64) -> (r: String) {
        let ghost alpha = self.alphabet();
        let b: u64 = self.0.base as u64;
        let mut rest: u64 = number as u64;
        let mut rev: Vec<char> = Vec::new();
        proof {
            assert(Seq::<char>::empty().reverse() =~= Seq::<char>::empty());
            assert(numeral(alpha, number as int) =~= numeral(alpha, number as int)
                + Seq::<char>::empty());
        }
        loop
            invariant_except_break
                alpha == self.alphabet(),
                alpha_wf(alpha),
                b == self.0.base,
                b == alpha.len(),
                rest <= number as u64,
                numeral(alpha, number as int) == numeral(alpha, rest as int) + rev@.reverse(),
            ensures
                numeral(alpha, number as int) == rev@.reverse(),
            decreases rest,
        {
            let d = (rest % b) as usize;
            proof {
                lemma_mod_bound(rest as int, b as int);
                lemma_fundamental_div_mod(rest as int, b as int);
            }
            let c = self.0.value_of(d);
            let ghost old_rev = rev@;
            let ghost old_rest = rest as int;
            rev.push(c);
            proof {
                assert(rev@.reverse() =~= seq![c] + old_rev.reverse());
            }
            if rest < b {
                proof {
                    lemma_small_mod(old_rest as nat, b as nat);
                    assert(old_rest % b as int == old_rest);
                    assert(numeral(alpha, old_rest) =~= seq![alpha[old_rest]]);
                    assert(numeral(alpha, number as int) =~= seq![c] + old_rev.reverse());
                    assert(numeral(alpha, number as int) =~= rev@.reverse());
                }
                break;
            }
            rest = rest / b;
            proof {
                lemma_div_is_strictly_smaller(old_rest, b as int);
                lemma_div_non_zero(old_rest, b as int);
                assert(numeral(alpha, old_rest)
                    =~= numeral(alpha, old_rest / b as int).push(alpha[old_rest % b as int]));
                assert(numeral(alpha, old_rest) =~= numeral(alpha, rest as int) + seq![c]);
                assert(numeral(alpha, number as int)
                    =~= (numeral(alpha, rest as int) + seq![c]) + old_rev.reverse());
                assert((numeral(alpha, rest as int) + seq![c]) + old_rev.reverse()
                    =~= numeral(alpha, rest as int) + (seq![c] + old_rev.reverse()));
            }
        }
        let n_syms = rev.len();
        let mut v: Vec<char> = Vec::new();
        let mut i: usize = 0;
        while i < n_syms
            invariant
                i <= n_syms,
                n_syms == rev@.len(),
                v@ == rev@.reverse().subrange(0, i as int),
            decreases n_syms - i,
        {
            v.push(rev[n_syms - 1 - i]);
            proof {
                assert(rev@.reverse().subrange(0, (i + 1) as int)
                    =~= rev@.reverse().subrange(0, i as int).push(rev@.reverse()[i as int]));
            }
            i += 1;
        }
        proof {
            assert(rev@.reverse().subrange(0, rev@.len() as int) =~= rev@.reverse());
        }
        chars_to_string(&v)
    }

    fn decode(&self, value: &str) -> (r: i64) {
        let r = self.try_decode(value);
        if let Some(v) = r {
            v
        } else {
            unreached()
        }
    }

    fn try_decode(&self, value: &str) -> (r: Option<i64>) {
        let ghost alpha = self.alphabet();
        let v = str_to_chars(value);
        let b: u64 = self.0.base as u64;
        let mut acc = ResultWithIndex { result: 0, pos: 0 };
        proof {
            lemma_value_bounds(alpha, value@);
        }
        while acc.pos < v.len()
            invariant
                acc.pos <= v@.len(),
                v@ == value@,
                alpha == self.alphabet(),
                alpha_wf(alpha),
                all_in(alpha, value@),
                b == alpha.len(),
                0 <= acc.result,
                acc.result as int == alpha_value(alpha, v@.subrange(0, acc.pos as int)),
            decreases v@.len() - acc.pos,
        {
            let i = acc.pos;
            let c = v[i];
            proof {
                assert(value@[i as int] == c);
                assert(alpha.contains(c));
            }
            let idx = self.0.index_of(c) as u64;
            let ghost pre = v@.subrange(0, i as int);
            let ghost ext = v@.subrange(0, (i + 1) as int);
            proof {
                assert(ext =~= pre.push(c));
                assert(ext.drop_last() =~= pre);
                assert(ext.last() == c);
                assert(alpha_value(alpha, ext)
                    == alpha_value(alpha, pre) * alpha.len() + sym_index(alpha, c));
            }
            let cur = acc.result;
            proof {
                assert((cur as int) * (b as int) + (idx as int) < u128::MAX) by (nonlinear_arith)
                    requires
                        0 <= cur <= i64::MAX,
                        0 <= b <= u64::MAX,
                        0 <= idx <= u64::MAX;
            }
            let wide: u128 = (cur as u128) * (b as u128) + (idx as u128);
            proof {
                assert(wide == (cur as int) * (b as int) + (idx as int)) by (nonlinear_arith)
                    requires
                        0 <= cur <= u64::MAX,
                        0 <= b <= u64::MAX,
                        0 <= idx <= u64::MAX,
                        wide == (cur as u128) * (b as u128) + (idx as u128);
            }
            if wide > i64::MAX as u128 {
                proof {
                    lemma_decode_overflow(alpha, value@, i as int);
                }
                return None;
            }
            acc = acc.increment_w_result((wide as u64) as i64);
        }
        proof {
            assert(v@.subrange(0, v@.len() as int) =~= v@);
        }
        Some(acc.result)
    }

    fn contains_char(&self, c: char) -> (b: bool) {
        let r = self.0.position_of(c);
        proof {
            assert(!Seq::<char>::empty().contains(c));
        }
        match r {
            Some(k) => {
                if self.0.base == self.elements_len() {
                    true
                } else {
                    proof {
                        assert(self.alphabet() =~= Seq::<char>::empty());
                    }
                    false
                }
            },
            None => false,
        }
    }
}

impl AlphabetCodec {
    /// The number of symbols actually held (not the recorded base).
    fn elements_len(&self) -> (n: usize)
        ensures
            n == self.0.elements@.len(),
    {
        self.0.elements.as_str().unicode_len()
    }
}

/// Once the value of a prefix extended by one more symbol exceeds
/// `i64::MAX`, the value of the whole string does too.
proof fn lemma_decode_overflow(alpha: Seq<char>, s: Seq<char>, i: int)
    requires
        alpha_wf(alpha),
        all_in(alpha, s),
        0 <= i < s.len(),
        alpha_value(alpha, s.take(i + 1)) > i64::MAX,
    ensures
        alpha_value(alpha, s) > i64::MAX,
{
    let head = s.take(i + 1);
    let tail = s.skip(i + 1);
    assert(s =~= head + tail);
    lemma_value_concat(alpha, head, tail);
    assert(all_in(alpha, tail)) by {
        assert(forall|k: int| 0 <= k < tail.len() ==> tail[k] == s[i + 1 + k]);
    }
    lemma_value_bounds(alpha, tail);
    let p = pow(alpha.len() as int, tail.len());
    lemma_pow_positive(alpha.len() as int, tail.len());
    assert(alpha_value(alpha, head) * p >= alpha_value(alpha, head)) by (nonlinear_arith)
        requires p >= 1 && alpha_value(alpha, head) >= 0;
    assert(all_in(alpha, head)) by {
        assert(forall|k: int| 0 <= k < head.len() ==> head[k] == s[k]);
    }
    lemma_value_bounds(alpha, head);
}

impl Default for AlphabetCodec {
    /// The default 23-symbol alphabet, chosen monotonic so encoded chunks
    /// sort consistently with their numeric value.
    fn default() -> (r: Self)
        ensures
            r.alphabet() == "ABCDEFGHJKLMNPQRSTUVXYZ"@,
            r.alphabet().len() == 23,
    {
        let a = Alphabet::new("ABCDEFGHJKLMNPQRSTUVXYZ");
        proof {
            reveal_strlit("ABCDEFGHJKLMNPQRSTUVXYZ");
        }
        AlphabetCodec(a)
    }
}

} // verus!
