use vstd::prelude::*;
use vstd::arithmetic::div_mod::{
    lemma_fundamental_div_mod, lemma_fundamental_div_mod_converse, lemma_mod_bound,
};
use vstd::arithmetic::mul::{lemma_mul_inequality, lemma_mul_is_distributive_add_other_way};
use vstd::arithmetic::power::{pow, lemma_pow_increases, lemma_pow_positive};

use crate::errors::AtmError;
use crate::planner::space_size;

verus! {

/// All symbols of the alphabet are pairwise distinct.
pub open spec fn distinct_alphabet(alphabet: Seq<u8>) -> bool {
    forall|i: int, j: int| 0 <= i < j < alphabet.len() ==> alphabet[i] != alphabet[j]
}

/// A digit string read as a mixed-radix numeral over base `n`, most
/// significant digit first.
pub open spec fn digits_value(d: Seq<usize>, n: nat) -> nat
    decreases d.len(),
{
    if d.len() == 0 {
        0
    } else {
        (digits_value(d.drop_last(), n) * n + d.last()) as nat
    }
}

/// The sequence that direct enumeration yields at step `i`: the mixed-radix
/// decomposition of `i` over base `alphabet.len()`, each digit mapped to its
/// alphabet symbol, with the rightmost position incrementing fastest.
pub open spec fn sequence_at(alphabet: Seq<u8>, length: nat, i: nat) -> Seq<u8>
    decreases length,
{
    if length == 0 {
        Seq::empty()
    } else {
        sequence_at(alphabet, (length - 1) as nat, i / alphabet.len()).push(
            alphabet[(i % alphabet.len()) as int],
        )
    }
}

/// The full enumeration order of the space: element `i` is the sequence that
/// direct enumeration yields at step `i`.
pub open spec fn enumeration(alphabet: Seq<u8>, length: nat) -> Seq<Seq<u8>> {
    Seq::new(
        space_size(alphabet.len(), length),
        |i: int| sequence_at(alphabet, length, i as nat),
    )
}

/// Whether the generator inputs are in domain: a non-empty alphabet of
/// distinct symbols, a target length of at least one, and — where a minimum
/// length is required — a target length at least that minimum.
pub open spec fn valid_generator_config(
    alphabet: Seq<u8>,
    length: nat,
    min_length: Option<usize>,
) -> bool {
    &&& alphabet.len() >= 1
    &&& length >= 1
    &&& distinct_alphabet(alphabet)
    &&& (min_length is Some ==> length >= min_length->0)
}

/// A digit string of all zeros reads as zero.
proof fn lemma_digits_value_zero(d: Seq<usize>, n: nat)
    requires
        forall|t: int| 0 <= t < d.len() ==> d[t] == 0,
    ensures
        digits_value(d, n) == 0,
    decreases d.len(),
{
    if d.len() > 0 {
        lemma_digits_value_zero(d.drop_last(), n);
        assert(digits_value(d.drop_last(), n) == 0);
        assert(d.last() == 0);
        assert(digits_value(d, n) == (digits_value(d.drop_last(), n) * n + d.last()) as nat);
        assert((digits_value(d.drop_last(), n) * n + d.last()) as nat == 0);
    }
}

/// Every digit string over base `n` reads below `n^length`.
proof fn lemma_digits_value_bound(d: Seq<usize>, n: nat)
    requires
        n >= 1,
        forall|t: int| 0 <= t < d.len() ==> d[t] < n,
    ensures
        digits_value(d, n) < pow(n as int, d.len()),
    decreases d.len(),
{
    reveal(pow);
    lemma_pow_positive(n as int, d.len());
    if d.len() == 0 {
    } else {
        lemma_digits_value_bound(d.drop_last(), n);
        let p = pow(n as int, (d.len() - 1) as nat);
        let v = digits_value(d.drop_last(), n);
        let last = d.last();
        assert(digits_value(d, n) == (v * n + last) as nat);
        assert(pow(n as int, d.len()) == n * p);
        assert(v * n + last < n * p) by (nonlinear_arith)
            requires
                v <= p - 1,
                last <= n - 1,
                n >= 1,
        ;
    }
}

/// A digit string with every digit at its maximum reads as `n^length - 1`.
proof fn lemma_digits_value_all_max(d: Seq<usize>, n: nat)
    requires
        n >= 1,
        forall|t: int| 0 <= t < d.len() ==> d[t] == n - 1,
    ensures
        digits_value(d, n) == pow(n as int, d.len()) - 1,
    decreases d.len(),
{
    reveal(pow);
    lemma_pow_positive(n as int, d.len());
    if d.len() > 0 {
        lemma_digits_value_all_max(d.drop_last(), n);
        let p = pow(n as int, (d.len() - 1) as nat);
        assert(digits_value(d, n) == (digits_value(d.drop_last(), n) * n + d.last()) as nat);
        assert(pow(n as int, d.len()) == n * p);
        assert((p - 1) * n + (n - 1) == n * p - 1) by (nonlinear_arith);
    }
}

/// Prepending a digit to a digit string scales it into the next radix
/// position.
proof fn lemma_digits_value_cons(r: usize, s: Seq<usize>, n: nat)
    requires
        n >= 1,
    ensures
        digits_value(seq![r] + s, n) == r * pow(n as int, s.len()) + digits_value(s, n),
    decreases s.len(),
{
    reveal(pow);
    let c = seq![r] + s;
    if s.len() == 0 {
        assert(s =~= Seq::<usize>::empty());
        assert(c =~= seq![r]);
        assert((seq![r]).drop_last() =~= Seq::<usize>::empty());
        assert(digits_value(seq![r], n) == (digits_value((seq![r]).drop_last(), n) * n
            + (seq![r]).last()) as nat);
        assert(digits_value(Seq::<usize>::empty(), n) == 0);
        assert((seq![r]).last() == r);
        let z = digits_value((seq![r]).drop_last(), n);
        assert(z == 0);
        assert(z * n == 0) by (nonlinear_arith)
            requires
                z == 0,
        ;
        assert(digits_value(seq![r], n) == r);
        assert(digits_value(s, n) == 0);
        let pw = pow(n as int, s.len());
        assert(pw == 1);
        assert(r * pw == r) by (nonlinear_arith)
            requires
                pw == 1,
        ;
    } else {
        assert(c.drop_last() =~= seq![r] + s.drop_last());
        assert(c.last() == s.last());
        lemma_digits_value_cons(r, s.drop_last(), n);
        let p1 = pow(n as int, (s.len() - 1) as nat);
        let vdl = digits_value(s.drop_last(), n);
        assert(digits_value(c, n) == (digits_value(c.drop_last(), n) * n + c.last()) as nat);
        assert(digits_value(s, n) == (vdl * n + s.last()) as nat);
        assert(pow(n as int, s.len()) == n * p1);
        assert(digits_value(c.drop_last(), n) == r * p1 + vdl);
        assert((r * p1 + vdl) * n + s.last() == r * (n * p1) + (vdl * n + s.last()))
            by (nonlinear_arith);
        lemma_pow_positive(n as int, (s.len() - 1) as nat);
        assert(r * (n * p1) >= 0) by (nonlinear_arith)
            requires
                r >= 0,
                n >= 1,
                p1 >= 1,
        ;
        assert(digits_value(c, n) == r * (n * p1) + digits_value(s, n));
    }
}

/// One odometer carry step — incrementing the rightmost digit below its
/// maximum and zeroing everything after it — raises the reading by one.
proof fn lemma_odometer_step(d1: Seq<usize>, d2: Seq<usize>, n: nat, k: int)
    requires
        n >= 1,
        d1.len() == d2.len(),
        0 <= k < d1.len(),
        d1[k] + 1 < n,
        forall|t: int| k < t < d1.len() ==> d1[t] == n - 1,
        d2[k] == d1[k] + 1,
        forall|t: int| 0 <= t < k ==> d2[t] == d1[t],
        forall|t: int| k < t < d2.len() ==> d2[t] == 0,
    ensures
        digits_value(d2, n) == digits_value(d1, n) + 1,
    decreases d1.len(),
{
    if k == d1.len() - 1 {
        assert(d2.drop_last() =~= d1.drop_last());
    } else {
        lemma_odometer_step(d1.drop_last(), d2.drop_last(), n, k);
        let v1 = digits_value(d1.drop_last(), n);
        let v2 = digits_value(d2.drop_last(), n);
        assert(v2 * n == v1 * n + n) by {
            lemma_mul_is_distributive_add_other_way(n as int, v1 as int, 1);
        }
    }
}

/// Reading the digits back through the alphabet gives exactly the sequence
/// at the digits' mixed-radix value.
proof fn lemma_digits_to_sequence(d: Seq<usize>, alphabet: Seq<u8>)
    requires
        alphabet.len() >= 1,
        forall|t: int| 0 <= t < d.len() ==> d[t] < alphabet.len(),
    ensures
        Seq::new(d.len(), |t: int| alphabet[d[t] as int]) =~= sequence_at(
            alphabet,
            d.len(),
            digits_value(d, alphabet.len()),
        ),
    decreases d.len(),
{
    let n = alphabet.len();
    if d.len() > 0 {
        let v = digits_value(d, n);
        let vp = digits_value(d.drop_last(), n);
        lemma_fundamental_div_mod_converse(v as int, n as int, vp as int, d.last() as int);
        lemma_digits_to_sequence(d.drop_last(), alphabet);
        assert(Seq::new(d.drop_last().len(), |t: int| alphabet[d.drop_last()[t] as int])
            =~= Seq::new((d.len() - 1) as nat, |t: int| alphabet[d[t] as int]));
    }
}

/// The sequence at step `i` has exactly the target length and draws every
/// position from the alphabet.
pub proof fn lemma_enumeration_shape(alphabet: Seq<u8>, length: nat, i: nat)
    requires
        alphabet.len() >= 1,
    ensures
        enumeration(alphabet, length).len() == space_size(alphabet.len(), length),
        sequence_at(alphabet, length, i).len() == length,
        forall|k: int|
            0 <= k < length ==> alphabet.contains(#[trigger] sequence_at(alphabet, length, i)[k]),
    decreases length,
{
    if length > 0 {
        let n = alphabet.len();
        lemma_mod_bound(i as int, n as int);
        lemma_enumeration_shape(alphabet, (length - 1) as nat, i / n);
    }
}

/// Distinct steps yield distinct sequences: over a distinct alphabet the
/// enumeration of the `n^length`-step space has no repeats.
pub proof fn lemma_enumeration_distinct(alphabet: Seq<u8>, length: nat, i: nat, j: nat)
    requires
        alphabet.len() >= 1,
        distinct_alphabet(alphabet),
        i < space_size(alphabet.len(), length),
        j < space_size(alphabet.len(), length),
        i != j,
    ensures
        sequence_at(alphabet, length, i) != sequence_at(alphabet, length, j),
    decreases length,
{
    let n = alphabet.len();
    lemma_pow_positive(n as int, length);
    if length == 0 {
        // the space has a single step, so distinct steps cannot both be valid
        reveal(pow);
    } else {
        lemma_mod_bound(i as int, n as int);
        lemma_mod_bound(j as int, n as int);
        lemma_fundamental_div_mod(i as int, n as int);
        lemma_fundamental_div_mod(j as int, n as int);
        let si = sequence_at(alphabet, length, i);
        let sj = sequence_at(alphabet, length, j);
        lemma_enumeration_shape(alphabet, length, i);
        lemma_enumeration_shape(alphabet, length, j);
        if i % n != j % n {
            assert(si[length - 1] != sj[length - 1]);
        } else {
            assert(i / n != j / n) by {
                if i / n == j / n {
                    assert(i == n * (i / n) + i % n);
                    assert(j == n * (j / n) + j % n);
                }
            }
            // the quotients stay inside the smaller space
            assert(i / n < pow(n as int, (length - 1) as nat)) by {
                lemma_quotient_in_space(i, n, length);
            }
            assert(j / n < pow(n as int, (length - 1) as nat)) by {
                lemma_quotient_in_space(j, n, length);
            }
            lemma_enumeration_distinct(alphabet, (length - 1) as nat, i / n, j / n);
            assert(si.drop_last() =~= sequence_at(alphabet, (length - 1) as nat, i / n));
            assert(sj.drop_last() =~= sequence_at(alphabet, (length - 1) as nat, j / n));
            assert(si != sj) by {
                if si == sj {
                    assert(si.drop_last() == sj.drop_last());
                }
            }
        }
    }
}

/// A step inside the space has its quotient inside the space one position
/// shorter.
proof fn lemma_quotient_in_space(i: nat, n: nat, length: nat)
    requires
        n >= 1,
        length >= 1,
        i < pow(n as int, length),
    ensures
        i / n < pow(n as int, (length - 1) as nat),
{
    reveal(pow);
    let p = pow(n as int, (length - 1) as nat);
    lemma_pow_positive(n as int, (length - 1) as nat);
    lemma_fundamental_div_mod(i as int, n as int);
    lemma_mod_bound(i as int, n as int);
    if i / n >= p {
        lemma_mul_inequality(p, (i / n) as int, n as int);
        assert(n * (i / n) == (i / n) * n) by (nonlinear_arith);
        assert(p * n == n * p) by (nonlinear_arith);
        assert(i >= n * p);
    }
}

/// Restarting the generator at index `i` and asking for one sequence yields,
/// by `next`'s contract, `sequence_at(alphabet, length, i)`; that is exactly
/// the sequence that direct enumeration from index zero produces at step `i`.
pub proof fn lemma_restart_matches_direct_enumeration(alphabet: Seq<u8>, length: nat, i: nat)
    requires
        i < space_size(alphabet.len(), length),
    ensures
        enumeration(alphabet, length)[i as int] == sequence_at(alphabet, length, i),
{
}

/// Lazily enumerates every ordered sequence of a fixed length over a base
/// alphabet, as a mixed-radix odometer: the position is fully described by
/// an index into the space, the working state stays proportional to the
/// target length, and the enumeration can restart from any index by direct
/// mixed-radix decomposition.
#[derive(Debug)]
pub struct SequenceGenerator {
    /// The symbol set; immutable once constructed.
    pub alphabet: Vec<u8>,
    /// The current odometer reading, most significant digit first; one digit
    /// per sequence position, each an index into `alphabet`.
    pub digits: Vec<usize>,
    /// Whether the odometer has wrapped: every sequence has been yielded.
    pub exhausted: bool,
}

impl SequenceGenerator {
    /// The target sequence length.
    pub open spec fn length(self) -> nat {
        self.digits@.len()
    }

    /// Structural soundness: non-empty distinct alphabet, at least one
    /// position, every digit in range.
    pub open spec fn wf(self) -> bool {
        &&& self.alphabet@.len() >= 1
        &&& distinct_alphabet(self.alphabet@)
        &&& self.digits@.len() >= 1
        &&& forall|t: int| 0 <= t < self.digits@.len() ==> (#[trigger] self.digits@[t])
            < self.alphabet@.len()
    }

    /// The index of the next sequence to yield; `n^length` once exhausted.
    pub open spec fn position(self) -> nat {
        if self.exhausted {
            space_size(self.alphabet@.len(), self.length())
        } else {
            digits_value(self.digits@, self.alphabet@.len())
        }
    }

    /// Builds a generator positioned at the start of the space.  Rejects an
    /// empty alphabet, repeated symbols, a zero length, and a length below
    /// the required minimum where one is given.
    pub fn new(alphabet: Vec<u8>, length: usize, min_length: Option<usize>) -> (r: Result<
        SequenceGenerator,
        AtmError,
    >)
        ensures
            match r {
                Ok(g) => valid_generator_config(alphabet@, length as nat, min_length) && g.wf()
                    && g.alphabet@ == alphabet@ && g.length() == length && g.position() == 0,
                Err(e) => e == AtmError::InvalidConfiguration && !valid_generator_config(
                    alphabet@,
                    length as nat,
                    min_length,
                ),
            },
    {
        let n = alphabet.len();
        if n == 0 || length == 0 {
            return Err(AtmError::InvalidConfiguration);
        }
        if let Some(m) = min_length {
            if length < m {
                return Err(AtmError::InvalidConfiguration);
            }
        }
        let mut i: usize = 0;
        while i < n
            invariant
                n == alphabet@.len(),
                i <= n,
                forall|a: int, b: int| 0 <= a < b < n && a < i ==> alphabet@[a] != alphabet@[b],
            decreases n - i,
        {
            let mut j: usize = i + 1;
            while j < n
                invariant
                    n == alphabet@.len(),
                    i < j <= n,
                    forall|b: int| i < b < j ==> alphabet@[i as int] != alphabet@[b],
                decreases n - j,
            {
                if alphabet[i] == alphabet[j] {
                    return Err(AtmError::InvalidConfiguration);
                }
                j = j + 1;
            }
            i = i + 1;
        }
        let mut digits: Vec<usize> = Vec::new();
        let mut t: usize = 0;
        while t < length
            invariant
                digits@.len() == t,
                t <= length,
                forall|u: int| 0 <= u < t ==> digits@[u] == 0,
            decreases length - t,
        {
            digits.push(0);
            t = t + 1;
        }
        proof {
            lemma_digits_value_zero(digits@, alphabet@.len());
        }
        Ok(SequenceGenerator { alphabet, digits, exhausted: false })
    }

    /// Builds a generator positioned at index `index` of the space, by
    /// direct mixed-radix decomposition and without replaying prior steps.
    /// Beyond the configuration checks of `new`, rejects an index at or past
    /// the end of the space.
    pub fn from_index(alphabet: Vec<u8>, length: usize, index: u128) -> (r: Result<
        SequenceGenerator,
        AtmError,
    >)
        ensures
            match r {
                Ok(g) => valid_generator_config(alphabet@, length as nat, None) && (index as nat)
                    < space_size(alphabet@.len(), length as nat) && g.wf() && g.alphabet@
                    == alphabet@ && g.length() == length && g.position() == index,
                Err(e) => e == AtmError::InvalidConfiguration && !(valid_generator_config(
                    alphabet@,
                    length as nat,
                    None,
                ) && (index as nat) < space_size(alphabet@.len(), length as nat)),
            },
    {
        let mut g = match SequenceGenerator::new(alphabet, length, None) {
            Ok(g) => g,
            Err(e) => {
                return Err(e);
            },
        };
        let n = g.alphabet.len();
        let space_fits = pow_checked_u128(n as u128, length as u64);
        let valid = match space_fits {
            Some(total) => index < total,
            None => true,
        };
        if !valid {
            return Err(AtmError::InvalidConfiguration);
        }
        proof {
            lemma_pow_positive(n as int, length as nat);
            assert((index as nat) < space_size(g.alphabet@.len(), length as nat));
        }
        let ghost orig = index as nat;
        let mut idx = index;
        let mut j: usize = length;
        proof {
            reveal(pow);
            assert(g.digits@.subrange(length as int, length as int) =~= Seq::<usize>::empty());
        }
        let ghost alpha = g.alphabet@;
        while j > 0
            invariant
                j <= length,
                g.digits@.len() == length,
                n == g.alphabet@.len(),
                1 <= n,
                g.alphabet@ == alpha,
                distinct_alphabet(g.alphabet@),
                g.exhausted == false,
                length >= 1,
                forall|t: int| 0 <= t < length ==> (#[trigger] g.digits@[t]) < n,
                (idx as nat) * pow(n as int, (length - j) as nat) + digits_value(
                    g.digits@.subrange(j as int, length as int),
                    n as nat,
                ) == orig,
                digits_value(g.digits@.subrange(j as int, length as int), n as nat) < pow(
                    n as int,
                    (length - j) as nat,
                ),
            decreases j,
        {
            let rem: u128 = idx % (n as u128);
            proof {
                lemma_mod_bound(idx as int, n as int);
            }
            let r = rem as usize;
            let ghost old_idx = idx as nat;
            let ghost old_suffix = g.digits@.subrange(j as int, length as int);
            let ghost p = pow(n as int, (length - j) as nat);
            idx = idx / (n as u128);
            g.digits.set(j - 1, r);
            j = j - 1;
            proof {
                reveal(pow);
                lemma_fundamental_div_mod(old_idx as int, n as int);
                let new_suffix = g.digits@.subrange(j as int, length as int);
                assert(new_suffix =~= seq![r] + old_suffix);
                lemma_digits_value_cons(r, old_suffix, n as nat);
                let v = digits_value(old_suffix, n as nat);
                assert(pow(n as int, (length - j) as nat) == n * p);
                assert((idx as int) * (n * p) + ((r as int) * p + v) == ((n as int) * (idx as int)
                    + r) * p + v) by (nonlinear_arith);
                assert((r as int) * p + v < n * p) by (nonlinear_arith)
                    requires
                        r <= n - 1,
                        v < p,
                        0 < p,
                ;
            }
        }
        proof {
            assert(g.digits@.subrange(0, length as int) =~= g.digits@);
            if idx >= 1 {
                lemma_mul_inequality(1, idx as int, pow(n as int, length as nat));
                assert((idx as int) * pow(n as int, length as nat) == pow(n as int, length as nat)
                    * (idx as int)) by (nonlinear_arith);
                assert(false);
            }
        }
        Ok(g)
    }

    /// Yields the next sequence and advances the position by one step, or
    /// yields nothing once every sequence of the space has been produced.
    pub fn next(&mut self) -> (r: Option<Vec<u8>>)
        requires
            old(self).wf(),
        ensures
            final(self).wf(),
            final(self).alphabet@ == old(self).alphabet@,
            final(self).length() == old(self).length(),
            old(self).position() < space_size(old(self).alphabet@.len(), old(self).length())
                ==> {
                &&& r is Some
                &&& (r->0)@ == sequence_at(
                    old(self).alphabet@,
                    old(self).length(),
                    old(self).position(),
                )
                &&& final(self).position() == old(self).position() + 1
            },
            old(self).position() >= space_size(old(self).alphabet@.len(), old(self).length())
                ==> r is None && *final(self) == *old(self),
    {
        if self.exhausted {
            return None;
        }
        let n = self.alphabet.len();
        let len = self.digits.len();
        proof {
            lemma_digits_value_bound(self.digits@, n as nat);
        }
        let mut out: Vec<u8> = Vec::new();
        let mut j: usize = 0;
        while j < len
            invariant
                j <= len,
                len == self.digits@.len(),
                n == self.alphabet@.len(),
                *self == *old(self),
                forall|t: int| 0 <= t < len ==> (#[trigger] self.digits@[t]) < n,
                out@ =~= Seq::new(j as nat, |t: int| self.alphabet@[self.digits@[t] as int]),
            decreases len - j,
        {
            let d = self.digits[j];
            out.push(self.alphabet[d]);
            j = j + 1;
        }
        proof {
            lemma_digits_to_sequence(self.digits@, self.alphabet@);
        }
        let ghost old_digits = self.digits@;
        let mut j: usize = len;
        while j > 0 && self.digits[j - 1] == n - 1
            invariant
                j <= len,
                1 <= n,
                len == self.digits@.len(),
                n == self.alphabet@.len(),
                *self == *old(self),
                old_digits == self.digits@,
                self.exhausted == false,
                forall|t: int| j <= t < len ==> old_digits[t] == n - 1,
            decreases j,
        {
            j = j - 1;
        }
        if j == 0 {
            // every digit is at its maximum: the space is exhausted
            proof {
                lemma_digits_value_all_max(old_digits, n as nat);
            }
            self.exhausted = true;
        } else {
            let d = self.digits[j - 1];
            self.digits.set(j - 1, d + 1);
            let mut t: usize = j;
            while t < len
                invariant
                    j <= t <= len,
                    1 <= j,
                    1 <= n,
                    len == self.digits@.len(),
                    old_digits.len() == len,
                    n == self.alphabet@.len(),
                    self.alphabet@ == old(self).alphabet@,
                    old_digits == old(self).digits@,
                    self.exhausted == false,
                    old(self).exhausted == false,
                    d + 1 < n,
                    self.digits@[j - 1] == d + 1,
                    old_digits[j - 1] == d,
                    forall|u: int| 0 <= u < j - 1 ==> self.digits@[u] == old_digits[u],
                    forall|u: int| j <= u < t ==> self.digits@[u] == 0,
                    forall|u: int| t <= u < len ==> self.digits@[u] == old_digits[u],
                    forall|u: int| j <= u < len ==> old_digits[u] == n - 1,
                    forall|u: int| 0 <= u < len ==> old_digits[u] < n,
                decreases len - t,
            {
                self.digits.set(t, 0);
                t = t + 1;
            }
            proof {
                lemma_odometer_step(old_digits, self.digits@, n as nat, j - 1);
                assert forall|u: int| 0 <= u < self.digits@.len() implies (#[trigger] self.digits@[u])
                    < self.alphabet@.len() by {
                    if u < j - 1 {
                        assert(self.digits@[u] == old_digits[u]);
                        assert(old_digits[u] < n);
                    } else if u == j - 1 {
                        assert(self.digits@[u] == d + 1);
                        assert(d + 1 < n);
                    } else {
                        assert(self.digits@[u] == 0);
                        assert(n >= 1);
                    }
                    assert(n == self.alphabet@.len());
                }
            }
        }
        Some(out)
    }
}

/// `base^exp` where it fits the widest machine integer, nothing where it
/// does not.
fn pow_checked_u128(base: u128, exp: u64) -> (r: Option<u128>)
    requires
        1 <= base,
    ensures
        match r {
            Some(v) => v as int == pow(base as int, exp as nat),
            None => pow(base as int, exp as nat) > u128::MAX,
        },
{
    let mut acc: u128 = 1;
    let mut i: u64 = 0;
    proof {
        reveal(pow);
    }
    while i < exp
        invariant
            1 <= base,
            i <= exp,
            acc as int == pow(base as int, i as nat),
        decreases exp - i,
    {
        proof {
            reveal(pow);
            assert(pow(base as int, (i + 1) as nat) == base * pow(base as int, i as nat));
            assert(base * (acc as int) == (acc as int) * base) by (nonlinear_arith);
        }
        match acc.checked_mul(base) {
            Some(v) => {
                acc = v;
            },
            None => {
                proof {
                    lemma_pow_increases(base as nat, (i + 1) as nat, exp as nat);
                }
                return None;
            },
        }
        i = i + 1;
    }
    Some(acc)
}

} // verus!

