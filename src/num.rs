use vstd::arithmetic::mul::{lemma_mul_inequality, lemma_mul_strict_inequality};
use vstd::arithmetic::power2::{
    lemma2_to64, lemma_pow2_adds, lemma_pow2_pos, lemma_pow2_strictly_increases, pow2,
};
use vstd::prelude::*;

verus! {

/// The smallest bit-precision a run may use.
pub const MIN_PREC: u32 = 16;

/// The largest bit-precision a run may use.
pub const MAX_PREC: u32 = 1024;

/// The top bit of a 64-bit word.
pub const TOP_BIT: u64 = 0x8000_0000_0000_0000;

/// The number of 64-bit words that hold a mantissa of `p` bits.
pub open spec fn words_for(p: u32) -> nat {
    ((p as nat) + 63) / 64
}

/// The value of big-endian base-2^64 digits: `s[0]` is the most significant.
pub open spec fn msf_value(s: Seq<u64>) -> nat
    decreases s.len(),
{
    if s.len() == 0 {
        0
    } else {
        msf_value(s.drop_last()) * 0x1_0000_0000_0000_0000 + s.last() as nat
    }
}

/// A binary floating-point number: `(-1)^neg * words * 2^exp`, where `words`
/// is a mantissa of big-endian 64-bit digits.
///
/// A well-formed mantissa is normalized: its top bit is set, or it is zero.
/// All numbers of one column have mantissas of the same width, the width of
/// the run's precision.
pub struct Num {
    pub neg: bool,
    pub words: Vec<u64>,
    pub exp: i64,
}

impl View for Num {
    type V = (bool, Seq<u64>, i64);

    open spec fn view(&self) -> (bool, Seq<u64>, i64) {
        (self.neg, self.words@, self.exp)
    }
}

impl Num {
    pub open spec fn magnitude(&self) -> nat {
        msf_value(self.words@)
    }

    /// The signed mantissa: the value is `mantissa * 2^exp`.
    pub open spec fn mantissa(&self) -> int {
        if self.neg {
            -(self.magnitude() as int)
        } else {
            self.magnitude() as int
        }
    }

    /// The value times `2^(2^63)`: an integer, so values compare as integers.
    pub open spec fn scaled(&self) -> int {
        self.mantissa() * pow2((self.exp - i64::MIN) as nat)
    }

    pub open spec fn is_zero(&self) -> bool {
        forall|i: int| 0 <= i < self.words@.len() ==> self.words@[i] == 0
    }

    /// Normalized, `w` words wide.
    pub open spec fn wf(&self, w: nat) -> bool {
        &&& w > 0
        &&& self.words@.len() == w
        &&& (self.words@[0] >= TOP_BIT || self.is_zero())
    }

    /// The zero of a run whose mantissas are `w` words wide.
    pub fn zero(w: usize) -> (r: Num)
        requires
            w > 0,
        ensures
            r.wf(w as nat),
            r.scaled() == 0,
            r.is_zero(),
    {
        let mut words: Vec<u64> = Vec::new();
        let mut i: usize = 0;
        while i < w
            invariant
                i <= w,
                words@.len() == i,
                forall|j: int| 0 <= j < i ==> words@[j] == 0,
            decreases w - i,
        {
            words.push(0);
            i += 1;
        }
        let r = Num { neg: false, words, exp: 0 };
        proof {
            lemma_zero_value(r.words@);
            assert(r.mantissa() == 0);
        }
        r
    }

    /// Whether the number is normalized and `w` words wide.
    pub fn fits(&self, w: usize) -> (r: bool)
        ensures
            r == self.wf(w as nat),
    {
        if w == 0 || self.words.len() != w {
            return false;
        }
        if self.words[0] >= TOP_BIT {
            return true;
        }
        let mut i: usize = 0;
        while i < w
            invariant
                i <= w,
                self.words@.len() == w,
                self.words@[0] < TOP_BIT,
                forall|j: int| 0 <= j < i ==> self.words@[j] == 0,
            decreases w - i,
        {
            if self.words[i] != 0 {
                return false;
            }
            i += 1;
        }
        true
    }

    /// A copy of the same number.
    pub fn duplicate(&self) -> (r: Num)
        ensures
            r@ == self@,
    {
        let mut words: Vec<u64> = Vec::new();
        let mut i: usize = 0;
        while i < self.words.len()
            invariant
                i <= self.words@.len(),
                words@ == self.words@.subrange(0, i as int),
            decreases self.words@.len() - i,
        {
            words.push(self.words[i]);
            i += 1;
        }
        assert(words@ =~= self.words@);
        Num { neg: self.neg, words, exp: self.exp }
    }
}

proof fn lemma_zero_value(s: Seq<u64>)
    requires
        forall|i: int| 0 <= i < s.len() ==> s[i] == 0,
    ensures
        msf_value(s) == 0,
    decreases s.len(),
{
    if s.len() > 0 {
        lemma_zero_value(s.drop_last());
    }
}

proof fn lemma_nonzero_value(s: Seq<u64>, i: int)
    requires
        0 <= i < s.len(),
        s[i] != 0,
    ensures
        msf_value(s) > 0,
    decreases s.len(),
{
    if i < s.len() - 1 {
        lemma_nonzero_value(s.drop_last(), i);
    }
    assert(msf_value(s.drop_last()) * 0x1_0000_0000_0000_0000 >= 0) by (nonlinear_arith);
}

/// `s` is below `2^(64 * len)`.
proof fn lemma_msf_bound(s: Seq<u64>)
    ensures
        msf_value(s) < pow2(64 * s.len()),
    decreases s.len(),
{
    lemma2_to64();
    if s.len() > 0 {
        let d = s.drop_last();
        lemma_msf_bound(d);
        let x = msf_value(d) as int;
        let p = pow2(64 * d.len()) as int;
        lemma_mul_inequality(x + 1, p, 0x1_0000_0000_0000_0000);
        lemma_pow2_adds(64 * d.len(), 64);
        assert(64 * s.len() == 64 * d.len() + 64);
        assert((x + 1) * 0x1_0000_0000_0000_0000 == x * 0x1_0000_0000_0000_0000
            + 0x1_0000_0000_0000_0000) by (nonlinear_arith);
    }
}

/// The digits split at `k` into a high and a low part.
proof fn lemma_msf_split(s: Seq<u64>, k: int)
    requires
        0 <= k <= s.len(),
    ensures
        msf_value(s) == msf_value(s.subrange(0, k)) * pow2((64 * (s.len() - k)) as nat)
            + msf_value(s.subrange(k, s.len() as int)),
    decreases s.len(),
{
    lemma2_to64();
    if k == s.len() {
        assert(s.subrange(0, k) =~= s);
        assert(s.subrange(k, s.len() as int).len() == 0);
        assert(msf_value(s.subrange(k, s.len() as int)) == 0);
        assert((64 * (s.len() - k)) as nat == 0);
    } else {
        let d = s.drop_last();
        lemma_msf_split(d, k);
        let lo = s.subrange(k, s.len() as int);
        assert(lo.drop_last() =~= d.subrange(k, d.len() as int));
        assert(d.subrange(0, k) =~= s.subrange(0, k));
        let hi = msf_value(s.subrange(0, k)) as int;
        let p = pow2((64 * (d.len() - k)) as nat) as int;
        let dl = msf_value(d.subrange(k, d.len() as int)) as int;
        lemma_pow2_adds((64 * (d.len() - k)) as nat, 64);
        assert((64 * (s.len() - k)) as nat == (64 * (d.len() - k)) as nat + 64);
        assert(pow2((64 * (s.len() - k)) as nat) == p * 0x1_0000_0000_0000_0000);
        assert(s.drop_last() == d);
        assert(lo.last() == s.last());
        assert(msf_value(s) == msf_value(d) * 0x1_0000_0000_0000_0000 + s.last() as nat);
        assert(msf_value(lo) == dl * 0x1_0000_0000_0000_0000 + s.last() as nat);
        assert((hi * p + dl) * 0x1_0000_0000_0000_0000 == hi * (p * 0x1_0000_0000_0000_0000)
            + dl * 0x1_0000_0000_0000_0000) by (nonlinear_arith);
    }
}

/// Equal-width digits compare as their first difference does.
proof fn lemma_msf_lex(s: Seq<u64>, t: Seq<u64>, j: int)
    requires
        s.len() == t.len(),
        0 <= j < s.len(),
        s.subrange(0, j) == t.subrange(0, j),
        s[j] < t[j],
    ensures
        msf_value(s) < msf_value(t),
{
    let n = s.len() as int;
    lemma_msf_split(s, j + 1);
    lemma_msf_split(t, j + 1);
    let sh = s.subrange(0, j + 1);
    let th = t.subrange(0, j + 1);
    assert(sh.drop_last() =~= s.subrange(0, j));
    assert(th.drop_last() =~= t.subrange(0, j));
    assert(msf_value(sh) < msf_value(th));
    let p = pow2((64 * (n - j - 1)) as nat) as int;
    let sl = s.subrange(j + 1, n);
    lemma_msf_bound(sl);
    assert(sl.len() == n - j - 1);
    lemma_mul_inequality(msf_value(sh) as int + 1, msf_value(th) as int, p);
    assert((msf_value(sh) as int + 1) * p == msf_value(sh) as int * p + p) by (nonlinear_arith);
}

/// A normalized mantissa is at least `2^(64 * len - 1)`.
proof fn lemma_msf_normalized(s: Seq<u64>)
    requires
        s.len() > 0,
        s[0] >= TOP_BIT,
    ensures
        msf_value(s) >= pow2((64 * s.len() - 1) as nat),
{
    lemma2_to64();
    lemma_msf_split(s, 1);
    let h = s.subrange(0, 1);
    assert(h.drop_last().len() == 0);
    assert(msf_value(h.drop_last()) == 0);
    assert(h.last() == s[0]);
    assert(msf_value(h) == s[0] as nat);
    let p = pow2((64 * (s.len() - 1)) as nat) as int;
    lemma_pow2_pos((64 * (s.len() - 1)) as nat);
    lemma_mul_inequality(TOP_BIT as int, s[0] as int, p);
    lemma_pow2_adds(63, (64 * (s.len() - 1)) as nat);
    assert(pow2(63) == TOP_BIT) by {
        lemma_pow2_adds(31, 32);
    }
}

/// Of two normalized nonzero magnitudes of one width, the smaller exponent
/// gives the smaller value.
proof fn lemma_exp_order(a: Num, b: Num, w: nat)
    requires
        a.wf(w),
        b.wf(w),
        !a.is_zero(),
        !b.is_zero(),
        a.exp < b.exp,
    ensures
        a.magnitude() * pow2((a.exp - i64::MIN) as nat) < b.magnitude() * pow2(
            (b.exp - i64::MIN) as nat,
        ),
{
    let ea = (a.exp - i64::MIN) as nat;
    let eb = (b.exp - i64::MIN) as nat;
    lemma_msf_bound(a.words@);
    lemma_msf_normalized(b.words@);
    lemma_pow2_pos(ea);
    lemma_mul_strict_inequality(a.magnitude() as int, pow2(64 * w) as int, pow2(ea) as int);
    lemma_pow2_adds(64 * w, ea);
    lemma_pow2_adds((64 * w - 1) as nat, eb);
    if (64 * w - 1) as nat + eb > 64 * w + ea {
        lemma_pow2_strictly_increases(64 * w + ea, (64 * w - 1) as nat + eb);
    }
    lemma_pow2_pos(eb);
    lemma_mul_inequality(pow2((64 * w - 1) as nat) as int, b.magnitude() as int, pow2(eb) as int);
}

/// Whether the magnitude of `a` is below that of `b`, both of width `w`.
fn magnitude_less(a: &Num, b: &Num, Ghost(w): Ghost<nat>) -> (r: bool)
    requires
        a.wf(w),
        b.wf(w),
        !a.is_zero(),
        !b.is_zero(),
    ensures
        r == (a.magnitude() * pow2((a.exp - i64::MIN) as nat) < b.magnitude() * pow2(
            (b.exp - i64::MIN) as nat,
        )),
{
    if a.exp != b.exp {
        proof {
            if a.exp < b.exp {
                lemma_exp_order(*a, *b, w);
            } else {
                lemma_exp_order(*b, *a, w);
            }
        }
        return a.exp < b.exp;
    }
    let mut i: usize = 0;
    while i < a.words.len()
        invariant
            i <= a.words@.len(),
            a.words@.len() == b.words@.len(),
            a.exp == b.exp,
            a.words@.subrange(0, i as int) == b.words@.subrange(0, i as int),
        decreases a.words@.len() - i,
    {
        if a.words[i] != b.words[i] {
            proof {
                let e = pow2((a.exp - i64::MIN) as nat) as int;
                lemma_pow2_pos((a.exp - i64::MIN) as nat);
                if a.words@[i as int] < b.words@[i as int] {
                    lemma_msf_lex(a.words@, b.words@, i as int);
                    lemma_mul_strict_inequality(a.magnitude() as int, b.magnitude() as int, e);
                } else {
                    lemma_msf_lex(b.words@, a.words@, i as int);
                    lemma_mul_strict_inequality(b.magnitude() as int, a.magnitude() as int, e);
                }
            }
            return a.words[i] < b.words[i];
        }
        assert(a.words@.subrange(0, i + 1) =~= a.words@.subrange(0, i as int).push(a.words@[i as int]));
        assert(b.words@.subrange(0, i + 1) =~= b.words@.subrange(0, i as int).push(b.words@[i as int]));
        i += 1;
    }
    assert(a.words@ =~= a.words@.subrange(0, i as int));
    assert(b.words@ =~= b.words@.subrange(0, i as int));
    false
}

/// Whether `a < b`, of two normalized numbers of the same width.
pub fn less_than(a: &Num, b: &Num) -> (r: bool)
    requires
        a.wf(a.words@.len()),
        b.wf(a.words@.len()),
    ensures
        r == (a.scaled() < b.scaled()),
{
    let ghost w = a.words@.len();
    let az = a.words[0] == 0;
    let bz = b.words[0] == 0;
    proof {
        if !az {
            lemma_nonzero_value(a.words@, 0);
        } else {
            lemma_zero_value(a.words@);
        }
        if !bz {
            lemma_nonzero_value(b.words@, 0);
        } else {
            lemma_zero_value(b.words@);
        }
        lemma_pow2_pos((a.exp - i64::MIN) as nat);
        lemma_pow2_pos((b.exp - i64::MIN) as nat);
        let ea = pow2((a.exp - i64::MIN) as nat) as int;
        let eb = pow2((b.exp - i64::MIN) as nat) as int;
        if !az {
            lemma_mul_strict_inequality(0, a.magnitude() as int, ea);
        }
        if !bz {
            lemma_mul_strict_inequality(0, b.magnitude() as int, eb);
        }
        assert(a.mantissa() * ea == if a.neg {
            -(a.magnitude() * ea)
        } else {
            a.magnitude() * ea
        }) by (nonlinear_arith);
        assert(b.mantissa() * eb == if b.neg {
            -(b.magnitude() * eb)
        } else {
            b.magnitude() * eb
        }) by (nonlinear_arith);
    }
    if az && bz {
        false
    } else if az {
        !b.neg
    } else if bz {
        a.neg
    } else if a.neg != b.neg {
        a.neg
    } else if a.neg {
        magnitude_less(b, a, Ghost(w))
    } else {
        magnitude_less(a, b, Ghost(w))
    }
}

} // verus!
