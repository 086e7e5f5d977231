//! Backend-neutral network semantics: probabilities and the network model.

use std::ops::Range;
use vstd::prelude::*;

use crate::node::NodeId;

verus! {

/// The decision a probability makes when it is rolled: never happen, always
/// happen, or draw once from the generator and happen iff the top 53 bits of
/// the draw fall below the threshold.
#[derive(Clone, Copy, Debug, PartialEq, Eq)]
pub enum Roll {
    Never,
    Always,
    Below(u64),
}

/// A probability, held as the IEEE-754 bits of a double in `[0.0, 1.0]`
/// (clamped on construction by the caller that has the double).
#[derive(Clone, Copy, Debug, PartialEq, Eq)]
pub struct Prob {
    bits: u64,
}

/// How a probability with these IEEE-754 bits is rolled against a uniform
/// draw `u = (x >> 11) / 2^53`: `u < p` holds exactly when `x >> 11` is below
/// `ceil(p * 2^53)`. A probability at or below zero never happens, one at or
/// above one always happens, and NaN draws but never happens.
pub open spec fn roll_of(bits: u64) -> Roll {
    let sign = bits >> 63u64;
    let e = (bits >> 52u64) & 0x7ffu64;
    let m = bits & 0xF_FFFF_FFFF_FFFFu64;
    if e == 0x7ff && m != 0 {
        Roll::Below(0)
    } else if sign == 1 || (e == 0 && m == 0) {
        Roll::Never
    } else if e >= 1023 {
        Roll::Always
    } else if e == 0 {
        Roll::Below(1)
    } else {
        let sh = 1022 - e;
        let num = 0x10_0000_0000_0000 + m;
        if sh >= 53 {
            Roll::Below(1)
        } else {
            Roll::Below(((num + pow2(sh as nat) - 1) / (pow2(sh as nat) as int)) as u64)
        }
    }
}

/// Two raised to `n`.
pub open spec fn pow2(n: nat) -> nat
    decreases n,
{
    if n == 0 {
        1
    } else {
        2 * pow2((n - 1) as nat)
    }
}

proof fn lemma_pow2_pos(n: nat)
    ensures
        pow2(n) >= 1,
    decreases n,
{
    if n > 0 {
        lemma_pow2_pos((n - 1) as nat);
    }
}

proof fn lemma_pow2_shift(n: u64)
    requires
        n < 64,
    ensures
        (1u64 << n) as nat == pow2(n as nat),
    decreases n,
{
    if n == 0 {
        assert(1u64 << 0u64 == 1) by (bit_vector);
    } else {
        lemma_pow2_shift((n - 1) as u64);
        assert(1u64 << n == 2 * (1u64 << ((n - 1) as u64))) by (bit_vector)
            requires
                0 < n < 64,
        ;
    }
}

/// The sign bit of a double's bits.
pub open spec fn sign_of(bits: u64) -> u64 {
    bits >> 63u64
}

/// The biased exponent field of a double's bits.
pub open spec fn exp_of(bits: u64) -> u64 {
    (bits >> 52u64) & 0x7ffu64
}

/// The fraction field of a double's bits.
pub open spec fn frac_of(bits: u64) -> u64 {
    bits & 0xF_FFFF_FFFF_FFFFu64
}

/// The significand of a finite double, with its hidden bit when normal.
pub open spec fn double_mant(bits: u64) -> nat {
    if exp_of(bits) == 0 {
        frac_of(bits) as nat
    } else {
        (0x10_0000_0000_0000 + frac_of(bits)) as nat
    }
}

/// How many binary places the point of a finite double below one sits
/// left of its significand: its value is `double_mant / 2^double_shift`.
pub open spec fn double_shift(bits: u64) -> nat {
    if exp_of(bits) == 0 {
        1074
    } else {
        (1075 - exp_of(bits)) as nat
    }
}

/// Two to the power of a sum is the product of the powers.
pub proof fn lemma_pow2_add(a: nat, b: nat)
    ensures
        pow2(a + b) == pow2(a) * pow2(b),
    decreases a,
{
    if a == 0 {
        assert(pow2(0) == 1);
        assert(a + b == b);
    } else {
        let a1 = (a - 1) as nat;
        lemma_pow2_add(a1, b);
        assert((a1 + b) + 1 == a + b);
        assert(pow2(a + b) == 2 * pow2(a1 + b));
        assert(pow2(a) == 2 * pow2(a1));
        assert(2 * (pow2(a1) * pow2(b)) == (2 * pow2(a1)) * pow2(b)) by (nonlinear_arith);
    }
}

/// Two to the 53rd.
proof fn lemma_pow2_53()
    ensures
        pow2(53) == 0x20_0000_0000_0000,
{
    reveal_with_fuel(pow2, 54);
}

/// Rolling a probability strictly between zero and one: the threshold is
/// `ceil(p * 2^53)` for the double's exact value `p`, so a draw whose top 53
/// bits are `y` happens exactly when `y / 2^53 < p`.
pub proof fn lemma_roll_is_ceiling(bits: u64)
    requires
        sign_of(bits) == 0,
        exp_of(bits) < 1023,
        !(exp_of(bits) == 0 && frac_of(bits) == 0),
    ensures
        roll_of(bits) is Below,
        ({
            let t = roll_of(bits)->Below_0;
            let a = double_mant(bits) * 0x20_0000_0000_0000;
            let d = pow2(double_shift(bits));
            &&& t * d >= a
            &&& (t - 1) * d < a
            &&& 1 <= t <= 0x20_0000_0000_0000
            &&& forall|y: nat| (y < t) <==> #[trigger] (y * d) < a
        }),
{
    let e = exp_of(bits);
    let m = frac_of(bits);
    assert(m < 0x10_0000_0000_0000) by (bit_vector)
        requires
            m == bits & 0xF_FFFF_FFFF_FFFFu64,
    ;
    lemma_pow2_53();
    let t = roll_of(bits)->Below_0;
    let a = double_mant(bits) * 0x20_0000_0000_0000;
    let d = pow2(double_shift(bits));
    if e == 0 {
        // subnormal: far below 2^-53, so only a zero draw happens
        lemma_pow2_add(53, 1021);
        lemma_pow2_add(53, 53);
        lemma_pow2_mono(106, 1021);
        assert(t == 1);
        assert(m > 0);
        assert(a > 0);
        assert((t - 1) * d == 0) by (nonlinear_arith)
            requires
                t == 1,
        ;
        assert(d >= pow2(106));
        assert(pow2(106) == 0x20_0000_0000_0000 * 0x20_0000_0000_0000);
        assert(a < 0x20_0000_0000_0000 * 0x20_0000_0000_0000) by (nonlinear_arith)
            requires
                a == m * 0x20_0000_0000_0000,
                m < 0x10_0000_0000_0000,
        ;
    } else {
        let sh = (1022 - e) as nat;
        let num: nat = (0x10_0000_0000_0000 + m) as nat;
        lemma_pow2_add(sh, 53);
        assert(double_shift(bits) == sh + 53);
        assert(d == pow2(sh) * 0x20_0000_0000_0000);
        lemma_pow2_pos(sh);
        if sh >= 53 {
            assert(t == 1);
            assert(a > 0);
            assert((t - 1) * d == 0) by (nonlinear_arith)
                requires
                    t == 1,
            ;
            lemma_pow2_mono(53, sh);
            assert(num < 0x20_0000_0000_0000);
            assert(d >= a) by (nonlinear_arith)
                requires
                    d == pow2(sh) * 0x20_0000_0000_0000,
                    pow2(sh) >= 0x20_0000_0000_0000,
                    a == num * 0x20_0000_0000_0000,
                    num < 0x20_0000_0000_0000,
            ;
        } else {
            let b = pow2(sh) as int;
            let q = (num + b - 1) / b;
            vstd::arithmetic::div_mod::lemma_fundamental_div_mod(num + b - 1, b);
            vstd::arithmetic::div_mod::lemma_mod_bound(num + b - 1, b);
            assert(q * b <= num + b - 1 < q * b + b) by (nonlinear_arith)
                requires
                    num + b - 1 == b * q + (num + b - 1) % b,
                    0 <= (num + b - 1) % b < b,
            ;
            assert(q <= num) by (nonlinear_arith)
                requires
                    q * b <= num + b - 1,
                    b >= 1,
                    num >= 1,
            ;
            assert(q >= 1) by (nonlinear_arith)
                requires
                    num + b - 1 < q * b + b,
                    b >= 1,
                    num >= 1,
            ;
            assert(t == q);
            assert(t * d >= a) by (nonlinear_arith)
                requires
                    q * b >= num,
                    t == q,
                    d == b * 0x20_0000_0000_0000,
                    a == num * 0x20_0000_0000_0000,
            ;
            assert((t - 1) * d < a) by (nonlinear_arith)
                requires
                    q * b - b < num,
                    t == q,
                    d == b * 0x20_0000_0000_0000,
                    a == num * 0x20_0000_0000_0000,
            ;
        }
    }
    assert(t * d >= a);
    assert((t - 1) * d < a);
    assert(1 <= t <= 0x20_0000_0000_0000);
    assert forall|y: nat| (y < t) <==> #[trigger] (y * d) < a by {
        if y < t {
            assert(y * d <= (t - 1) * d) by (nonlinear_arith)
                requires
                    y <= t - 1,
                    d >= 0,
            ;
        } else {
            assert(y * d >= t * d) by (nonlinear_arith)
                requires
                    y >= t,
                    d >= 0,
            ;
        }
    }
}

/// Rolling a probability outside the open unit interval: a NaN draws but
/// never happens; a value at or below zero (either zero, a negative number,
/// minus infinity) never happens; a value at or above one (plus infinity
/// included) always happens.
pub proof fn lemma_roll_edges(bits: u64)
    ensures
        exp_of(bits) == 0x7ff && frac_of(bits) != 0 ==> roll_of(bits) == Roll::Below(0),
        !(exp_of(bits) == 0x7ff && frac_of(bits) != 0) && (sign_of(bits) == 1 || (exp_of(bits) == 0
            && frac_of(bits) == 0)) ==> roll_of(bits) == Roll::Never,
        !(exp_of(bits) == 0x7ff && frac_of(bits) != 0) && sign_of(bits) == 0 && exp_of(bits) >= 1023
            ==> roll_of(bits) == Roll::Always,
{
}

/// Powers of two grow with the exponent.
proof fn lemma_pow2_mono(a: nat, b: nat)
    requires
        a <= b,
    ensures
        pow2(a) <= pow2(b),
    decreases b,
{
    if a < b {
        lemma_pow2_mono(a, (b - 1) as nat);
        lemma_pow2_pos((b - 1) as nat);
    }
}

impl Prob {
    /// A probability from the IEEE-754 bits of a double.
    pub fn from_bits(bits: u64) -> (p: Prob)
        ensures
            p.bits() == bits,
    {
        Prob { bits }
    }

    /// The IEEE-754 bits of the probability's double.
    pub fn to_bits(&self) -> (b: u64)
        ensures
            b == self.bits(),
    {
        self.bits
    }

    /// The IEEE-754 bits of the probability's double.
    pub closed spec fn bits(&self) -> u64 {
        self.bits
    }

    /// Probability 0.0 — the event never happens.
    pub fn never() -> (p: Prob)
        ensures
            p.bits() == 0,
            roll_of(p.bits()) == Roll::Never,
    {
        let p = Prob { bits: 0 };
        assert(((0u64 >> 52u64) & 0x7ffu64) == 0 && (0u64 & 0xF_FFFF_FFFF_FFFFu64) == 0
            && (0u64 >> 63u64) == 0) by (bit_vector);
        p
    }

    /// Probability 1.0 — the event always happens.
    pub fn always() -> (p: Prob)
        ensures
            p.bits() == 0x3FF0_0000_0000_0000,
            roll_of(p.bits()) == Roll::Always,
    {
        let b: u64 = 0x3FF0_0000_0000_0000;
        assert(((b >> 52u64) & 0x7ffu64) == 1023 && (b & 0xF_FFFF_FFFF_FFFFu64) == 0 && (b >> 63u64)
            == 0) by (bit_vector)
            requires
                b == 0x3FF0_0000_0000_0000u64,
        ;
        Prob { bits: b }
    }

    /// How this probability is rolled.
    pub fn roll(&self) -> (r: Roll)
        ensures
            r == roll_of(self.bits()),
    {
        let bits = self.bits;
        let sign: u64 = bits >> 63u64;
        let e: u64 = (bits >> 52u64) & 0x7ffu64;
        let m: u64 = bits & 0xF_FFFF_FFFF_FFFFu64;
        assert(e <= 0x7ff && m <= 0xF_FFFF_FFFF_FFFF && sign <= 1) by (bit_vector)
            requires
                e == (bits >> 52u64) & 0x7ffu64,
                m == bits & 0xF_FFFF_FFFF_FFFFu64,
                sign == bits >> 63u64,
        ;
        if e == 0x7ff && m != 0 {
            Roll::Below(0)
        } else if sign == 1 || (e == 0 && m == 0) {
            Roll::Never
        } else if e >= 1023 {
            Roll::Always
        } else if e == 0 {
            Roll::Below(1)
        } else {
            let sh: u64 = 1022 - e;
            let num: u64 = 0x10_0000_0000_0000 + m;
            if sh >= 53 {
                Roll::Below(1)
            } else {
                proof {
                    lemma_pow2_shift(sh);
                }
                let p2: u64 = 1u64 << sh;
                assert(1 <= p2 <= 0x10_0000_0000_0000) by (bit_vector)
                    requires
                        p2 == 1u64 << sh,
                        sh < 53,
                ;
                Roll::Below((num + p2 - 1) / p2)
            }
        }
    }
}

/// A quantitative network model: per-link delay, loss, duplication,
/// ordering.
#[derive(Clone, Debug, PartialEq)]
pub struct NetworkModel {
    /// Per-message delay range, in milliseconds.
    pub delay_ms: Range<u64>,
    /// Probability a message is dropped.
    pub loss: Prob,
    /// Probability a delivered message is duplicated.
    pub duplicate: Prob,
    /// Whether per-link delivery is FIFO.
    pub ordered: bool,
}

impl NetworkModel {
    /// Per-link FIFO with no loss, duplication, or delay.
    pub fn ordered_reliable() -> (m: NetworkModel)
        ensures
            m.delay_ms.start == 0 && m.delay_ms.end == 0,
            m.loss.bits() == 0,
            m.duplicate.bits() == 0,
            m.ordered,
    {
        NetworkModel { delay_ms: 0..0, loss: Prob::never(), duplicate: Prob::never(), ordered: true }
    }
}

/// Constructors for the in-memory transport's network semantics.
pub struct InMemory;

impl InMemory {
    /// Per-link FIFO, no loss.
    pub fn ordered() -> (m: NetworkModel)
        ensures
            m.delay_ms.start == 0 && m.delay_ms.end == 0,
            m.loss.bits() == 0,
            m.duplicate.bits() == 0,
            m.ordered,
    {
        NetworkModel::ordered_reliable()
    }

    /// Reorder + loss (2%) + duplication (1%), 0..50 ms delay — an
    /// adversarial default.
    pub fn unordered_lossy() -> (m: NetworkModel)
        ensures
            m.delay_ms.start == 0 && m.delay_ms.end == 50,
            m.loss.bits() == 0x3F94_7AE1_47AE_147B,
            m.duplicate.bits() == 0x3F84_7AE1_47AE_147B,
            !m.ordered,
    {
        NetworkModel {
            delay_ms: 0..50,
            loss: Prob::from_bits(0x3F94_7AE1_47AE_147B),
            duplicate: Prob::from_bits(0x3F84_7AE1_47AE_147B),
            ordered: false,
        }
    }

    /// An explicit model.
    pub fn with(model: NetworkModel) -> (m: NetworkModel)
        ensures
            m == model,
    {
        model
    }
}

/// The transport seam an executor installs beneath the nodes. `Msg` is the
/// node's wire message type.
pub trait Transport {
    /// The message type carried between nodes.
    type Msg;

    /// Enqueue `msg` for delivery from `from` to `to`, subject to the active
    /// network model and fault schedule.
    fn send(&mut self, from: NodeId, to: NodeId, msg: Self::Msg);
}

/// An opaque wire frame carried by a real-stack transport.
#[derive(Clone, Debug)]
pub struct IrohFrame(pub Vec<u8>);

} // verus!
