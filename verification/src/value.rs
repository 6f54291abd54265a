//! Conserved values: fixed-width 256-bit unsigned arithmetic.
//!
//! All arithmetic is exact: every operation either states in `requires`
//! that it cannot wrap, or reports overflow through its result. Nothing
//! wraps silently.

use vstd::prelude::*;
use vstd::arithmetic::div_mod::lemma_fundamental_div_mod;
use crate::errors::FlowError;

verus! {

/// A 256-bit unsigned integer, four 64-bit limbs, least significant first.
#[derive(Clone, Copy, PartialEq, Eq, Structural, Debug)]
pub struct U256 {
    pub l0: u64,
    pub l1: u64,
    pub l2: u64,
    pub l3: u64,
}

impl U256 {
    /// The mathematical value held.
    pub open spec fn val(self) -> nat {
        (self.l0 as nat
            + self.l1 as nat * 0x1_0000_0000_0000_0000nat
            + self.l2 as nat * 0x1_0000_0000_0000_0000_0000_0000_0000_0000nat
            + self.l3 as nat
            * 0x1_0000_0000_0000_0000_0000_0000_0000_0000_0000_0000_0000_0000nat) as nat
    }

    /// The largest representable value, 2^256 - 1.
    pub open spec fn max_val() -> nat {
        0xffff_ffff_ffff_ffff_ffff_ffff_ffff_ffff_ffff_ffff_ffff_ffff_ffff_ffff_ffff_ffffnat
    }

    pub fn zero() -> (r: U256)
        ensures
            r.val() == 0,
    {
        U256 { l0: 0, l1: 0, l2: 0, l3: 0 }
    }

    pub fn from_u64(x: u64) -> (r: U256)
        ensures
            r.val() == x,
    {
        U256 { l0: x, l1: 0, l2: 0, l3: 0 }
    }

    pub fn max_value() -> (r: U256)
        ensures
            r.val() == U256::max_val(),
    {
        U256 {
            l0: 0xffff_ffff_ffff_ffff,
            l1: 0xffff_ffff_ffff_ffff,
            l2: 0xffff_ffff_ffff_ffff,
            l3: 0xffff_ffff_ffff_ffff,
        }
    }

    pub fn is_zero(&self) -> (r: bool)
        ensures
            r == (self.val() == 0),
    {
        self.l0 == 0 && self.l1 == 0 && self.l2 == 0 && self.l3 == 0
    }

    /// Strict comparison of the held values.
    pub fn lt(&self, other: &U256) -> (r: bool)
        ensures
            r == (self.val() < other.val()),
    {
        proof {
            lemma_val_bounds(*self);
            lemma_val_bounds(*other);
        }
        if self.l3 != other.l3 {
            self.l3 < other.l3
        } else if self.l2 != other.l2 {
            self.l2 < other.l2
        } else if self.l1 != other.l1 {
            self.l1 < other.l1
        } else {
            self.l0 < other.l0
        }
    }

    pub fn le(&self, other: &U256) -> (r: bool)
        ensures
            r == (self.val() <= other.val()),
    {
        !other.lt(self)
    }

    /// The smaller of the two values.
    pub fn min_of(self, other: U256) -> (r: U256)
        ensures
            r.val() == if self.val() <= other.val() {
                self.val()
            } else {
                other.val()
            },
    {
        if self.le(&other) {
            self
        } else {
            other
        }
    }

    /// Exact addition; overflow is reported, never wrapped.
    pub fn checked_add(self, other: U256) -> (r: Option<U256>)
        ensures
            match r {
                Some(s) => s.val() == self.val() + other.val(),
                None => self.val() + other.val() > U256::max_val(),
            },
    {
        let s0: u128 = self.l0 as u128 + other.l0 as u128;
        let r0: u64 = (s0 % 0x1_0000_0000_0000_0000u128) as u64;
        let c0: u64 = (s0 / 0x1_0000_0000_0000_0000u128) as u64;
        let s1: u128 = self.l1 as u128 + other.l1 as u128 + c0 as u128;
        let r1: u64 = (s1 % 0x1_0000_0000_0000_0000u128) as u64;
        let c1: u64 = (s1 / 0x1_0000_0000_0000_0000u128) as u64;
        let s2: u128 = self.l2 as u128 + other.l2 as u128 + c1 as u128;
        let r2: u64 = (s2 % 0x1_0000_0000_0000_0000u128) as u64;
        let c2: u64 = (s2 / 0x1_0000_0000_0000_0000u128) as u64;
        let s3: u128 = self.l3 as u128 + other.l3 as u128 + c2 as u128;
        let r3: u64 = (s3 % 0x1_0000_0000_0000_0000u128) as u64;
        let c3: u64 = (s3 / 0x1_0000_0000_0000_0000u128) as u64;
        let out = U256 { l0: r0, l1: r1, l2: r2, l3: r3 };
        proof {
            lemma_fundamental_div_mod(s0 as int, 0x1_0000_0000_0000_0000);
            lemma_fundamental_div_mod(s1 as int, 0x1_0000_0000_0000_0000);
            lemma_fundamental_div_mod(s2 as int, 0x1_0000_0000_0000_0000);
            lemma_fundamental_div_mod(s3 as int, 0x1_0000_0000_0000_0000);
            lemma_val_bounds(out);
            assert(out.val() + c3 as nat
                * 0x1_0000_0000_0000_0000_0000_0000_0000_0000_0000_0000_0000_0000_0000_0000_0000_0000nat
                == self.val() + other.val());
        }
        if c3 == 0 {
            Some(out)
        } else {
            None
        }
    }

    /// Addition under a caller-proved bound; cannot overflow.
    pub fn add_val(self, other: U256) -> (r: U256)
        requires
            self.val() + other.val() <= U256::max_val(),
        ensures
            r.val() == self.val() + other.val(),
    {
        self.checked_add(other).unwrap()
    }

    /// Exact subtraction; underflow is reported, never wrapped.
    pub fn checked_sub(self, other: U256) -> (r: Option<U256>)
        ensures
            match r {
                Some(d) => self.val() >= other.val() && d.val() == self.val() - other.val(),
                None => self.val() < other.val(),
            },
    {
        let t0: u128 = 0x1_0000_0000_0000_0000u128 + self.l0 as u128 - other.l0 as u128;
        let r0: u64 = (t0 % 0x1_0000_0000_0000_0000u128) as u64;
        let b0: u64 = 1 - (t0 / 0x1_0000_0000_0000_0000u128) as u64;
        let t1: u128 = 0x1_0000_0000_0000_0000u128 + self.l1 as u128 - other.l1 as u128
            - b0 as u128;
        let r1: u64 = (t1 % 0x1_0000_0000_0000_0000u128) as u64;
        let b1: u64 = 1 - (t1 / 0x1_0000_0000_0000_0000u128) as u64;
        let t2: u128 = 0x1_0000_0000_0000_0000u128 + self.l2 as u128 - other.l2 as u128
            - b1 as u128;
        let r2: u64 = (t2 % 0x1_0000_0000_0000_0000u128) as u64;
        let b2: u64 = 1 - (t2 / 0x1_0000_0000_0000_0000u128) as u64;
        let t3: u128 = 0x1_0000_0000_0000_0000u128 + self.l3 as u128 - other.l3 as u128
            - b2 as u128;
        let r3: u64 = (t3 % 0x1_0000_0000_0000_0000u128) as u64;
        let b3: u64 = 1 - (t3 / 0x1_0000_0000_0000_0000u128) as u64;
        let out = U256 { l0: r0, l1: r1, l2: r2, l3: r3 };
        proof {
            lemma_fundamental_div_mod(t0 as int, 0x1_0000_0000_0000_0000);
            lemma_fundamental_div_mod(t1 as int, 0x1_0000_0000_0000_0000);
            lemma_fundamental_div_mod(t2 as int, 0x1_0000_0000_0000_0000);
            lemma_fundamental_div_mod(t3 as int, 0x1_0000_0000_0000_0000);
            lemma_val_bounds(out);
            assert(out.val() == self.val() - other.val() + b3 as nat
                * 0x1_0000_0000_0000_0000_0000_0000_0000_0000_0000_0000_0000_0000_0000_0000_0000_0000nat);
        }
        if b3 == 0 {
            Some(out)
        } else {
            None
        }
    }

    /// Subtraction under a caller-proved bound; cannot underflow.
    pub fn sub_val(self, other: U256) -> (r: U256)
        requires
            other.val() <= self.val(),
        ensures
            r.val() == self.val() - other.val(),
    {
        self.checked_sub(other).unwrap()
    }

    /// One exact step of decimal accumulation: ten times the value plus a digit.
    pub fn checked_mul10_add(self, d: u64) -> (r: Option<U256>)
        requires
            d < 10,
        ensures
            match r {
                Some(v) => v.val() == 10 * self.val() + d,
                None => 10 * self.val() + d > U256::max_val(),
            },
    {
        let p0: u128 = self.l0 as u128 * 10 + d as u128;
        let r0: u64 = (p0 % 0x1_0000_0000_0000_0000u128) as u64;
        let c0: u64 = (p0 / 0x1_0000_0000_0000_0000u128) as u64;
        let p1: u128 = self.l1 as u128 * 10 + c0 as u128;
        let r1: u64 = (p1 % 0x1_0000_0000_0000_0000u128) as u64;
        let c1: u64 = (p1 / 0x1_0000_0000_0000_0000u128) as u64;
        let p2: u128 = self.l2 as u128 * 10 + c1 as u128;
        let r2: u64 = (p2 % 0x1_0000_0000_0000_0000u128) as u64;
        let c2: u64 = (p2 / 0x1_0000_0000_0000_0000u128) as u64;
        let p3: u128 = self.l3 as u128 * 10 + c2 as u128;
        let r3: u64 = (p3 % 0x1_0000_0000_0000_0000u128) as u64;
        let c3: u64 = (p3 / 0x1_0000_0000_0000_0000u128) as u64;
        let out = U256 { l0: r0, l1: r1, l2: r2, l3: r3 };
        proof {
            lemma_fundamental_div_mod(p0 as int, 0x1_0000_0000_0000_0000);
            lemma_fundamental_div_mod(p1 as int, 0x1_0000_0000_0000_0000);
            lemma_fundamental_div_mod(p2 as int, 0x1_0000_0000_0000_0000);
            lemma_fundamental_div_mod(p3 as int, 0x1_0000_0000_0000_0000);
            lemma_val_bounds(out);
            assert(out.val() + c3 as nat
                * 0x1_0000_0000_0000_0000_0000_0000_0000_0000_0000_0000_0000_0000_0000_0000_0000_0000nat
                == 10 * self.val() + d);
        }
        if c3 == 0 {
            Some(out)
        } else {
            None
        }
    }

    /// Exact division by ten, with the remainder digit.
    pub fn div10(self) -> (r: (U256, u64))
        ensures
            r.1 < 10,
            10 * r.0.val() + r.1 == self.val(),
    {
        let c3: u128 = self.l3 as u128;
        let q3: u64 = (c3 / 10) as u64;
        let m3: u128 = c3 % 10;
        let c2: u128 = m3 * 0x1_0000_0000_0000_0000u128 + self.l2 as u128;
        let q2: u64 = (c2 / 10) as u64;
        let m2: u128 = c2 % 10;
        let c1: u128 = m2 * 0x1_0000_0000_0000_0000u128 + self.l1 as u128;
        let q1: u64 = (c1 / 10) as u64;
        let m1: u128 = c1 % 10;
        let c0: u128 = m1 * 0x1_0000_0000_0000_0000u128 + self.l0 as u128;
        let q0: u64 = (c0 / 10) as u64;
        let m0: u128 = c0 % 10;
        let q = U256 { l0: q0, l1: q1, l2: q2, l3: q3 };
        proof {
            lemma_fundamental_div_mod(c3 as int, 10);
            lemma_fundamental_div_mod(c2 as int, 10);
            lemma_fundamental_div_mod(c1 as int, 10);
            lemma_fundamental_div_mod(c0 as int, 10);
            assert(10 * q.val() + m0 as nat == self.val());
        }
        (q, m0 as u64)
    }
}

pub open spec fn is_dec_digit(c: char) -> bool {
    '0' <= c && c <= '9'
}

/// A valid unsigned decimal numeral: nonempty, digits only, no separators.
pub open spec fn is_decimal_numeral(s: Seq<char>) -> bool {
    s.len() > 0 && forall|i: int| 0 <= i < s.len() ==> is_dec_digit(#[trigger] s[i])
}

/// The number a decimal digit string denotes.
pub open spec fn dec_value(s: Seq<char>) -> nat
    decreases s.len(),
{
    if s.len() == 0 {
        0
    } else {
        10 * dec_value(s.drop_last()) + (s.last() as int - '0' as int) as nat
    }
}

/// A decimal numeral denotes at least the number any of its prefixes does.
pub proof fn lemma_dec_value_prefix(s: Seq<char>, j: int)
    requires
        forall|i: int| 0 <= i < s.len() ==> is_dec_digit(#[trigger] s[i]),
        0 <= j <= s.len(),
    ensures
        dec_value(s.take(j)) <= dec_value(s),
    decreases s.len(),
{
    if j < s.len() {
        let pre = s.drop_last();
        assert(pre.take(j) =~= s.take(j));
        lemma_dec_value_prefix(pre, j);
    } else {
        assert(s.take(j) =~= s);
    }
}

/// Validates an external decimal value string and reads the number it denotes.
///
/// A string is accepted exactly when it is a nonempty run of decimal digits
/// denoting a number within the 256-bit range. A malformed string is rejected
/// with `ValueFormatError`; a well-formed one whose number exceeds the range,
/// with `ValueRangeError`.
pub fn validate_and_parse_u256(value_str: &str) -> (r: Result<U256, FlowError>)
    ensures
        match r {
            Ok(v) => {
                &&& is_decimal_numeral(value_str@)
                &&& dec_value(value_str@) <= U256::max_val()
                &&& v.val() == dec_value(value_str@)
            },
            Err(e) => {
                ||| (e == FlowError::ValueFormatError && !is_decimal_numeral(value_str@))
                ||| (e == FlowError::ValueRangeError && is_decimal_numeral(value_str@)
                    && dec_value(value_str@) > U256::max_val())
            },
        },
{
    let n = value_str.unicode_len();
    if n == 0 {
        return Err(FlowError::ValueFormatError);
    }
    let mut i: usize = 0;
    while i < n
        invariant
            i <= n,
            n == value_str@.len(),
            forall|j: int| 0 <= j < i ==> is_dec_digit(#[trigger] value_str@[j]),
        decreases n - i,
    {
        let c = value_str.get_char(i);
        let u: u32 = c as u32;
        if !(48 <= u && u <= 57) {
            return Err(FlowError::ValueFormatError);
        }
        i = i + 1;
    }
    let mut acc = U256::zero();
    let mut k: usize = 0;
    while k < n
        invariant
            k <= n,
            n == value_str@.len(),
            is_decimal_numeral(value_str@),
            acc.val() == dec_value(value_str@.take(k as int)),
        decreases n - k,
    {
        let c = value_str.get_char(k);
        let d: u64 = (c as u32 - 48) as u64;
        proof {
            let pre = value_str@.take(k as int);
            let ext = value_str@.take(k as int + 1);
            assert(ext.drop_last() =~= pre);
            assert(ext.last() == value_str@[k as int]);
        }
        match acc.checked_mul10_add(d) {
            Some(v) => {
                acc = v;
            },
            None => {
                proof {
                    lemma_dec_value_prefix(value_str@, k as int + 1);
                }
                return Err(FlowError::ValueRangeError);
            },
        }
        k = k + 1;
    }
    proof {
        assert(value_str@.take(n as int) =~= value_str@);
    }
    Ok(acc)
}

/// Every limb representation stays below 2^256.
pub proof fn lemma_val_bounds(x: U256)
    ensures
        x.val() <= U256::max_val(),
{
    assert(x.l0 as nat <= 0xffff_ffff_ffff_ffff);
    assert(x.l1 as nat <= 0xffff_ffff_ffff_ffff);
    assert(x.l2 as nat <= 0xffff_ffff_ffff_ffff);
    assert(x.l3 as nat <= 0xffff_ffff_ffff_ffff);
}

/// Powers of a base.
pub open spec fn pow_of(base: nat, n: nat) -> nat
    decreases n,
{
    if n == 0 {
        1nat
    } else {
        base * pow_of(base, (n - 1) as nat)
    }
}

/// The number spelled by the digits `ds[idx..]`, least significant first.
pub open spec fn digits_value(ds: Seq<u64>, idx: int, base: nat) -> nat
    decreases ds.len() - idx,
{
    if idx < 0 || idx >= ds.len() {
        0
    } else {
        (ds[idx] + base * digits_value(ds, idx + 1, base)) as nat
    }
}

/// Appending a digit adds its value at the next place.
pub proof fn lemma_digits_push(ds: Seq<u64>, d: u64, idx: int, base: nat)
    requires
        0 <= idx <= ds.len(),
    ensures
        digits_value(ds.push(d), idx, base) == digits_value(ds, idx, base) + d * pow_of(
            base,
            (ds.len() - idx) as nat,
        ),
    decreases ds.len() - idx,
{
    let ds2 = ds.push(d);
    if idx == ds.len() {
        assert(ds2[idx] == d);
        assert(digits_value(ds2, idx + 1, base) == 0);
        assert(digits_value(ds2, idx, base) == d + base * 0);
        assert(digits_value(ds, idx, base) == 0);
        assert(pow_of(base, 0) == 1);
        assert(d * pow_of(base, (ds.len() - idx) as nat) == d);
    } else {
        lemma_digits_push(ds, d, idx + 1, base);
        assert(ds2[idx] == ds[idx]);
        let p = pow_of(base, (ds.len() - idx - 1) as nat);
        assert(digits_value(ds2, idx, base) == ds[idx] + base * digits_value(ds2, idx + 1, base));
        assert(digits_value(ds2, idx + 1, base) == digits_value(ds, idx + 1, base) + d * p);
        assert(base * (digits_value(ds, idx + 1, base) + d * p) == base * digits_value(
            ds,
            idx + 1,
            base,
        ) + d * (base * p)) by (nonlinear_arith);
        assert(pow_of(base, (ds.len() - idx) as nat) == base * p);
        assert(digits_value(ds, idx, base) == ds[idx] + base * digits_value(ds, idx + 1, base));
    }
}

/// The character of one decimal digit.
pub open spec fn digit_char(d: nat) -> char {
    ((48 + d) as u8) as char
}

impl U256 {
    /// Renders the value as its decimal numeral: digits only, no leading
    /// zero except for the numeral of zero itself. `dec_value` reads the
    /// numeral back to this exact value.
    pub fn to_decimal(&self) -> (r: String)
        ensures
            is_decimal_numeral(r@),
            dec_value(r@) == self.val(),
            r@.len() > 1 ==> r@[0] != '0',
    {
        let mut digits: Vec<u64> = Vec::new();
        let mut cur: U256 = *self;
        proof {
            assert(digits@.len() == 0);
            assert(digits_value(digits@, 0, 10) == 0);
            assert(pow_of(10, 0) == 1);
        }
        loop
            invariant_except_break
                digits@.len() > 0 ==> cur.val() > 0,
            invariant
                forall|j: int| 0 <= j < digits@.len() ==> #[trigger] digits@[j] < 10,
                self.val() == digits_value(digits@, 0, 10) + cur.val() * pow_of(
                    10,
                    digits@.len(),
                ),
            ensures
                forall|j: int| 0 <= j < digits@.len() ==> #[trigger] digits@[j] < 10,
                digits@.len() > 0,
                self.val() == digits_value(digits@, 0, 10),
                digits@.len() > 1 ==> digits@.last() > 0,
            decreases cur.val(),
        {
            let ghost pre = digits@;
            let ghost pre_cur = cur;
            let (q, d) = cur.div10();
            digits.push(d);
            cur = q;
            proof {
                lemma_digits_push(pre, d, 0, 10);
                let p = pow_of(10, pre.len());
                assert((10 * q.val() + d) * p == q.val() * (10 * p) + d * p) by (nonlinear_arith);
                assert(pow_of(10, pre.len() + 1) == 10 * p);
                assert(digits@.len() > 1 ==> pre_cur.val() > 0);
            }
            if cur.is_zero() {
                proof {
                    assert(cur.val() == 0);
                    assert(cur.val() * pow_of(10, digits@.len()) == 0);
                    if digits@.len() > 1 {
                        assert(digits@.last() == d);
                        assert(pre_cur.val() == 10 * q.val() + d);
                        assert(d > 0);
                    }
                }
                break;
            }
        }
        let mut out = String::new();
        let mut idx: usize = digits.len();
        while idx > 0
            invariant
                idx <= digits@.len(),
                forall|j: int| 0 <= j < digits@.len() ==> #[trigger] digits@[j] < 10,
                digits@.len() > 0,
                digits@.len() > 1 ==> digits@.last() > 0,
                self.val() == digits_value(digits@, 0, 10),
                out@.len() == digits@.len() - idx,
                forall|j: int| 0 <= j < out@.len() ==> is_dec_digit(#[trigger] out@[j]),
                dec_value(out@) == digits_value(digits@, idx as int, 10),
                out@.len() > 0 ==> out@[0] == digit_char(digits@.last() as nat),
            decreases idx,
        {
            idx = idx - 1;
            let d = digits[idx];
            let ds: &str = if d == 0 {
                "0"
            } else if d == 1 {
                "1"
            } else if d == 2 {
                "2"
            } else if d == 3 {
                "3"
            } else if d == 4 {
                "4"
            } else if d == 5 {
                "5"
            } else if d == 6 {
                "6"
            } else if d == 7 {
                "7"
            } else if d == 8 {
                "8"
            } else {
                "9"
            };
            proof {
                reveal_strlit("0");
                reveal_strlit("1");
                reveal_strlit("2");
                reveal_strlit("3");
                reveal_strlit("4");
                reveal_strlit("5");
                reveal_strlit("6");
                reveal_strlit("7");
                reveal_strlit("8");
                reveal_strlit("9");
                assert(ds@ =~= seq![digit_char(d as nat)]);
            }
            let ghost pre_out = out@;
            out.append(ds);
            proof {
                assert(out@ =~= pre_out.push(digit_char(d as nat)));
                assert(out@.drop_last() =~= pre_out);
                assert(out@.last() == digit_char(d as nat));
                assert(is_dec_digit(digit_char(d as nat)));
                assert(digit_char(d as nat) as int - 48 == d);
                assert(dec_value(out@) == 10 * dec_value(pre_out) + d);
            }
        }
        proof {
            if out@.len() > 1 {
                assert(digits@.len() > 1);
                assert(digits@.last() > 0);
                assert(out@[0] == digit_char(digits@.last() as nat));
                assert(out@[0] != '0');
            }
        }
        out
    }
}

} // verus!
