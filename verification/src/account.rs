//! Account identifiers: fixed 20-byte values with a hexadecimal external form.
//!
//! An external address string is valid only when it is a fixed `0x` prefix
//! followed by exactly 40 hexadecimal digits. Equality of identifiers is
//! byte-wise; the identifier is stored as three machine words holding the
//! 20 bytes in order, most significant first.

use vstd::prelude::*;
use crate::errors::FlowError;
use crate::value::{digits_value, lemma_digits_push, pow_of};

verus! {

/// A 20-byte account identifier: bytes 0..8 in `w0`, 8..16 in `w1`,
/// 16..20 in `w2`, each word big-endian.
#[derive(Clone, Copy, PartialEq, Eq, Structural, Debug)]
pub struct Address {
    pub w0: u64,
    pub w1: u64,
    pub w2: u32,
}

pub open spec fn is_hex_digit(c: char) -> bool {
    ('0' <= c && c <= '9') || ('a' <= c && c <= 'f') || ('A' <= c && c <= 'F')
}

pub open spec fn hex_digit_val(c: char) -> nat {
    if '0' <= c && c <= '9' {
        (c as int - '0' as int) as nat
    } else if 'a' <= c && c <= 'f' {
        (c as int - 'a' as int + 10) as nat
    } else {
        (c as int - 'A' as int + 10) as nat
    }
}

/// The value of a big-endian string of hexadecimal digits.
pub open spec fn hex_value(s: Seq<char>) -> nat
    decreases s.len(),
{
    if s.len() == 0 {
        0
    } else {
        16 * hex_value(s.drop_last()) + hex_digit_val(s.last())
    }
}

pub open spec fn pow16(n: nat) -> nat
    decreases n,
{
    if n == 0 {
        1nat
    } else {
        16 * pow16((n - 1) as nat)
    }
}

/// The fixed-length external address pattern: `0x` and 40 hex digits.
pub open spec fn is_valid_address_string(s: Seq<char>) -> bool {
    &&& s.len() == 42
    &&& s[0] == '0'
    &&& s[1] == 'x'
    &&& forall|i: int| 2 <= i < 42 ==> is_hex_digit(#[trigger] s[i])
}

/// The identifier a valid address string denotes.
pub open spec fn spec_address_of(s: Seq<char>) -> Address {
    Address {
        w0: hex_value(s.subrange(2, 18)) as u64,
        w1: hex_value(s.subrange(18, 34)) as u64,
        w2: hex_value(s.subrange(34, 42)) as u32,
    }
}

pub proof fn lemma_hex_value_bound(s: Seq<char>)
    requires
        forall|i: int| 0 <= i < s.len() ==> is_hex_digit(#[trigger] s[i]),
    ensures
        hex_value(s) < pow16(s.len()),
    decreases s.len(),
{
    if s.len() > 0 {
        lemma_hex_value_bound(s.drop_last());
        assert(is_hex_digit(s.last()));
        assert(hex_digit_val(s.last()) < 16);
    }
}

/// Turns one character into its hexadecimal digit value.
fn hex_digit(c: char) -> (r: Option<u64>)
    ensures
        match r {
            Some(d) => is_hex_digit(c) && d == hex_digit_val(c) && d < 16,
            None => !is_hex_digit(c),
        },
{
    let u: u32 = c as u32;
    if 48 <= u && u <= 57 {
        Some((u - 48) as u64)
    } else if 97 <= u && u <= 102 {
        Some((u - 97 + 10) as u64)
    } else if 65 <= u && u <= 70 {
        Some((u - 65 + 10) as u64)
    } else {
        None
    }
}

/// Reads `count` hexadecimal digits of `address` starting at `start`.
fn parse_hex_run(address: &str, start: usize, count: usize) -> (r: Option<u64>)
    requires
        start + count <= address@.len(),
        start + count <= usize::MAX,
        count <= 16,
    ensures
        match r {
            Some(w) => {
                &&& forall|i: int|
                    start <= i < start + count ==> is_hex_digit(#[trigger] address@[i])
                &&& w == hex_value(address@.subrange(start as int, (start + count) as int))
            },
            None => !(forall|i: int|
                start <= i < start + count ==> is_hex_digit(#[trigger] address@[i])),
        },
{
    let mut w: u64 = 0;
    let mut i: usize = 0;
    while i < count
        invariant
            i <= count,
            count <= 16,
            start + count <= address@.len(),
            start + count <= usize::MAX,
            forall|j: int| start <= j < start + i ==> is_hex_digit(#[trigger] address@[j]),
            w == hex_value(address@.subrange(start as int, (start + i) as int)),
            w < pow16(i as nat),
        decreases count - i,
    {
        let c = address.get_char(start + i);
        match hex_digit(c) {
            None => {
                return None;
            },
            Some(d) => {
                proof {
                    assert(pow16(i as nat) <= pow16(15)) by {
                        lemma_pow16_increases(i as nat, 15);
                    }
                    assert(pow16(15) == 0x1000_0000_0000_0000) by {
                        reveal_with_fuel(pow16, 16);
                    }
                    let pre = address@.subrange(start as int, (start + i) as int);
                    let ext = address@.subrange(start as int, (start + i + 1) as int);
                    assert(ext.drop_last() =~= pre);
                    assert(ext.last() == address@[start + i]);
                }
                w = w * 16 + d;
                i = i + 1;
            },
        }
    }
    proof {
        assert(address@.subrange(start as int, (start + count) as int) =~= address@.subrange(
            start as int,
            (start + i) as int,
        ));
    }
    Some(w)
}

pub proof fn lemma_pow16_increases(m: nat, n: nat)
    requires
        m <= n,
    ensures
        pow16(m) <= pow16(n),
    decreases n,
{
    if m < n {
        lemma_pow16_increases(m, (n - 1) as nat);
        assert(pow16((n - 1) as nat) >= 1) by {
            lemma_pow16_increases(0, (n - 1) as nat);
        }
    }
}

/// Validates an external address string and reads the identifier it denotes.
///
/// A string is accepted exactly when it matches the fixed pattern of a `0x`
/// prefix and 40 hexadecimal digits; anything else is rejected with
/// `AddressFormatError` before any graph access.
pub fn validate_and_parse_ethereum_address(address: &str) -> (r: Result<Address, FlowError>)
    ensures
        match r {
            Ok(a) => is_valid_address_string(address@) && a == spec_address_of(address@),
            Err(e) => !is_valid_address_string(address@) && e == FlowError::AddressFormatError,
        },
{
    let n = address.unicode_len();
    if n != 42 {
        return Err(FlowError::AddressFormatError);
    }
    if address.get_char(0) != '0' || address.get_char(1) != 'x' {
        return Err(FlowError::AddressFormatError);
    }
    let r0 = parse_hex_run(address, 2, 16);
    let r1 = parse_hex_run(address, 18, 16);
    let r2 = parse_hex_run(address, 34, 8);
    match (r0, r1, r2) {
        (Some(w0), Some(w1), Some(w2)) => {
            proof {
                lemma_hex_value_bound(address@.subrange(34, 42));
                assert(pow16(8) == 0x1_0000_0000) by {
                    reveal_with_fuel(pow16, 9);
                }
            }
            Ok(Address { w0, w1, w2: w2 as u32 })
        },
        _ => Err(FlowError::AddressFormatError),
    }
}

/// The character of one hexadecimal digit, lower case.
pub open spec fn hex_digit_char(d: nat) -> char {
    if d < 10 {
        ((48 + d) as u8) as char
    } else {
        ((87 + d) as u8) as char
    }
}

/// Appends exactly `width` hexadecimal digits spelling `w`, most
/// significant first.
fn append_hex_word(out: &mut String, w: u64, width: usize)
    requires
        width <= 16,
        w < pow_of(16, width as nat),
    ensures
        final(out)@.len() == old(out)@.len() + width,
        final(out)@.subrange(0, old(out)@.len() as int) == old(out)@,
        forall|j: int|
            old(out)@.len() <= j < final(out)@.len() ==> is_hex_digit(#[trigger] final(out)@[j]),
        hex_value(final(out)@.subrange(old(out)@.len() as int, final(out)@.len() as int)) == w,
{
    let ghost base = out@;
    let mut nibbles: Vec<u64> = Vec::new();
    let mut cur: u64 = w;
    let mut k: usize = 0;
    proof {
        assert(digits_value(nibbles@, 0, 16) == 0);
        assert(pow_of(16, 0) == 1);
    }
    while k < width
        invariant
            k <= width,
            width <= 16,
            nibbles@.len() == k,
            forall|j: int| 0 <= j < k ==> #[trigger] nibbles@[j] < 16,
            w == digits_value(nibbles@, 0, 16) + cur * pow_of(16, k as nat),
            cur < pow_of(16, (width - k) as nat),
        decreases width - k,
    {
        let ghost pre = nibbles@;
        let d: u64 = cur % 16;
        let next: u64 = cur / 16;
        nibbles.push(d);
        proof {
            lemma_digits_push(pre, d, 0, 16);
            let p = pow_of(16, pre.len());
            assert(cur == 16 * next + d);
            assert((16 * next + d) * p == next * (16 * p) + d * p) by (nonlinear_arith);
            assert(pow_of(16, pre.len() + 1) == 16 * p);
            let pr = pow_of(16, (width - k - 1) as nat);
            assert(pow_of(16, (width - k) as nat) == 16 * pr);
            assert(16 * next <= cur);
            assert(next < pr);
        }
        cur = next;
        k = k + 1;
    }
    proof {
        assert(pow_of(16, 0) == 1);
        assert(cur == 0);
        assert(cur * pow_of(16, width as nat) == 0);
        assert(w == digits_value(nibbles@, 0, 16));
    }
    let mut idx: usize = width;
    while idx > 0
        invariant
            idx <= width,
            width <= 16,
            nibbles@.len() == width,
            forall|j: int| 0 <= j < width ==> #[trigger] nibbles@[j] < 16,
            w == digits_value(nibbles@, 0, 16),
            out@.len() == base.len() + width - idx,
            out@.subrange(0, base.len() as int) == base,
            forall|j: int| base.len() <= j < out@.len() ==> is_hex_digit(#[trigger] out@[j]),
            hex_value(out@.subrange(base.len() as int, out@.len() as int)) == digits_value(
                nibbles@,
                idx as int,
                16,
            ),
        decreases idx,
    {
        idx = idx - 1;
        let d = nibbles[idx];
        let ds: &str = if d == 0 {
            "0"
        } else if d == 1 {
            "1"
        } else if d == 2 {
            "2"
        } else if d == 3 {
            "3"
        } else if d == 4 {
            "4"
        } else if d == 5 {
            "5"
        } else if d == 6 {
            "6"
        } else if d == 7 {
            "7"
        } else if d == 8 {
            "8"
        } else if d == 9 {
            "9"
        } else if d == 10 {
            "a"
        } else if d == 11 {
            "b"
        } else if d == 12 {
            "c"
        } else if d == 13 {
            "d"
        } else if d == 14 {
            "e"
        } else {
            "f"
        };
        proof {
            reveal_strlit("0");
            reveal_strlit("1");
            reveal_strlit("2");
            reveal_strlit("3");
            reveal_strlit("4");
            reveal_strlit("5");
            reveal_strlit("6");
            reveal_strlit("7");
            reveal_strlit("8");
            reveal_strlit("9");
            reveal_strlit("a");
            reveal_strlit("b");
            reveal_strlit("c");
            reveal_strlit("d");
            reveal_strlit("e");
            reveal_strlit("f");
            assert(ds@ =~= seq![hex_digit_char(d as nat)]);
        }
        let ghost pre_out = out@;
        out.append(ds);
        proof {
            assert(out@ =~= pre_out.push(hex_digit_char(d as nat)));
            assert(out@.subrange(0, base.len() as int) =~= pre_out.subrange(
                0,
                base.len() as int,
            ));
            let run = out@.subrange(base.len() as int, out@.len() as int);
            let pre_run = pre_out.subrange(base.len() as int, pre_out.len() as int);
            assert(run =~= pre_run.push(hex_digit_char(d as nat)));
            assert(run.drop_last() =~= pre_run);
            assert(is_hex_digit(hex_digit_char(d as nat)));
            assert(hex_digit_val(hex_digit_char(d as nat)) == d);
            assert(hex_value(run) == 16 * hex_value(pre_run) + d);
        }
    }
}

impl Address {
    /// The external form of the identifier: the fixed `0x` prefix and 40
    /// hexadecimal digits, the 20 bytes in order. Reading the string back
    /// with `spec_address_of` yields this exact identifier.
    pub fn to_hex(&self) -> (r: String)
        ensures
            is_valid_address_string(r@),
            spec_address_of(r@) == *self,
    {
        let mut out = String::new();
        out.append("0x");
        proof {
            reveal_strlit("0x");
            assert(pow_of(16, 16) == 0x1_0000_0000_0000_0000) by {
                reveal_with_fuel(pow_of, 17);
            }
            assert(pow_of(16, 8) == 0x1_0000_0000) by {
                reveal_with_fuel(pow_of, 9);
            }
            assert(out@.len() == 2);
            assert(out@[0] == '0');
            assert(out@[1] == 'x');
        }
        let ghost s0 = out@;
        append_hex_word(&mut out, self.w0, 16);
        let ghost s1 = out@;
        append_hex_word(&mut out, self.w1, 16);
        let ghost s2 = out@;
        append_hex_word(&mut out, self.w2 as u64, 8);
        proof {
            assert(out@.len() == 42);
            assert(out@[0] == '0');
            assert(out@[1] == 'x');
            assert(out@.subrange(2, 18) =~= s1.subrange(2, 18));
            assert(s1.subrange(2, 18) =~= s1.subrange(s0.len() as int, s1.len() as int));
            assert(out@.subrange(18, 34) =~= s2.subrange(18, 34));
            assert(s2.subrange(18, 34) =~= s2.subrange(s1.len() as int, s2.len() as int));
            assert(out@.subrange(34, 42) =~= out@.subrange(s2.len() as int, out@.len() as int));
            assert(hex_value(out@.subrange(2, 18)) == self.w0);
            assert(hex_value(out@.subrange(18, 34)) == self.w1);
            assert(hex_value(out@.subrange(34, 42)) == self.w2 as u64);
            assert forall|i: int| 2 <= i < 42 implies is_hex_digit(#[trigger] out@[i]) by {
                if i < 18 {
                    assert(out@[i] == s1[i]);
                } else if i < 34 {
                    assert(out@[i] == s2[i]);
                }
            }
        }
        out
    }
}

} // verus!
