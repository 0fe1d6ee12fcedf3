//! The text of numbers the kernel prints: an integer in a given base, and a
//! labelled list of integers.

use vstd::prelude::*;

verus! {

/// The character of the digit `d`: `0` to `9`, then `A` onwards.
pub open spec fn digit_char(d: nat) -> u8 {
    if d <= 9 {
        (48 + d) as u8
    } else {
        (55 + d) as u8
    }
}

/// The digits of `n` in the base `b`, most significant first, without
/// leading zeros (a single digit for a number below `b`).
pub open spec fn digits_of(n: nat, b: nat) -> Seq<u8>
    decreases n,
{
    if b < 2 || n < b {
        seq![digit_char(n)]
    } else {
        proof {
            assert(n / b < n) by (nonlinear_arith)
                requires
                    b >= 2,
                    n >= b,
            ;
        }
        digits_of(n / b, b).push(digit_char(n % b))
    }
}

/// The text of the integer `s` in the base `b`: `0` for zero, a minus sign
/// before the digits of a negative number.
pub open spec fn integer_text_spec(s: int, b: nat) -> Seq<u8> {
    if s == 0 {
        seq![48u8]
    } else if s < 0 {
        seq![45u8] + digits_of((-s) as nat, b)
    } else {
        digits_of(s as nat, b)
    }
}

/// The text of the integer `s` in the base `index`, see
/// [integer_text_spec]: digits `0` to `9`, then upper-case letters.
pub fn integer_text(s: i32, index: u8) -> (r: Vec<u8>)
    requires
        2 <= index <= 201,
        s != i32::MIN,
    ensures
        r@ == integer_text_spec(s as int, index as nat),
{
    if s == 0 {
        let mut r: Vec<u8> = Vec::new();
        r.push(48u8);
        proof {
            assert(r@ =~= seq![48u8]);
        }
        return r;
    }
    let neg = s < 0;
    let n: u32 = if neg {
        (-s) as u32
    } else {
        s as u32
    };
    let b = index as u32;
    let mut m: u32 = n;
    let mut out: Vec<u8> = Vec::new();
    while m >= b
        invariant
            2 <= b <= 201,
            digits_of(n as nat, b as nat) == digits_of(m as nat, b as nat) + out@,
        decreases m,
    {
        let tail = m % b;
        let c: u8 = if tail <= 9 {
            48 + tail as u8
        } else {
            55 + tail as u8
        };
        proof {
            assert(digits_of(m as nat, b as nat) == digits_of((m / b) as nat, b as nat).push(c));
            assert(digits_of((m / b) as nat, b as nat).push(c) + out@ =~= digits_of((m / b) as nat, b as nat) + (
            seq![c] + out@));
        }
        out.insert(0, c);
        m = m / b;
    }
    let c: u8 = if m <= 9 {
        48 + m as u8
    } else {
        55 + m as u8
    };
    out.insert(0, c);
    proof {
        assert(digits_of(m as nat, b as nat) == seq![c]);
    }
    if neg {
        out.insert(0, 45u8);
        proof {
            assert(out@ =~= seq![45u8] + digits_of(n as nat, b as nat));
        }
    }
    out
}

/// The prefix printed before a number in the base `index`: `0b`, `0o`,
/// nothing or `0x` for the bases 2, 8, 10 and 16, and `(Base: N)` with the
/// base in decimal otherwise.
pub open spec fn base_prefix(index: u8) -> Seq<u8> {
    if index == 2 {
        seq![48u8, 98u8]
    } else if index == 8 {
        seq![48u8, 111u8]
    } else if index == 10 {
        Seq::empty()
    } else if index == 16 {
        seq![48u8, 120u8]
    } else {
        seq![40u8, 66u8, 97u8, 115u8, 101u8, 58u8, 32u8] + integer_text_spec(index as int, 10) + seq![41u8]
    }
}

/// The text of the label `fmt` followed by the numbers `args` in the base
/// `index`, each after a space and the base's prefix, see [base_prefix].
pub open spec fn printnum_spec(fmt: Seq<u8>, args: Seq<i32>, index: u8) -> Seq<u8>
    decreases args.len(),
{
    if args.len() == 0 {
        fmt
    } else {
        printnum_spec(fmt, args.drop_last(), index) + seq![32u8] + base_prefix(index) + integer_text_spec(
            args.last() as int,
            index as nat,
        )
    }
}

/// The text of the label `fmt` followed by the numbers `args` in the base
/// `index`, see [printnum_spec].
pub fn printnum_text(fmt: &[u8], args: &[i32], index: u8) -> (r: Vec<u8>)
    requires
        2 <= index <= 201,
        forall|i: int| 0 <= i < args@.len() ==> #[trigger] args@[i] != i32::MIN,
    ensures
        r@ == printnum_spec(fmt@, args@, index),
{
    let mut out: Vec<u8> = Vec::new();
    let mut k: usize = 0;
    while k < fmt.len()
        invariant
            k <= fmt@.len(),
            out@ == fmt@.subrange(0, k as int),
        decreases fmt@.len() - k,
    {
        out.push(fmt[k]);
        k = k + 1;
        proof {
            assert(out@ =~= fmt@.subrange(0, k as int));
        }
    }
    proof {
        assert(fmt@.subrange(0, fmt@.len() as int) =~= fmt@);
    }
    let mut i: usize = 0;
    while i < args.len()
        invariant
            2 <= index <= 201,
            forall|j: int| 0 <= j < args@.len() ==> #[trigger] args@[j] != i32::MIN,
            i <= args@.len(),
            out@ == printnum_spec(fmt@, args@.subrange(0, i as int), index),
        decreases args@.len() - i,
    {
        let ghost before = out@;
        out.push(32u8);
        let prefix = base_prefix_text(index);
        append(&mut out, &prefix);
        let digits = integer_text(args[i], index);
        append(&mut out, &digits);
        proof {
            let sub = args@.subrange(0, i + 1);
            assert(sub.drop_last() =~= args@.subrange(0, i as int));
            assert(sub.last() == args@[i as int]);
            assert(out@ =~= before + seq![32u8] + base_prefix(index) + integer_text_spec(args@[i as int] as int, index as nat));
        }
        i = i + 1;
    }
    proof {
        assert(args@.subrange(0, args@.len() as int) =~= args@);
    }
    out
}

/// Append the bytes `b` to `out`.
fn append(out: &mut Vec<u8>, b: &Vec<u8>)
    ensures
        final(out)@ == old(out)@ + b@,
{
    let mut k: usize = 0;
    while k < b.len()
        invariant
            k <= b@.len(),
            out@ == old(out)@ + b@.subrange(0, k as int),
        decreases b@.len() - k,
    {
        out.push(b[k]);
        k = k + 1;
        proof {
            assert(out@ =~= old(out)@ + b@.subrange(0, k as int));
        }
    }
    proof {
        assert(b@.subrange(0, b@.len() as int) =~= b@);
    }
}

/// The prefix printed before a number in the base `index`, see
/// [base_prefix].
fn base_prefix_text(index: u8) -> (r: Vec<u8>)
    requires
        2 <= index <= 201,
    ensures
        r@ == base_prefix(index),
{
    if index == 2 {
        let r = vec![48u8, 98u8];
        assert(r@ =~= base_prefix(index));
        r
    } else if index == 8 {
        let r = vec![48u8, 111u8];
        assert(r@ =~= base_prefix(index));
        r
    } else if index == 10 {
        let r: Vec<u8> = Vec::new();
        assert(r@ =~= base_prefix(index));
        r
    } else if index == 16 {
        let r = vec![48u8, 120u8];
        assert(r@ =~= base_prefix(index));
        r
    } else {
        let mut r = vec![40u8, 66u8, 97u8, 115u8, 101u8, 58u8, 32u8];
        let digits = integer_text(index as i32, 10);
        append(&mut r, &digits);
        r.push(41u8);
        assert(r@ =~= base_prefix(index));
        r
    }
}

} // verus!
