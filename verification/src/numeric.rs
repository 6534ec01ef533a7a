//! Decimal rendering and parsing of unsigned 64-bit values, used by the
//! persisted prefix document (context identifiers are stored as decimal
//! strings) and by the record formatting.

use vstd::prelude::*;
use crate::text::push_char;

verus! {

/// Whether `c` is a decimal digit.
pub open spec fn is_digit(c: char) -> bool {
    '0' <= c && c <= '9'
}

/// Numeric value of a decimal digit.
pub open spec fn digit_val(c: char) -> nat {
    (c as u32 - '0' as u32) as nat
}

/// The decimal digit character for a value below ten.
pub open spec fn dec_digit(d: nat) -> char {
    (('0' as u32 + d) as u32) as char
}

/// Canonical decimal rendering of a natural number: no sign, no leading
/// zeros, a single `'0'` for zero.
pub open spec fn dec_str(n: nat) -> Seq<char>
    decreases n,
{
    if n < 10 {
        seq![dec_digit(n)]
    } else {
        dec_str(n / 10) + seq![dec_digit(n % 10)]
    }
}

/// Numeric value of a digit string.
pub open spec fn dec_val(s: Seq<char>) -> nat
    decreases s.len(),
{
    if s.len() == 0 {
        0
    } else {
        dec_val(s.drop_last()) * 10 + digit_val(s.last())
    }
}

/// Whether every character of `s` is a decimal digit.
pub open spec fn all_digits(s: Seq<char>) -> bool {
    forall|i: int| 0 <= i < s.len() ==> is_digit(s[i])
}

/// The canonical rendering consists of digits and parses back to its value.
pub proof fn lemma_dec_str_val(n: nat)
    ensures
        dec_str(n).len() >= 1,
        all_digits(dec_str(n)),
        dec_val(dec_str(n)) == n,
    decreases n,
{
    if n < 10 {
        let s1 = seq![dec_digit(n)];
        assert(dec_str(n) =~= s1);
        assert(is_digit(dec_digit(n))) by {
            assert('0' as u32 == 48);
            assert('9' as u32 == 57);
        }
        assert(s1.drop_last() =~= Seq::<char>::empty());
        assert(dec_val(s1.drop_last()) == 0);
        assert(dec_val(s1) == digit_val(dec_digit(n)));
        assert(digit_val(dec_digit(n)) == n);
    } else {
        lemma_dec_str_val(n / 10);
        let s = dec_str(n);
        assert(s == dec_str(n / 10) + seq![dec_digit(n % 10)]);
        assert(s.drop_last() =~= dec_str(n / 10));
        assert(s.last() == dec_digit(n % 10));
        assert(is_digit(dec_digit(n % 10))) by {
            assert('0' as u32 == 48);
        }
        assert(digit_val(dec_digit(n % 10)) == n % 10);
        assert(dec_val(s) == (n / 10) * 10 + n % 10);
        assert((n / 10) * 10 + n % 10 == n) by (nonlinear_arith);
        assert(forall|i: int| 0 <= i < s.len() ==> is_digit(#[trigger] s[i])) by {
            assert(forall|i: int|
                0 <= i < s.len() - 1 ==> #[trigger] s[i] == dec_str(n / 10)[i]);
        }
    }
}

/// Exec form of `dec_digit`.
fn dec_digit_exec(d: u64) -> (c: char)
    requires
        d < 10,
    ensures
        c == dec_digit(d as nat),
{
    let b: u8 = 48 + (d as u8);
    proof {
        assert('0' as u32 == 48);
    }
    b as char
}

/// Renders a value in canonical decimal form.
#[verifier::rlimit(50)]
pub fn u64_to_string(n: u64) -> (r: String)
    ensures
        r@ == dec_str(n as nat),
{
    let mut digits: Vec<char> = Vec::new();
    let mut m: u64 = n;
    loop
        invariant_except_break
            dec_str(n as nat) =~= dec_str(m as nat) + digits@.reverse(),
        ensures
            dec_str(n as nat) =~= digits@.reverse(),
        decreases m,
    {
        let ghost old_digits = digits@;
        let ghost old_m = m as nat;
        let d = dec_digit_exec(m % 10);
        digits.push(d);
        proof {
            assert(digits@.reverse() =~= seq![d] + old_digits.reverse());
            if old_m >= 10 {
                assert(dec_str(old_m) == dec_str(old_m / 10) + seq![dec_digit(old_m % 10)]);
                assert(dec_str(old_m) + old_digits.reverse() =~= dec_str(old_m / 10) + (seq![
                    dec_digit(old_m % 10),
                ] + old_digits.reverse()));
            } else {
                assert(dec_str(old_m) =~= seq![dec_digit(old_m)]);
                assert(dec_str(old_m) + old_digits.reverse() =~= seq![dec_digit(old_m)]
                    + old_digits.reverse());
            }
        }
        if m < 10 {
            proof {
                assert(dec_str(n as nat) =~= digits@.reverse());
            }
            break;
        }
        m = m / 10;
    }
    proof {
        assert(dec_str(n as nat) =~= digits@.reverse());
    }
    let mut out = String::new();
    let len = digits.len();
    let mut i: usize = 0;
    while i < len
        invariant
            len == digits@.len(),
            i <= len,
            out@ =~= digits@.reverse().take(i as int),
        decreases len - i,
    {
        push_char(&mut out, digits[len - 1 - i]);
        i = i + 1;
        proof {
            assert(out@ =~= digits@.reverse().take(i as int));
        }
    }
    proof {
        assert(out@ =~= digits@.reverse());
    }
    out
}

/// Parses a digit run as a `u64`. Returns `None` when the run is empty,
/// holds a non-digit, or does not fit in 64 bits.
pub fn parse_u64_digits(v: &Vec<char>, from: usize, to: usize) -> (r: Option<u64>)
    requires
        from <= to <= v@.len(),
    ensures
        match r {
            Some(n) => all_digits(v@.subrange(from as int, to as int)) && to > from && n as nat
                == dec_val(v@.subrange(from as int, to as int)),
            None => !(all_digits(v@.subrange(from as int, to as int)) && to > from && dec_val(
                v@.subrange(from as int, to as int),
            ) <= u64::MAX),
        },
{
    if from == to {
        return None;
    }
    let mut acc: u64 = 0;
    let mut i: usize = from;
    while i < to
        invariant
            from <= i <= to <= v@.len(),
            all_digits(v@.subrange(from as int, i as int)),
            acc as nat == dec_val(v@.subrange(from as int, i as int)),
        decreases to - i,
    {
        let c = v[i];
        if c < '0' || c > '9' {
            proof {
                assert(v@.subrange(from as int, to as int)[i - from] == v@[i as int]);
                assert(!is_digit(v@.subrange(from as int, to as int)[i - from]));
            }
            return None;
        }
        let d: u64 = (c as u32 - '0' as u32) as u64;
        proof {
            assert('0' as u32 == 48);
            assert('9' as u32 == 57);
            assert(d < 10);
        }
        if acc > (u64::MAX - d) / 10 {
            proof {
                let sfull = v@.subrange(from as int, to as int);
                let snext = v@.subrange(from as int, i as int + 1);
                assert(snext.drop_last() =~= v@.subrange(from as int, i as int));
                assert(snext.last() == v@[i as int]);
                assert(digit_val(v@[i as int]) == d);
                assert(dec_val(snext) == acc * 10 + d);
                assert(acc * 10 + d > u64::MAX) by (nonlinear_arith)
                    requires
                        acc > (u64::MAX - d) / 10,
                        d < 10,
                ;
                if all_digits(sfull) {
                    assert(forall|k: int| 0 <= k < snext.len() ==> snext[k] == sfull[k]);
                    lemma_dec_val_monotonic(snext, sfull);
                }
            }
            return None;
        }
        proof {
            assert(acc * 10 + d <= u64::MAX) by (nonlinear_arith)
                requires
            acc <= (u64::MAX - d) / 10,
                    d < 10,
            ;
        }
        let ghost prev = v@.subrange(from as int, i as int);
        acc = acc * 10 + d;
        i = i + 1;
        proof {
            let snext = v@.subrange(from as int, i as int);
            assert(snext.drop_last() =~= prev);
            assert(snext.last() == v@[i - 1]);
        }
    }
    proof {
        assert(v@.subrange(from as int, i as int) =~= v@.subrange(from as int, to as int));
    }
    Some(acc)
}

/// A digit string's value only grows when more digits follow it.
proof fn lemma_dec_val_monotonic(p: Seq<char>, s: Seq<char>)
    requires
        p.len() <= s.len(),
        forall|i: int| 0 <= i < p.len() ==> p[i] == s[i],
        all_digits(s),
    ensures
        dec_val(p) <= dec_val(s),
    decreases s.len(),
{
    if p.len() == s.len() {
        assert(p =~= s);
    } else {
        lemma_dec_val_monotonic(p, s.drop_last());
        assert(all_digits(s.drop_last()));
        assert(dec_val(s) == dec_val(s.drop_last()) * 10 + digit_val(s.last()));
        assert(dec_val(s.drop_last()) * 10 >= dec_val(s.drop_last())) by (nonlinear_arith);
    }
}

} // verus!
