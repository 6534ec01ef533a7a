//! Character-level utilities shared by the string-processing modules.

use vstd::prelude::*;
use vstd::string::StrSliceExecFns;
use vstd::utf8::encode_utf8;

verus! {

/// Whether a byte is an unreserved URL character: a letter, a digit, or one
/// of `-`, `.`, `_`, `~`.
pub open spec fn is_unreserved(b: u8) -> bool {
    ('0' as u32 <= b && b <= '9' as u32) || ('A' as u32 <= b && b <= 'Z' as u32) || ('a' as u32
        <= b && b <= 'z' as u32) || b == '-' as u32 || b == '.' as u32 || b == '_' as u32 || b
        == '~' as u32
}

/// Upper-case hexadecimal digit character for a value below sixteen.
pub open spec fn upper_hex(d: nat) -> char {
    if d < 10 {
        (('0' as u32 + d) as u32) as char
    } else {
        (('A' as u32 + (d - 10)) as u32) as char
    }
}

/// How one byte is written in a URL query component: an unreserved byte
/// stands as it is, everything else is percent-encoded.
pub open spec fn url_byte(b: u8) -> Seq<char> {
    if is_unreserved(b) {
        seq![b as char]
    } else {
        seq!['%', upper_hex(b as nat / 16), upper_hex(b as nat % 16)]
    }
}

/// URL encoding of a byte sequence.
pub open spec fn url_encoded(bs: Seq<u8>) -> Seq<char>
    decreases bs.len(),
{
    if bs.len() == 0 {
        Seq::<char>::empty()
    } else {
        url_encoded(bs.drop_last()) + url_byte(bs.last())
    }
}

/// Exec form of `upper_hex`.
fn upper_hex_exec(d: u8) -> (c: char)
    requires
        d < 16,
    ensures
        c == upper_hex(d as nat),
{
    proof {
        assert('0' as u32 == 48);
        assert('A' as u32 == 65);
    }
    if d < 10 {
        (48 + d) as char
    } else {
        (65 + (d - 10)) as char
    }
}

/// Percent-encodes a string's UTF-8 bytes for use as one URL query
/// component: unreserved characters stand, everything else becomes `%XX`.
pub fn url_encode(s: &str) -> (r: String)
    ensures
        r@ == url_encoded(encode_utf8(s@)),
{
    let bv = s.as_bytes_vec();
    let mut out = String::new();
    let mut i: usize = 0;
    while i < bv.len()
        invariant
            bv@ == encode_utf8(s@),
            i <= bv@.len(),
            out@ == url_encoded(bv@.take(i as int)),
        decreases bv@.len() - i,
    {
        let b = bv[i];
        if (b >= 48 && b <= 57) || (b >= 65 && b <= 90) || (b >= 97 && b <= 122) || b == 45
            || b == 46 || b == 95 || b == 126 {
            proof {
                assert('0' as u32 == 48 && '9' as u32 == 57);
                assert('A' as u32 == 65 && 'Z' as u32 == 90);
                assert('a' as u32 == 97 && 'z' as u32 == 122);
                assert('-' as u32 == 45 && '.' as u32 == 46);
                assert('_' as u32 == 95 && '~' as u32 == 126);
                assert(is_unreserved(b));
            }
            push_char(&mut out, b as char);
        } else {
            proof {
                assert('0' as u32 == 48 && '9' as u32 == 57);
                assert('A' as u32 == 65 && 'Z' as u32 == 90);
                assert('a' as u32 == 97 && 'z' as u32 == 122);
                assert('-' as u32 == 45 && '.' as u32 == 46);
                assert('_' as u32 == 95 && '~' as u32 == 126);
                assert(!is_unreserved(b));
            }
            push_char(&mut out, '%');
            push_char(&mut out, upper_hex_exec(b / 16));
            push_char(&mut out, upper_hex_exec(b % 16));
        }
        proof {
            assert(bv@.take(i as int + 1).drop_last() =~= bv@.take(i as int));
            assert(bv@.take(i as int + 1).last() == bv@[i as int]);
            assert(out@ =~= url_encoded(bv@.take(i as int)) + url_byte(bv@[i as int]));
        }
        i = i + 1;
    }
    proof {
        assert(bv@.take(bv@.len() as int) =~= bv@);
    }
    out
}

/// Relies on std's `String::push`: appends exactly one character at the end.
#[verifier::external_body]
pub fn push_char(s: &mut String, c: char)
    ensures
        final(s)@ == old(s)@.push(c),
{
    s.push(c);
}

/// Relies on std's `char::from_u32`: every value outside the surrogate range
/// and below `0x110000` is the scalar value of exactly one character.
#[verifier::external_body]
pub fn char_from_code(u: u32) -> (c: char)
    requires
        u < 0xD800 || (0xE000 <= u && u < 0x110000),
    ensures
        c as u32 == u,
{
    char::from_u32(u).unwrap()
}

/// Collects the characters of a string slice into a vector.
pub fn str_chars(s: &str) -> (r: Vec<char>)
    ensures
        r@ == s@,
{
    let n = s.unicode_len();
    let mut v: Vec<char> = Vec::new();
    let mut i: usize = 0;
    while i < n
        invariant
            n == s@.len(),
            i <= n,
            v@ == s@.take(i as int),
        decreases n - i,
    {
        let c = s.get_char(i);
        v.push(c);
        i = i + 1;
        proof {
            assert(v@ =~= s@.take(i as int));
        }
    }
    proof {
        assert(v@ =~= s@);
    }
    v
}

} // verus!
