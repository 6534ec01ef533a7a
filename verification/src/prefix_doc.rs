//! The persisted prefix document: a flat JSON object whose keys are decimal
//! renderings of 64-bit context identifiers and whose values are prefix
//! strings. This module defines the format (render and parse) and proves that
//! parsing inverts rendering.
//!
//! The writer emits the compact canonical form: no whitespace, and inside
//! values only the escapes `\"`, `\\` and lower-case `\u00XX` for the
//! characters below `0x20`. The parser is wider: it tolerates whitespace
//! between tokens and accepts the standard JSON string escapes — `\"`, `\\`,
//! `\/`, `\b`, `\t`, `\n`, `\f`, `\r`, and `\uXXXX` with four hex digits of
//! either case (lone surrogate values are malformed). Keys are bare decimal
//! digit runs that fit in 64 bits. A document outside this shape counts as
//! malformed and is rejected at load, which the store treats as fatal.

use vstd::prelude::*;
use crate::numeric::{all_digits, dec_digit, dec_str, dec_val, digit_val, is_digit,
    lemma_dec_str_val};

verus! {

/// Lower-case hexadecimal digit character for a value below sixteen.
pub open spec fn hex_digit(d: nat) -> char {
    if d < 10 {
        dec_digit(d)
    } else {
        (('a' as u32 + (d - 10)) as u32) as char
    }
}

/// Whether `c` is a hexadecimal digit, of either case.
pub open spec fn is_hex(c: char) -> bool {
    ('0' <= c && c <= '9') || ('a' <= c && c <= 'f') || ('A' <= c && c <= 'F')
}

/// Numeric value of a hexadecimal digit of either case.
pub open spec fn hex_val(c: char) -> nat {
    if '0' <= c && c <= '9' {
        digit_val(c)
    } else if 'a' <= c && c <= 'f' {
        (c as u32 - 'a' as u32 + 10) as nat
    } else {
        (c as u32 - 'A' as u32 + 10) as nat
    }
}

proof fn lemma_hex_digit_val(d: nat)
    requires
        d < 16,
    ensures
        is_hex(hex_digit(d)),
        hex_val(hex_digit(d)) == d,
{
    assert('0' as u32 == 48);
    assert('9' as u32 == 57);
    assert('a' as u32 == 97);
    assert('f' as u32 == 102);
    assert('A' as u32 == 65);
    assert('F' as u32 == 70);
}

/// Whether `c` is JSON whitespace.
pub open spec fn is_ws(c: char) -> bool {
    c == ' ' || c == '\t' || c == '\n' || c == '\r'
}

/// The input without its leading whitespace.
pub open spec fn skip_ws(s: Seq<char>) -> Seq<char>
    decreases s.len(),
{
    if s.len() > 0 && is_ws(s[0]) {
        skip_ws(s.drop_first())
    } else {
        s
    }
}

/// Skipping whitespace never lengthens the input.
pub proof fn lemma_skip_ws_le(s: Seq<char>)
    ensures
        skip_ws(s).len() <= s.len(),
    decreases s.len(),
{
    if s.len() > 0 && is_ws(s[0]) {
        lemma_skip_ws_le(s.drop_first());
    }
}

/// Characterizes the whitespace skip: whitespace up to `j`, and either the
/// end of the input or a non-whitespace character at `j`.
pub proof fn lemma_skip_ws_at(s: Seq<char>, j: int)
    requires
        0 <= j <= s.len(),
        forall|k: int| 0 <= k < j ==> is_ws(s[k]),
        j == s.len() || !is_ws(s[j]),
    ensures
        skip_ws(s) == s.skip(j),
    decreases j,
{
    if j == 0 {
        assert(s.skip(0) =~= s);
    } else {
        let t = s.drop_first();
        assert(forall|k: int| 0 <= k < j - 1 ==> is_ws(t[k]));
        lemma_skip_ws_at(t, j - 1);
        assert(t.skip(j - 1) =~= s.skip(j));
    }
}

/// The character a short escape letter stands for.
pub open spec fn short_escape(c: char) -> char {
    if c == 'b' {
        '\u{0008}'
    } else if c == 't' {
        '\t'
    } else if c == 'n' {
        '\n'
    } else if c == 'f' {
        '\u{000C}'
    } else {
        '\r'
    }
}

/// How one character is written inside a quoted value: quotes and backslashes
/// get a backslash, control characters become a `\u00XX` escape, everything
/// else stands as it is.
pub open spec fn esc_char(c: char) -> Seq<char> {
    if c == '"' {
        seq!['\\', '"']
    } else if c == '\\' {
        seq!['\\', '\\']
    } else if (c as u32) < 32 {
        seq![
            '\\',
            'u',
            '0',
            '0',
            hex_digit((c as u32 / 16) as nat),
            hex_digit((c as u32 % 16) as nat),
        ]
    } else {
        seq![c]
    }
}

/// Escaped form of a whole value.
pub open spec fn escape(s: Seq<char>) -> Seq<char>
    decreases s.len(),
{
    if s.len() == 0 {
        Seq::<char>::empty()
    } else {
        escape(s.drop_last()) + esc_char(s.last())
    }
}

/// Escaping distributes over concatenation.
proof fn lemma_escape_concat(a: Seq<char>, b: Seq<char>)
    ensures
        escape(a + b) == escape(a) + escape(b),
    decreases b.len(),
{
    if b.len() == 0 {
        assert(a + b =~= a);
        assert(escape(a) + escape(b) =~= escape(a));
    } else {
        lemma_escape_concat(a, b.drop_last());
        assert((a + b).drop_last() =~= a + b.drop_last());
        assert((a + b).last() == b.last());
        assert(escape(a + b) == escape(a + b.drop_last()) + esc_char(b.last()));
        assert(escape(a) + escape(b.drop_last()) + esc_char(b.last()) =~= escape(a) + (escape(
            b.drop_last(),
        ) + esc_char(b.last())));
    }
}

/// The scalar value of a `\uXXXX` escape whose four hex digits start at
/// index `i` of `s`.
pub open spec fn hex4_val(s: Seq<char>, i: int) -> nat {
    hex_val(s[i]) * 4096 + hex_val(s[i + 1]) * 256 + hex_val(s[i + 2]) * 16 + hex_val(s[i + 3])
}

/// Whether four hex digits stand at index `i` of `s`.
pub open spec fn hex4_at(s: Seq<char>, i: int) -> bool {
    is_hex(s[i]) && is_hex(s[i + 1]) && is_hex(s[i + 2]) && is_hex(s[i + 3])
}

/// Whether a scalar value is a lone surrogate, which no character carries.
pub open spec fn is_surrogate(code: nat) -> bool {
    0xD800 <= code && code < 0xE000
}

/// Parses the inside of a quoted value: the decoded characters up to the
/// closing quote, and what follows that quote. `None` when the input ends
/// before a closing quote, holds a raw control character, or holds an escape
/// outside the standard JSON set.
pub open spec fn parse_string_body(s: Seq<char>) -> Option<(Seq<char>, Seq<char>)>
    decreases s.len(),
{
    if s.len() == 0 {
        None
    } else if s[0] == '"' {
        Some((Seq::<char>::empty(), s.drop_first()))
    } else if s[0] == '\\' {
        if s.len() >= 2 && (s[1] == '"' || s[1] == '\\' || s[1] == '/') {
            match parse_string_body(s.skip(2)) {
                Some((v, rest)) => Some((seq![s[1]] + v, rest)),
                None => None,
            }
        } else if s.len() >= 2 && (s[1] == 'b' || s[1] == 't' || s[1] == 'n' || s[1] == 'f'
            || s[1] == 'r') {
            match parse_string_body(s.skip(2)) {
                Some((v, rest)) => Some((seq![short_escape(s[1])] + v, rest)),
                None => None,
            }
        } else if s.len() >= 6 && s[1] == 'u' && hex4_at(s, 2) && !is_surrogate(hex4_val(s, 2)) {
            match parse_string_body(s.skip(6)) {
                Some((v, rest)) => Some((seq![(hex4_val(s, 2) as u32) as char] + v, rest)),
                None => None,
            }
        } else {
            None
        }
    } else if (s[0] as u32) < 32 {
        None
    } else {
        match parse_string_body(s.drop_first()) {
            Some((v, rest)) => Some((seq![s[0]] + v, rest)),
            None => None,
        }
    }
}

/// Parsing a value undoes escaping it, whatever follows the closing quote.
proof fn lemma_parse_string_body_escape(v: Seq<char>, rest: Seq<char>)
    ensures
        parse_string_body(escape(v) + seq!['"'] + rest) == Some((v, rest)),
    decreases v.len(),
{
    if v.len() == 0 {
        let s = escape(v) + seq!['"'] + rest;
        assert(s =~= seq!['"'] + rest);
        assert(s[0] == '"');
        assert(s.drop_first() =~= rest);
        assert(Seq::<char>::empty() =~= v);
    } else {
        let c = v[0];
        let vt = v.drop_first();
        lemma_parse_string_body_escape(vt, rest);
        assert(seq![c] + vt =~= v);
        lemma_escape_concat(seq![c], vt);
        assert(seq![c].drop_last() =~= Seq::<char>::empty());
        assert(escape(seq![c].drop_last()) + esc_char(seq![c].last()) =~= esc_char(c));
        assert(escape(seq![c]) =~= esc_char(c));
        let s = escape(v) + seq!['"'] + rest;
        let tail_input = escape(vt) + seq!['"'] + rest;
        assert(s =~= esc_char(c) + tail_input);
        if c == '"' {
            assert(s[0] == '\\' && s[1] == '"');
            assert(s.skip(2) =~= tail_input);
            assert(seq![s[1]] + vt =~= v);
        } else if c == '\\' {
            assert(s[0] == '\\' && s[1] == '\\');
            assert(s.skip(2) =~= tail_input);
            assert(seq![s[1]] + vt =~= v);
        } else if (c as u32) < 32 {
            let hi = (c as u32 / 16) as nat;
            let lo = (c as u32 % 16) as nat;
            lemma_hex_digit_val(hi);
            lemma_hex_digit_val(lo);
            assert(s[0] == '\\' && s[1] == 'u' && s[2] == '0' && s[3] == '0');
            assert(s[4] == hex_digit(hi) && s[5] == hex_digit(lo));
            assert(s.len() >= 6);
            assert(is_hex('0') && hex_val('0') == 0) by {
                assert('0' as u32 == 48);
            }
            assert(hex4_at(s, 2));
            assert(hex4_val(s, 2) == c as u32) by {
                assert(hi * 16 + lo == c as u32) by (nonlinear_arith)
                    requires
                        hi == c as u32 / 16,
                        lo == c as u32 % 16,
                ;
            }
            assert(!is_surrogate(hex4_val(s, 2)));
            assert(s[1] != '"' && s[1] != '\\' && s[1] != '/');
            assert(s[1] != 'b' && s[1] != 't' && s[1] != 'n' && s[1] != 'f' && s[1] != 'r');
            assert(s.skip(6) =~= tail_input);
            vstd::utf8::char_u32_cast(c, c as u32);
            assert((c as u32) as char == c);
            assert(seq![(hex4_val(s, 2) as u32) as char] + vt =~= v);
        } else {
            assert(s[0] == c);
            assert(s[0] != '"' && s[0] != '\\' && (s[0] as u32) >= 32);
            assert(s.drop_first() =~= tail_input);
            assert(seq![s[0]] + vt =~= v);
        }
    }
}

/// Rendered form of one entry: `"key":"value"` with the key in decimal and
/// the value escaped.
pub open spec fn render_entry(e: (u64, Seq<char>)) -> Seq<char> {
    seq!['"'] + dec_str(e.0 as nat) + seq!['"', ':', '"'] + escape(e.1) + seq!['"']
}

/// Rendered form of the entries, separated by commas.
pub open spec fn render_inner(es: Seq<(u64, Seq<char>)>) -> Seq<char>
    decreases es.len(),
{
    if es.len() == 0 {
        Seq::<char>::empty()
    } else if es.len() == 1 {
        render_entry(es[0])
    } else {
        render_inner(es.drop_last()) + seq![','] + render_entry(es.last())
    }
}

/// Rendered form of the whole document: the entries inside braces.
pub open spec fn render_doc(es: Seq<(u64, Seq<char>)>) -> Seq<char> {
    seq!['{'] + render_inner(es) + seq!['}']
}

/// Count of leading decimal digits.
pub open spec fn digits_prefix_len(s: Seq<char>) -> nat
    decreases s.len(),
{
    if s.len() == 0 || !is_digit(s[0]) {
        0
    } else {
        1 + digits_prefix_len(s.drop_first())
    }
}

/// Characterizes the digit-prefix length: all digits up to `n`, and either
/// the end of the input or a non-digit at `n`.
pub proof fn lemma_digits_prefix_len(s: Seq<char>, n: nat)
    requires
        n <= s.len(),
        all_digits(s.take(n as int)),
        n == s.len() || !is_digit(s[n as int]),
    ensures
        digits_prefix_len(s) == n,
    decreases n,
{
    if n == 0 {
    } else {
        assert(is_digit(s.take(n as int)[0]));
        assert(is_digit(s[0]));
        let t = s.drop_first();
        assert(t.take(n - 1) =~= s.take(n as int).drop_first());
        assert(all_digits(t.take(n - 1))) by {
            assert(forall|i: int|
                0 <= i < n - 1 ==> #[trigger] t.take(n - 1)[i] == s.take(n as int)[i + 1]);
        }
        lemma_digits_prefix_len(t, (n - 1) as nat);
    }
}

/// Parses the leading decimal key. `None` when no digit leads or the value
/// does not fit in 64 bits.
pub open spec fn parse_key(s: Seq<char>) -> Option<(u64, Seq<char>)> {
    let n = digits_prefix_len(s);
    if n == 0 {
        None
    } else if dec_val(s.take(n as int)) > u64::MAX {
        None
    } else {
        Some((dec_val(s.take(n as int)) as u64, s.skip(n as int)))
    }
}

/// Parses one `"key":"value"` entry, with whitespace allowed around the
/// colon, returning it and what follows the value's closing quote.
pub open spec fn parse_entry(s: Seq<char>) -> Option<((u64, Seq<char>), Seq<char>)> {
    if s.len() == 0 || s[0] != '"' {
        None
    } else {
        match parse_key(s.drop_first()) {
            None => None,
            Some((k, r1)) => if r1.len() >= 1 && r1[0] == '"' {
                let r2 = skip_ws(r1.drop_first());
                if r2.len() >= 1 && r2[0] == ':' {
                    let r3 = skip_ws(r2.drop_first());
                    if r3.len() >= 1 && r3[0] == '"' {
                        match parse_string_body(r3.drop_first()) {
                            Some((v, rest)) => Some(((k, v), rest)),
                            None => None,
                        }
                    } else {
                        None
                    }
                } else {
                    None
                }
            } else {
                None
            },
        }
    }
}

proof fn lemma_digits_prefix_len_le(s: Seq<char>)
    ensures
        digits_prefix_len(s) <= s.len(),
    decreases s.len(),
{
    if s.len() == 0 || !is_digit(s[0]) {
    } else {
        lemma_digits_prefix_len_le(s.drop_first());
    }
}

/// A parsed entry consumes at least one character.
proof fn lemma_parse_entry_shrinks(s: Seq<char>)
    ensures
        match parse_entry(s) {
            Some((e, rest)) => rest.len() < s.len(),
            None => true,
        },
{
    if s.len() > 0 && s[0] == '"' {
        match parse_key(s.drop_first()) {
            None => {}
            Some((k, r1)) => {
                let t = s.drop_first();
                let n = digits_prefix_len(t);
                lemma_digits_prefix_len_le(t);
                assert(n >= 1);
                assert(r1 == t.skip(n as int));
                assert(r1.len() <= t.len());
                if r1.len() >= 1 && r1[0] == '"' {
                    let r2 = skip_ws(r1.drop_first());
                    lemma_skip_ws_le(r1.drop_first());
                    if r2.len() >= 1 && r2[0] == ':' {
                        let r3 = skip_ws(r2.drop_first());
                        lemma_skip_ws_le(r2.drop_first());
                        if r3.len() >= 1 && r3[0] == '"' {
                            lemma_parse_string_body_shrinks(r3.drop_first());
                        }
                    }
                }
            }
        }
    }
}

proof fn lemma_parse_string_body_shrinks(s: Seq<char>)
    ensures
        match parse_string_body(s) {
            Some((v, rest)) => rest.len() < s.len(),
            None => true,
        },
    decreases s.len(),
{
    if s.len() == 0 {
    } else if s[0] == '"' {
    } else if s[0] == '\\' {
        if s.len() >= 2 && (s[1] == '"' || s[1] == '\\' || s[1] == '/') {
            lemma_parse_string_body_shrinks(s.skip(2));
        } else if s.len() >= 2 && (s[1] == 'b' || s[1] == 't' || s[1] == 'n' || s[1] == 'f'
            || s[1] == 'r') {
            lemma_parse_string_body_shrinks(s.skip(2));
        } else if s.len() >= 6 && s[1] == 'u' && hex4_at(s, 2) && !is_surrogate(hex4_val(s, 2)) {
            lemma_parse_string_body_shrinks(s.skip(6));
        }
    } else if (s[0] as u32) < 32 {
    } else {
        lemma_parse_string_body_shrinks(s.drop_first());
    }
}

/// Parses one or more comma-separated entries, whitespace allowed around
/// the commas, returning them and what follows the last entry.
pub open spec fn parse_entries(s: Seq<char>) -> Option<(Seq<(u64, Seq<char>)>, Seq<char>)>
    decreases s.len(),
    via parse_entries_decreases
{
    match parse_entry(s) {
        None => None,
        Some((e, r)) => {
            let r1 = skip_ws(r);
            if r1.len() >= 1 && r1[0] == ',' {
                match parse_entries(skip_ws(r1.drop_first())) {
                    None => None,
                    Some((es, rest)) => Some((seq![e] + es, rest)),
                }
            } else {
                Some((seq![e], r1))
            }
        },
    }
}

#[via_fn]
proof fn parse_entries_decreases(s: Seq<char>) {
    lemma_parse_entry_shrinks(s);
    match parse_entry(s) {
        None => {}
        Some((e, r)) => {
            lemma_skip_ws_le(r);
            let r1 = skip_ws(r);
            if r1.len() >= 1 && r1[0] == ',' {
                lemma_skip_ws_le(r1.drop_first());
            }
        }
    }
}

/// Parses a whole document: braces around zero or more entries, whitespace
/// allowed between tokens and around the document.
pub open spec fn parse_doc(s: Seq<char>) -> Option<Seq<(u64, Seq<char>)>> {
    let s0 = skip_ws(s);
    if s0.len() == 0 || s0[0] != '{' {
        None
    } else {
        let s1 = skip_ws(s0.drop_first());
        if s1.len() == 0 {
            None
        } else if s1[0] == '}' {
            if skip_ws(s1.drop_first()).len() == 0 {
                Some(Seq::<(u64, Seq<char>)>::empty())
            } else {
                None
            }
        } else {
            match parse_entries(s1) {
                None => None,
                Some((es, rest)) => if rest.len() >= 1 && rest[0] == '}' && skip_ws(
                    rest.drop_first(),
                ).len() == 0 {
                    Some(es)
                } else {
                    None
                },
            }
        }
    }
}

/// Parsing an entry undoes rendering it, whatever follows.
#[verifier::rlimit(50)]
proof fn lemma_parse_entry_render(e: (u64, Seq<char>), rest: Seq<char>)
    ensures
        parse_entry(render_entry(e) + rest) == Some((e, rest)),
{
    let s = render_entry(e) + rest;
    let ks = dec_str(e.0 as nat);
    lemma_dec_str_val(e.0 as nat);
    let after_key = seq!['"', ':', '"'] + escape(e.1) + seq!['"'] + rest;
    assert(s[0] == '"');
    assert(s.drop_first() =~= ks + after_key);
    let t = s.drop_first();
    assert(all_digits(t.take(ks.len() as int))) by {
        assert(t.take(ks.len() as int) =~= ks);
    }
    assert(!is_digit(t[ks.len() as int])) by {
        assert(t[ks.len() as int] == '"');
    }
    lemma_digits_prefix_len(t, ks.len());
    assert(t.take(ks.len() as int) =~= ks);
    assert(dec_val(ks) == e.0 as nat);
    let r1 = t.skip(ks.len() as int);
    assert(r1 =~= after_key);
    assert(r1.len() >= 1 && r1[0] == '"');
    let u2 = r1.drop_first();
    assert(u2 =~= seq![':', '"'] + escape(e.1) + seq!['"'] + rest);
    assert(u2[0] == ':');
    assert(!is_ws(':'));
    assert(skip_ws(u2) == u2);
    assert(u2.len() >= 1 && u2[0] == ':');
    let u3 = u2.drop_first();
    assert(u3 =~= seq!['"'] + escape(e.1) + seq!['"'] + rest);
    assert(u3[0] == '"');
    assert(!is_ws('"'));
    assert(skip_ws(u3) == u3);
    assert(u3.drop_first() =~= escape(e.1) + seq!['"'] + rest);
    lemma_parse_string_body_escape(e.1, rest);
    assert(parse_entry(s) == Some(((e.0, e.1), rest)));
    assert((e.0, e.1) == e);
}

/// The rendering of an entry is never empty and starts with a quote.
proof fn lemma_render_entry_shape(e: (u64, Seq<char>))
    ensures
        render_entry(e).len() >= 5,
        render_entry(e)[0] == '"',
{
    lemma_dec_str_val(e.0 as nat);
}

/// Rendering one or more entries starts with the first entry.
proof fn lemma_render_inner_front(es: Seq<(u64, Seq<char>)>)
    requires
        es.len() >= 2,
    ensures
        render_inner(es) == render_entry(es[0]) + seq![','] + render_inner(es.drop_first()),
    decreases es.len(),
{
    if es.len() == 2 {
        assert(es.drop_last().len() == 1);
        assert(es.drop_last()[0] == es[0]);
        assert(render_inner(es.drop_last()) == render_entry(es[0]));
        assert(es.drop_first().len() == 1);
        assert(es.drop_first()[0] == es[1]);
        assert(render_inner(es.drop_first()) == render_entry(es[1]));
        assert(es.last() == es[1]);
        assert(render_entry(es[0]) + seq![','] + render_entry(es[1]) =~= render_entry(es[0])
            + (seq![','] + render_entry(es[1])));
        assert(render_inner(es) == render_entry(es[0]) + seq![','] + render_entry(es[1]));
        assert(render_entry(es[0]) + seq![','] + render_inner(es.drop_first())
            =~= render_entry(es[0]) + seq![','] + render_entry(es[1]));
    } else {
        let dl = es.drop_last();
        lemma_render_inner_front(dl);
        assert(dl[0] == es[0]);
        assert(dl.drop_first() =~= es.drop_first().drop_last());
        assert(es.last() == es.drop_first().last());
        assert(es.drop_first().len() >= 2);
        assert(render_inner(es) == render_inner(dl) + seq![','] + render_entry(es.last()));
        assert(render_inner(es) == render_entry(es[0]) + seq![','] + render_inner(
            es.drop_first().drop_last(),
        ) + seq![','] + render_entry(es.drop_first().last()));
        assert(render_inner(es.drop_first()) == render_inner(es.drop_first().drop_last()) + seq![
            ',',
        ] + render_entry(es.drop_first().last()));
        assert(render_entry(es[0]) + seq![','] + render_inner(es.drop_first().drop_last()) + seq![
            ',',
        ] + render_entry(es.drop_first().last()) =~= render_entry(es[0]) + seq![','] + (
        render_inner(es.drop_first().drop_last()) + seq![','] + render_entry(
            es.drop_first().last(),
        )));
    }
}

/// Parsing the rendered entries yields them back, leaving any trailing text
/// that does not continue the list.
proof fn lemma_parse_entries_render(es: Seq<(u64, Seq<char>)>, rest: Seq<char>)
    requires
        es.len() >= 1,
        rest.len() == 0 || (!is_ws(rest[0]) && rest[0] != ','),
    ensures
        parse_entries(render_inner(es) + rest) == Some((es, rest)),
    decreases es.len(),
{
    if es.len() == 1 {
        let s = render_inner(es) + rest;
        assert(render_inner(es) == render_entry(es[0]));
        assert(s =~= render_entry(es[0]) + rest);
        lemma_parse_entry_render(es[0], rest);
        assert(skip_ws(rest) == rest);
        assert(seq![es[0]] =~= es);
    } else {
        lemma_render_inner_front(es);
        let tail = es.drop_first();
        let mid = seq![','] + render_inner(tail) + rest;
        assert(render_inner(es) + rest =~= render_entry(es[0]) + mid);
        lemma_parse_entry_render(es[0], mid);
        assert(!is_ws(','));
        assert(skip_ws(mid) == mid);
        assert(mid.len() >= 1 && mid[0] == ',');
        lemma_render_entry_shape(tail[0]);
        if tail.len() == 1 {
            assert(render_inner(tail) == render_entry(tail[0]));
        } else {
            lemma_render_inner_front(tail);
            assert(render_inner(tail) == render_entry(tail[0]) + seq![','] + render_inner(
                tail.drop_first(),
            ));
            assert(render_inner(tail)[0] == render_entry(tail[0])[0]);
        }
        assert(render_inner(tail).len() >= 1);
        assert(render_inner(tail)[0] == '"');
        let nxt = mid.drop_first();
        assert(nxt =~= render_inner(tail) + rest);
        assert(nxt[0] == '"');
        assert(!is_ws('"'));
        assert(skip_ws(nxt) == nxt);
        lemma_parse_entries_render(tail, rest);
        assert(seq![es[0]] + tail =~= es);
    }
}

/// Law: parsing a rendered document yields exactly the entries that were
/// rendered, for every entry sequence.
pub proof fn lemma_parse_render_doc(es: Seq<(u64, Seq<char>)>)
    ensures
        parse_doc(render_doc(es)) == Some(es),
{
    let s = render_doc(es);
    assert(s[0] == '{');
    assert(!is_ws('{'));
    assert(skip_ws(s) == s);
    let body = s.drop_first();
    assert(body =~= render_inner(es) + seq!['}']);
    if es.len() == 0 {
        assert(body =~= seq!['}']);
        assert(!is_ws('}'));
        assert(skip_ws(body) == body);
        assert(body[0] == '}');
        assert(body.drop_first() =~= Seq::<char>::empty());
        assert(skip_ws(body.drop_first()).len() == 0);
        assert(Seq::<(u64, Seq<char>)>::empty() =~= es);
    } else {
        if es.len() == 1 {
            lemma_render_entry_shape(es[0]);
            assert(render_inner(es) == render_entry(es[0]));
        } else {
            lemma_render_inner_front(es);
            lemma_render_entry_shape(es[0]);
            assert(render_inner(es)[0] == render_entry(es[0])[0]);
        }
        assert(render_inner(es).len() >= 1);
        assert(body[0] == render_inner(es)[0]);
        assert(body[0] == '"');
        assert(!is_ws('"'));
        assert(skip_ws(body) == body);
        assert(body.len() >= 1 && body[0] != '}');
        assert(!is_ws('}') && '}' != ',');
        lemma_parse_entries_render(es, seq!['}']);
        assert(parse_entries(body) == Some((es, seq!['}'])));
        assert(seq!['}'].drop_first() =~= Seq::<char>::empty());
        assert(skip_ws(seq!['}'].drop_first()).len() == 0);
    }
}

} // verus!
