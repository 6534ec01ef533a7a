//! Message normalization: strips a context's configured prefix and the
//! command keyword from raw input, leaving the query argument.

use vstd::prelude::*;
use crate::prefix_store::PrefixStore;
use crate::text::{push_char, str_chars};

verus! {

/// Whether `p` is a prefix of `s`.
pub open spec fn starts_with(s: Seq<char>, p: Seq<char>) -> bool {
    p.len() <= s.len() && s.take(p.len() as int) == p
}

/// Whether `c` is whitespace for the purposes of trimming: ASCII space,
/// tab, line feed or carriage return.
pub open spec fn is_space(c: char) -> bool {
    c == ' ' || c == '\t' || c == '\n' || c == '\r'
}

/// The input without its leading whitespace.
pub open spec fn drop_leading_spaces(s: Seq<char>) -> Seq<char>
    decreases s.len(),
{
    if s.len() > 0 && is_space(s[0]) {
        drop_leading_spaces(s.drop_first())
    } else {
        s
    }
}

/// The input without its trailing whitespace.
pub open spec fn drop_trailing_spaces(s: Seq<char>) -> Seq<char>
    decreases s.len(),
{
    if s.len() > 0 && is_space(s.last()) {
        drop_trailing_spaces(s.drop_last())
    } else {
        s
    }
}

/// The input without leading and trailing whitespace.
pub open spec fn trim_spaces(s: Seq<char>) -> Seq<char> {
    drop_trailing_spaces(drop_leading_spaces(s))
}

/// Exec form of `is_space`.
fn is_space_exec(c: char) -> (r: bool)
    ensures
        r == is_space(c),
{
    c == ' ' || c == '\t' || c == '\n' || c == '\r'
}

/// What normalization returns: when the raw text begins with the prefix
/// followed by the command keyword, the remainder with surrounding
/// whitespace stripped; otherwise the raw text unchanged.
pub open spec fn normalize_spec(raw: Seq<char>, keyword: Seq<char>, prefix: Seq<char>) -> Seq<
    char,
> {
    let head = prefix + keyword;
    if starts_with(raw, head) {
        trim_spaces(raw.skip(head.len() as int))
    } else {
        raw
    }
}

proof fn lemma_drop_leading(s: Seq<char>, j: int)
    requires
        0 <= j <= s.len(),
        forall|k: int| 0 <= k < j ==> is_space(s[k]),
        j == s.len() || !is_space(s[j]),
    ensures
        drop_leading_spaces(s) == s.skip(j),
    decreases j,
{
    if j == 0 {
        assert(s.skip(0) =~= s);
    } else {
        let t = s.drop_first();
        assert(forall|k: int| 0 <= k < j - 1 ==> is_space(t[k]));
        lemma_drop_leading(t, j - 1);
        assert(t.skip(j - 1) =~= s.skip(j));
    }
}

proof fn lemma_drop_trailing(s: Seq<char>, j: int)
    requires
        0 <= j <= s.len(),
        forall|k: int| j <= k < s.len() ==> is_space(s[k]),
        j == 0 || !is_space(s[j - 1]),
    ensures
        drop_trailing_spaces(s) == s.take(j),
    decreases s.len(),
{
    if j == s.len() {
        if s.len() == 0 || !is_space(s.last()) {
            assert(s.take(j) =~= s);
        } else {
            assert(s[j - 1] == s.last());
            assert(false);
        }
    } else {
        assert(is_space(s.last()));
        let t = s.drop_last();
        assert(forall|k: int| j <= k < t.len() ==> t[k] == s[k]);
        lemma_drop_trailing(t, j);
        assert(t.take(j) =~= s.take(j));
    }
}

/// Strips `prefix + keyword` from the front of `raw` and trims whitespace
/// from the remainder; returns `raw` unchanged when it does not begin with
/// that combination.
pub fn normalize(raw: &str, keyword: &str, prefix: &str) -> (r: String)
    ensures
        r@ == normalize_spec(raw@, keyword@, prefix@),
{
    let rv = str_chars(raw);
    let pv = str_chars(prefix);
    let kv = str_chars(keyword);
    let rl = rv.len();
    let pl = pv.len();
    let kl = kv.len();
    let ghost head = prefix@ + keyword@;
    if pl > rl || kl > rl - pl {
        proof {
            assert(head.len() > raw@.len());
            assert(!starts_with(raw@, head));
        }
        return String::from_str(raw);
    }
    let hl = pl + kl;
    let mut i: usize = 0;
    while i < pl
        invariant
            rv@ == raw@,
            pv@ == prefix@,
            kv@ == keyword@,
            rl == raw@.len(),
            pl == prefix@.len(),
            kl == keyword@.len(),
            hl == pl + kl <= rl,
            head == prefix@ + keyword@,
            i <= pl,
            forall|k: int| 0 <= k < i ==> raw@[k] == head[k],
        decreases pl - i,
    {
        proof {
            assert(head[i as int] == prefix@[i as int]);
        }
        if rv[i] != pv[i] {
            proof {
                assert(raw@.take(head.len() as int)[i as int] != head[i as int]);
                assert(!starts_with(raw@, head));
            }
            return String::from_str(raw);
        }
        i = i + 1;
    }
    let mut j: usize = 0;
    while j < kl
        invariant
            rv@ == raw@,
            pv@ == prefix@,
            kv@ == keyword@,
            rl == raw@.len(),
            pl == prefix@.len(),
            kl == keyword@.len(),
            hl == pl + kl <= rl,
            head == prefix@ + keyword@,
            j <= kl,
            forall|k: int| 0 <= k < pl ==> raw@[k] == head[k],
            forall|k: int| pl <= k < pl + j ==> raw@[k] == head[k],
        decreases kl - j,
    {
        proof {
            assert(head[pl + j] == keyword@[j as int]);
        }
        if rv[pl + j] != kv[j] {
            proof {
                assert(raw@.take(head.len() as int)[pl + j] != head[pl + j]);
                assert(!starts_with(raw@, head));
            }
            return String::from_str(raw);
        }
        j = j + 1;
    }
    proof {
        assert(raw@.take(hl as int) =~= head);
        assert(starts_with(raw@, head));
    }
    // The remainder, with surrounding whitespace trimmed.
    let mut a: usize = hl;
    while a < rl && is_space_exec(rv[a])
        invariant
            rv@ == raw@,
            rl == raw@.len(),
            hl <= a <= rl,
            forall|k: int| hl <= k < a ==> is_space(raw@[k]),
        decreases rl - a,
    {
        a = a + 1;
    }
    let mut b: usize = rl;
    while b > a && is_space_exec(rv[b - 1])
        invariant
            rv@ == raw@,
            rl == raw@.len(),
            a <= b <= rl,
            forall|k: int| b <= k < rl ==> is_space(raw@[k]),
        decreases b,
    {
        b = b - 1;
    }
    proof {
        let t = raw@.skip(hl as int);
        assert(forall|k: int| 0 <= k < a - hl ==> is_space(t[k]));
        assert(a - hl == t.len() || !is_space(t[a - hl]));
        lemma_drop_leading(t, a - hl);
        let u = t.skip(a - hl);
        assert(u =~= raw@.skip(a as int));
        assert(forall|k: int| b - a <= k < u.len() ==> is_space(u[k]));
        if b > a {
            assert(u[b - a - 1] == raw@[b - 1]);
            assert(!is_space(u[b - a - 1]));
        }
        lemma_drop_trailing(u, b - a);
        assert(u.take(b - a) =~= raw@.subrange(a as int, b as int));
        assert(normalize_spec(raw@, keyword@, prefix@) == raw@.subrange(a as int, b as int));
    }
    let mut out = String::new();
    let mut m: usize = a;
    while m < b
        invariant
            rv@ == raw@,
            rl == raw@.len(),
            a <= m <= b <= rl,
            out@ == raw@.subrange(a as int, m as int),
        decreases b - m,
    {
        push_char(&mut out, rv[m]);
        m = m + 1;
        proof {
            assert(out@ =~= raw@.subrange(a as int, m as int));
        }
    }
    out
}

/// Normalization against the store: fetches the context's configured prefix
/// (the empty string when none is set) and strips it with the keyword.
pub fn normalize_for_context(store: &PrefixStore, id: u64, raw: &str, keyword: &str) -> (r:
    String)
    requires
        store.wf(),
    ensures
        store@.contains_key(id) ==> r@ == normalize_spec(raw@, keyword@, store@[id]),
        !store@.contains_key(id) ==> r@ == normalize_spec(
            raw@,
            keyword@,
            Seq::<char>::empty(),
        ),
{
    let p = store.get_prefix_for_guild(id);
    normalize(raw, keyword, p.as_str())
}

} // verus!
