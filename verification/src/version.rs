//! The minimum-supported-platform-version filter. A version string made of
//! decimal digit runs around an optional dot (`1`, `0.15`, `1.`, `.5`) is
//! compared as a decimal number against the threshold `0.15`; anything
//! unparseable counts as zero and is filtered out.

use vstd::prelude::*;
use crate::numeric::{all_digits, is_digit};
use crate::text::str_chars;

verus! {

/// Count of leading characters before the first `.`.
pub open spec fn non_dot_prefix_len(s: Seq<char>) -> nat
    decreases s.len(),
{
    if s.len() == 0 || s[0] == '.' {
        0
    } else {
        1 + non_dot_prefix_len(s.drop_first())
    }
}

proof fn lemma_non_dot_prefix_len(s: Seq<char>, n: nat)
    requires
        n <= s.len(),
        forall|k: int| 0 <= k < n ==> s[k] != '.',
        n == s.len() || s[n as int] == '.',
    ensures
        non_dot_prefix_len(s) == n,
    decreases n,
{
    if n == 0 {
    } else {
        let t = s.drop_first();
        assert(forall|k: int| 0 <= k < n - 1 ==> t[k] != '.');
        lemma_non_dot_prefix_len(t, (n - 1) as nat);
    }
}

/// The fractional digits, after the dot; empty when there is no dot.
pub open spec fn frac_of(s: Seq<char>) -> Seq<char> {
    let rest = s.skip(non_dot_prefix_len(s) as int);
    if rest.len() >= 1 {
        rest.skip(1)
    } else {
        Seq::<char>::empty()
    }
}

/// A well-formed version string: digit runs around at most one dot, with a
/// digit on at least one side of it.
pub open spec fn version_wellformed(s: Seq<char>) -> bool {
    let n = non_dot_prefix_len(s);
    let rest = s.skip(n as int);
    &&& all_digits(s.take(n as int))
    &&& (if rest.len() == 0 {
        n >= 1
    } else {
        all_digits(rest.skip(1)) && (n >= 1 || rest.len() >= 2)
    })
}

/// Whether a digit run holds a digit other than zero.
pub open spec fn has_nonzero(s: Seq<char>) -> bool {
    exists|i: int| 0 <= i < s.len() && s[i] != '0'
}

/// Whether the fractional digit run denotes a fraction of at least `.15`.
pub open spec fn frac_ge_15(f: Seq<char>) -> bool {
    f.len() >= 1 && (f[0] > '1' || (f[0] == '1' && f.len() >= 2 && f[1] >= '5'))
}

/// Whether a version string parses and denotes a value of at least `0.15`,
/// the minimum supported platform version.
pub open spec fn version_at_least_min(s: Seq<char>) -> bool {
    &&& version_wellformed(s)
    &&& (has_nonzero(s.take(non_dot_prefix_len(s) as int)) || frac_ge_15(frac_of(s)))
}

/// Decides `version_at_least_min` for a version string.
pub fn version_at_least_min_exec(s: &str) -> (r: bool)
    ensures
        r == version_at_least_min(s@),
{
    let cv = str_chars(s);
    let len = cv.len();
    let mut n: usize = 0;
    while n < len && cv[n] != '.'
        invariant
            cv@ == s@,
            len == s@.len(),
            n <= len,
            forall|k: int| 0 <= k < n ==> s@[k] != '.',
        decreases len - n,
    {
        n = n + 1;
    }
    proof {
        lemma_non_dot_prefix_len(s@, n as nat);
    }
    let mut int_nonzero = false;
    let mut i: usize = 0;
    while i < n
        invariant
            cv@ == s@,
            len == s@.len(),
            non_dot_prefix_len(s@) == n as nat,
            n <= len,
            i <= n,
            forall|k: int| 0 <= k < i ==> is_digit(s@[k]),
            int_nonzero == exists|k: int| 0 <= k < i && s@[k] != '0',
        decreases n - i,
    {
        let c = cv[i];
        if c < '0' || c > '9' {
            proof {
                assert(s@.take(n as int)[i as int] == s@[i as int]);
                assert(!all_digits(s@.take(n as int)));
            }
            return false;
        }
        if c != '0' {
            int_nonzero = true;
        }
        i = i + 1;
    }
    proof {
        assert(forall|k: int|
            0 <= k < n ==> #[trigger] s@.take(n as int)[k] == s@[k]);
        assert(all_digits(s@.take(n as int)));
        if int_nonzero {
            let k = choose|k: int| 0 <= k < n && s@[k] != '0';
            assert(s@.take(n as int)[k] != '0');
            assert(has_nonzero(s@.take(n as int)));
        }
        if has_nonzero(s@.take(n as int)) {
            let k = choose|k: int|
                0 <= k < s@.take(n as int).len() && s@.take(n as int)[k] != '0';
            assert(s@[k] != '0');
        }
        assert(int_nonzero == has_nonzero(s@.take(n as int)));
    }
    if n == len {
        proof {
            assert(s@.skip(n as int).len() == 0);
            assert(frac_of(s@).len() == 0);
        }
        if n == 0 {
            return false;
        }
        return int_nonzero;
    }
    // A dot: digit runs around it, a digit on at least one side.
    let ghost rest = s@.skip(n as int);
    if n + 1 == len {
        proof {
            assert(rest.len() == 1);
            assert(rest.skip(1) =~= Seq::<char>::empty());
            assert(all_digits(rest.skip(1)));
            assert(frac_of(s@) =~= Seq::<char>::empty());
            assert(!frac_ge_15(frac_of(s@)));
        }
        if n == 0 {
            proof {
                assert(!version_wellformed(s@));
            }
            return false;
        }
        proof {
            assert(version_wellformed(s@));
        }
        return int_nonzero;
    }
    proof {
        assert(rest.len() >= 2);
        assert(frac_of(s@) =~= s@.skip(n as int + 1));
        assert(rest.skip(1) =~= s@.skip(n as int + 1));
    }
    let mut j: usize = n + 1;
    while j < len
        invariant
            cv@ == s@,
            len == s@.len(),
            non_dot_prefix_len(s@) == n as nat,
            n + 1 < len,
            n + 1 <= j <= len,
            forall|k: int| n + 1 <= k < j ==> is_digit(s@[k]),
        decreases len - j,
    {
        let c = cv[j];
        if c < '0' || c > '9' {
            proof {
                assert(s@.skip(n as int + 1)[j - n - 1] == s@[j as int]);
                assert(!all_digits(s@.skip(n as int + 1)));
                assert(s@.skip(n as int).skip(1) =~= s@.skip(n as int + 1));
            }
            return false;
        }
        j = j + 1;
    }
    proof {
        assert(forall|k: int|
            0 <= k < len - n - 1 ==> #[trigger] s@.skip(n as int + 1)[k] == s@[k + n + 1]);
        assert(all_digits(s@.skip(n as int + 1)));
        assert(version_wellformed(s@));
    }
    if int_nonzero {
        return true;
    }
    let ghost f = frac_of(s@);
    proof {
        assert(f[0] == s@[n as int + 1]);
        assert(f.len() == len - n - 1);
    }
    let f0 = cv[n + 1];
    if f0 > '1' {
        return true;
    }
    if f0 == '1' && n + 2 < len {
        proof {
            assert(f[1] == s@[n as int + 2]);
        }
        if cv[n + 2] >= '5' {
            return true;
        }
        return false;
    }
    false
}

} // verus!
