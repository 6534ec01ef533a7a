//! String-similarity primitive: Levenshtein edit distance over logical
//! characters (Unicode code points), and a case/punctuation-insensitive
//! companion comparison.

use vstd::prelude::*;
use crate::text::{push_char, str_chars};

verus! {

/// Minimum of three natural numbers.
pub open spec fn min3(x: nat, y: nat, z: nat) -> nat {
    if x <= y && x <= z {
        x
    } else if y <= z {
        y
    } else {
        z
    }
}

/// Levenshtein edit distance: the minimum count of single-character insert,
/// delete and substitute operations that transform `a` into `b`.
pub open spec fn edit_dist(a: Seq<char>, b: Seq<char>) -> nat
    decreases a.len(), b.len(),
{
    if a.len() == 0 {
        b.len()
    } else if b.len() == 0 {
        a.len()
    } else {
        let tail_cost: nat = if a.last() == b.last() {
            0
        } else {
            1
        };
        min3(
            edit_dist(a.drop_last(), b) + 1,
            edit_dist(a, b.drop_last()) + 1,
            edit_dist(a.drop_last(), b.drop_last()) + tail_cost,
        )
    }
}

/// The distance never exceeds the longer of the two lengths.
pub proof fn lemma_edit_dist_le_max(a: Seq<char>, b: Seq<char>)
    ensures
        edit_dist(a, b) <= if a.len() >= b.len() {
            a.len()
        } else {
            b.len()
        },
    decreases a.len(), b.len(),
{
    if a.len() == 0 || b.len() == 0 {
    } else {
        lemma_edit_dist_le_max(a.drop_last(), b.drop_last());
    }
}

/// The distance from any string to itself is zero.
pub proof fn lemma_edit_dist_self(a: Seq<char>)
    ensures
        edit_dist(a, a) == 0,
    decreases a.len(),
{
    if a.len() == 0 {
    } else {
        lemma_edit_dist_self(a.drop_last());
    }
}

/// The distance between a string and the empty string is the string's
/// character length, in either argument order.
pub proof fn lemma_edit_dist_empty(a: Seq<char>)
    ensures
        edit_dist(a, Seq::<char>::empty()) == a.len(),
        edit_dist(Seq::<char>::empty(), a) == a.len(),
{
}

/// The distance is symmetric in its arguments.
pub proof fn lemma_edit_dist_sym(a: Seq<char>, b: Seq<char>)
    ensures
        edit_dist(a, b) == edit_dist(b, a),
    decreases a.len(), b.len(),
{
    if a.len() == 0 || b.len() == 0 {
    } else {
        lemma_edit_dist_sym(a.drop_last(), b);
        lemma_edit_dist_sym(a, b.drop_last());
        lemma_edit_dist_sym(a.drop_last(), b.drop_last());
    }
}

/// Dynamic-programming recurrence over prefixes: the distance of the prefixes
/// of length `i + 1` and `j + 1` is the minimum of the delete, insert and
/// substitute alternatives over the shorter prefixes.
proof fn lemma_edit_dist_step(a: Seq<char>, b: Seq<char>, i: int, j: int)
    requires
        0 <= i < a.len(),
        0 <= j < b.len(),
    ensures
        edit_dist(a.take(i + 1), b.take(j + 1)) == min3(
            edit_dist(a.take(i), b.take(j + 1)) + 1,
            edit_dist(a.take(i + 1), b.take(j)) + 1,
            edit_dist(a.take(i), b.take(j)) + if a[i] == b[j] {
                0nat
            } else {
                1nat
            },
        ),
{
    let ap = a.take(i + 1);
    let bp = b.take(j + 1);
    assert(ap.last() == a[i]);
    assert(bp.last() == b[j]);
    assert(ap.drop_last() =~= a.take(i));
    assert(bp.drop_last() =~= b.take(j));
    assert(bp.drop_last() == b.take(j));
    assert(ap.drop_last() == a.take(i));
}

/// Character-wise equality of two vectors' contents.
fn chars_eq(a: &Vec<char>, b: &Vec<char>) -> (r: bool)
    ensures
        r == (a@ == b@),
{
    if a.len() != b.len() {
        return false;
    }
    let mut i: usize = 0;
    while i < a.len()
        invariant
            a@.len() == b@.len(),
            i <= a@.len(),
            forall|k: int| 0 <= k < i ==> a@[k] == b@[k],
        decreases a@.len() - i,
    {
        if a[i] != b[i] {
            return false;
        }
        i = i + 1;
    }
    proof {
        assert(a@ =~= b@);
    }
    true
}

/// Levenshtein distance between two strings, over logical characters.
///
/// Computed with a single reusable row of length `len(a)` rather than a full
/// matrix, after the degenerate shortcuts for identical and empty inputs.
pub fn levenshtein(a: &str, b: &str) -> (d: usize)
    ensures
        d == edit_dist(a@, b@),
{
    let av = str_chars(a);
    let bv = str_chars(b);
    let len_a = av.len();
    let len_b = bv.len();

    if chars_eq(&av, &bv) {
        proof {
            lemma_edit_dist_self(a@);
        }
        return 0;
    }
    if len_a == 0 {
        return len_b;
    }
    if len_b == 0 {
        return len_a;
    }

    let mut cache: Vec<usize> = Vec::new();
    let mut i: usize = 0;
    while i < len_a
        invariant
            len_a == a@.len(),
            i <= len_a,
            cache@.len() == i,
            forall|k: int|
                0 <= k < i ==> cache@[k] as nat == edit_dist(a@.take(k + 1), b@.take(0)),
        decreases len_a - i,
    {
        proof {
            assert(b@.take(0) =~= Seq::<char>::empty());
            assert(a@.take(i as int + 1).len() == i + 1);
        }
        cache.push(i + 1);
        i = i + 1;
    }

    let mut j: usize = 0;
    while j < len_b
        invariant
            len_a == a@.len(),
            len_b == b@.len(),
            av@ == a@,
            bv@ == b@,
            0 < len_a,
            0 < len_b,
            j <= len_b,
            cache@.len() == len_a,
            forall|k: int|
                0 <= k < len_a ==> cache@[k] as nat == edit_dist(
                    a@.take(k + 1),
                    b@.take(j as int),
                ),
        decreases len_b - j,
    {
        let cb = bv[j];
        let mut prev_diag: usize = j;
        let mut left: usize = j + 1;
        proof {
            assert(a@.take(0) =~= Seq::<char>::empty());
        }
        let mut i2: usize = 0;
        while i2 < len_a
            invariant
                len_a == a@.len(),
                len_b == b@.len(),
                av@ == a@,
                bv@ == b@,
                0 < len_a,
                j < len_b,
                i2 <= len_a,
                cache@.len() == len_a,
                cb == b@[j as int],
                forall|k: int|
                    0 <= k < i2 ==> cache@[k] as nat == edit_dist(
                        a@.take(k + 1),
                        b@.take(j as int + 1),
                    ),
                forall|k: int|
                    i2 <= k < len_a ==> cache@[k] as nat == edit_dist(
                        a@.take(k + 1),
                        b@.take(j as int),
                    ),
                prev_diag as nat == edit_dist(a@.take(i2 as int), b@.take(j as int)),
                left as nat == edit_dist(a@.take(i2 as int), b@.take(j as int + 1)),
            decreases len_a - i2,
        {
            let ca = av[i2];
            let above = cache[i2];
            proof {
                lemma_edit_dist_step(a@, b@, i2 as int, j as int);
                lemma_edit_dist_le_max(a@.take(i2 as int), b@.take(j as int));
            }
            let mut cur: usize = if ca == cb {
                prev_diag
            } else {
                prev_diag + 1
            };
            if above < cur {
                cur = above + 1;
            }
            if left < cur {
                cur = left + 1;
            }
            proof {
                assert(cur as nat == edit_dist(a@.take(i2 as int + 1), b@.take(j as int + 1)));
            }
            cache.set(i2, cur);
            prev_diag = above;
            left = cur;
            i2 = i2 + 1;
        }
        j = j + 1;
    }

    let d = cache[len_a - 1];
    proof {
        assert(a@.take(len_a as int) =~= a@);
        assert(b@.take(len_b as int) =~= b@);
    }
    d
}

/// What a single character contributes to the punctuation folding: an
/// apostrophe vanishes, a dash or underscore becomes a space, anything else
/// stays as it is.
pub open spec fn fold_char(c: char) -> Seq<char> {
    if c == '\'' {
        Seq::<char>::empty()
    } else if c == '-' || c == '_' {
        seq![' ']
    } else {
        seq![c]
    }
}

/// Punctuation folding of a whole string, character by character.
pub open spec fn fold_punct(s: Seq<char>) -> Seq<char>
    decreases s.len(),
{
    if s.len() == 0 {
        Seq::<char>::empty()
    } else {
        fold_punct(s.drop_last()) + fold_char(s.last())
    }
}

/// What `str::to_lowercase` returns for a given sequence of characters.
pub uninterp spec fn lower_of(s: Seq<char>) -> Seq<char>;

/// Relies on std's `str::to_lowercase`: the result is a function of the
/// input's characters alone, and an empty string stays empty.
#[verifier::external_body]
fn to_lower(s: &str) -> (r: String)
    ensures
        r@ == lower_of(s@),
        s@.len() == 0 ==> r@.len() == 0,
{
    s.to_lowercase()
}

/// Applies the punctuation folding to a string.
fn fold_punct_exec(s: &str) -> (r: String)
    ensures
        r@ == fold_punct(s@),
{
    let v = str_chars(s);
    let mut out = String::new();
    let mut i: usize = 0;
    while i < v.len()
        invariant
            v@ == s@,
            i <= v@.len(),
            out@ == fold_punct(s@.take(i as int)),
        decreases v@.len() - i,
    {
        let c = v[i];
        if c == '\'' {
        } else if c == '-' || c == '_' {
            push_char(&mut out, ' ');
        } else {
            push_char(&mut out, c);
        }
        proof {
            assert(s@.take(i as int + 1).drop_last() =~= s@.take(i as int));
            assert(s@.take(i as int + 1).last() == s@[i as int]);
            assert(out@ =~= fold_punct(s@.take(i as int)) + fold_char(s@[i as int]));
        }
        i = i + 1;
    }
    proof {
        assert(s@.take(s@.len() as int) =~= s@);
    }
    out
}

/// The insensitive comparison is symmetric in its arguments: the folded,
/// lowercased forms compare the same either way round. (Its invariance under
/// case changes or punctuation edits of the inputs themselves rests on how
/// `str::to_lowercase` maps the changed input, which the trusted name does
/// not state; the concrete cases are exercised by tests.)
pub proof fn lemma_insensitive_sym(a: Seq<char>, b: Seq<char>)
    ensures
        edit_dist(fold_punct(lower_of(a)), fold_punct(lower_of(b))) == edit_dist(
            fold_punct(lower_of(b)),
            fold_punct(lower_of(a)),
        ),
{
    lemma_edit_dist_sym(fold_punct(lower_of(a)), fold_punct(lower_of(b)));
}

/// Levenshtein distance that ignores case and some non-alphanumeric
/// characters: apostrophes are dropped, dashes and underscores compare as
/// spaces. Intended for human-entered queries that are "fuzzy enough".
pub fn levenshtein_insensitive(a: &str, b: &str) -> (d: usize)
    ensures
        d == edit_dist(fold_punct(lower_of(a@)), fold_punct(lower_of(b@))),
{
    let la = to_lower(a);
    let lb = to_lower(b);
    let fa = fold_punct_exec(la.as_str());
    let fb = fold_punct_exec(lb.as_str());
    levenshtein(fa.as_str(), fb.as_str())
}

} // verus!
