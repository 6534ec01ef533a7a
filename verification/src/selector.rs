//! Fuzzy selection among the candidate records of one query: a confident
//! single match, an ambiguous listing, or no results.

use vstd::prelude::*;
use crate::distance::{edit_dist, levenshtein};
use crate::records::{CanonicalRecord, RecordView};

verus! {

/// How far a candidate's internal name or display title may stand from the
/// raw query and still count as a confident match.
pub const MATCH_THRESHOLD: usize = 3;

/// The tri-state outcome of fuzzy selection.
pub enum MatchDecision {
    /// A single confident match.
    Single(CanonicalRecord),
    /// No candidate was close enough: the full candidate set, in order.
    Listing(Vec<CanonicalRecord>),
    /// There were no candidates at all.
    Empty,
}

/// Whether a candidate's internal name or display title is within the match
/// threshold of the raw query. Deliberately case-sensitive: the raw
/// comparison is what the selection path uses.
pub open spec fn is_close(q: Seq<char>, rv: RecordView) -> bool {
    edit_dist(rv.name, q) <= MATCH_THRESHOLD || edit_dist(rv.title, q) <= MATCH_THRESHOLD
}

/// The first candidate within the threshold, scanning in order.
pub open spec fn first_close(q: Seq<char>, cs: Seq<RecordView>) -> Option<RecordView>
    decreases cs.len(),
{
    if cs.len() == 0 {
        None
    } else if is_close(q, cs[0]) {
        Some(cs[0])
    } else {
        first_close(q, cs.drop_first())
    }
}

/// The views of a sequence of records.
pub open spec fn views_of(cs: Seq<CanonicalRecord>) -> Seq<RecordView> {
    cs.map_values(|c: CanonicalRecord| c@)
}

/// Skipping candidates that are not close does not change the first close
/// one.
proof fn lemma_first_close_skip(q: Seq<char>, cs: Seq<RecordView>, i: int)
    requires
        0 <= i <= cs.len(),
        forall|k: int| 0 <= k < i ==> !is_close(q, cs[k]),
    ensures
        first_close(q, cs) == first_close(q, cs.skip(i)),
    decreases i,
{
    if i == 0 {
        assert(cs.skip(0) =~= cs);
    } else {
        assert(!is_close(q, cs[0]));
        assert(cs.drop_first() =~= cs.skip(1));
        lemma_first_close_skip(q, cs.skip(1), i - 1);
        assert(cs.skip(1).skip(i - 1) =~= cs.skip(i));
        assert(forall|k: int| 0 <= k < i - 1 ==> cs.skip(1)[k] == cs[k + 1]);
    }
}

/// Selects the outcome for a query over the (version-filtered, capped)
/// candidate set: no candidates is `Empty`; exactly one candidate is
/// `Single` unconditionally; otherwise the first candidate within the
/// threshold is `Single`, and when none is, the whole set is `Listing`.
pub fn select(query: &str, candidates: Vec<CanonicalRecord>) -> (r: MatchDecision)
    ensures
        candidates@.len() == 0 ==> r is Empty,
        candidates@.len() == 1 ==> (r matches MatchDecision::Single(rec) && rec
            == candidates@[0]),
        candidates@.len() > 1 ==> match first_close(query@, views_of(candidates@)) {
            Some(rv) => r matches MatchDecision::Single(rec) && rec@ == rv,
            None => r matches MatchDecision::Listing(l) && l == candidates,
        },
{
    let n = candidates.len();
    if n == 0 {
        return MatchDecision::Empty;
    }
    if n == 1 {
        return MatchDecision::Single(candidates[0].clone_rec());
    }
    let ghost vs = views_of(candidates@);
    let mut i: usize = 0;
    while i < n
        invariant
            n == candidates@.len(),
            vs == views_of(candidates@),
            vs.len() == n,
            i <= n,
            forall|k: int| 0 <= k < i ==> !is_close(query@, #[trigger] vs[k]),
        decreases n - i,
    {
        proof {
            assert(vs[i as int] == candidates@[i as int]@);
        }
        let d_name = levenshtein(candidates[i].name.as_str(), query);
        let d_title = levenshtein(candidates[i].title.as_str(), query);
        if d_name <= MATCH_THRESHOLD || d_title <= MATCH_THRESHOLD {
            proof {
                assert(is_close(query@, vs[i as int]));
                lemma_first_close_skip(query@, vs, i as int);
                assert(vs.skip(i as int)[0] == vs[i as int]);
                assert(first_close(query@, vs) == Some(vs[i as int]));
            }
            return MatchDecision::Single(candidates[i].clone_rec());
        }
        i = i + 1;
    }
    proof {
        lemma_first_close_skip(query@, vs, n as int);
        assert(vs.skip(n as int).len() == 0);
        assert(first_close(query@, vs) is None);
    }
    MatchDecision::Listing(candidates)
}

} // verus!
