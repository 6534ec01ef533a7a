//! End-to-end command resolution: from the normalized query and the
//! catalog's response to exactly one outward outcome.

use vstd::prelude::*;
use crate::listing::{listing_text, listing_text_exec};
use crate::records::{parse_record, parse_view, CanonicalRecord, RawRecord, RawRecordView, RecordView};
use crate::selector::{first_close, select, views_of, MatchDecision};
use crate::version::{version_at_least_min, version_at_least_min_exec};
use vstd::string::StrSliceExecFns;

verus! {

/// At most this many results of one response become candidates.
pub const LISTING_CAP: usize = 10;

/// What the catalog handed back: a transport or parse failure, or the raw
/// entries of the response's result array (empty when it had none).
pub enum CatalogResponse {
    Failed,
    Results(Vec<RawRecord>),
}

/// The one outward outcome of a command resolution.
pub enum Resolution {
    /// The query argument was empty after normalization.
    MissingArgument,
    /// The catalog could not be reached or did not answer usably.
    TransportFailure,
    /// No candidate passed the minimum-version filter.
    NoResults,
    /// A single confident record to present.
    Single(CanonicalRecord),
    /// An ambiguous listing: the candidates and their listing text.
    Listing(Vec<CanonicalRecord>, String),
}

/// The views of the raw entries.
pub open spec fn raws_views(rs: Seq<RawRecord>) -> Seq<RawRecordView> {
    rs.map_values(|r: RawRecord| r@)
}

/// The canonical records of the entries, keeping those whose
/// minimum-supported version passes the filter, in the catalog's own order.
pub open spec fn filtered_candidates(rs: Seq<RawRecordView>) -> Seq<RecordView>
    decreases rs.len(),
{
    if rs.len() == 0 {
        Seq::<RecordView>::empty()
    } else {
        let front = filtered_candidates(rs.drop_last());
        let rv = parse_view(rs.last());
        if version_at_least_min(rv.factorio_version) {
            front + seq![rv]
        } else {
            front
        }
    }
}

/// The candidate set of one response: every entry canonicalized and
/// version-filtered, and the filtered set capped at the listing cap.
pub open spec fn candidates_spec(rs: Seq<RawRecordView>) -> Seq<RecordView> {
    let all = filtered_candidates(rs);
    if all.len() <= LISTING_CAP {
        all
    } else {
        all.take(LISTING_CAP as int)
    }
}

/// Filtering distributes over concatenation of the raw entries.
proof fn lemma_filtered_concat(a: Seq<RawRecordView>, b: Seq<RawRecordView>)
    ensures
        filtered_candidates(a + b) == filtered_candidates(a) + filtered_candidates(b),
    decreases b.len(),
{
    if b.len() == 0 {
        assert(a + b =~= a);
        assert(filtered_candidates(a) + filtered_candidates(b) =~= filtered_candidates(a));
    } else {
        lemma_filtered_concat(a, b.drop_last());
        assert((a + b).drop_last() =~= a + b.drop_last());
        assert((a + b).last() == b.last());
        let rv = parse_view(b.last());
        if version_at_least_min(rv.factorio_version) {
            assert(filtered_candidates(a) + filtered_candidates(b.drop_last()) + seq![rv]
                =~= filtered_candidates(a) + (filtered_candidates(b.drop_last()) + seq![rv]));
        }
    }
}

/// Builds the candidate set of one response: scans every entry, keeping
/// those that pass the filter, until the listing cap is reached.
pub fn build_candidates(raws: &Vec<RawRecord>) -> (r: Vec<CanonicalRecord>)
    ensures
        views_of(r@) == candidates_spec(raws_views(raws@)),
{
    let ghost rvs = raws_views(raws@);
    let mut out: Vec<CanonicalRecord> = Vec::new();
    let mut i: usize = 0;
    proof {
        assert(views_of(out@) =~= Seq::<RecordView>::empty());
        assert(rvs.take(0).len() == 0);
    }
    while i < raws.len() && out.len() < LISTING_CAP
        invariant
            rvs == raws_views(raws@),
            rvs.len() == raws@.len(),
            i <= raws@.len(),
            out@.len() <= LISTING_CAP,
            views_of(out@) == filtered_candidates(rvs.take(i as int)),
        decreases raws@.len() - i,
    {
        proof {
            assert(rvs[i as int] == raws@[i as int]@);
            assert(rvs.take(i as int + 1).drop_last() =~= rvs.take(i as int));
            assert(rvs.take(i as int + 1).last() == rvs[i as int]);
        }
        let rec = parse_record(&raws[i]);
        if version_at_least_min_exec(rec.factorio_version.as_str()) {
            let ghost old_out = out@;
            out.push(rec);
            proof {
                assert(views_of(out@) =~= views_of(old_out) + seq![rec@]);
            }
        }
        i = i + 1;
    }
    proof {
        let all = filtered_candidates(rvs);
        let part = filtered_candidates(rvs.take(i as int));
        assert(rvs.take(i as int) + rvs.skip(i as int) =~= rvs);
        lemma_filtered_concat(rvs.take(i as int), rvs.skip(i as int));
        assert(all == part + filtered_candidates(rvs.skip(i as int)));
        if i == raws@.len() {
            assert(rvs.skip(i as int).len() == 0);
            assert(part + filtered_candidates(rvs.skip(i as int)) =~= part);
            assert(all.len() <= LISTING_CAP);
        } else {
            assert(views_of(out@).len() == LISTING_CAP);
            assert(all.take(part.len() as int) =~= part);
        }
        assert(views_of(out@) == candidates_spec(rvs));
    }
    out
}

/// Resolves one command: an empty query is a missing argument; a failed
/// response is a transport failure; otherwise the candidates are built and
/// the fuzzy selection decides among a single record, a listing, and no
/// results. Exactly one outcome comes back.
pub fn resolve(query: &str, response: CatalogResponse) -> (r: Resolution)
    ensures
        query@.len() == 0 ==> r is MissingArgument,
        query@.len() > 0 ==> match response {
            CatalogResponse::Failed => r is TransportFailure,
            CatalogResponse::Results(rs) => {
                let cvs = candidates_spec(raws_views(rs@));
                &&& (cvs.len() == 0 ==> r is NoResults)
                &&& (cvs.len() == 1 ==> (r matches Resolution::Single(rec) && rec@ == cvs[0]))
                &&& ((cvs.len() > 1 && first_close(query@, cvs) is Some) ==> (
                r matches Resolution::Single(rec) && rec@ == first_close(query@, cvs).unwrap()))
                &&& ((cvs.len() > 1 && first_close(query@, cvs) is None) ==> (
                r matches Resolution::Listing(l, text) && views_of(l@) == cvs && text@
                    == listing_text(cvs)))
            },
        },
{
    if query.unicode_len() == 0 {
        return Resolution::MissingArgument;
    }
    match response {
        CatalogResponse::Failed => Resolution::TransportFailure,
        CatalogResponse::Results(rs) => {
            let ghost cvs = candidates_spec(raws_views(rs@));
            let cands = build_candidates(&rs);
            proof {
                assert(views_of(cands@) == cvs);
                assert(views_of(cands@).len() == cands@.len());
            }
            match select(query, cands) {
                MatchDecision::Empty => Resolution::NoResults,
                MatchDecision::Single(rec) => {
                    proof {
                        if cvs.len() == 1 {
                            assert(views_of(cands@)[0] == cands@[0]@);
                        }
                    }
                    Resolution::Single(rec)
                }
                MatchDecision::Listing(l) => {
                    let text = listing_text_exec(&l);
                    Resolution::Listing(l, text)
                }
            }
        }
    }
}

} // verus!
