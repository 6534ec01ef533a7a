//! The multi-result listing: one `title (link) by author` line per
//! candidate, with the internal name percent-encoded inside the link.

use vstd::prelude::*;
use crate::records::{encode_spaces, encode_spaces_exec, CanonicalRecord, RecordView};
use crate::selector::views_of;
use vstd::string::StringExecFns;

verus! {

/// One listing line for a record.
pub open spec fn listing_line(rv: RecordView) -> Seq<char> {
    "["@ + rv.title + "](https://mods.factorio.com/mods/"@ + rv.author + "/"@ + encode_spaces(
        rv.name,
    ) + ") by "@ + rv.author + "\n"@
}

/// The concatenated lines of the candidates, in order.
pub open spec fn listing_body(cs: Seq<RecordView>) -> Seq<char>
    decreases cs.len(),
{
    if cs.len() == 0 {
        Seq::<char>::empty()
    } else {
        listing_body(cs.drop_last()) + listing_line(cs.last())
    }
}

/// The listing text: the lines, or the fixed no-results text when there is
/// no candidate to list.
pub open spec fn listing_text(cs: Seq<RecordView>) -> Seq<char> {
    if cs.len() == 0 {
        "No results for current factorio stable version or higher."@
    } else {
        listing_body(cs)
    }
}

/// Builds the listing text for the candidate records.
pub fn listing_text_exec(cands: &Vec<CanonicalRecord>) -> (r: String)
    ensures
        r@ == listing_text(views_of(cands@)),
{
    let ghost vs = views_of(cands@);
    if cands.len() == 0 {
        return String::from_str("No results for current factorio stable version or higher.");
    }
    let mut out = String::new();
    let mut i: usize = 0;
    while i < cands.len()
        invariant
            vs == views_of(cands@),
            vs.len() == cands@.len(),
            i <= cands@.len(),
            out@ == listing_body(vs.take(i as int)),
        decreases cands@.len() - i,
    {
        proof {
            assert(vs[i as int] == cands@[i as int]@);
        }
        let c = &cands[i];
        out.append("[");
        out.append(c.title.as_str());
        out.append("](https://mods.factorio.com/mods/");
        out.append(c.author.as_str());
        out.append("/");
        let enc = encode_spaces_exec(&c.name);
        out.append(enc.as_str());
        out.append(") by ");
        out.append(c.author.as_str());
        out.append("\n");
        proof {
            assert(vs.take(i as int + 1).drop_last() =~= vs.take(i as int));
            assert(vs.take(i as int + 1).last() == vs[i as int]);
            assert(out@ =~= listing_body(vs.take(i as int)) + listing_line(vs[i as int]));
        }
        i = i + 1;
    }
    proof {
        assert(vs.take(vs.len() as int) =~= vs);
    }
    out
}

} // verus!
