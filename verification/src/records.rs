//! The canonical catalog record: the normalized, fallback-complete
//! representation of one catalog entry, and its parser from the raw fields of
//! a catalog response. The parser never fails: every absent field degrades to
//! a documented fallback.

use vstd::prelude::*;
use crate::numeric::dec_str;
use crate::text::{push_char, str_chars};
use vstd::string::{StrSliceExecFns, StringExecFns};

verus! {

/// The raw fields of one catalog result that the resolution logic consumes.
/// `None` stands for a field the response did not carry (or carried as JSON
/// `null`); the caller converts present values to their display strings.
pub struct RawRecord {
    pub name: Option<String>,
    pub title: Option<String>,
    pub owner: Option<String>,
    pub summary: Option<String>,
    pub downloads_count: Option<u64>,
    pub created_at: Option<String>,
    pub updated_at: Option<String>,
    pub latest_version: Option<String>,
    pub factorio_version: Option<String>,
    pub dependencies: Option<Vec<String>>,
    pub homepage: Option<String>,
    pub github_path: Option<String>,
    pub thumb_url: Option<String>,
    pub tags: Vec<String>,
}

/// Spec-level image of a `RawRecord`.
pub ghost struct RawRecordView {
    pub name: Option<Seq<char>>,
    pub title: Option<Seq<char>>,
    pub owner: Option<Seq<char>>,
    pub summary: Option<Seq<char>>,
    pub downloads_count: Option<u64>,
    pub created_at: Option<Seq<char>>,
    pub updated_at: Option<Seq<char>>,
    pub latest_version: Option<Seq<char>>,
    pub factorio_version: Option<Seq<char>>,
    pub dependencies: Seq<Seq<char>>,
    pub homepage: Option<Seq<char>>,
    pub github_path: Option<Seq<char>>,
    pub thumb_url: Option<Seq<char>>,
    pub tags: Seq<Seq<char>>,
}

/// View of an optional string.
pub open spec fn opt_view(o: Option<String>) -> Option<Seq<char>> {
    match o {
        Some(s) => Some(s@),
        None => None,
    }
}

/// View of a list of strings.
pub open spec fn strs_view(v: Seq<String>) -> Seq<Seq<char>> {
    v.map_values(|s: String| s@)
}

impl View for RawRecord {
    type V = RawRecordView;

    open spec fn view(&self) -> RawRecordView {
        RawRecordView {
            name: opt_view(self.name),
            title: opt_view(self.title),
            owner: opt_view(self.owner),
            summary: opt_view(self.summary),
            downloads_count: self.downloads_count,
            created_at: opt_view(self.created_at),
            updated_at: opt_view(self.updated_at),
            latest_version: opt_view(self.latest_version),
            factorio_version: opt_view(self.factorio_version),
            dependencies: match self.dependencies {
                Some(d) => strs_view(d@),
                None => Seq::<Seq<char>>::empty(),
            },
            homepage: opt_view(self.homepage),
            github_path: opt_view(self.github_path),
            thumb_url: opt_view(self.thumb_url),
            tags: strs_view(self.tags@),
        }
    }
}

impl RawRecord {
    /// A record with every field absent: what a minimal or empty raw entry
    /// gives the parser.
    pub fn empty() -> (r: RawRecord)
        ensures
            r@.name is None,
            r@.title is None,
            r@.owner is None,
            r@.summary is None,
            r@.downloads_count is None,
            r@.created_at is None,
            r@.updated_at is None,
            r@.latest_version is None,
            r@.factorio_version is None,
            r@.dependencies.len() == 0,
            r@.homepage is None,
            r@.github_path is None,
            r@.thumb_url is None,
            r@.tags.len() == 0,
    {
        let r = RawRecord {
            name: None,
            title: None,
            owner: None,
            summary: None,
            downloads_count: None,
            created_at: None,
            updated_at: None,
            latest_version: None,
            factorio_version: None,
            dependencies: None,
            homepage: None,
            github_path: None,
            thumb_url: None,
            tags: Vec::new(),
        };
        proof {
            assert(strs_view(r.tags@) =~= Seq::<Seq<char>>::empty());
        }
        r
    }
}

/// One resolved catalog entry, every textual field populated.
pub struct CanonicalRecord {
    pub creation_date: String,
    pub last_updated: String,
    pub thumb: String,
    pub name: String,
    pub author: String,
    pub link: String,
    pub download_count: u64,
    pub latest_version: String,
    pub factorio_version: String,
    pub source_path: String,
    pub homepage: String,
    pub dependencies: String,
    pub summary: String,
    pub title: String,
    pub tag: Option<String>,
}

/// Spec-level image of a `CanonicalRecord`.
#[verifier::ext_equal]
pub ghost struct RecordView {
    pub creation_date: Seq<char>,
    pub last_updated: Seq<char>,
    pub thumb: Seq<char>,
    pub name: Seq<char>,
    pub author: Seq<char>,
    pub link: Seq<char>,
    pub download_count: u64,
    pub latest_version: Seq<char>,
    pub factorio_version: Seq<char>,
    pub source_path: Seq<char>,
    pub homepage: Seq<char>,
    pub dependencies: Seq<char>,
    pub summary: Seq<char>,
    pub title: Seq<char>,
    pub tag: Option<Seq<char>>,
}

impl View for CanonicalRecord {
    type V = RecordView;

    open spec fn view(&self) -> RecordView {
        RecordView {
            creation_date: self.creation_date@,
            last_updated: self.last_updated@,
            thumb: self.thumb@,
            name: self.name@,
            author: self.author@,
            link: self.link@,
            download_count: self.download_count,
            latest_version: self.latest_version@,
            factorio_version: self.factorio_version@,
            source_path: self.source_path@,
            homepage: self.homepage@,
            dependencies: self.dependencies@,
            summary: self.summary@,
            title: self.title@,
            tag: opt_view(self.tag),
        }
    }
}

impl CanonicalRecord {
    /// A field-by-field copy.
    pub fn clone_rec(&self) -> (r: Self)
        ensures
            r == *self,
    {
        CanonicalRecord {
            creation_date: self.creation_date.clone(),
            last_updated: self.last_updated.clone(),
            thumb: self.thumb.clone(),
            name: self.name.clone(),
            author: self.author.clone(),
            link: self.link.clone(),
            download_count: self.download_count,
            latest_version: self.latest_version.clone(),
            factorio_version: self.factorio_version.clone(),
            source_path: self.source_path.clone(),
            homepage: self.homepage.clone(),
            dependencies: self.dependencies.clone(),
            summary: self.summary.clone(),
            title: self.title.clone(),
            tag: match &self.tag {
                Some(t) => Some(t.clone()),
                None => None,
            },
        }
    }
}

impl CanonicalRecord {
    /// The enumerated field/value pairs of the record card, in display
    /// order. The tag falls back to a fixed text when the record has none.
    pub fn embed_fields(&self) -> (r: Vec<(String, String)>)
        ensures
            r@.len() == 10,
            r@[0].0@ == "Author"@ && r@[0].1@ == self.author@,
            r@[1].0@ == "Downloads"@ && r@[1].1@ == dec_str(self.download_count as nat)
                + " downloads"@,
            r@[2].0@ == "Source code"@ && r@[2].1@ == self.source_path@,
            r@[3].0@ == "Homepage"@ && r@[3].1@ == self.homepage@,
            r@[4].0@ == "Last updated"@ && r@[4].1@ == self.last_updated@,
            r@[5].0@ == "Dependencies"@ && r@[5].1@ == self.dependencies@,
            r@[6].0@ == "Tagged"@ && r@[6].1@ == match self.tag {
                Some(t) => t@,
                None => "Not tagged."@,
            },
            r@[7].0@ == "Created on"@ && r@[7].1@ == self.creation_date@,
            r@[8].0@ == "Latest mod version"@ && r@[8].1@ == self.latest_version@,
            r@[9].0@ == "Factorio version"@ && r@[9].1@ == self.factorio_version@,
    {
        let mut downloads = crate::numeric::u64_to_string(self.download_count);
        downloads.append(" downloads");
        let tag_text = match &self.tag {
            Some(t) => t.clone(),
            None => String::from_str("Not tagged."),
        };
        let mut r: Vec<(String, String)> = Vec::new();
        r.push((String::from_str("Author"), self.author.clone()));
        r.push((String::from_str("Downloads"), downloads));
        r.push((String::from_str("Source code"), self.source_path.clone()));
        r.push((String::from_str("Homepage"), self.homepage.clone()));
        r.push((String::from_str("Last updated"), self.last_updated.clone()));
        r.push((String::from_str("Dependencies"), self.dependencies.clone()));
        r.push((String::from_str("Tagged"), tag_text));
        r.push((String::from_str("Created on"), self.creation_date.clone()));
        r.push((String::from_str("Latest mod version"), self.latest_version.clone()));
        r.push((String::from_str("Factorio version"), self.factorio_version.clone()));
        r
    }
}

/// How an absent field renders: as the raw document shows it, the literal
/// `null`.
pub open spec fn field_or_null(o: Option<Seq<char>>) -> Seq<char> {
    match o {
        Some(s) => s,
        None => "null"@,
    }
}

/// The fixed placeholder thumbnail used when the record carries none.
pub open spec fn placeholder_thumb() -> Seq<char> {
    "http://i.imgur.com/ckaei9P.png"@
}

/// The prefix before a space character, or the whole string when it holds
/// none: drops the time-of-day part of a timestamp.
pub open spec fn truncate_at_space(s: Seq<char>) -> Seq<char>
    decreases s.len(),
{
    if s.len() == 0 {
        Seq::<char>::empty()
    } else if s[0] == ' ' {
        Seq::<char>::empty()
    } else {
        seq![s[0]] + truncate_at_space(s.drop_first())
    }
}

/// Homepage text: a markdown-style hyperlink when present and non-empty,
/// else the literal `None`.
pub open spec fn home_text(o: Option<Seq<char>>) -> Seq<char> {
    match o {
        Some(u) => if u.len() == 0 {
            "None"@
        } else {
            "[Home]("@ + u + ")"@
        },
        None => "None"@,
    }
}

/// Source-repository text: a markdown-style hyperlink built from the
/// repository path when present and non-empty, else the literal `None`.
pub open spec fn source_text(o: Option<Seq<char>>) -> Seq<char> {
    match o {
        Some(p) => if p.len() == 0 {
            "None"@
        } else {
            "[Source](https://github.com/"@ + p + ")"@
        },
        None => "None"@,
    }
}

/// What one character contributes to percent-encoding: a space becomes
/// `%20`, anything else stays.
pub open spec fn enc_char(c: char) -> Seq<char> {
    if c == ' ' {
        seq!['%', '2', '0']
    } else {
        seq![c]
    }
}

/// Percent-encodes the spaces of a string.
pub open spec fn encode_spaces(s: Seq<char>) -> Seq<char>
    decreases s.len(),
{
    if s.len() == 0 {
        Seq::<char>::empty()
    } else {
        encode_spaces(s.drop_last()) + enc_char(s.last())
    }
}

/// The canonical link of a record, built from author and internal name with
/// spaces percent-encoded.
pub open spec fn mod_link(owner: Seq<char>, name: Seq<char>) -> Seq<char> {
    "https://mods.factorio.com/mods/"@ + encode_spaces(owner) + "/"@ + encode_spaces(name)
}

/// Whether a dependency entry is optional: it starts with `?`.
pub open spec fn is_optional(e: Seq<char>) -> bool {
    e.len() >= 1 && e[0] == '?'
}

/// The listed (non-optional) dependency entries, one per line.
pub open spec fn dep_lines(ds: Seq<Seq<char>>) -> Seq<char>
    decreases ds.len(),
{
    if ds.len() == 0 {
        Seq::<char>::empty()
    } else {
        dep_lines(ds.drop_last()) + if is_optional(ds.last()) {
            Seq::<char>::empty()
        } else {
            ds.last() + seq!['\n']
        }
    }
}

/// How many dependency entries are optional.
pub open spec fn opt_count(ds: Seq<Seq<char>>) -> nat
    decreases ds.len(),
{
    if ds.len() == 0 {
        0
    } else {
        opt_count(ds.drop_last()) + if is_optional(ds.last()) {
            1nat
        } else {
            0nat
        }
    }
}

/// The trailing summary line for the optional dependencies, pluralized for
/// exactly one against more than one.
pub open spec fn opt_suffix(n: nat) -> Seq<char> {
    if n == 0 {
        Seq::<char>::empty()
    } else if n == 1 {
        "...and 1 optional dependency."@
    } else {
        "...and "@ + dec_str(n) + " optional dependencies."@
    }
}

/// The whole dependency field: the fixed text when there are no entries at
/// all, else the listed entries followed by the optional summary.
pub open spec fn dep_summary(ds: Seq<Seq<char>>) -> Seq<char> {
    if ds.len() == 0 {
        "No dependencies."@
    } else {
        dep_lines(ds) + opt_suffix(opt_count(ds))
    }
}

/// Law: the optional-dependency summary pluralizes correctly — exactly one
/// optional entry yields the singular line, two or more the plural line with
/// the count in decimal.
pub proof fn lemma_dep_pluralization(ds: Seq<Seq<char>>)
    requires
        ds.len() > 0,
    ensures
        opt_count(ds) == 1 ==> dep_summary(ds) == dep_lines(ds)
            + "...and 1 optional dependency."@,
        opt_count(ds) >= 2 ==> dep_summary(ds) == dep_lines(ds) + "...and "@ + dec_str(
            opt_count(ds),
        ) + " optional dependencies."@,
{
    if opt_count(ds) >= 2 {
        assert(dep_lines(ds) + ("...and "@ + dec_str(opt_count(ds))
            + " optional dependencies."@) =~= dep_lines(ds) + "...and "@ + dec_str(
            opt_count(ds),
        ) + " optional dependencies."@);
    }
}

/// The parsed image of a raw record: every fallback rule of the canonical
/// record, stated field by field.
pub open spec fn parse_view(rv: RawRecordView) -> RecordView {
    RecordView {
        creation_date: truncate_at_space(field_or_null(rv.created_at)),
        last_updated: truncate_at_space(field_or_null(rv.updated_at)),
        thumb: match rv.thumb_url {
            Some(t) => t,
            None => placeholder_thumb(),
        },
        name: field_or_null(rv.name),
        author: field_or_null(rv.owner),
        link: mod_link(field_or_null(rv.owner), field_or_null(rv.name)),
        download_count: match rv.downloads_count {
            Some(n) => n,
            None => 0,
        },
        latest_version: field_or_null(rv.latest_version),
        factorio_version: field_or_null(rv.factorio_version),
        source_path: source_text(rv.github_path),
        homepage: home_text(rv.homepage),
        dependencies: dep_summary(rv.dependencies),
        summary: field_or_null(rv.summary),
        title: field_or_null(rv.title),
        tag: if rv.tags.len() > 0 {
            Some(rv.tags[0])
        } else {
            None
        },
    }
}

/// The field value, or the literal `null` when absent.
fn opt_or_null(o: &Option<String>) -> (r: String)
    ensures
        r@ == field_or_null(opt_view(*o)),
{
    match o {
        Some(s) => s.clone(),
        None => String::from_str("null"),
    }
}

/// Drops everything from the first space character on.
fn truncate_at_space_exec(s: &String) -> (r: String)
    ensures
        r@ == truncate_at_space(s@),
{
    let cv = str_chars(s.as_str());
    let mut out = String::new();
    let mut i: usize = 0;
    while i < cv.len()
        invariant
            cv@ == s@,
            i <= s@.len(),
            forall|k: int| 0 <= k < i ==> s@[k] != ' ',
            out@ == s@.take(i as int),
        decreases s@.len() - i,
    {
        let c = cv[i];
        if c == ' ' {
            proof {
                lemma_truncate_at_space(s@, i as int);
            }
            return out;
        }
        push_char(&mut out, c);
        i = i + 1;
        proof {
            assert(out@ =~= s@.take(i as int));
        }
    }
    proof {
        lemma_truncate_at_space(s@, s@.len() as int);
        assert(s@.take(s@.len() as int) =~= s@);
    }
    out
}

/// When no space stands before `i` and either the input ends or a space
/// stands at `i`, the truncation is exactly the prefix of length `i`.
proof fn lemma_truncate_at_space(s: Seq<char>, i: int)
    requires
        0 <= i <= s.len(),
        forall|k: int| 0 <= k < i ==> s[k] != ' ',
        i == s.len() || s[i] == ' ',
    ensures
        truncate_at_space(s) == s.take(i),
    decreases i,
{
    if i == 0 {
        assert(s.take(0) =~= Seq::<char>::empty());
    } else {
        let t = s.drop_first();
        assert(forall|k: int| 0 <= k < i - 1 ==> t[k] != ' ');
        lemma_truncate_at_space(t, i - 1);
        assert(seq![s[0]] + t.take(i - 1) =~= s.take(i));
    }
}

/// Percent-encodes the spaces of a string.
pub fn encode_spaces_exec(s: &String) -> (r: String)
    ensures
        r@ == encode_spaces(s@),
{
    let cv = str_chars(s.as_str());
    let mut out = String::new();
    let mut i: usize = 0;
    while i < cv.len()
        invariant
            cv@ == s@,
            i <= s@.len(),
            out@ == encode_spaces(s@.take(i as int)),
        decreases s@.len() - i,
    {
        let c = cv[i];
        if c == ' ' {
            push_char(&mut out, '%');
            push_char(&mut out, '2');
            push_char(&mut out, '0');
        } else {
            push_char(&mut out, c);
        }
        proof {
            assert(s@.take(i as int + 1).drop_last() =~= s@.take(i as int));
            assert(s@.take(i as int + 1).last() == s@[i as int]);
            assert(out@ =~= encode_spaces(s@.take(i as int)) + enc_char(s@[i as int]));
        }
        i = i + 1;
    }
    proof {
        assert(s@.take(s@.len() as int) =~= s@);
    }
    out
}

/// Builds the dependency field from the raw entries.
fn dep_summary_exec(deps: &Option<Vec<String>>) -> (r: String)
    ensures
        r@ == dep_summary(
            match *deps {
                Some(d) => strs_view(d@),
                None => Seq::<Seq<char>>::empty(),
            },
        ),
{
    match deps {
        None => String::from_str("No dependencies."),
        Some(d) => {
            let ghost dv = strs_view(d@);
            if d.len() == 0 {
                proof {
                    assert(dv.len() == 0);
                }
                return String::from_str("No dependencies.");
            }
            let mut lines = String::new();
            let mut count: usize = 0;
            let mut i: usize = 0;
            while i < d.len()
                invariant
                    dv == strs_view(d@),
                    dv.len() == d@.len(),
                    i <= d@.len(),
                    count <= i,
                    lines@ == dep_lines(dv.take(i as int)),
                    count as nat == opt_count(dv.take(i as int)),
                decreases d@.len() - i,
            {
                proof {
                    assert(dv[i as int] == d@[i as int]@);
                    assert(dv.take(i as int + 1).drop_last() =~= dv.take(i as int));
                    assert(dv.take(i as int + 1).last() == dv[i as int]);
                }
                let e = &d[i];
                let elen = e.as_str().unicode_len();
                if elen >= 1 && e.as_str().get_char(0) == '?' {
                    proof {
                        assert(is_optional(dv[i as int]));
                    }
                    count = count + 1;
                } else {
                    proof {
                        assert(!is_optional(dv[i as int]));
                    }
                    lines.append(e.as_str());
                    push_char(&mut lines, '\n');
                    proof {
                        assert(lines@ =~= dep_lines(dv.take(i as int)) + (dv[i as int] + seq![
                            '\n',
                        ]));
                    }
                }
                i = i + 1;
            }
            proof {
                assert(dv.take(dv.len() as int) =~= dv);
            }
            if count == 1 {
                lines.append("...and 1 optional dependency.");
            } else if count > 1 {
                lines.append("...and ");
                let cs = crate::numeric::u64_to_string(count as u64);
                lines.append(cs.as_str());
                lines.append(" optional dependencies.");
                proof {
                    assert(lines@ =~= dep_lines(dv) + ("...and "@ + dec_str(count as nat)
                        + " optional dependencies."@));
                }
            } else {
                proof {
                    assert(lines@ =~= dep_lines(dv) + opt_suffix(opt_count(dv)));
                }
            }
            lines
        }
    }
}

/// Parses one raw catalog entry into its canonical record. Never fails:
/// every absent field takes its documented fallback.
pub fn parse_record(raw: &RawRecord) -> (r: CanonicalRecord)
    ensures
        r@ == parse_view(raw@),
{
    let name = opt_or_null(&raw.name);
    let author = opt_or_null(&raw.owner);

    let created = opt_or_null(&raw.created_at);
    let creation_date = truncate_at_space_exec(&created);
    let updated = opt_or_null(&raw.updated_at);
    let last_updated = truncate_at_space_exec(&updated);

    let thumb = match &raw.thumb_url {
        Some(t) => t.clone(),
        None => String::from_str("http://i.imgur.com/ckaei9P.png"),
    };

    let homepage = match &raw.homepage {
        Some(u) => {
            if u.as_str().unicode_len() == 0 {
                String::from_str("None")
            } else {
                let mut h = String::from_str("[Home](");
                h.append(u.as_str());
                h.append(")");
                proof {
                    assert(h@ =~= "[Home]("@ + raw.homepage.unwrap()@ + ")"@);
                }
                h
            }
        }
        None => String::from_str("None"),
    };

    let source_path = match &raw.github_path {
        Some(p) => {
            if p.as_str().unicode_len() == 0 {
                String::from_str("None")
            } else {
                let mut h = String::from_str("[Source](https://github.com/");
                h.append(p.as_str());
                h.append(")");
                proof {
                    assert(h@ =~= "[Source](https://github.com/"@ + raw.github_path.unwrap()@
                        + ")"@);
                }
                h
            }
        }
        None => String::from_str("None"),
    };

    let mut link = String::from_str("https://mods.factorio.com/mods/");
    let enc_owner = encode_spaces_exec(&author);
    let enc_name = encode_spaces_exec(&name);
    link.append(enc_owner.as_str());
    link.append("/");
    link.append(enc_name.as_str());
    proof {
        assert(link@ =~= mod_link(field_or_null(opt_view(raw.owner)), field_or_null(opt_view(
            raw.name,
        ))));
    }

    let download_count: u64 = match &raw.downloads_count {
        Some(n) => *n,
        None => 0,
    };

    let dependencies = dep_summary_exec(&raw.dependencies);

    let tag = if raw.tags.len() > 0 {
        proof {
            assert(strs_view(raw.tags@)[0] == raw.tags@[0]@);
        }
        Some(raw.tags[0].clone())
    } else {
        None
    };

    let r = CanonicalRecord {
        creation_date,
        last_updated,
        thumb,
        name,
        author,
        link,
        download_count,
        latest_version: opt_or_null(&raw.latest_version),
        factorio_version: opt_or_null(&raw.factorio_version),
        source_path,
        homepage,
        dependencies,
        summary: opt_or_null(&raw.summary),
        title: opt_or_null(&raw.title),
        tag,
    };
    proof {
        assert(r@ =~= parse_view(raw@));
    }
    r
}

} // verus!
