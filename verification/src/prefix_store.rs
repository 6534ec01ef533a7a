//! Per-context prefix store: a mapping from 64-bit context identifiers to
//! command-prefix strings, together with its persisted document form. The
//! caller owns locking and file access; this module owns the map semantics
//! and the document format.

use vstd::prelude::*;
use crate::numeric::{dec_val, is_digit, parse_u64_digits, u64_to_string};
use crate::prefix_doc::{
    digits_prefix_len, esc_char, escape, hex4_at, hex4_val, hex_digit, hex_val, is_hex,
    is_surrogate, is_ws, lemma_parse_render_doc, lemma_skip_ws_at, parse_doc, parse_entries,
    parse_entry, parse_key, parse_string_body, render_doc, render_entry, render_inner,
    short_escape, skip_ws,
};
use crate::text::{char_from_code, push_char, str_chars};
use vstd::string::StringExecFns;

verus! {

/// The entries of a store, at the level of character sequences.
pub open spec fn entries_view(s: Seq<(u64, String)>) -> Seq<(u64, Seq<char>)> {
    s.map_values(|p: (u64, String)| (p.0, p.1@))
}

/// The map that a sequence of entries denotes: later entries win.
pub open spec fn map_of_views(es: Seq<(u64, Seq<char>)>) -> Map<u64, Seq<char>>
    decreases es.len(),
{
    if es.len() == 0 {
        Map::<u64, Seq<char>>::empty()
    } else {
        map_of_views(es.drop_last()).insert(es.last().0, es.last().1)
    }
}

/// No context identifier occurs twice.
pub open spec fn keys_unique(es: Seq<(u64, Seq<char>)>) -> bool {
    forall|i: int, j: int| 0 <= i < j < es.len() ==> es[i].0 != es[j].0
}

/// A key occurs in the denoted map exactly when some entry carries it.
proof fn lemma_map_of_contains(es: Seq<(u64, Seq<char>)>, k: u64)
    ensures
        map_of_views(es).contains_key(k) <==> exists|i: int| 0 <= i < es.len() && es[i].0 == k,
    decreases es.len(),
{
    if es.len() == 0 {
    } else {
        lemma_map_of_contains(es.drop_last(), k);
        if es.last().0 == k {
            assert(es[es.len() - 1].0 == k);
        } else if map_of_views(es).contains_key(k) {
            let i = choose|i: int| 0 <= i < es.drop_last().len() && es.drop_last()[i].0 == k;
            assert(es[i].0 == k);
        } else {
            assert(forall|i: int| 0 <= i < es.len() - 1 ==> es.drop_last()[i] == es[i]);
        }
    }
}

/// With unique keys, the denoted map sends each entry's key to its value.
proof fn lemma_map_of_index(es: Seq<(u64, Seq<char>)>, i: int)
    requires
        keys_unique(es),
        0 <= i < es.len(),
    ensures
        map_of_views(es).contains_key(es[i].0),
        map_of_views(es)[es[i].0] == es[i].1,
    decreases es.len(),
{
    if i == es.len() - 1 {
    } else {
        assert(keys_unique(es.drop_last())) by {
            assert(forall|a: int, b: int|
                0 <= a < b < es.len() - 1 ==> #[trigger] es.drop_last()[a].0
                    != #[trigger] es.drop_last()[b].0) by {
                assert(forall|a: int| 0 <= a < es.len() - 1 ==> es.drop_last()[a] == es[a]);
            }
        }
        assert(es.drop_last()[i] == es[i]);
        lemma_map_of_index(es.drop_last(), i);
        assert(es.last().0 != es[i].0);
    }
}

/// The per-context prefix store. Invariant: at most one prefix per
/// context identifier.
pub struct PrefixStore {
    entries: Vec<(u64, String)>,
}

impl View for PrefixStore {
    type V = Map<u64, Seq<char>>;

    closed spec fn view(&self) -> Map<u64, Seq<char>> {
        map_of_views(entries_view(self.entries@))
    }
}

impl PrefixStore {
    /// The entries in insertion order, at the level of character sequences.
    pub closed spec fn entries_seq(&self) -> Seq<(u64, Seq<char>)> {
        entries_view(self.entries@)
    }

    /// Well-formedness: no context identifier occurs twice.
    pub closed spec fn wf(&self) -> bool {
        keys_unique(entries_view(self.entries@))
    }

    /// An empty store.
    pub fn new() -> (s: Self)
        ensures
            s.wf(),
            s@ == Map::<u64, Seq<char>>::empty(),
            s.entries_seq() == Seq::<(u64, Seq<char>)>::empty(),
    {
        let s = PrefixStore { entries: Vec::new() };
        proof {
            assert(entries_view(s.entries@) =~= Seq::<(u64, Seq<char>)>::empty());
        }
        s
    }

    /// The configured prefix for a context, or the empty string when none is
    /// set. Never fails.
    pub fn get_prefix_for_guild(&self, id: u64) -> (r: String)
        requires
            self.wf(),
        ensures
            self@.contains_key(id) ==> r@ == self@[id],
            !self@.contains_key(id) ==> r@ == Seq::<char>::empty(),
    {
        let ghost ev = entries_view(self.entries@);
        let mut i: usize = 0;
        while i < self.entries.len()
            invariant
                self.wf(),
                ev == entries_view(self.entries@),
                i <= self.entries@.len(),
                ev.len() == self.entries@.len(),
                forall|k: int| 0 <= k < i ==> #[trigger] ev[k].0 != id,
            decreases self.entries@.len() - i,
        {
            if self.entries[i].0 == id {
                proof {
                    assert(ev[i as int].0 == id && ev[i as int].1 == self.entries@[i as int].1@);
                    lemma_map_of_index(ev, i as int);
                }
                return self.entries[i].1.clone();
            }
            proof {
                assert(ev[i as int].0 != id);
            }
            i = i + 1;
        }
        proof {
            lemma_map_of_contains(ev, id);
        }
        String::new()
    }

    /// Upserts one entry: the context's prefix becomes `prefix`, other
    /// entries stay as they are.
    pub fn set_prefix(&mut self, id: u64, prefix: String)
        requires
            old(self).wf(),
        ensures
            final(self).wf(),
            final(self)@ == old(self)@.insert(id, prefix@),
    {
        let ghost old_ev = entries_view(self.entries@);
        let mut i: usize = 0;
        while i < self.entries.len()
            invariant
                old_ev == entries_view(self.entries@),
                old_ev == entries_view(old(self).entries@),
                keys_unique(old_ev),
                i <= self.entries@.len(),
                old_ev.len() == self.entries@.len(),
                forall|k: int| 0 <= k < i ==> #[trigger] old_ev[k].0 != id,
            decreases self.entries@.len() - i,
        {
            if self.entries[i].0 == id {
                proof {
                    assert(old_ev[i as int] == (self.entries@[i as int].0,
                    self.entries@[i as int].1@));
                    assert(old_ev[i as int].0 == id);
                }
                self.entries.set(i, (id, prefix));
                proof {
                    let new_ev = entries_view(self.entries@);
                    assert(new_ev =~= old_ev.update(i as int, (id, prefix@)));
                    lemma_map_of_update(old_ev, i as int, prefix@);
                    assert((old_ev[i as int].0, prefix@) == (id, prefix@));
                    assert(old_ev.update(i as int, (old_ev[i as int].0, prefix@)) == old_ev.update(
                        i as int,
                        (id, prefix@),
                    ));
                    assert(map_of_views(new_ev) == map_of_views(old_ev).insert(id, prefix@));
                    assert(old(self)@ == map_of_views(old_ev));
                    assert(self@ == map_of_views(new_ev));
                    assert(keys_unique(new_ev)) by {
                        assert(forall|a: int|
                            0 <= a < new_ev.len() && a != i ==> #[trigger] new_ev[a]
                                == old_ev[a]);
                    }
                }
                return ;
            }
            i = i + 1;
        }
        self.entries.push((id, prefix));
        proof {
            let new_ev = entries_view(self.entries@);
            assert(new_ev =~= old_ev.push((id, prefix@)));
            assert(new_ev.drop_last() =~= old_ev);
            assert(new_ev.last() == (id, prefix@));
            assert(keys_unique(new_ev)) by {
                assert(forall|a: int| 0 <= a < old_ev.len() ==> new_ev[a] == old_ev[a]);
            }
        }
    }

    /// How many contexts have a prefix configured.
    pub fn len(&self) -> (n: usize)
        requires
            self.wf(),
        ensures
            n == self.entries_seq().len(),
    {
        self.entries.len()
    }

    /// Serializes the full current map to its persisted document form.
    pub fn save_doc(&self) -> (r: String)
        ensures
            r@ == render_doc(self.entries_seq()),
    {
        let ghost ev = entries_view(self.entries@);
        let mut out = String::new();
        push_char(&mut out, '{');
        let mut i: usize = 0;
        while i < self.entries.len()
            invariant
                ev == entries_view(self.entries@),
                i <= self.entries@.len(),
                ev.len() == self.entries@.len(),
                i == 0 ==> out@ == seq!['{'],
                i > 0 ==> out@ == seq!['{'] + render_inner(ev.take(i as int)),
            decreases self.entries@.len() - i,
        {
            let ghost out0 = out@;
            if i > 0 {
                push_char(&mut out, ',');
            }
            push_char(&mut out, '"');
            let ks = u64_to_string(self.entries[i].0);
            out.append(ks.as_str());
            push_char(&mut out, '"');
            push_char(&mut out, ':');
            push_char(&mut out, '"');
            append_escaped(&mut out, &self.entries[i].1);
            push_char(&mut out, '"');
            proof {
                let e = ev[i as int];
                assert(e.0 == self.entries@[i as int].0 && e.1 == self.entries@[i as int].1@);
                if i == 0 {
                    assert(out@ =~= seq!['{'] + render_entry(e));
                    assert(ev.take(1) =~= seq![e]);
                    assert(render_inner(ev.take(1)) == render_entry(e));
                } else {
                    assert(out@ =~= seq!['{'] + (render_inner(ev.take(i as int)) + seq![',']
                        + render_entry(e)));
                    assert(ev.take(i as int + 1).drop_last() =~= ev.take(i as int));
                    assert(ev.take(i as int + 1).last() == e);
                    assert(ev.take(i as int + 1).len() >= 2);
                    assert(render_inner(ev.take(i as int + 1)) == render_inner(ev.take(i as int))
                        + seq![','] + render_entry(e));
                }
                assert(out@ =~= seq!['{'] + render_inner(ev.take(i as int + 1)));
            }
            i = i + 1;
        }
        push_char(&mut out, '}');
        proof {
            assert(ev.take(ev.len() as int) =~= ev);
            assert(out@ =~= seq!['{'] + render_inner(ev) + seq!['}']);
        }
        out
    }

    /// Parses a persisted document into a store: a JSON object whose keys
    /// are decimal 64-bit identifiers and whose values are strings, in the
    /// shape the format module describes (whitespace between tokens and the
    /// standard JSON string escapes are accepted). `None` exactly when the
    /// document is malformed; duplicate keys resolve to the last occurrence,
    /// as the map semantics says.
    pub fn load_doc(doc: &str) -> (r: Option<PrefixStore>)
        ensures
            match r {
                Some(st) => parse_doc(doc@) is Some && st.wf() && st@ == map_of_views(
                    parse_doc(doc@).unwrap(),
                ),
                None => parse_doc(doc@) is None,
            },
    {
        let cv = str_chars(doc);
        let len = cv.len();
        let i0 = skip_ws_exec(&cv, 0);
        let ghost s0 = skip_ws(doc@);
        proof {
            assert(doc@.skip(0) =~= doc@);
            assert(s0 == doc@.skip(i0 as int));
        }
        if i0 == len {
            return None;
        }
        proof {
            assert(s0[0] == doc@[i0 as int]);
        }
        if cv[i0] != '{' {
            return None;
        }
        proof {
            assert(s0.drop_first() =~= doc@.skip(i0 as int + 1));
        }
        let i1 = skip_ws_exec(&cv, i0 + 1);
        let ghost s1 = skip_ws(s0.drop_first());
        proof {
            assert(s1 == doc@.skip(i1 as int));
        }
        if i1 == len {
            return None;
        }
        proof {
            assert(s1[0] == doc@[i1 as int]);
        }
        if cv[i1] == '}' {
            proof {
                assert(s1.drop_first() =~= doc@.skip(i1 as int + 1));
            }
            let i2 = skip_ws_exec(&cv, i1 + 1);
            if i2 == len {
                let st = PrefixStore::new();
                proof {
                    assert(skip_ws(s1.drop_first()).len() == 0);
                    assert(map_of_views(parse_doc(doc@).unwrap()) =~= Map::<
                        u64,
                        Seq<char>,
                    >::empty());
                }
                return Some(st);
            }
            proof {
                assert(skip_ws(s1.drop_first()).len() > 0);
            }
            return None;
        }
        let mut st = PrefixStore::new();
        let mut pos: usize = i1;
        let mut end_pos: usize = 0;
        let ghost mut parsed: Seq<(u64, Seq<char>)> = Seq::empty();
        proof {
            assert(forall|es: Seq<(u64, Seq<char>)>| #[trigger] (parsed + es) =~= es);
        }
        loop
            invariant_except_break
                cv@ == doc@,
                len == cv@.len(),
                pos < len,
                st.wf(),
                st@ == map_of_views(parsed),
                parse_doc(doc@) == (match parse_entries(doc@.skip(pos as int)) {
                    Some((es, rest)) => if rest.len() >= 1 && rest[0] == '}' && skip_ws(
                        rest.drop_first(),
                    ).len() == 0 {
                        Some(parsed + es)
                    } else {
                        None
                    },
                    None => None,
                }),
            ensures
                cv@ == doc@,
                len == cv@.len(),
                end_pos <= len,
                st.wf(),
                st@ == map_of_views(parsed),
                parse_doc(doc@) == (if doc@.skip(end_pos as int).len() >= 1 && doc@.skip(
                    end_pos as int,
                )[0] == '}' && skip_ws(doc@.skip(end_pos as int).drop_first()).len() == 0 {
                    Some(parsed)
                } else {
                    None
                }),
            decreases len - pos,
        {
            let parsed_entry = parse_entry_exec(&cv, pos);
            match parsed_entry {
                None => {
                    return None;
                }
                Some((k, v, np)) => {
                    let ghost e = (k, v@);
                    let ghost prev = parsed;
                    proof {
                        assert(parse_entry(doc@.skip(pos as int)) == Some(
                            (e, doc@.skip(np as int)),
                        ));
                        lemma_map_of_snoc(prev, e);
                    }
                    st.set_prefix(k, v);
                    proof {
                        parsed = prev + seq![e];
                    }
                    let r1pos = skip_ws_exec(&cv, np);
                    proof {
                        assert(skip_ws(doc@.skip(np as int)) == doc@.skip(r1pos as int));
                    }
                    if r1pos < len && cv[r1pos] == ',' {
                        proof {
                            assert(doc@.skip(r1pos as int)[0] == doc@[r1pos as int]);
                            assert(doc@.skip(r1pos as int).drop_first() =~= doc@.skip(
                                r1pos as int + 1,
                            ));
                        }
                        let next = skip_ws_exec(&cv, r1pos + 1);
                        proof {
                            assert(parse_entries(doc@.skip(pos as int)) == match parse_entries(
                                doc@.skip(next as int),
                            ) {
                                Some((es, rest)) => Some((seq![e] + es, rest)),
                                None => None,
                            });
                            assert(forall|es: Seq<(u64, Seq<char>)>|
                                prev + (seq![e] + es) =~= #[trigger] (parsed + es));
                        }
                        if next == len {
                            proof {
                                assert(doc@.skip(next as int).len() == 0);
                                assert(parse_entries(doc@.skip(next as int)) is None);
                            }
                            return None;
                        }
                        pos = next;
                    } else {
                        proof {
                            let r1 = doc@.skip(r1pos as int);
                            if r1pos < len {
                                assert(r1[0] == doc@[r1pos as int]);
                            }
                            assert(!(r1.len() >= 1 && r1[0] == ','));
                            assert(parse_entries(doc@.skip(pos as int)) == Some((seq![e], r1)));
                            assert(prev + seq![e] == parsed);
                        }
                        end_pos = r1pos;
                        break;
                    }
                }
            }
        }
        if end_pos < len && cv[end_pos] == '}' {
            proof {
                assert(doc@.skip(end_pos as int)[0] == doc@[end_pos as int]);
                assert(doc@.skip(end_pos as int).drop_first() =~= doc@.skip(end_pos as int + 1));
            }
            let tail = skip_ws_exec(&cv, end_pos + 1);
            if tail == len {
                proof {
                    assert(skip_ws(doc@.skip(end_pos as int).drop_first()).len() == 0);
                    assert(parse_doc(doc@) == Some(parsed));
                }
                return Some(st);
            }
            proof {
                assert(skip_ws(doc@.skip(end_pos as int).drop_first()).len() > 0);
            }
            return None;
        }
        proof {
            if end_pos == len {
                assert(doc@.skip(end_pos as int).len() == 0);
            } else {
                assert(doc@.skip(end_pos as int)[0] == doc@[end_pos as int]);
            }
        }
        None
    }
}

/// Appending one entry to the right of a sequence updates the denoted map.
proof fn lemma_map_of_snoc(es: Seq<(u64, Seq<char>)>, e: (u64, Seq<char>))
    ensures
        map_of_views(es + seq![e]) == map_of_views(es).insert(e.0, e.1),
{
    assert((es + seq![e]).drop_last() =~= es);
    assert((es + seq![e]).last() == e);
}

/// With unique keys, replacing the entry at `i` denotes an insert.
proof fn lemma_map_of_update(es: Seq<(u64, Seq<char>)>, i: int, v: Seq<char>)
    requires
        keys_unique(es),
        0 <= i < es.len(),
    ensures
        map_of_views(es.update(i, (es[i].0, v))) == map_of_views(es).insert(es[i].0, v),
    decreases es.len(),
{
    let u = es.update(i, (es[i].0, v));
    if i == es.len() - 1 {
        assert(u.drop_last() =~= es.drop_last());
        assert(u.last() == (es[i].0, v));
    } else {
        assert(keys_unique(es.drop_last())) by {
            assert(forall|a: int| 0 <= a < es.len() - 1 ==> es.drop_last()[a] == es[a]);
        }
        assert(es.drop_last()[i] == es[i]);
        lemma_map_of_update(es.drop_last(), i, v);
        assert(u.drop_last() =~= es.drop_last().update(i, (es[i].0, v)));
        assert(u.last() == es.last());
        assert(es.last().0 != es[i].0);
        assert(map_of_views(u) == map_of_views(es.drop_last()).insert(es[i].0, v).insert(
            es.last().0,
            es.last().1,
        ));
        assert(map_of_views(es.drop_last()).insert(es[i].0, v).insert(es.last().0, es.last().1)
            =~= map_of_views(es.drop_last()).insert(es.last().0, es.last().1).insert(es[i].0, v));
    }
}

/// Appends the escaped form of `v` to `out`.
fn append_escaped(out: &mut String, v: &String)
    ensures
        final(out)@ == old(out)@ + escape(v@),
{
    let cv = str_chars(v.as_str());
    let mut i: usize = 0;
    while i < cv.len()
        invariant
            cv@ == v@,
            i <= v@.len(),
            out@ == old(out)@ + escape(v@.take(i as int)),
        decreases v@.len() - i,
    {
        let c = cv[i];
        if c == '"' {
            push_char(out, '\\');
            push_char(out, '"');
        } else if c == '\\' {
            push_char(out, '\\');
            push_char(out, '\\');
        } else if (c as u32) < 32 {
            let code = c as u32;
            push_char(out, '\\');
            push_char(out, 'u');
            push_char(out, '0');
            push_char(out, '0');
            push_char(out, hex_digit_exec((code / 16) as u8));
            push_char(out, hex_digit_exec((code % 16) as u8));
        } else {
            push_char(out, c);
        }
        proof {
            assert(v@.take(i as int + 1).drop_last() =~= v@.take(i as int));
            assert(v@.take(i as int + 1).last() == v@[i as int]);
            assert(out@ =~= old(out)@ + (escape(v@.take(i as int)) + esc_char(v@[i as int])));
        }
        i = i + 1;
    }
    proof {
        assert(v@.take(v@.len() as int) =~= v@);
    }
}

/// Exec form of `hex_digit`.
fn hex_digit_exec(d: u8) -> (c: char)
    requires
        d < 16,
    ensures
        c == hex_digit(d as nat),
{
    proof {
        assert('0' as u32 == 48);
        assert('a' as u32 == 97);
    }
    if d < 10 {
        (48 + d) as char
    } else {
        (97 + (d - 10)) as char
    }
}

/// Exec form of `hex_val`.
fn hex_val_exec(c: char) -> (d: u8)
    requires
        is_hex(c),
    ensures
        d == hex_val(c),
        d < 16,
{
    proof {
        assert('0' as u32 == 48);
        assert('9' as u32 == 57);
        assert('a' as u32 == 97);
        assert('f' as u32 == 102);
        assert('A' as u32 == 65);
        assert('F' as u32 == 70);
    }
    let u = c as u32;
    if u >= 48 && u <= 57 {
        (u - 48) as u8
    } else if u >= 97 {
        (u - 97 + 10) as u8
    } else {
        (u - 65 + 10) as u8
    }
}

/// Parses a quoted value's inside starting at `pos`, returning the decoded
/// value and the position after the closing quote.
fn parse_string_body_exec(bv: &Vec<char>, pos: usize) -> (r: Option<(String, usize)>)
    requires
        pos <= bv@.len(),
    ensures
        match r {
            Some((v, np)) => pos < np <= bv@.len() && parse_string_body(bv@.skip(pos as int))
                == Some((v@, bv@.skip(np as int))),
            None => parse_string_body(bv@.skip(pos as int)) is None,
        },
{
    let len = bv.len();
    let mut out = String::new();
    let mut i: usize = pos;
    loop
        invariant
            len == bv@.len(),
            pos <= i <= len,
            parse_string_body(bv@.skip(pos as int)) == match parse_string_body(
                bv@.skip(i as int),
            ) {
                Some((v, rest)) => Some((out@ + v, rest)),
                None => None,
            },
        decreases len - i,
    {
        if i >= len {
            proof {
                assert(bv@.skip(i as int).len() == 0);
            }
            return None;
        }
        let c = bv[i];
        let ghost s = bv@.skip(i as int);
        proof {
            assert(s[0] == bv@[i as int]);
        }
        if c == '"' {
            proof {
                assert(s.drop_first() =~= bv@.skip(i as int + 1));
                assert(out@ + Seq::<char>::empty() =~= out@);
            }
            return Some((out, i + 1));
        }
        if c == '\\' {
            if i + 1 >= len {
                proof {
                    assert(s.len() < 2);
                }
                return None;
            }
            let c2 = bv[i + 1];
            proof {
                assert(s.len() >= 2);
                assert(s[1] == bv@[i as int + 1]);
            }
            if c2 == '"' || c2 == '\\' || c2 == '/' {
                proof {
                    assert(s.skip(2) =~= bv@.skip(i as int + 2));
                }
                let ghost out0 = out@;
                push_char(&mut out, c2);
                proof {
                    assert(forall|v: Seq<char>|
                        out0 + (seq![c2] + v) =~= #[trigger] (out@ + v));
                }
                i = i + 2;
            } else if c2 == 'b' || c2 == 't' || c2 == 'n' || c2 == 'f' || c2 == 'r' {
                let dc = if c2 == 'b' {
                    '\u{0008}'
                } else if c2 == 't' {
                    '\t'
                } else if c2 == 'n' {
                    '\n'
                } else if c2 == 'f' {
                    '\u{000C}'
                } else {
                    '\r'
                };
                proof {
                    assert(dc == short_escape(s[1]));
                    assert(s.skip(2) =~= bv@.skip(i as int + 2));
                }
                let ghost out0 = out@;
                push_char(&mut out, dc);
                proof {
                    assert(forall|v: Seq<char>|
                        out0 + (seq![dc] + v) =~= #[trigger] (out@ + v));
                }
                i = i + 2;
            } else if c2 == 'u' {
                if len - i <= 5 {
                    proof {
                        assert(s.len() < 6);
                    }
                    return None;
                }
                proof {
                    assert(s.len() >= 6);
                    assert(s[2] == bv@[i as int + 2] && s[3] == bv@[i as int + 3] && s[4]
                        == bv@[i as int + 4] && s[5] == bv@[i as int + 5]);
                }
                if !(is_hex_exec(bv[i + 2]) && is_hex_exec(bv[i + 3]) && is_hex_exec(bv[i + 4])
                    && is_hex_exec(bv[i + 5])) {
                    proof {
                        assert(!hex4_at(s, 2));
                    }
                    return None;
                }
                let code: u32 = (hex_val_exec(bv[i + 2]) as u32) * 4096 + (hex_val_exec(
                    bv[i + 3],
                ) as u32) * 256 + (hex_val_exec(bv[i + 4]) as u32) * 16 + (hex_val_exec(
                    bv[i + 5],
                ) as u32);
                proof {
                    assert(hex4_at(s, 2));
                    assert(code == hex4_val(s, 2));
                }
                if code >= 0xD800 && code < 0xE000 {
                    proof {
                        assert(is_surrogate(hex4_val(s, 2)));
                    }
                    return None;
                }
                let dc = char_from_code(code);
                proof {
                    assert(!is_surrogate(hex4_val(s, 2)));
                    vstd::utf8::char_u32_cast(dc, dc as u32);
                    assert(dc == (hex4_val(s, 2) as u32) as char);
                    assert(s.skip(6) =~= bv@.skip(i as int + 6));
                }
                let ghost out0 = out@;
                push_char(&mut out, dc);
                proof {
                    assert(forall|v: Seq<char>|
                        out0 + (seq![dc] + v) =~= #[trigger] (out@ + v));
                }
                i = i + 6;
            } else {
                return None;
            }
        } else if (c as u32) < 32 {
            return None;
        } else {
            let ghost out0 = out@;
            push_char(&mut out, c);
            proof {
                assert(s.drop_first() =~= bv@.skip(i as int + 1));
                assert(forall|v: Seq<char>|
                    out0 + (seq![c] + v) =~= #[trigger] (out@ + v));
            }
            i = i + 1;
        }
    }
}

/// Exec form of `is_hex`.
fn is_hex_exec(c: char) -> (r: bool)
    ensures
        r == is_hex(c),
{
    ('0' <= c && c <= '9') || ('a' <= c && c <= 'f') || ('A' <= c && c <= 'F')
}

/// Exec form of `is_ws`.
fn is_ws_exec(c: char) -> (r: bool)
    ensures
        r == is_ws(c),
{
    c == ' ' || c == '\t' || c == '\n' || c == '\r'
}

/// Advances past whitespace, returning the first non-whitespace position.
fn skip_ws_exec(bv: &Vec<char>, pos: usize) -> (np: usize)
    requires
        pos <= bv@.len(),
    ensures
        pos <= np <= bv@.len(),
        skip_ws(bv@.skip(pos as int)) == bv@.skip(np as int),
{
    let len = bv.len();
    let mut i: usize = pos;
    while i < len && is_ws_exec(bv[i])
        invariant
            len == bv@.len(),
            pos <= i <= len,
            forall|k: int| pos <= k < i ==> is_ws(#[trigger] bv@[k]),
        decreases len - i,
    {
        i = i + 1;
    }
    proof {
        let s = bv@.skip(pos as int);
        assert(forall|k: int| 0 <= k < i - pos ==> #[trigger] s[k] == bv@[pos + k]);
        if i < len {
            assert(s[i - pos] == bv@[i as int]);
        }
        lemma_skip_ws_at(s, i - pos);
        assert(s.skip(i - pos) =~= bv@.skip(i as int));
    }
    i
}

/// Parses one `"key":"value"` entry starting at `pos`.
fn parse_entry_exec(bv: &Vec<char>, pos: usize) -> (r: Option<(u64, String, usize)>)
    requires
        pos < bv@.len(),
    ensures
        match r {
            Some((k, v, np)) => pos < np <= bv@.len() && parse_entry(bv@.skip(pos as int))
                == Some(((k, v@), bv@.skip(np as int))),
            None => parse_entry(bv@.skip(pos as int)) is None,
        },
{
    let len = bv.len();
    let ghost s = bv@.skip(pos as int);
    proof {
        assert(s[0] == bv@[pos as int]);
    }
    if bv[pos] != '"' {
        return None;
    }
    let ghost t = s.drop_first();
    proof {
        assert(t =~= bv@.skip(pos as int + 1));
    }
    // Scan the decimal key.
    let kstart = pos + 1;
    let mut j: usize = kstart;
    while j < len && bv[j] >= '0' && bv[j] <= '9'
        invariant
            len == bv@.len(),
            kstart <= j <= len,
            forall|a: int| kstart <= a < j ==> is_digit(#[trigger] bv@[a]),
        decreases len - j,
    {
        j = j + 1;
    }
    proof {
        assert(forall|a: int|
            0 <= a < j - kstart ==> #[trigger] t.take(j - kstart)[a] == bv@[kstart + a]);
        crate::prefix_doc::lemma_digits_prefix_len(t, (j - kstart) as nat);
        assert(digits_prefix_len(t) == j - kstart);
    }
    if j == kstart {
        return None;
    }
    let key_opt = parse_u64_digits(bv, kstart, j);
    proof {
        assert(bv@.subrange(kstart as int, j as int) =~= t.take(j - kstart));
    }
    let k: u64;
    match key_opt {
        None => {
            proof {
                assert(crate::numeric::all_digits(t.take(j - kstart)));
                assert(dec_val(t.take(j - kstart)) > u64::MAX);
            }
            return None;
        }
        Some(kk) => {
            k = kk;
        }
    }
    proof {
        assert(parse_key(t) == Some((k, t.skip(j - kstart))));
        assert(t.skip(j - kstart) =~= bv@.skip(j as int));
    }
    let ghost r1 = t.skip(j - kstart);
    if j == len {
        proof {
            assert(r1.len() == 0);
        }
        return None;
    }
    proof {
        assert(r1[0] == bv@[j as int]);
    }
    if bv[j] != '"' {
        return None;
    }
    proof {
        assert(r1.drop_first() =~= bv@.skip(j as int + 1));
    }
    let p2 = skip_ws_exec(bv, j + 1);
    let ghost r2 = skip_ws(r1.drop_first());
    proof {
        assert(r2 == bv@.skip(p2 as int));
    }
    if p2 == len {
        proof {
            assert(r2.len() == 0);
        }
        return None;
    }
    proof {
        assert(r2[0] == bv@[p2 as int]);
    }
    if bv[p2] != ':' {
        return None;
    }
    proof {
        assert(r2.drop_first() =~= bv@.skip(p2 as int + 1));
    }
    let p3 = skip_ws_exec(bv, p2 + 1);
    let ghost r3 = skip_ws(r2.drop_first());
    proof {
        assert(r3 == bv@.skip(p3 as int));
    }
    if p3 == len {
        proof {
            assert(r3.len() == 0);
        }
        return None;
    }
    proof {
        assert(r3[0] == bv@[p3 as int]);
    }
    if bv[p3] != '"' {
        return None;
    }
    proof {
        assert(r3.drop_first() =~= bv@.skip(p3 as int + 1));
    }
    match parse_string_body_exec(bv, p3 + 1) {
        None => {
            return None;
        }
        Some((v, np)) => {
            proof {
                assert(parse_entry(s) == Some(((k, v@), bv@.skip(np as int))));
            }
            Some((k, v, np))
        }
    }
}

/// Law: loading a saved store yields the same map, for every well-formed
/// store. Together with `get_prefix_for_guild`'s contract this is the
/// save/load round trip of the prefix store.
pub proof fn lemma_save_load_round_trip(st: PrefixStore)
    ensures
        parse_doc(render_doc(st.entries_seq())) == Some(st.entries_seq()),
        map_of_views(parse_doc(render_doc(st.entries_seq())).unwrap()) == st@,
{
    lemma_parse_render_doc(st.entries_seq());
}

} // verus!
