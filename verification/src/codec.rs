//! The configuration file codec: a serializer that lays the identity
//! table out section by section, and a parser that accepts exactly
//! that layout and recovers the table.

use vstd::prelude::*;

use crate::ident::Identity;
use crate::registry::{key_seq, Config, EntryV};

verus! {

/// Opening of a section header, before the key.
pub open spec fn header_text() -> Seq<char> {
    "[identities."@
}

/// End of a section header: the closing bracket and the line break.
pub open spec fn close_text() -> Seq<char> {
    "]\n"@
}

/// Start of the name line, up to the opening quote.
pub open spec fn name_text() -> Seq<char> {
    "name = \""@
}

/// Start of the email line, up to the opening quote.
pub open spec fn email_text() -> Seq<char> {
    "email = \""@
}

/// End of the name line: the closing quote and the line break.
pub open spec fn quote_end_text() -> Seq<char> {
    "\"\n"@
}

/// End of a section: the closing quote of the email line, its line
/// break, and the blank separator line.
pub open spec fn section_end_text() -> Seq<char> {
    "\"\n\n"@
}

/// The text of one section of the configuration file.
pub open spec fn section_text(e: EntryV) -> Seq<char> {
    header_text() + e.key + close_text() + name_text() + e.name + quote_end_text() + email_text()
        + e.email + section_end_text()
}

/// The text of the whole configuration file: one section per entry,
/// in table order.
pub open spec fn config_text(m: Seq<EntryV>) -> Seq<char>
    decreases m.len(),
{
    if m.len() == 0 {
        Seq::empty()
    } else {
        section_text(m[0]) + config_text(m.drop_first())
    }
}

/// Serializing and then parsing is exact only for entries whose key
/// contains no closing bracket and whose fields contain no double
/// quote.
pub open spec fn entry_clean(e: EntryV) -> bool {
    &&& !e.key.contains(']')
    &&& !e.name.contains('"')
    &&& !e.email.contains('"')
}

/// All entries of a table are clean.
pub open spec fn entries_clean(m: Seq<EntryV>) -> bool {
    forall|i: int| 0 <= i < m.len() ==> entry_clean(#[trigger] m[i])
}

/// No two entries share a key.
pub open spec fn unique_keys(m: Seq<EntryV>) -> bool {
    forall|i: int, j: int|
        0 <= i < j < m.len() ==> #[trigger] m[i].key != #[trigger] m[j].key
}

/// File text distributes over concatenation of tables.
pub proof fn lemma_config_text_app(a: Seq<EntryV>, b: Seq<EntryV>)
    ensures
        config_text(a + b) == config_text(a) + config_text(b),
    decreases a.len(),
{
    if a.len() == 0 {
        assert(a + b =~= b);
        assert(config_text(a) + config_text(b) =~= config_text(b));
    } else {
        assert((a + b).drop_first() =~= a.drop_first() + b);
        assert((a + b)[0] == a[0]);
        assert((a + b).len() > 0);
        lemma_config_text_app(a.drop_first(), b);
        assert(config_text(a + b) =~= config_text(a) + config_text(b));
    }
}

/// Serializes a configuration: one section per identity, in table
/// order, each with its `name` and `email` lines and a trailing blank
/// line.
pub fn to_file_text(c: &Config) -> (r: String)
    ensures
        r@ == config_text(c@),
{
    let ghost m = c@;
    let n = c.len();
    let mut out = String::new();
    let mut i: usize = 0;
    proof {
        assert(m.take(0) =~= Seq::<EntryV>::empty());
        assert(out@ =~= config_text(m.take(0)));
    }
    while i < n
        invariant
            n == m.len(),
            i <= n,
            c@ == m,
            out@ == config_text(m.take(i as int)),
        decreases n - i,
    {
        out.append("[identities.");
        out.append(c.key_at(i).as_str());
        out.append("]\n");
        out.append("name = \"");
        out.append(c.name_at(i).as_str());
        out.append("\"\n");
        out.append("email = \"");
        out.append(c.email_at(i).as_str());
        out.append("\"\n\n");
        proof {
            let e = m[i as int];
            assert(out@ =~= config_text(m.take(i as int)) + section_text(e));
            lemma_config_text_app(m.take(i as int), seq![e]);
            assert(seq![e].drop_first() =~= Seq::<EntryV>::empty());
            assert(config_text(Seq::<EntryV>::empty()) =~= Seq::<char>::empty());
            assert(seq![e][0] == e && seq![e].len() == 1);
            assert(config_text(seq![e]) =~= section_text(e));
            assert(m.take(i + 1) =~= m.take(i as int) + seq![e]);
            assert(out@ =~= config_text(m.take(i + 1)));
        }
        i += 1;
    }
    proof {
        assert(m.take(n as int) =~= m);
    }
    out
}

/// The characters of a string, as a vector.
fn str_to_chars(s: &str) -> (r: Vec<char>)
    ensures
        r@ == s@,
{
    let n = s.unicode_len();
    let mut r: Vec<char> = Vec::new();
    let mut i: usize = 0;
    while i < n
        invariant
            n == s@.len(),
            i <= n,
            r@ =~= s@.take(i as int),
        decreases n - i,
    {
        r.push(s.get_char(i));
        i += 1;
    }
    proof {
        assert(r@ =~= s@);
    }
    r
}

/// The first position of a character at or after `start`, if any.
fn find_char(v: &Vec<char>, start: usize, t: char) -> (r: Option<usize>)
    requires
        start <= v@.len(),
    ensures
        r is Some ==> start <= r->0 && (r->0 as int) < v@.len() && v@[r->0 as int] == t && (forall|
            q: int,
        | start <= q < r->0 ==> v@[q] != t),
        r is None ==> forall|q: int| start <= q < v@.len() ==> v@[q] != t,
{
    let n = v.len();
    let mut i: usize = start;
    while i < n
        invariant
            n == v@.len(),
            start <= i <= n,
            forall|q: int| start <= q < i ==> v@[q] != t,
        decreases n - i,
    {
        if v[i] == t {
            return Some(i);
        }
        i += 1;
    }
    None
}

/// Whether the text at position `at` starts with the given pattern.
fn match_at(v: &Vec<char>, at: usize, pat: &str) -> (r: bool)
    ensures
        r == (at + pat@.len() <= v@.len() && v@.subrange(at as int, at + pat@.len()) == pat@),
{
    let n = v.len();
    let plen = pat.unicode_len();
    if at > n || n - at < plen {
        return false;
    }
    let mut j: usize = 0;
    while j < plen
        invariant
            n == v@.len(),
            plen == pat@.len(),
            at + plen <= n,
            j <= plen,
            forall|q: int| 0 <= q < j ==> v@[at + q] == pat@[q],
        decreases plen - j,
    {
        if v[at + j] != pat.get_char(j) {
            assert(v@.subrange(at as int, at + pat@.len()) != pat@) by {
                assert(v@.subrange(at as int, at + pat@.len())[j as int] != pat@[j as int]);
            }
            return false;
        }
        j += 1;
    }
    proof {
        assert(v@.subrange(at as int, at + pat@.len()) =~= pat@);
    }
    true
}

/// The characters of a range, as a string.
fn string_from_range(v: &Vec<char>, a: usize, b: usize) -> (r: String)
    requires
        a <= b <= v@.len(),
    ensures
        r@ == v@.subrange(a as int, b as int),
{
    let mut r = String::new();
    let mut i: usize = a;
    while i < b
        invariant
            a <= i <= b <= v@.len(),
            r@ =~= v@.subrange(a as int, i as int),
        decreases b - i,
    {
        crate::text::push_char(&mut r, v[i]);
        i += 1;
    }
    proof {
        assert(r@ =~= v@.subrange(a as int, b as int));
    }
    r
}

/// Where the pieces of the first section stand in a file text: the
/// header, the key up to the first closing bracket, the two quoted
/// value lines, and the blank separator, followed by the text of the
/// remaining sections.
pub open spec fn head_positions(t: Seq<char>, e: EntryV) -> bool {
    let p1 = 12 + e.key.len() as int;
    let pn = p1 + 10;
    let pq = pn + e.name.len() as int;
    let pe = pq + 11;
    let pf = pe + e.email.len() as int;
    &&& pf + 3 <= t.len()
    &&& t.subrange(0, 12) == header_text()
    &&& t.subrange(12, p1) == e.key
    &&& (forall|q: int| 12 <= q < p1 ==> t[q] != ']')
    &&& t[p1] == ']'
    &&& t.subrange(p1, p1 + 2) == close_text()
    &&& t.subrange(p1 + 2, pn) == name_text()
    &&& t.subrange(pn, pq) == e.name
    &&& (forall|q: int| pn <= q < pq ==> t[q] != '"')
    &&& t[pq] == '"'
    &&& t.subrange(pq, pq + 2) == quote_end_text()
    &&& t.subrange(pq + 2, pe) == email_text()
    &&& t.subrange(pe, pf) == e.email
    &&& (forall|q: int| pe <= q < pf ==> t[q] != '"')
    &&& t[pf] == '"'
    &&& t.subrange(pf, pf + 3) == section_end_text()
}

/// How long one section is in the file text.
pub open spec fn section_len(e: EntryV) -> int {
    36 + e.key.len() as int + e.name.len() as int + e.email.len() as int
}

/// The text of a non-empty clean table starts with the first entry's
/// section, laid out as `head_positions` says, and continues with the
/// text of the remaining entries.
pub proof fn lemma_head_structure(t: Seq<char>, m: Seq<EntryV>)
    requires
        entries_clean(m),
        m.len() > 0,
        t == config_text(m),
    ensures
        head_positions(t, m[0]),
        t.skip(section_len(m[0])) == config_text(m.drop_first()),
{
    reveal_strlit("[identities.");
    reveal_strlit("]\n");
    reveal_strlit("name = \"");
    reveal_strlit("email = \"");
    reveal_strlit("\"\n");
    reveal_strlit("\"\n\n");
    let e = m[0];
    let k = e.key;
    let nm = e.name;
    let em = e.email;
    let p1 = 12 + k.len() as int;
    let pn = p1 + 10;
    let pq = pn + nm.len() as int;
    let pe = pq + 11;
    let pf = pe + em.len() as int;
    let rest = config_text(m.drop_first());
    assert(t == section_text(e) + rest);
    assert(header_text().len() == 12);
    assert(close_text().len() == 2);
    assert(name_text().len() == 8);
    assert(quote_end_text().len() == 2);
    assert(email_text().len() == 9);
    assert(section_end_text().len() == 3);
    assert(section_text(e).len() == pf + 3);
    assert(t.subrange(0, 12) =~= header_text());
    assert(t.subrange(12, p1) =~= k);
    assert(t.subrange(p1, p1 + 2) =~= close_text());
    assert(t.subrange(p1 + 2, pn) =~= name_text());
    assert(t.subrange(pn, pq) =~= nm);
    assert(t.subrange(pq, pq + 2) =~= quote_end_text());
    assert(t.subrange(pq + 2, pe) =~= email_text());
    assert(t.subrange(pe, pf) =~= em);
    assert(t.subrange(pf, pf + 3) =~= section_end_text());
    assert(t[p1] == ']');
    assert(t[pq] == '"');
    assert(t[pf] == '"');
    assert(entry_clean(e));
    assert forall|q: int| 12 <= q < p1 implies t[q] != ']' by {
        if t[q] == ']' {
            assert(k[q - 12] == ']');
            assert(k.contains(']'));
        }
    }
    assert forall|q: int| pn <= q < pq implies t[q] != '"' by {
        if t[q] == '"' {
            assert(nm[q - pn] == '"');
            assert(nm.contains('"'));
        }
    }
    assert forall|q: int| pe <= q < pf implies t[q] != '"' by {
        if t[q] == '"' {
            assert(em[q - pe] == '"');
            assert(em.contains('"'));
        }
    }
    assert(t.skip(pf + 3) =~= rest);
}

/// Parses a configuration file. Exactly the texts that
/// `to_file_text` writes are accepted, and what is accepted is
/// recovered exactly: a parsed configuration re-serializes to the
/// input, and the text of any clean table with unique keys parses
/// back to that table. Everything else, a duplicated key included,
/// is rejected.
#[verifier::rlimit(100)]
pub fn parse_file_text(s: &str) -> (r: Option<Config>)
    ensures
        r is Some ==> (r->0).wf() && entries_clean((r->0)@) && s@ == config_text((r->0)@),
        forall|cm: Seq<EntryV>|
            entries_clean(cm) && unique_keys(cm) && s@ == #[trigger] config_text(cm) ==> r is Some
                && (r->0)@ == cm,
{
    let v = str_to_chars(s);
    let n = v.len();
    let mut config = Config::empty();
    let mut i: usize = 0;
    proof {
        reveal_strlit("[identities.");
        reveal_strlit("]\n");
        reveal_strlit("name = \"");
        reveal_strlit("\"\n");
        reveal_strlit("email = \"");
        reveal_strlit("\"\n\n");
        assert(s@.take(0) =~= Seq::<char>::empty());
        assert(config_text(config@) =~= Seq::<char>::empty());
        assert forall|cm: Seq<EntryV>|
            entries_clean(cm) && unique_keys(cm) && s@ == #[trigger] config_text(cm) implies {
            &&& config@.len() <= cm.len()
            &&& config@ == cm.take(config@.len() as int)
            &&& s@.skip(0) == config_text(cm.skip(config@.len() as int))
        } by {
            assert(config@ =~= cm.take(0));
            assert(cm.skip(0) =~= cm);
            assert(s@.skip(0) =~= s@);
        }
    }
    while i < n
        invariant
            n == v@.len(),
            v@ == s@,
            i <= n,
            config.wf(),
            entries_clean(config@),
            s@.take(i as int) == config_text(config@),
            forall|cm: Seq<EntryV>|
                entries_clean(cm) && unique_keys(cm) && s@ == #[trigger] config_text(cm) ==> {
                    &&& config@.len() <= cm.len()
                    &&& config@ == cm.take(config@.len() as int)
                    &&& s@.skip(i as int) == config_text(cm.skip(config@.len() as int))
                },
        decreases n - i,
    {
        let ghost clen = config@.len() as int;
        let ghost t = s@.skip(i as int);
        proof {
            reveal_strlit("[identities.");
            reveal_strlit("]\n");
            reveal_strlit("name = \"");
            reveal_strlit("\"\n");
            reveal_strlit("email = \"");
            reveal_strlit("\"\n\n");
            assert forall|cm: Seq<EntryV>|
                entries_clean(cm) && unique_keys(cm) && s@ == #[trigger] config_text(cm) implies {
                &&& clen < cm.len()
                &&& head_positions(t, cm[clen])
                &&& t.skip(section_len(cm[clen])) == config_text(cm.skip(clen + 1))
            } by {
                let rest = cm.skip(clen);
                assert(t == config_text(rest));
                if rest.len() == 0 {
                    assert(config_text(rest).len() == 0);
                    assert(t.len() == 0);
                    assert(false);
                } else {
                    assert(entries_clean(rest)) by {
                        assert forall|q: int| 0 <= q < rest.len() implies entry_clean(
                            #[trigger] rest[q],
                        ) by {
                            assert(rest[q] == cm[clen + q]);
                        }
                    }
                    lemma_head_structure(t, rest);
                    assert(rest[0] == cm[clen]);
                    assert(rest.drop_first() =~= cm.skip(clen + 1));
                }
            }
        }
        if !match_at(&v, i, "[identities.") {
            proof {
                assert forall|cm: Seq<EntryV>|
                    !(entries_clean(cm) && unique_keys(cm) && s@ == #[trigger] config_text(
                        cm,
                    )) by {
                    if entries_clean(cm) && unique_keys(cm) && s@ == config_text(cm) {
                        assert(head_positions(t, cm[clen]));
                        assert(t.subrange(0, 12) =~= v@.subrange(i as int, i + 12));
                        assert(header_text() == "[identities."@);
                        assert(false);
                    }
                }
            }
            return None;
        }
        assert(i + 12 <= n);
        let kend_opt = find_char(&v, i + 12, ']');
        if kend_opt.is_none() {
            proof {
                assert forall|cm: Seq<EntryV>|
                    !(entries_clean(cm) && unique_keys(cm) && s@ == #[trigger] config_text(
                        cm,
                    )) by {
                    if entries_clean(cm) && unique_keys(cm) && s@ == config_text(cm) {
                        assert(head_positions(t, cm[clen]));
                        let p1 = 12 + cm[clen].key.len() as int;
                        assert(t[p1] == ']');
                        assert(v@[i + p1] == ']');
                        assert(false);
                    }
                }
            }
            return None;
        }
        let kend = kend_opt.unwrap();
        let m2 = match_at(&v, kend, "]\n");
        let m3 = if m2 {
            match_at(&v, kend + 2, "name = \"")
        } else {
            false
        };
        proof {
            assert forall|cm: Seq<EntryV>|
                entries_clean(cm) && unique_keys(cm) && s@ == #[trigger] config_text(cm) implies {
                &&& kend == i + 12 + cm[clen].key.len()
                &&& m2
                &&& m3
            } by {
                assert(head_positions(t, cm[clen]));
                let k = cm[clen].key;
                let p1 = 12 + k.len() as int;
                assert(t[p1] == ']');
                assert(v@[i + p1] == ']');
                if kend < i + p1 {
                    assert(t[kend - i] != ']');
                    assert(v@[kend as int] == ']');
                    assert(false);
                }
                if kend > i + p1 {
                    assert(v@[i + p1] != ']');
                    assert(false);
                }
                assert(kend == i + p1);
                assert(t.subrange(p1, p1 + 2) =~= v@.subrange(kend as int, kend + 2));
                assert(close_text() == "]\n"@);
                reveal_strlit("]\n");
                assert(m2);
                assert(t.subrange(p1 + 2, p1 + 10) =~= v@.subrange(kend + 2, kend + 10));
                assert(name_text() == "name = \""@);
                reveal_strlit("name = \"");
                assert(m3);
            }
        }
        if !m3 {
            return None;
        }
        assert(kend + 10 <= n);
        let nend_opt = find_char(&v, kend + 10, '"');
        if nend_opt.is_none() {
            proof {
                assert forall|cm: Seq<EntryV>|
                    !(entries_clean(cm) && unique_keys(cm) && s@ == #[trigger] config_text(
                        cm,
                    )) by {
                    if entries_clean(cm) && unique_keys(cm) && s@ == config_text(cm) {
                        assert(head_positions(t, cm[clen]));
                        let pq = 22 + cm[clen].key.len() + cm[clen].name.len();
                        assert(t[pq as int] == '"');
                        assert(v@[i + pq] == '"');
                        assert(false);
                    }
                }
            }
            return None;
        }
        let nend = nend_opt.unwrap();
        let m4 = match_at(&v, nend, "\"\n");
        let m5 = if m4 {
            match_at(&v, nend + 2, "email = \"")
        } else {
            false
        };
        proof {
            assert forall|cm: Seq<EntryV>|
                entries_clean(cm) && unique_keys(cm) && s@ == #[trigger] config_text(cm) implies {
                &&& nend == i + 22 + cm[clen].key.len() + cm[clen].name.len()
                &&& m4
                &&& m5
            } by {
                assert(head_positions(t, cm[clen]));
                let k = cm[clen].key;
                let nm = cm[clen].name;
                let pn = 22 + k.len() as int;
                let pq = pn + nm.len() as int;
                assert(kend == i + 12 + k.len());
                assert(t[pq] == '"');
                assert(v@[i + pq] == '"');
                if nend < i + pq {
                    assert(t[nend - i] != '"');
                    assert(v@[nend as int] == '"');
                    assert(false);
                }
                if nend > i + pq {
                    assert(v@[i + pq] != '"');
                    assert(false);
                }
                assert(nend == i + pq);
                assert(t.subrange(pq, pq + 2) =~= v@.subrange(nend as int, nend + 2));
                assert(quote_end_text() == "\"\n"@);
                reveal_strlit("\"\n");
                assert(m4);
                assert(t.subrange(pq + 2, pq + 11) =~= v@.subrange(nend + 2, nend + 11));
                assert(email_text() == "email = \""@);
                reveal_strlit("email = \"");
                assert(m5);
            }
        }
        if !m5 {
            return None;
        }
        assert(nend + 11 <= n);
        let eend_opt = find_char(&v, nend + 11, '"');
        if eend_opt.is_none() {
            proof {
                assert forall|cm: Seq<EntryV>|
                    !(entries_clean(cm) && unique_keys(cm) && s@ == #[trigger] config_text(
                        cm,
                    )) by {
                    if entries_clean(cm) && unique_keys(cm) && s@ == config_text(cm) {
                        assert(head_positions(t, cm[clen]));
                        let pf = 33 + cm[clen].key.len() + cm[clen].name.len()
                            + cm[clen].email.len();
                        assert(t[pf as int] == '"');
                        assert(v@[i + pf] == '"');
                        assert(false);
                    }
                }
            }
            return None;
        }
        let eend = eend_opt.unwrap();
        let m6 = match_at(&v, eend, "\"\n\n");
        proof {
            assert forall|cm: Seq<EntryV>|
                entries_clean(cm) && unique_keys(cm) && s@ == #[trigger] config_text(cm) implies {
                &&& eend == i + 33 + cm[clen].key.len() + cm[clen].name.len()
                    + cm[clen].email.len()
                &&& m6
            } by {
                assert(head_positions(t, cm[clen]));
                let k = cm[clen].key;
                let nm = cm[clen].name;
                let em = cm[clen].email;
                let pe = 33 + k.len() as int + nm.len() as int;
                let pf = pe + em.len() as int;
                assert(nend == i + 22 + k.len() + nm.len());
                assert(t[pf] == '"');
                assert(v@[i + pf] == '"');
                if eend < i + pf {
                    assert(t[eend - i] != '"');
                    assert(v@[eend as int] == '"');
                    assert(false);
                }
                if eend > i + pf {
                    assert(v@[i + pf] != '"');
                    assert(false);
                }
                assert(eend == i + pf);
                assert(t.subrange(pf, pf + 3) =~= v@.subrange(eend as int, eend + 3));
                assert(section_end_text() == "\"\n\n"@);
                reveal_strlit("\"\n\n");
                assert(m6);
            }
        }
        if !m6 {
            return None;
        }
        assert(eend + 3 <= n);
        let key = string_from_range(&v, i + 12, kend);
        let name = string_from_range(&v, kend + 10, nend);
        let email = string_from_range(&v, nend + 11, eend);
        let ghost kv = key@;
        let ghost nv = name@;
        let ghost ev = email@;
        let ghost enew = (EntryV { key: kv, name: nv, email: ev });
        proof {
            assert forall|cm: Seq<EntryV>|
                entries_clean(cm) && unique_keys(cm) && s@ == #[trigger] config_text(cm) implies {
                &&& cm[clen] =~= enew
                &&& clen < cm.len()
            } by {
                assert(head_positions(t, cm[clen]));
                let k = cm[clen].key;
                let nm = cm[clen].name;
                let em = cm[clen].email;
                let p1 = 12 + k.len() as int;
                let pn = p1 + 10;
                let pq = pn + nm.len() as int;
                let pe = pq + 11;
                let pf = pe + em.len() as int;
                assert(kend == i + p1 && nend == i + pq && eend == i + pf);
                assert(t.subrange(12, p1) =~= v@.subrange(i + 12, kend as int));
                assert(t.subrange(pn, pq) =~= v@.subrange(kend + 10, nend as int));
                assert(t.subrange(pe, pf) =~= v@.subrange(nend + 11, eend as int));
                assert(kv == k && nv == nm && ev == em);
            }
        }
        if config.contains_key(&key) {
            proof {
                assert forall|cm: Seq<EntryV>|
                    !(entries_clean(cm) && unique_keys(cm) && s@ == #[trigger] config_text(
                        cm,
                    )) by {
                    if entries_clean(cm) && unique_keys(cm) && s@ == config_text(cm) {
                        assert(cm[clen] =~= enew);
                        assert(config@ == cm.take(clen));
                        assert(key_seq(config@).contains(kv));
                        let j = choose|j: int|
                            0 <= j < key_seq(config@).len() && key_seq(config@)[j] == kv;
                        assert(config@[j].key == kv);
                        assert(cm.take(clen)[j] == cm[j]);
                        assert(cm[j].key == cm[clen].key);
                        assert(false);
                    }
                }
            }
            return None;
        }
        let identity = Identity { name, email };
        let ghost oldcfg = config@;
        proof {
            assert(identity@.name == nv && identity@.email == ev);
            assert(!key_seq(oldcfg).contains(kv));
        }
        config.insert(key, identity);
        proof {
            assert(config@ == oldcfg.push(enew));
            // the new entry is clean
            assert(entry_clean(enew)) by {
                if kv.contains(']') {
                    let q = choose|q: int| 0 <= q < kv.len() && kv[q] == ']';
                    assert(v@[i + 12 + q] == ']');
                }
                if nv.contains('"') {
                    let q = choose|q: int| 0 <= q < nv.len() && nv[q] == '"';
                    assert(v@[kend + 10 + q] == '"');
                }
                if ev.contains('"') {
                    let q = choose|q: int| 0 <= q < ev.len() && ev[q] == '"';
                    assert(v@[nend + 11 + q] == '"');
                }
            }
            assert(entries_clean(config@)) by {
                assert forall|q: int| 0 <= q < config@.len() implies entry_clean(
                    #[trigger] config@[q],
                ) by {
                    if q < clen {
                        assert(config@[q] == oldcfg[q]);
                    } else {
                        assert(config@[q] == enew);
                    }
                }
            }
            // the consumed text is exactly the new entry's section
            assert(s@.subrange(i as int, eend + 3) =~= section_text(enew)) by {
                assert(header_text() == "[identities."@);
                assert(close_text() == "]\n"@);
                assert(name_text() == "name = \""@);
                assert(quote_end_text() == "\"\n"@);
                assert(email_text() == "email = \""@);
                assert(section_end_text() == "\"\n\n"@);
                reveal_strlit("[identities.");
                reveal_strlit("]\n");
                reveal_strlit("name = \"");
                reveal_strlit("\"\n");
                reveal_strlit("email = \"");
                reveal_strlit("\"\n\n");
                assert(v@.subrange(i as int, i + 12) == header_text());
                assert(v@.subrange(i + 12, kend as int) == kv);
                assert(v@.subrange(kend as int, kend + 2) == close_text());
                assert(v@.subrange(kend + 2, kend + 10) == name_text());
                assert(v@.subrange(kend + 10, nend as int) == nv);
                assert(v@.subrange(nend as int, nend + 2) == quote_end_text());
                assert(v@.subrange(nend + 2, nend + 11) == email_text());
                assert(v@.subrange(nend + 11, eend as int) == ev);
                assert(v@.subrange(eend as int, eend + 3) == section_end_text());
            }
            assert(s@.take(eend + 3) =~= s@.take(i as int) + s@.subrange(i as int, eend + 3));
            lemma_config_text_app(oldcfg, seq![enew]);
            assert(seq![enew].drop_first() =~= Seq::<EntryV>::empty());
            assert(config_text(Seq::<EntryV>::empty()) =~= Seq::<char>::empty());
            assert(config_text(seq![enew]) =~= section_text(enew));
            assert(oldcfg.push(enew) =~= oldcfg + seq![enew]);
            assert(s@.take(eend + 3) == config_text(config@));
            // any candidate table agrees on this entry as well
            assert forall|cm: Seq<EntryV>|
                entries_clean(cm) && unique_keys(cm) && s@ == #[trigger] config_text(cm) implies {
                &&& config@.len() <= cm.len()
                &&& config@ == cm.take(config@.len() as int)
                &&& s@.skip(eend + 3) == config_text(cm.skip(config@.len() as int))
            } by {
                assert(cm[clen] =~= enew);
                assert(config@.len() == clen + 1);
                assert(config@ =~= cm.take(clen + 1)) by {
                    assert(cm.take(clen + 1) =~= cm.take(clen).push(cm[clen]));
                }
                assert(t.skip(section_len(cm[clen])) == config_text(cm.skip(clen + 1)));
                assert(eend + 3 == i + section_len(cm[clen]));
                assert(t.skip(section_len(cm[clen])) =~= s@.skip(eend + 3));
            }
        }
        i = eend + 3;
    }
    proof {
        assert(s@.take(n as int) =~= s@);
        assert forall|cm: Seq<EntryV>|
            entries_clean(cm) && unique_keys(cm) && s@ == #[trigger] config_text(cm) implies config@
            == cm by {
            let clen = config@.len() as int;
            let rest = cm.skip(clen);
            assert(s@.skip(n as int) == config_text(rest));
            assert(s@.skip(n as int).len() == 0);
            if rest.len() > 0 {
                assert(entries_clean(rest)) by {
                    assert forall|q: int| 0 <= q < rest.len() implies entry_clean(
                        #[trigger] rest[q],
                    ) by {
                        assert(rest[q] == cm[clen + q]);
                    }
                }
                lemma_head_structure(config_text(rest), rest);
                assert(false);
            }
            assert(cm =~= cm.take(clen));
        }
    }
    Some(config)
}

/// Round-trip footing: two clean tables with the same file text are
/// the same table, so a serialized table is recovered exactly by any
/// parse of its text.
pub proof fn lemma_config_text_injective(m1: Seq<EntryV>, m2: Seq<EntryV>)
    requires
        entries_clean(m1),
        entries_clean(m2),
        config_text(m1) == config_text(m2),
    ensures
        m1 == m2,
    decreases m1.len(),
{
    let t = config_text(m1);
    if m1.len() == 0 && m2.len() == 0 {
        assert(m1 =~= m2);
    } else if m1.len() == 0 {
        lemma_head_structure(t, m2);
        assert(t.len() == 0);
        assert(false);
    } else if m2.len() == 0 {
        lemma_head_structure(t, m1);
        assert(t.len() == 0);
        assert(false);
    } else {
        lemma_head_structure(t, m1);
        lemma_head_structure(t, m2);
        let k1 = m1[0].key;
        let k2 = m2[0].key;
        assert(k1.len() == k2.len()) by {
            if k1.len() < k2.len() {
                assert(t[12 + k1.len() as int] == ']');
                assert(t[12 + k1.len() as int] != ']');
            }
            if k2.len() < k1.len() {
                assert(t[12 + k2.len() as int] == ']');
                assert(t[12 + k2.len() as int] != ']');
            }
        }
        let p1 = 12 + k1.len() as int;
        assert(k1 == k2) by {
            assert(k1 =~= t.subrange(12, p1));
            assert(k2 =~= t.subrange(12, p1));
        }
        let nm1 = m1[0].name;
        let nm2 = m2[0].name;
        let pn = p1 + 10;
        assert(nm1.len() == nm2.len()) by {
            if nm1.len() < nm2.len() {
                assert(t[pn + nm1.len() as int] == '"');
                assert(t[pn + nm1.len() as int] != '"');
            }
            if nm2.len() < nm1.len() {
                assert(t[pn + nm2.len() as int] == '"');
                assert(t[pn + nm2.len() as int] != '"');
            }
        }
        let pq = pn + nm1.len() as int;
        assert(nm1 == nm2) by {
            assert(nm1 =~= t.subrange(pn, pq));
            assert(nm2 =~= t.subrange(pn, pq));
        }
        let em1 = m1[0].email;
        let em2 = m2[0].email;
        let pe = pq + 11;
        assert(em1.len() == em2.len()) by {
            if em1.len() < em2.len() {
                assert(t[pe + em1.len() as int] == '"');
                assert(t[pe + em1.len() as int] != '"');
            }
            if em2.len() < em1.len() {
                assert(t[pe + em2.len() as int] == '"');
                assert(t[pe + em2.len() as int] != '"');
            }
        }
        let pf = pe + em1.len() as int;
        assert(em1 == em2) by {
            assert(em1 =~= t.subrange(pe, pf));
            assert(em2 =~= t.subrange(pe, pf));
        }
        assert(m1[0] =~= m2[0]);
        assert(section_len(m1[0]) == section_len(m2[0]));
        assert(entries_clean(m1.drop_first())) by {
            assert forall|q: int| 0 <= q < m1.drop_first().len() implies entry_clean(
                #[trigger] m1.drop_first()[q],
            ) by {
                assert(m1.drop_first()[q] == m1[q + 1]);
            }
        }
        assert(entries_clean(m2.drop_first())) by {
            assert forall|q: int| 0 <= q < m2.drop_first().len() implies entry_clean(
                #[trigger] m2.drop_first()[q],
            ) by {
                assert(m2.drop_first()[q] == m2[q + 1]);
            }
        }
        lemma_config_text_injective(m1.drop_first(), m2.drop_first());
        assert(m1 =~= m2) by {
            assert forall|q: int| 0 <= q < m1.len() implies m1[q] == m2[q] by {
                if q > 0 {
                    assert(m1.drop_first()[q - 1] == m2.drop_first()[q - 1]);
                }
            }
        }
    }
}

/// Builds the configuration a run starts from: the parsed table when
/// the file was read and holds well-formed text, and the empty table
/// when there was no file or its text is not accepted.
pub fn load_from_text(text: Option<&str>) -> (c: Config)
    ensures
        c.wf(),
        entries_clean(c@),
        text is None ==> c@ == Seq::<EntryV>::empty(),
        text is Some ==> (forall|cm: Seq<EntryV>|
            entries_clean(cm) && unique_keys(cm) && (text->0)@ == #[trigger] config_text(cm)
                ==> c@ == cm),
        (text is Some && (forall|cm: Seq<EntryV>|
            !(entries_clean(cm) && unique_keys(cm) && (text->0)@ == #[trigger] config_text(cm))))
            ==> c@ == Seq::<EntryV>::empty(),
{
    match text {
        None => Config::empty(),
        Some(s) => {
            let parsed = parse_file_text(s);
            match parsed {
                Some(c) => {
                    proof {
                        assert(unique_keys(c@));
                        assert(entries_clean(c@) && unique_keys(c@) && s@ == config_text(c@));
                    }
                    c
                },
                None => Config::empty(),
            }
        },
    }
}

} // verus!
