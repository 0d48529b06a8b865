use vstd::prelude::*;

use vstd::string::StringExecFns;

use crate::config::{catalog_has_key, catalog_wf, CatalogView, Config, Profile, ProfileView};
use crate::errors::Error;
use crate::git::FieldKind;
use crate::text::{
    find_char, first_index_of, is_alnum, is_alnum_char, is_ws, lemma_first_index_of, str_eq,
    trim_spec, trim_str,
};

verus! {

// ---------------------------------------------------------------------------
// The document format: one table per profile, headed `[profile.KEY]`, with
// one quoted `field = "value"` line per present field. Writing uses double
// quotes with backslash escapes (and a bare key whenever the key allows
// it), so every catalog round-trips; reading also accepts single-quoted
// literal strings, blank lines, and whitespace around tokens.
// ---------------------------------------------------------------------------
/// A single newline, the line separator of the document.
pub open spec fn nl() -> Seq<char> {
    seq!['\n']
}

/// A key the header can carry bare, without quotes: non-empty, made of
/// letters, digits, hyphens and underscores.
pub open spec fn bare_key_char(c: char) -> bool {
    is_alnum(c) || c == '-' || c == '_'
}

pub open spec fn serializable_key(k: Seq<char>) -> bool {
    k.len() >= 1 && forall|i: int| 0 <= i < k.len() ==> bare_key_char(k[i])
}

/// The escape expansion of one character inside a double-quoted string:
/// quote, backslash, and the three line and tab controls get a backslash
/// code; every other character stands for itself.
pub open spec fn escape_char(c: char) -> Seq<char> {
    if c == '"' {
        seq!['\\', '"']
    } else if c == '\\' {
        seq!['\\', '\\']
    } else if c == '\n' {
        seq!['\\', 'n']
    } else if c == '\t' {
        seq!['\\', 't']
    } else if c == '\r' {
        seq!['\\', 'r']
    } else {
        seq![c]
    }
}

/// The escaped form of a string, as written between double quotes.
pub open spec fn escape_seq(v: Seq<char>) -> Seq<char>
    decreases v.len(),
{
    if v.len() == 0 {
        Seq::<char>::empty()
    } else {
        escape_char(v[0]) + escape_seq(v.drop_first())
    }
}

/// The character an escape code stands for, if it is a known code.
pub open spec fn unescape_code(c: char) -> Option<char> {
    if c == '"' {
        Some('"')
    } else if c == '\\' {
        Some('\\')
    } else if c == 'n' {
        Some('\n')
    } else if c == 't' {
        Some('\t')
    } else if c == 'r' {
        Some('\r')
    } else {
        None
    }
}

/// The string a double-quoted interior denotes: escape codes decoded; a
/// bare quote, an unknown code or a trailing backslash makes it malformed.
pub open spec fn unescape(s: Seq<char>) -> Option<Seq<char>>
    decreases s.len(),
{
    if s.len() == 0 {
        Some(Seq::<char>::empty())
    } else if s[0] == '\\' {
        if s.len() >= 2 {
            match unescape_code(s[1]) {
                Some(c) => match unescape(s.skip(2)) {
                    Some(r) => Some(seq![c] + r),
                    None => None,
                },
                None => None,
            }
        } else {
            None
        }
    } else if s[0] == '"' {
        None
    } else {
        match unescape(s.drop_first()) {
            Some(r) => Some(seq![s[0]] + r),
            None => None,
        }
    }
}

/// The written form of a key in a table header: bare when it can be, else
/// double-quoted with its characters escaped.
pub open spec fn key_token(k: Seq<char>) -> Seq<char> {
    if serializable_key(k) {
        k
    } else {
        seq!['"'] + escape_seq(k) + seq!['"']
    }
}

/// The header line that opens the table of the entry keyed `key`.
pub open spec fn header_line(key: Seq<char>) -> Seq<char> {
    "[profile."@ + key_token(key) + "]"@
}

/// One `field = "value"` line, the value escaped.
pub open spec fn value_line(field: Seq<char>, value: Seq<char>) -> Seq<char> {
    field + " = \""@ + escape_seq(value) + "\""@
}

/// The serialized table of one entry, each line closed by a newline; the
/// signing-key line is omitted entirely when the key is absent.
pub open spec fn ser_entry(key: Seq<char>, p: ProfileView) -> Seq<char> {
    header_line(key) + nl() + value_line("name"@, p.name) + nl() + value_line("email"@, p.email)
        + nl() + (match p.signingkey {
        Some(k) => value_line("signingkey"@, k) + nl(),
        None => Seq::<char>::empty(),
    })
}

/// The whole document: the entries' tables in catalog order, separated by
/// one blank line; the empty catalog is the empty document.
pub open spec fn ser_catalog(s: CatalogView) -> Seq<char>
    decreases s.len(),
{
    if s.len() == 0 {
        Seq::<char>::empty()
    } else if s.len() == 1 {
        ser_entry(s[0].0, s[0].1)
    } else {
        ser_catalog(s.drop_last()) + nl() + ser_entry(s.last().0, s.last().1)
    }
}

// ---------------------------------------------------------------------------
// Reading: lines, line classification, and the line-by-line parse.
// ---------------------------------------------------------------------------
/// The document cut at every newline; a trailing newline yields a final
/// empty line, and the empty document is one empty line.
pub open spec fn lines_of(s: Seq<char>) -> Seq<Seq<char>>
    decreases s.len(),
{
    let i = first_index_of(s, '\n');
    if 0 <= i && i < s.len() {
        seq![s.subrange(0, i)] + lines_of(s.subrange(i + 1, s.len() as int))
    } else {
        seq![s]
    }
}

/// What one line of the document means.
pub enum LineKind {
    Blank,
    Header(Seq<char>),
    KeyVal(FieldKind, Seq<char>),
    Bad,
}

/// A trimmed line that starts with `[`: a well-formed profile table header
/// carrying its key — bare, or double-quoted with escapes — or a bad line.
pub open spec fn classify_header(t: Seq<char>) -> LineKind {
    if t.len() >= 11 && t.subrange(0, 9) == "[profile."@ && t[t.len() - 1] == ']' {
        let mid = t.subrange(9, t.len() - 1);
        if mid[0] == '"' {
            if mid.len() >= 2 && mid[mid.len() - 1] == '"' {
                match unescape(mid.subrange(1, mid.len() - 1)) {
                    Some(k) => LineKind::Header(k),
                    None => LineKind::Bad,
                }
            } else {
                LineKind::Bad
            }
        } else if serializable_key(mid) {
            LineKind::Header(mid)
        } else {
            LineKind::Bad
        }
    } else {
        LineKind::Bad
    }
}

/// A trimmed line with some first `=`: a known field name on the left and,
/// on the right, a double-quoted value with escapes or a single-quoted
/// literal value (no inner quote), or a bad line.
pub open spec fn classify_keyval(t: Seq<char>) -> LineKind {
    let e = first_index_of(t, '=');
    if e < t.len() {
        let f = trim_spec(t.subrange(0, e));
        let v = trim_spec(t.subrange(e + 1, t.len() as int));
        let kind = if f == "name"@ {
            Some(FieldKind::Name)
        } else if f == "email"@ {
            Some(FieldKind::Email)
        } else if f == "signingkey"@ {
            Some(FieldKind::SigningKey)
        } else {
            None
        };
        match kind {
            Some(k) => {
                if v.len() >= 2 && v[0] == '"' && v[v.len() - 1] == '"' {
                    match unescape(v.subrange(1, v.len() - 1)) {
                        Some(val) => LineKind::KeyVal(k, val),
                        None => LineKind::Bad,
                    }
                } else if v.len() >= 2 && v[0] == '\'' && v[v.len() - 1] == '\'' && (forall|
                    j: int,
                | 0 < j < v.len() - 1 ==> #[trigger] v[j] != '\'') {
                    LineKind::KeyVal(k, v.subrange(1, v.len() - 1))
                } else {
                    LineKind::Bad
                }
            },
            None => LineKind::Bad,
        }
    } else {
        LineKind::Bad
    }
}

/// What a raw document line means, after trimming: nothing, a table
/// header, a field assignment, or a malformed line.
pub open spec fn classify(line: Seq<char>) -> LineKind {
    let t = trim_spec(line);
    if t.len() == 0 {
        LineKind::Blank
    } else if t[0] == '[' {
        classify_header(t)
    } else {
        classify_keyval(t)
    }
}

/// A table being read: its key, and the fields seen so far.
pub struct PendingEntry {
    pub key: Seq<char>,
    pub name: Option<Seq<char>>,
    pub email: Option<Seq<char>>,
    pub signingkey: Option<Seq<char>>,
}

/// A freshly opened table, with no field seen yet.
pub open spec fn open_entry(key: Seq<char>) -> PendingEntry {
    PendingEntry { key, name: None, email: None, signingkey: None }
}

/// A finished table: an entry if both mandatory fields were seen.
pub open spec fn close_entry(p: PendingEntry) -> Option<(Seq<char>, ProfileView)> {
    match (p.name, p.email) {
        (Some(n), Some(e)) => Some(
            (p.key, ProfileView { name: n, email: e, signingkey: p.signingkey }),
        ),
        _ => None,
    }
}

/// Appends the table being read, if any, to the entries read so far;
/// a table missing a mandatory field makes the document malformed.
pub open spec fn flush(done: CatalogView, pend: Option<PendingEntry>) -> Option<CatalogView> {
    match pend {
        None => Some(done),
        Some(p) => match close_entry(p) {
            Some(kv) => Some(done.push(kv)),
            None => None,
        },
    }
}

/// Records one field assignment in the open table; assigning a field twice
/// makes the document malformed.
pub open spec fn set_field(p: PendingEntry, f: FieldKind, v: Seq<char>) -> Option<PendingEntry> {
    match f {
        FieldKind::Name => if p.name is Some {
            None
        } else {
            Some(PendingEntry { name: Some(v), ..p })
        },
        FieldKind::Email => if p.email is Some {
            None
        } else {
            Some(PendingEntry { email: Some(v), ..p })
        },
        FieldKind::SigningKey => if p.signingkey is Some {
            None
        } else {
            Some(PendingEntry { signingkey: Some(v), ..p })
        },
    }
}

/// The line-by-line parse: blank lines are skipped; a header closes the
/// table being read (whose key must be new) and opens the next one; a field
/// assignment needs an open table; a bad line, a repeated key, a repeated
/// field or a table missing name or email makes the whole document
/// malformed.
pub open spec fn parse_lines(
    lines: Seq<Seq<char>>,
    done: CatalogView,
    pend: Option<PendingEntry>,
) -> Option<CatalogView>
    decreases lines.len(),
{
    if lines.len() == 0 {
        flush(done, pend)
    } else {
        match classify(lines[0]) {
            LineKind::Blank => parse_lines(lines.drop_first(), done, pend),
            LineKind::Header(k) => match flush(done, pend) {
                None => None,
                Some(d2) => if catalog_has_key(d2, k) {
                    None
                } else {
                    parse_lines(lines.drop_first(), d2, Some(open_entry(k)))
                },
            },
            LineKind::KeyVal(f, v) => match pend {
                None => None,
                Some(p) => match set_field(p, f, v) {
                    None => None,
                    Some(p2) => parse_lines(lines.drop_first(), done, Some(p2)),
                },
            },
            LineKind::Bad => None,
        }
    }
}

/// The catalog a document denotes, if it is well formed.
pub open spec fn parse_doc(s: Seq<char>) -> Option<CatalogView> {
    parse_lines(lines_of(s), Seq::<(Seq<char>, ProfileView)>::empty(), None)
}

// ---------------------------------------------------------------------------
// Escaping round-trips, and escaped text stays on one line.
// ---------------------------------------------------------------------------
/// `o` with `p` put in front of its content, when it has one.
pub open spec fn opt_prepend(p: Seq<char>, o: Option<Seq<char>>) -> Option<Seq<char>> {
    match o {
        Some(r) => Some(p + r),
        None => None,
    }
}

/// Prepending twice is prepending the concatenation.
proof fn lemma_opt_prepend(a: Seq<char>, b: Seq<char>, o: Option<Seq<char>>)
    ensures
        opt_prepend(a, opt_prepend(b, o)) == opt_prepend(a + b, o),
{
    match o {
        Some(r) => {
            assert(a + (b + r) =~= (a + b) + r);
        },
        None => {},
    }
}

/// Escaping distributes over concatenation.
proof fn lemma_escape_concat(a: Seq<char>, b: Seq<char>)
    ensures
        escape_seq(a + b) == escape_seq(a) + escape_seq(b),
    decreases a.len(),
{
    if a.len() == 0 {
        assert(a + b =~= b);
        assert(escape_seq(a) + escape_seq(b) =~= escape_seq(b));
    } else {
        let ab = a + b;
        assert(ab[0] == a[0]);
        assert(ab.drop_first() =~= a.drop_first() + b);
        lemma_escape_concat(a.drop_first(), b);
        assert(escape_char(a[0]) + (escape_seq(a.drop_first()) + escape_seq(b)) =~= (escape_char(
            a[0],
        ) + escape_seq(a.drop_first())) + escape_seq(b));
    }
}

/// Decoding undoes escaping, on every string.
proof fn lemma_unescape_escape(v: Seq<char>)
    ensures
        unescape(escape_seq(v)) == Some(v),
    decreases v.len(),
{
    if v.len() == 0 {
    } else {
        let c = v[0];
        let rest = v.drop_first();
        lemma_unescape_escape(rest);
        let e = escape_seq(v);
        if c == '"' || c == '\\' || c == '\n' || c == '\t' || c == '\r' {
            assert(escape_char(c).len() == 2 && escape_char(c)[0] == '\\');
            assert(e[0] == '\\');
            assert(e[1] == escape_char(c)[1]);
            assert(unescape_code(e[1]) == Some(c));
            assert(e.skip(2) =~= escape_seq(rest));
            assert(unescape(e) == Some(seq![c] + rest));
        } else {
            assert(escape_char(c) =~= seq![c]);
            assert(e[0] == c && c != '\\' && c != '"');
            assert(e.drop_first() =~= escape_seq(rest));
            assert(unescape(e) == Some(seq![c] + rest));
        }
        assert(seq![c] + rest =~= v);
    }
}

/// Escaped text holds no line break.
proof fn lemma_escape_no_nl(v: Seq<char>)
    ensures
        no_nl(escape_seq(v)),
    decreases v.len(),
{
    if v.len() == 0 {
    } else {
        let c = v[0];
        lemma_escape_no_nl(v.drop_first());
        let e = escape_seq(v);
        assert forall|i: int| 0 <= i < e.len() implies e[i] != '\n' by {
            if i < escape_char(c).len() {
                assert(e[i] == escape_char(c)[i]);
            } else {
                assert(e[i] == escape_seq(v.drop_first())[i - escape_char(c).len()]);
            }
        }
    }
}

// ---------------------------------------------------------------------------
// The executable writer.
// ---------------------------------------------------------------------------
/// Appends the escaped form of `v`.
fn push_escaped(out: &mut String, v: &str)
    ensures
        final(out)@ == old(out)@ + escape_seq(v@),
{
    let len = v.unicode_len();
    proof {
        assert(escape_seq(v@.subrange(0, 0)) =~= Seq::<char>::empty());
        assert(out@ =~= out@ + escape_seq(v@.subrange(0, 0)));
    }
    let mut i: usize = 0;
    while i < len
        invariant
            0 <= i <= len,
            len == v@.len(),
            out@ == old(out)@ + escape_seq(v@.subrange(0, i as int)),
        decreases len - i,
    {
        let c = v.get_char(i);
        if c == '"' {
            out.append("\\\"");
            proof {
                reveal_strlit("\\\"");
            }
        } else if c == '\\' {
            out.append("\\\\");
            proof {
                reveal_strlit("\\\\");
            }
        } else if c == '\n' {
            out.append("\\n");
            proof {
                reveal_strlit("\\n");
            }
        } else if c == '\t' {
            out.append("\\t");
            proof {
                reveal_strlit("\\t");
            }
        } else if c == '\r' {
            out.append("\\r");
            proof {
                reveal_strlit("\\r");
            }
        } else {
            let piece = v.substring_char(i, i + 1);
            proof {
                assert(piece@ =~= seq![c]);
            }
            out.append(piece);
        }
        proof {
            lemma_escape_concat(v@.subrange(0, i as int), seq![c]);
            assert(v@.subrange(0, i + 1) =~= v@.subrange(0, i as int) + seq![c]);
            assert(escape_seq(seq![c].drop_first()) =~= Seq::<char>::empty()) by {
                assert(seq![c].drop_first() =~= Seq::<char>::empty());
            }
            assert(escape_seq(seq![c]) =~= escape_char(c));
            assert(out@ =~= old(out)@ + escape_seq(v@.subrange(0, i + 1)));
        }
        i += 1;
    }
    proof {
        assert(v@.subrange(0, len as int) =~= v@);
    }
}

fn push_newline(out: &mut String)
    ensures
        final(out)@ == old(out)@ + nl(),
{
    out.append("\n");
    proof {
        reveal_strlit("\n");
        assert(out@ =~= old(out)@ + nl());
    }
}

fn push_value_line(out: &mut String, field: &str, value: &str)
    ensures
        final(out)@ == old(out)@ + value_line(field@, value@),
{
    out.append(field);
    out.append(" = \"");
    push_escaped(out, value);
    out.append("\"");
    proof {
        assert(out@ =~= old(out)@ + value_line(field@, value@));
    }
}

fn push_entry(out: &mut String, key: &str, profile: &Profile)
    ensures
        final(out)@ == old(out)@ + ser_entry(key@, profile@),
{
    out.append("[profile.");
    if is_bare_key(key) {
        out.append(key);
    } else {
        out.append("\"");
        push_escaped(out, key);
        out.append("\"");
    }
    proof {
        reveal_strlit("\"");
        assert("\""@ =~= seq!['"']);
        assert(out@ =~= old(out)@ + "[profile."@ + key_token(key@));
    }
    out.append("]");
    push_newline(out);
    push_value_line(out, "name", profile.name.as_str());
    push_newline(out);
    push_value_line(out, "email", profile.email.as_str());
    push_newline(out);
    if let Some(signingkey) = &profile.signingkey {
        push_value_line(out, "signingkey", signingkey.as_str());
        push_newline(out);
    }
    proof {
        assert(out@ =~= old(out)@ + ser_entry(key@, profile@));
    }
}

/// Serializes the catalog: the entries' tables in order, blank-line
/// separated; the empty catalog becomes the empty document.
pub fn to_toml(config: &Config) -> (r: String)
    ensures
        r@ == ser_catalog(config@),
{
    let n = config.len();
    let mut out = String::new();
    let mut i: usize = 0;
    while i < n
        invariant
            0 <= i <= n,
            n == config@.len(),
            out@ == ser_catalog(config@.subrange(0, i as int)),
        decreases n - i,
    {
        if i > 0 {
            push_newline(&mut out);
        }
        let entry = config.entry_at(i);
        push_entry(&mut out, entry.0.as_str(), entry.1);
        proof {
            let cur = config@.subrange(0, i + 1);
            assert(cur.drop_last() =~= config@.subrange(0, i as int));
            assert(cur.last() == config@[i as int]);
            if i == 0 {
                assert(out@ =~= ser_entry(cur[0].0, cur[0].1));
            }
        }
        i += 1;
    }
    proof {
        assert(config@.subrange(0, n as int) =~= config@);
    }
    out
}

// ---------------------------------------------------------------------------
// The executable reader.
// ---------------------------------------------------------------------------
/// The executable form of one classified line.
enum LineToken {
    Blank,
    Header(String),
    KeyVal(FieldKind, String),
    Bad,
}

impl View for LineToken {
    type V = LineKind;

    closed spec fn view(&self) -> LineKind {
        match self {
            LineToken::Blank => LineKind::Blank,
            LineToken::Header(k) => LineKind::Header(k@),
            LineToken::KeyVal(f, v) => LineKind::KeyVal(*f, v@),
            LineToken::Bad => LineKind::Bad,
        }
    }
}

/// Checks that a key is non-empty and made of bare-key characters.
fn is_bare_key(k: &str) -> (r: bool)
    ensures
        r == serializable_key(k@),
{
    let len = k.unicode_len();
    if len == 0 {
        return false;
    }
    let mut i: usize = 0;
    while i < len
        invariant
            0 <= i <= len,
            len == k@.len(),
            forall|j: int| 0 <= j < i ==> bare_key_char(k@[j]),
        decreases len - i,
    {
        let c = k.get_char(i);
        if !(is_alnum_char(c) || c == '-' || c == '_') {
            return false;
        }
        i += 1;
    }
    true
}

/// Decodes the escapes of the double-quoted interior `s[from..to]`;
/// `None` on a bare quote, an unknown code or a trailing backslash.
fn unescape_str(s: &str, from: usize, to: usize) -> (r: Option<String>)
    requires
        from <= to <= s@.len(),
    ensures
        match r {
            Some(v) => unescape(s@.subrange(from as int, to as int)) == Some(v@),
            None => unescape(s@.subrange(from as int, to as int)) is None,
        },
{
    let ghost whole = s@.subrange(from as int, to as int);
    let mut out = String::new();
    let mut i: usize = from;
    while i < to
        invariant
            from <= i <= to <= s@.len(),
            whole == s@.subrange(from as int, to as int),
            opt_prepend(out@, unescape(s@.subrange(i as int, to as int))) == unescape(whole),
        decreases to - i,
    {
        let ghost rem = s@.subrange(i as int, to as int);
        let ghost out0 = out@;
        let c = s.get_char(i);
        proof {
            assert(rem[0] == c);
        }
        if c == '\\' {
            if i + 1 >= to {
                proof {
                    assert(rem.len() == 1);
                    assert(unescape(rem) is None);
                }
                return None;
            }
            let code = s.get_char(i + 1);
            proof {
                assert(rem[1] == code);
            }
            let decoded: Option<&str> = if code == '"' {
                Some("\"")
            } else if code == '\\' {
                Some("\\")
            } else if code == 'n' {
                Some("\n")
            } else if code == 't' {
                Some("\t")
            } else if code == 'r' {
                Some("\r")
            } else {
                None
            };
            match decoded {
                Some(d) => {
                    proof {
                        reveal_strlit("\"");
                        reveal_strlit("\\");
                        reveal_strlit("\n");
                        reveal_strlit("\t");
                        reveal_strlit("\r");
                        let u = unescape_code(code)->Some_0;
                        assert(unescape_code(code) == Some(u));
                        assert(d@ =~= seq![u]);
                        assert(rem.skip(2) =~= s@.subrange(i + 2, to as int));
                        assert(unescape(rem) == opt_prepend(seq![u], unescape(rem.skip(2))));
                        lemma_opt_prepend(out0, seq![u], unescape(rem.skip(2)));
                    }
                    out.append(d);
                    proof {
                        assert(out@ =~= out0 + d@);
                        assert(opt_prepend(out@, unescape(s@.subrange(i + 2, to as int)))
                            == unescape(whole));
                    }
                    i += 2;
                },
                None => {
                    proof {
                        assert(unescape_code(code) is None);
                        assert(unescape(rem) is None);
                    }
                    return None;
                },
            }
        } else if c == '"' {
            proof {
                assert(unescape(rem) is None);
            }
            return None;
        } else {
            let piece = s.substring_char(i, i + 1);
            proof {
                assert(piece@ =~= seq![c]);
                assert(rem.drop_first() =~= s@.subrange(i + 1, to as int));
                assert(unescape(rem) == opt_prepend(seq![c], unescape(rem.drop_first())));
                lemma_opt_prepend(out0, seq![c], unescape(rem.drop_first()));
            }
            out.append(piece);
            proof {
                assert(out@ =~= out0 + piece@);
                assert(opt_prepend(out@, unescape(s@.subrange(i + 1, to as int))) == unescape(
                    whole,
                ));
            }
            i += 1;
        }
    }
    proof {
        assert(s@.subrange(to as int, to as int).len() == 0);
        assert(unescape(s@.subrange(to as int, to as int)) == Some(Seq::<char>::empty()));
        assert(out@ + Seq::<char>::empty() =~= out@);
    }
    Some(out)
}

/// Classifies one raw document line.
fn classify_line(line: &str) -> (tok: LineToken)
    ensures
        tok@ == classify(line@),
{
    let t = trim_str(line);
    let tlen = t.unicode_len();
    if tlen == 0 {
        return LineToken::Blank;
    }
    if t.get_char(0) == '[' {
        if tlen < 11 {
            return LineToken::Bad;
        }
        let prefix = t.substring_char(0, 9);
        if !str_eq(prefix, "[profile.") {
            return LineToken::Bad;
        }
        if t.get_char(tlen - 1) != ']' {
            return LineToken::Bad;
        }
        let ghost mid = t@.subrange(9, tlen - 1);
        proof {
            assert(mid[0] == t@[9]);
        }
        if t.get_char(9) == '"' {
            if tlen < 12 {
                proof {
                    assert(mid.len() < 2);
                }
                return LineToken::Bad;
            }
            if t.get_char(tlen - 2) != '"' {
                proof {
                    assert(mid[mid.len() - 1] == t@[tlen - 2]);
                }
                return LineToken::Bad;
            }
            proof {
                assert(mid[mid.len() - 1] == t@[tlen - 2]);
                assert(mid.subrange(1, mid.len() - 1) =~= t@.subrange(10, tlen - 2));
            }
            match unescape_str(t, 10, tlen - 2) {
                Some(key) => {
                    return LineToken::Header(key);
                },
                None => {
                    return LineToken::Bad;
                },
            }
        }
        let key = t.substring_char(9, tlen - 1);
        if !is_bare_key(key) {
            return LineToken::Bad;
        }
        return LineToken::Header(key.to_owned());
    }
    proof {
        assert(t@.skip(0) =~= t@);
    }
    let eq_pos = find_char(t, 0, '=');
    if eq_pos == tlen {
        return LineToken::Bad;
    }
    let field_part = trim_str(t.substring_char(0, eq_pos));
    let kind: Option<FieldKind> = if str_eq(field_part, "name") {
        Some(FieldKind::Name)
    } else if str_eq(field_part, "email") {
        Some(FieldKind::Email)
    } else if str_eq(field_part, "signingkey") {
        Some(FieldKind::SigningKey)
    } else {
        None
    };
    let kind = match kind {
        Some(k) => k,
        None => {
            return LineToken::Bad;
        },
    };
    let vpart = trim_str(t.substring_char(eq_pos + 1, tlen));
    let vlen = vpart.unicode_len();
    if vlen < 2 {
        return LineToken::Bad;
    }
    let q = vpart.get_char(0);
    if q == '"' {
        if vpart.get_char(vlen - 1) != '"' {
            return LineToken::Bad;
        }
        proof {
            assert(vpart@.subrange(1, vlen - 1) =~= vpart@.subrange(1, vpart@.len() - 1));
        }
        match unescape_str(vpart, 1, vlen - 1) {
            Some(val) => {
                return LineToken::KeyVal(kind, val);
            },
            None => {
                return LineToken::Bad;
            },
        }
    }
    if q != '\'' {
        return LineToken::Bad;
    }
    if vpart.get_char(vlen - 1) != '\'' {
        return LineToken::Bad;
    }
    let ghost t_v = t@;
    let ghost f_v = trim_spec(t@.subrange(0, eq_pos as int));
    let mut i: usize = 1;
    while i < vlen - 1
        invariant
            1 <= i <= vlen,
            vlen >= 2,
            vlen == vpart@.len(),
            vpart@[0] == '\'',
            vpart@[vlen - 1] == '\'',
            t_v == trim_spec(line@),
            tlen == t_v.len(),
            tlen != 0,
            t_v[0] != '[',
            eq_pos == first_index_of(t_v, '='),
            eq_pos < tlen,
            f_v == trim_spec(t_v.subrange(0, eq_pos as int)),
            vpart@ == trim_spec(t_v.subrange(eq_pos + 1, tlen as int)),
            match kind {
                FieldKind::Name => f_v == "name"@,
                FieldKind::Email => f_v != "name"@ && f_v == "email"@,
                FieldKind::SigningKey => f_v != "name"@ && f_v != "email"@ && f_v
                    == "signingkey"@,
            },
            forall|j: int| 0 < j < i ==> vpart@[j] != '\'',
        decreases vlen - i,
    {
        if vpart.get_char(i) == '\'' {
            return LineToken::Bad;
        }
        i += 1;
    }
    LineToken::KeyVal(kind, vpart.substring_char(1, vlen - 1).to_owned())
}

/// The table being read, in executable form.
struct Pending {
    key: String,
    name: Option<String>,
    email: Option<String>,
    signingkey: Option<String>,
}

impl View for Pending {
    type V = PendingEntry;

    closed spec fn view(&self) -> PendingEntry {
        PendingEntry {
            key: self.key@,
            name: match self.name {
                Some(ref n) => Some(n@),
                None => None,
            },
            email: match self.email {
                Some(ref e) => Some(e@),
                None => None,
            },
            signingkey: match self.signingkey {
                Some(ref k) => Some(k@),
                None => None,
            },
        }
    }
}

/// The view of the optional open table.
spec fn pending_view(p: Option<Pending>) -> Option<PendingEntry> {
    match p {
        Some(q) => Some(q@),
        None => None,
    }
}

/// Closes the open table into the catalog; fails when name or email is
/// missing. Mirrors `flush`.
fn flush_pending(cfg: &mut Config, pend: Option<Pending>) -> (r: Result<(), Error>)
    requires
        old(cfg).wf(),
        match pend {
            Some(p) => !catalog_has_key(old(cfg)@, p@.key),
            None => true,
        },
    ensures
        final(cfg).wf(),
        match r {
            Ok(()) => flush(old(cfg)@, pending_view(pend)) == Some(final(cfg)@),
            Err(e) => flush(old(cfg)@, pending_view(pend)) is None && e == Error::ParseError
                && final(cfg)@ == old(cfg)@,
        },
{
    match pend {
        None => Ok(()),
        Some(p) => {
            let Pending { key, name, email, signingkey } = p;
            match (name, email) {
                (Some(n), Some(e)) => {
                    let profile = Profile { name: n, email: e, signingkey };
                    cfg.upsert_profile(key.as_str(), profile);
                    proof {
                        assert(flush(old(cfg)@, pending_view(pend)) == Some(cfg@));
                    }
                    Ok(())
                },
                _ => Err(Error::ParseError),
            }
        },
    }
}

/// Parses a document into a catalog. A well-formed document yields exactly
/// the catalog it denotes; anything else is a `ParseError`. The empty
/// document is the empty catalog.
pub fn from_toml(s: &str) -> (r: Result<Config, Error>)
    ensures
        match parse_doc(s@) {
            Some(m) => r matches Ok(c) && c@ == m && c.wf(),
            None => r matches Err(e) && e == Error::ParseError,
        },
{
    let len = s.unicode_len();
    let mut cfg = Config::new();
    let mut pend: Option<Pending> = None;
    let mut pos: usize = 0;
    let mut at_end = false;
    proof {
        assert(s@.skip(0) =~= s@);
    }
    while !at_end
        invariant
            len == s@.len(),
            cfg.wf(),
            match pend {
                Some(p) => !catalog_has_key(cfg@, p@.key),
                None => true,
            },
            !at_end ==> pos <= len && parse_lines(
                lines_of(s@.skip(pos as int)),
                cfg@,
                pending_view(pend),
            ) == parse_doc(s@),
            at_end ==> flush(cfg@, pending_view(pend)) == parse_doc(s@),
        decreases len - pos + (if at_end {
            0int
        } else {
            1int
        }),
    {
        let line_end = find_char(s, pos, '\n');
        let line = s.substring_char(pos, line_end);
        let ghost rem = s@.skip(pos as int);
        let ghost lines = lines_of(rem);
        let ghost rest = if line_end < len {
            lines_of(s@.skip(line_end + 1))
        } else {
            Seq::<Seq<char>>::empty()
        };
        proof {
            assert(first_index_of(rem, '\n') == line_end - pos);
            if line_end < len {
                assert(rem.subrange(0, line_end - pos) =~= line@);
                assert(rem.subrange(line_end - pos + 1, rem.len() as int) =~= s@.skip(
                    line_end + 1,
                ));
                assert(lines == seq![line@] + rest);
                assert(lines[0] == line@);
                assert(lines.drop_first() =~= rest);
            } else {
                assert(rem =~= line@);
                assert(lines == seq![line@]);
                assert(lines[0] == line@);
                assert(lines.drop_first() =~= rest);
            }
        }
        let tok = classify_line(line);
        match tok {
            LineToken::Blank => {},
            LineToken::Header(k) => {
                let prev = pend;
                pend = None;
                if flush_pending(&mut cfg, prev).is_err() {
                    return Err(Error::ParseError);
                }
                if cfg.has_profile_key(k.as_str()) {
                    return Err(Error::ParseError);
                }
                pend = Some(Pending { key: k, name: None, email: None, signingkey: None });
            },
            LineToken::KeyVal(f, v) => {
                let prev = pend;
                match prev {
                    None => {
                        return Err(Error::ParseError);
                    },
                    Some(p) => {
                        let Pending { key, name, email, signingkey } = p;
                        match f {
                            FieldKind::Name => {
                                if name.is_some() {
                                    return Err(Error::ParseError);
                                }
                                pend = Some(
                                    Pending { key, name: Some(v), email, signingkey },
                                );
                            },
                            FieldKind::Email => {
                                if email.is_some() {
                                    return Err(Error::ParseError);
                                }
                                pend = Some(
                                    Pending { key, name, email: Some(v), signingkey },
                                );
                            },
                            FieldKind::SigningKey => {
                                if signingkey.is_some() {
                                    return Err(Error::ParseError);
                                }
                                pend = Some(
                                    Pending { key, name, email, signingkey: Some(v) },
                                );
                            },
                        }
                    },
                }
            },
            LineToken::Bad => {
                return Err(Error::ParseError);
            },
        }
        if line_end == len {
            at_end = true;
        } else {
            pos = line_end + 1;
        }
    }
    let prev = pend;
    match flush_pending(&mut cfg, prev) {
        Ok(()) => Ok(cfg),
        Err(_) => Err(Error::ParseError),
    }
}

// ---------------------------------------------------------------------------
// The round trip: the document written for a catalog parses back to it.
// ---------------------------------------------------------------------------
/// No newline anywhere: the text fits on one document line.
pub open spec fn no_nl(s: Seq<char>) -> bool {
    forall|i: int| 0 <= i < s.len() ==> s[i] != '\n'
}

/// A one-line text is its own single line.
proof fn lemma_lines_of_single(x: Seq<char>)
    requires
        no_nl(x),
    ensures
        lines_of(x) == seq![x],
{
    lemma_first_index_of(x, '\n');
    if first_index_of(x, '\n') < x.len() {
        assert(x[first_index_of(x, '\n')] == '\n');
    }
}

/// Cutting after a first one-line text: the line, then the rest's lines.
proof fn lemma_lines_of_prefix(x: Seq<char>, rest: Seq<char>)
    requires
        no_nl(x),
    ensures
        lines_of(x + nl() + rest) == seq![x] + lines_of(rest),
{
    let s = x + nl() + rest;
    lemma_first_index_of(s, '\n');
    let f = first_index_of(s, '\n');
    assert(s[x.len() as int] == '\n');
    if f < x.len() {
        assert(s[f] == x[f]);
        assert(false);
    }
    if f > x.len() {
        assert(s[x.len() as int] != '\n');
        assert(false);
    }
    assert(f == x.len());
    assert(s.subrange(0, f) =~= x);
    assert(s.subrange(f + 1, s.len() as int) =~= rest);
    assert(lines_of(s) == seq![x] + lines_of(rest));
}

/// A bare key spans no line break.
proof fn lemma_bare_key_no_nl(k: Seq<char>)
    requires
        serializable_key(k),
    ensures
        no_nl(k),
{
    assert forall|i: int| 0 <= i < k.len() implies k[i] != '\n' by {
        if k[i] == '\n' {
            assert(bare_key_char('\n'));
            assert(false);
        }
    }
}

/// The written key token spans no line break, is never empty, and starts
/// with a quote exactly when the key could not be written bare.
proof fn lemma_key_token_facts(k: Seq<char>)
    ensures
        no_nl(key_token(k)),
        key_token(k).len() >= 1,
        serializable_key(k) ==> key_token(k)[0] != '"',
        !serializable_key(k) ==> key_token(k)[0] == '"' && key_token(k).last() == '"',
{
    if serializable_key(k) {
        lemma_bare_key_no_nl(k);
        if k[0] == '"' {
            assert(bare_key_char('"'));
            assert(false);
        }
    } else {
        lemma_escape_no_nl(k);
        let kt = key_token(k);
        let ev = escape_seq(k);
        assert forall|i: int| 0 <= i < kt.len() implies kt[i] != '\n' by {
            if 0 < i < kt.len() - 1 {
                assert(kt[i] == ev[i - 1]);
            }
        }
    }
}

/// A header line is one document line, and classifies back to its key —
/// whether the key is written bare or quoted.
proof fn lemma_header_line_classifies(k: Seq<char>)
    ensures
        no_nl(header_line(k)),
        classify(header_line(k)) == LineKind::Header(k),
{
    reveal_strlit("[profile.");
    reveal_strlit("]");
    let pre = "[profile."@;
    let close = "]"@;
    assert(pre =~= seq!['[', 'p', 'r', 'o', 'f', 'i', 'l', 'e', '.']);
    assert(close =~= seq![']']);
    let kt = key_token(k);
    let t = header_line(k);
    lemma_key_token_facts(k);
    assert forall|i: int| 0 <= i < t.len() implies t[i] != '\n' by {
        if i < 9 {
            assert(t[i] == pre[i]);
        } else if i < 9 + kt.len() {
            assert(t[i] == kt[i - 9]);
        } else {
            assert(t[i] == close[i - 9 - kt.len()]);
        }
    }
    assert(t[0] == '[');
    assert(t[t.len() - 1] == ']');
    crate::text::lemma_trim_fixed(t);
    assert(trim_spec(t) == t);
    assert(t.len() >= 11);
    assert(t.subrange(0, 9) =~= pre);
    let mid = t.subrange(9, t.len() - 1);
    assert(mid =~= kt);
    if serializable_key(k) {
        assert(mid[0] != '"');
        assert(classify(t) == LineKind::Header(k));
    } else {
        let ev = escape_seq(k);
        assert(mid[0] == '"' && mid[mid.len() - 1] == '"' && mid.len() >= 2);
        assert(mid.subrange(1, mid.len() - 1) =~= ev);
        lemma_unescape_escape(k);
        assert(classify(t) == LineKind::Header(k));
    }
}

/// The spelled-out field name of each field.
pub open spec fn field_name(f: FieldKind) -> Seq<char> {
    match f {
        FieldKind::Name => "name"@,
        FieldKind::Email => "email"@,
        FieldKind::SigningKey => "signingkey"@,
    }
}

/// A value line is one document line, and classifies back to its field and
/// value, for every value.
proof fn lemma_value_line_classifies(f: FieldKind, v: Seq<char>)
    ensures
        no_nl(value_line(field_name(f), v)),
        classify(value_line(field_name(f), v)) == LineKind::KeyVal(f, v),
{
    reveal_strlit("name");
    reveal_strlit("email");
    reveal_strlit("signingkey");
    reveal_strlit(" = \"");
    reveal_strlit("\"");
    let fname = field_name(f);
    let eq_part = " = \""@;
    let close = "\""@;
    assert("name"@ =~= seq!['n', 'a', 'm', 'e']);
    assert("email"@ =~= seq!['e', 'm', 'a', 'i', 'l']);
    assert("signingkey"@ =~= seq!['s', 'i', 'g', 'n', 'i', 'n', 'g', 'k', 'e', 'y']);
    assert(eq_part =~= seq![' ', '=', ' ', '"']);
    assert(close =~= seq!['"']);
    assert(forall|i: int| 0 <= i < fname.len() ==> #[trigger] fname[i] != '\n');
    assert(forall|i: int| 0 <= i < fname.len() ==> #[trigger] fname[i] != '=');
    assert(!is_ws(fname[0]) && fname[0] != '[');
    assert(!is_ws(fname[fname.len() - 1]));
    let ev = escape_seq(v);
    lemma_escape_no_nl(v);
    let t = value_line(fname, v);
    let flen = fname.len() as int;
    assert(t.len() == flen + 4 + ev.len() + 1);
    assert forall|i: int| 0 <= i < t.len() implies t[i] != '\n' by {
        if i < flen {
            assert(t[i] == fname[i]);
        } else if i < flen + 4 {
            assert(t[i] == eq_part[i - flen]);
        } else if i < flen + 4 + ev.len() {
            assert(t[i] == ev[i - flen - 4]);
        } else {
            assert(t[i] == close[0]);
        }
    }
    // The whole line is already trimmed: it starts with the field name and
    // ends with the closing quote.
    assert(t[0] == fname[0]);
    assert(t[t.len() - 1] == '"');
    crate::text::lemma_trim_fixed(t);
    assert(trim_spec(t) == t);
    assert(t.len() != 0 && t[0] != '[');
    // The first `=` of the line is the one after the field name.
    lemma_first_index_of(t, '=');
    let e = first_index_of(t, '=');
    assert(t[flen + 1] == '=');
    if e < flen + 1 {
        if e < flen {
            assert(t[e] == fname[e]);
        } else {
            assert(t[e] == eq_part[0]);
        }
        assert(false);
    }
    if e > flen + 1 {
        assert(t[flen + 1] != '=');
        assert(false);
    }
    assert(e == flen + 1);
    // The left of the `=` trims to the field name.
    let left = t.subrange(0, e);
    assert(left =~= fname + seq![' ']);
    crate::text::lemma_ltrim_at(left, 0);
    assert(crate::text::ltrim(left) =~= left);
    crate::text::lemma_rtrim_at(left, flen);
    assert(trim_spec(left) =~= fname);
    // The right of the `=` trims to the quoted, escaped value.
    let right = t.subrange(e + 1, t.len() as int);
    let quoted = seq!['"'] + ev + seq!['"'];
    assert(right =~= seq![' '] + quoted);
    crate::text::lemma_ltrim_at(right, 1);
    assert(crate::text::ltrim(right) =~= quoted);
    assert(quoted[quoted.len() - 1] == '"');
    crate::text::lemma_rtrim_at(quoted, quoted.len() as int);
    assert(trim_spec(right) =~= quoted);
    let vp = trim_spec(right);
    assert(vp.len() == ev.len() + 2);
    assert(vp[0] == '"' && vp[vp.len() - 1] == '"');
    assert(vp.subrange(1, vp.len() - 1) =~= ev);
    lemma_unescape_escape(v);
    // The three field names are pairwise distinct, so the classification
    // picks exactly `f`.
    assert("email"@ != "name"@ && "signingkey"@ != "name"@ && "signingkey"@ != "email"@);
    assert(classify(t) == LineKind::KeyVal(f, v));
}

/// The document of one entry followed by anything: the entry's own lines,
/// then the lines of the rest.
proof fn lemma_entry_doc_lines(k: Seq<char>, p: ProfileView, tail: Seq<char>)
    ensures
        lines_of(ser_entry(k, p) + tail) == (match p.signingkey {
            Some(sk) => seq![
                header_line(k),
                value_line("name"@, p.name),
                value_line("email"@, p.email),
                value_line("signingkey"@, sk),
            ],
            None => seq![
                header_line(k),
                value_line("name"@, p.name),
                value_line("email"@, p.email),
            ],
        }) + lines_of(tail),
{
    let h = header_line(k);
    let v1 = value_line("name"@, p.name);
    let v2 = value_line("email"@, p.email);
    lemma_header_line_classifies(k);
    lemma_value_line_classifies(FieldKind::Name, p.name);
    lemma_value_line_classifies(FieldKind::Email, p.email);
    match p.signingkey {
        Some(sk) => {
            let v3 = value_line("signingkey"@, sk);
            lemma_value_line_classifies(FieldKind::SigningKey, sk);
            let d3 = v3 + nl() + tail;
            let d2 = v2 + nl() + d3;
            let d1 = v1 + nl() + d2;
            assert(ser_entry(k, p) + tail =~= h + nl() + d1);
            lemma_lines_of_prefix(h, d1);
            lemma_lines_of_prefix(v1, d2);
            lemma_lines_of_prefix(v2, d3);
            lemma_lines_of_prefix(v3, tail);
            assert(lines_of(ser_entry(k, p) + tail) =~= seq![h, v1, v2, v3] + lines_of(tail));
        },
        None => {
            let d2 = v2 + nl() + tail;
            let d1 = v1 + nl() + d2;
            assert(ser_entry(k, p) + tail =~= h + nl() + d1);
            lemma_lines_of_prefix(h, d1);
            lemma_lines_of_prefix(v1, d2);
            lemma_lines_of_prefix(v2, tail);
            assert(lines_of(ser_entry(k, p) + tail) =~= seq![h, v1, v2] + lines_of(tail));
        },
    }
}

/// Unfolding the document from the front: the first entry's table, then —
/// when more entries follow — the blank separator and the rest.
proof fn lemma_ser_head(s: CatalogView)
    requires
        s.len() >= 2,
    ensures
        ser_catalog(s) == ser_entry(s[0].0, s[0].1) + nl() + ser_catalog(s.drop_first()),
    decreases s.len(),
{
    let dl = s.drop_last();
    let df = s.drop_first();
    if s.len() == 2 {
        assert(dl.len() == 1 && dl[0] == s[0]);
        assert(df.len() == 1 && df[0] == s[1]);
        assert(s.last() == s[1]);
        assert(ser_catalog(dl) == ser_entry(dl[0].0, dl[0].1));
        assert(ser_catalog(df) == ser_entry(df[0].0, df[0].1));
        assert(ser_catalog(s) == ser_catalog(dl) + nl() + ser_entry(s.last().0, s.last().1));
        assert(ser_catalog(s) =~= ser_entry(s[0].0, s[0].1) + nl() + ser_catalog(df));
    } else {
        lemma_ser_head(dl);
        assert(dl[0] == s[0]);
        assert(df.len() >= 2);
        assert(df.drop_last() =~= dl.drop_first());
        assert(df.last() == s.last());
        assert(ser_catalog(df) == ser_catalog(df.drop_last()) + nl() + ser_entry(
            df.last().0,
            df.last().1,
        ));
        assert(ser_catalog(s) =~= ser_entry(s[0].0, s[0].1) + nl() + ser_catalog(df));
    }
}

/// The inductive heart of the round trip: parsing the document of the
/// remaining entries, from any state whose flushed form is `base`, yields
/// `base` followed by those entries.
#[verifier::rlimit(80)]
proof fn lemma_parse_ser_entries(
    entries: CatalogView,
    done: CatalogView,
    pend: Option<PendingEntry>,
    base: CatalogView,
)
    requires
        flush(done, pend) == Some(base),
        catalog_wf(base + entries),
    ensures
        parse_lines(lines_of(ser_catalog(entries)), done, pend) == Some(base + entries),
    decreases entries.len(), 1int,
{
    if entries.len() == 0 {
        let empty = Seq::<char>::empty();
        lemma_lines_of_single(empty);
        assert(trim_spec(empty) =~= empty) by {
            crate::text::lemma_trim_fixed(empty);
        }
        assert(classify(empty) == LineKind::Blank);
        let lines = lines_of(ser_catalog(entries));
        assert(lines == seq![empty]);
        let lines_rest = lines.drop_first();
        assert(lines_rest =~= Seq::<Seq<char>>::empty());
        assert(parse_lines(lines, done, pend) == parse_lines(lines_rest, done, pend));
        assert(parse_lines(lines_rest, done, pend) == flush(done, pend));
        assert(base + entries =~= base);
    } else {
        let k = entries[0].0;
        let p = entries[0].1;
        let rest = entries.drop_first();
        let tail: Seq<char> = if entries.len() == 1 {
            Seq::<char>::empty()
        } else {
            nl() + ser_catalog(rest)
        };
        if entries.len() == 1 {
            assert(ser_catalog(entries) =~= ser_entry(k, p) + tail);
        } else {
            lemma_ser_head(entries);
            assert(ser_catalog(entries) =~= ser_entry(k, p) + tail);
        }
        lemma_entry_doc_lines(k, p, tail);
        lemma_header_line_classifies(k);
        lemma_value_line_classifies(FieldKind::Name, p.name);
        lemma_value_line_classifies(FieldKind::Email, p.email);
        let lines0 = lines_of(ser_catalog(entries));
        // The first entry's key is new: well-formedness of `base + entries`
        // separates it from everything already flushed.
        assert forall|i: int| 0 <= i < base.len() implies base[i].0 != k by {
            let u = base + entries;
            assert(u[i] == base[i]);
            assert(u[base.len() as int] == entries[0]);
        }
        assert(!catalog_has_key(base, k));
        let pe0 = open_entry(k);
        let pe1 = PendingEntry { name: Some(p.name), ..pe0 };
        let pe2 = PendingEntry { email: Some(p.email), ..pe1 };
        assert(set_field(pe0, FieldKind::Name, p.name) == Some(pe1));
        assert(set_field(pe1, FieldKind::Email, p.email) == Some(pe2));
        match p.signingkey {
            Some(sk) => {
                lemma_value_line_classifies(FieldKind::SigningKey, sk);
                let pe3 = PendingEntry { signingkey: Some(sk), ..pe2 };
                assert(set_field(pe2, FieldKind::SigningKey, sk) == Some(pe3));
                let lines1 = seq![
                    value_line("name"@, p.name),
                    value_line("email"@, p.email),
                    value_line("signingkey"@, sk),
                ] + lines_of(tail);
                let lines2 = seq![
                    value_line("email"@, p.email),
                    value_line("signingkey"@, sk),
                ] + lines_of(tail);
                let lines3 = seq![value_line("signingkey"@, sk)] + lines_of(tail);
                assert(lines0.drop_first() =~= lines1);
                assert(lines1.drop_first() =~= lines2);
                assert(lines2.drop_first() =~= lines3);
                assert(lines3.drop_first() =~= lines_of(tail));
                assert(parse_lines(lines0, done, pend) == parse_lines(lines1, base, Some(pe0)));
                assert(parse_lines(lines1, base, Some(pe0)) == parse_lines(
                    lines2,
                    base,
                    Some(pe1),
                ));
                assert(parse_lines(lines2, base, Some(pe1)) == parse_lines(
                    lines3,
                    base,
                    Some(pe2),
                ));
                assert(parse_lines(lines3, base, Some(pe2)) == parse_lines(
                    lines_of(tail),
                    base,
                    Some(pe3),
                ));
                lemma_tail_parse(entries, rest, tail, base, pe3, k, p);
            },
            None => {
                let lines1 = seq![value_line("name"@, p.name), value_line("email"@, p.email)]
                    + lines_of(tail);
                let lines2 = seq![value_line("email"@, p.email)] + lines_of(tail);
                assert(lines0.drop_first() =~= lines1);
                assert(lines1.drop_first() =~= lines2);
                assert(lines2.drop_first() =~= lines_of(tail));
                assert(parse_lines(lines0, done, pend) == parse_lines(lines1, base, Some(pe0)));
                assert(parse_lines(lines1, base, Some(pe0)) == parse_lines(
                    lines2,
                    base,
                    Some(pe1),
                ));
                assert(parse_lines(lines2, base, Some(pe1)) == parse_lines(
                    lines_of(tail),
                    base,
                    Some(pe2),
                ));
                lemma_tail_parse(entries, rest, tail, base, pe2, k, p);
            },
        }
    }
}

/// After an entry's own lines are consumed, the rest of the document takes
/// the parse to `base` plus all remaining entries.
proof fn lemma_tail_parse(
    entries: CatalogView,
    rest: CatalogView,
    tail: Seq<char>,
    base: CatalogView,
    pe: PendingEntry,
    k: Seq<char>,
    p: ProfileView,
)
    requires
        entries.len() >= 1,
        entries[0] == (k, p),
        rest == entries.drop_first(),
        tail == if entries.len() == 1 {
            Seq::<char>::empty()
        } else {
            nl() + ser_catalog(rest)
        },
        close_entry(pe) == Some((k, p)),
        catalog_wf(base + entries),
    ensures
        parse_lines(lines_of(tail), base, Some(pe)) == Some(base + entries),
    decreases entries.len(), 0int,
{
    let empty = Seq::<char>::empty();
    assert(trim_spec(empty) =~= empty) by {
        crate::text::lemma_trim_fixed(empty);
    }
    assert(classify(empty) == LineKind::Blank);
    assert(flush(base, Some(pe)) == Some(base.push((k, p))));
    if entries.len() == 1 {
        lemma_lines_of_single(empty);
        assert(lines_of(tail) == seq![empty]);
        let lines_rest = lines_of(tail).drop_first();
        assert(lines_rest =~= Seq::<Seq<char>>::empty());
        assert(parse_lines(lines_of(tail), base, Some(pe)) == parse_lines(
            lines_rest,
            base,
            Some(pe),
        ));
        assert(parse_lines(lines_rest, base, Some(pe)) == flush(base, Some(pe)));
        assert(base.push((k, p)) =~= base + entries);
    } else {
        assert(tail =~= empty + nl() + ser_catalog(rest));
        lemma_lines_of_prefix(empty, ser_catalog(rest));
        assert(lines_of(tail) == seq![empty] + lines_of(ser_catalog(rest)));
        assert(lines_of(tail).drop_first() =~= lines_of(ser_catalog(rest)));
        assert(parse_lines(lines_of(tail), base, Some(pe)) == parse_lines(
            lines_of(ser_catalog(rest)),
            base,
            Some(pe),
        ));
        assert(base.push((k, p)) + rest =~= base + entries);
        lemma_parse_ser_entries(rest, base, Some(pe), base.push((k, p)));
        assert(parse_lines(lines_of(ser_catalog(rest)), base, Some(pe)) == Some(
            base.push((k, p)) + rest,
        ));
    }
}

/// The round trip: the document written for any well-formed catalog parses
/// back to exactly that catalog; in particular the empty catalog
/// round-trips through the empty document.
pub proof fn lemma_save_load_round_trip(s: CatalogView)
    requires
        catalog_wf(s),
    ensures
        parse_doc(ser_catalog(s)) == Some(s),
{
    let empty = Seq::<(Seq<char>, ProfileView)>::empty();
    assert(flush(empty, None) == Some(empty));
    assert(empty + s =~= s);
    lemma_parse_ser_entries(s, empty, None, empty);
}

} // verus!
