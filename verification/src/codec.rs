//! The manifest codec: a repository record sequence is persisted as a
//! structured, line-oriented text document, three labelled lines per
//! record. Field values are escaped (`\n` for a line break, `\\` for a
//! backslash), so decoding is the exact inverse of encoding on every
//! record sequence (`lemma_round_trip`), and parsing ignores leading
//! whitespace on each line, so a hand-indented manifest still reads back.

use vstd::prelude::*;

use crate::pack::{packs_view, Pack, PackView};

verus! {

/// How one character of a field value stands in the manifest: a
/// backslash or a line break as a two-character escape, anything else as
/// itself.
pub open spec fn esc_char(c: char) -> Seq<char> {
    if c == '\\' {
        seq!['\\', '\\']
    } else if c == '\n' {
        seq!['\\', 'n']
    } else {
        seq![c]
    }
}

/// A field value as it stands in the manifest: each character escaped.
pub open spec fn esc(s: Seq<char>) -> Seq<char>
    decreases s.len(),
{
    if s.len() == 0 {
        Seq::empty()
    } else {
        esc_char(s[0]) + esc(s.skip(1))
    }
}

/// The field value an escaped text denotes: `None` on a dangling or
/// unknown escape.
pub open spec fn unesc(s: Seq<char>) -> Option<Seq<char>>
    decreases s.len(),
{
    if s.len() == 0 {
        Some(Seq::empty())
    } else if s[0] == '\\' {
        if s.len() >= 2 && (s[1] == 'n' || s[1] == '\\') {
            let c = if s[1] == 'n' {
                '\n'
            } else {
                '\\'
            };
            match unesc(s.skip(2)) {
                None => None,
                Some(t) => Some(seq![c] + t),
            }
        } else {
            None
        }
    } else {
        match unesc(s.skip(1)) {
            None => None,
            Some(t) => Some(seq![s[0]] + t),
        }
    }
}

/// An escaped field value never spans a line break.
proof fn lemma_esc_no_nl(s: Seq<char>)
    ensures
        !esc(s).contains('\n'),
    decreases s.len(),
{
    if s.len() == 0 {
    } else {
        lemma_esc_no_nl(s.skip(1));
        if esc(s).contains('\n') {
            let w = choose|w: int| 0 <= w < esc(s).len() && esc(s)[w] == '\n';
            let head = esc_char(s[0]);
            if w < head.len() {
                assert(head[w] == '\n');
                assert(false);
            } else {
                assert(esc(s.skip(1))[w - head.len()] == '\n');
                assert(esc(s.skip(1)).contains('\n'));
                assert(false);
            }
        }
    }
}

/// One more character of the value appends its escape to the text.
proof fn lemma_esc_push(s: Seq<char>, c: char)
    ensures
        esc(s.push(c)) == esc(s) + esc_char(c),
    decreases s.len(),
{
    if s.len() == 0 {
        assert(s.push(c).skip(1) =~= Seq::<char>::empty());
        assert(s.push(c)[0] == c);
        assert(esc(Seq::<char>::empty()) == Seq::<char>::empty());
        assert(esc(s) == Seq::<char>::empty());
        assert(esc_char(c) + Seq::<char>::empty() =~= esc_char(c));
        assert(esc(s) + esc_char(c) =~= esc_char(c));
    } else {
        assert(s.push(c).skip(1) =~= s.skip(1).push(c));
        lemma_esc_push(s.skip(1), c);
        assert(esc_char(s[0]) + (esc(s.skip(1)) + esc_char(c)) =~= (esc_char(s[0]) + esc(
            s.skip(1),
        )) + esc_char(c));
    }
}

/// Unescaping inverts escaping, for every field value.
proof fn lemma_unesc_esc(s: Seq<char>)
    ensures
        unesc(esc(s)) == Some(s),
    decreases s.len(),
{
    if s.len() == 0 {
    } else {
        lemma_unesc_esc(s.skip(1));
        let e = esc(s);
        let head = esc_char(s[0]);
        assert(e == head + esc(s.skip(1)));
        if s[0] == '\\' || s[0] == '\n' {
            assert(head.len() == 2);
            assert(e[0] == head[0]);
            assert(e[1] == head[1]);
            assert(e.skip(2) =~= esc(s.skip(1)));
            assert(seq![s[0]] + s.skip(1) =~= s);
        } else {
            assert(head.len() == 1);
            assert(e[0] == s[0]);
            assert(e.skip(1) =~= esc(s.skip(1)));
            assert(seq![s[0]] + s.skip(1) =~= s);
        }
    }
}

/// Whitespace that may stand before a line's label.
pub open spec fn is_ws(c: char) -> bool {
    c == ' ' || c == '\t'
}

/// The text with its leading whitespace removed.
pub open spec fn skip_ws(s: Seq<char>) -> Seq<char>
    decreases s.len(),
{
    if s.len() > 0 && is_ws(s[0]) {
        skip_ws(s.skip(1))
    } else {
        s
    }
}

/// `skip_ws` drops exactly the leading whitespace.
pub proof fn lemma_skip_ws(s: Seq<char>)
    ensures
        skip_ws(s).len() <= s.len(),
        skip_ws(s) == s.skip(s.len() - skip_ws(s).len()),
        forall|k: int| 0 <= k < s.len() - skip_ws(s).len() ==> is_ws(s[k]),
        skip_ws(s).len() > 0 ==> !is_ws(skip_ws(s)[0]),
    decreases s.len(),
{
    if s.len() > 0 && is_ws(s[0]) {
        let t = s.skip(1);
        lemma_skip_ws(t);
        let m = t.len() - skip_ws(t).len();
        assert(t.skip(m) =~= s.skip(m + 1));
        assert forall|k: int| 0 <= k < m + 1 implies is_ws(s[k]) by {
            if k >= 1 {
                assert(s[k] == t[k - 1]);
            }
        }
    } else {
        assert(s.skip(0) =~= s);
    }
}

/// Leading whitespace before a label is ignored entirely.
proof fn lemma_skip_ws_concat(w: Seq<char>, x: Seq<char>)
    requires
        forall|k: int| 0 <= k < w.len() ==> is_ws(w[k]),
        x.len() > 0,
        !is_ws(x[0]),
    ensures
        skip_ws(w + x) == x,
    decreases w.len(),
{
    if w.len() == 0 {
        assert(w + x =~= x);
    } else {
        assert((w + x)[0] == w[0]);
        assert((w + x).skip(1) =~= w.skip(1) + x);
        assert(forall|k: int| 0 <= k < w.skip(1).len() ==> w.skip(1)[k] == w[k + 1]);
        lemma_skip_ws_concat(w.skip(1), x);
    }
}

/// The label that opens a record's first manifest line.
pub open spec fn path_prefix() -> Seq<char> {
    seq!['-', ' ', 'p', 'a', 't', 'h', ':', ' ']
}

/// The label of a record's second manifest line.
pub open spec fn url_prefix() -> Seq<char> {
    seq!['u', 'r', 'l', ':', ' ']
}

/// The label of a record's third manifest line.
pub open spec fn remote_prefix() -> Seq<char> {
    seq!['r', 'e', 'm', 'o', 't', 'e', '_', 'n', 'a', 'm', 'e', ':', ' ']
}

/// The indentation the encoder writes before the second and third labels.
pub open spec fn indent() -> Seq<char> {
    seq![' ', ' ']
}

/// The line terminator.
pub open spec fn newline() -> Seq<char> {
    seq!['\n']
}

/// The text of one encoded record: three labelled lines, field values
/// escaped.
pub open spec fn encode_pack(p: PackView) -> Seq<char> {
    path_prefix() + esc(p.path) + newline() + indent() + url_prefix() + esc(p.url) + newline()
        + indent() + remote_prefix() + esc(p.remote_name) + newline()
}

/// The text of an encoded record sequence: the records' texts in order;
/// the empty sequence encodes to the empty document.
pub open spec fn spec_encode(rs: Seq<PackView>) -> Seq<char>
    decreases rs.len(),
{
    if rs.len() == 0 {
        Seq::empty()
    } else {
        encode_pack(rs[0]) + spec_encode(rs.skip(1))
    }
}

/// Index of the first line break in `s`, if any.
pub open spec fn first_nl(s: Seq<char>) -> Option<int>
    decreases s.len(),
{
    if s.len() == 0 {
        None
    } else if s[0] == '\n' {
        Some(0int)
    } else {
        match first_nl(s.skip(1)) {
            None => None,
            Some(j) => Some(j + 1),
        }
    }
}

/// `first_nl` finds exactly the first line break: the index it returns
/// holds one, nothing before it does, and `None` means there is none.
pub proof fn lemma_first_nl(s: Seq<char>)
    ensures
        match first_nl(s) {
            Some(j) => 0 <= j < s.len() && s[j] == '\n' && (forall|k: int|
                0 <= k < j ==> s[k] != '\n'),
            None => forall|k: int| 0 <= k < s.len() ==> s[k] != '\n',
        },
    decreases s.len(),
{
    if s.len() == 0 {
    } else if s[0] == '\n' {
    } else {
        let t = s.skip(1);
        lemma_first_nl(t);
        match first_nl(t) {
            None => {
                assert forall|k: int| 0 <= k < s.len() implies s[k] != '\n' by {
                    if k >= 1 {
                        assert(s[k] == t[k - 1]);
                    }
                }
            },
            Some(j) => {
                assert(s[j + 1] == t[j]);
                assert forall|k: int| 0 <= k < j + 1 implies s[k] != '\n' by {
                    if k >= 1 {
                        assert(s[k] == t[k - 1]);
                    }
                }
            },
        }
    }
}

/// Split off the first line: the text before the first line break, and
/// everything after it. `None` when no line break remains.
pub open spec fn split_line(s: Seq<char>) -> Option<(Seq<char>, Seq<char>)> {
    match first_nl(s) {
        None => None,
        Some(j) => Some((s.take(j), s.skip(j + 1))),
    }
}

/// Remove a required leading label from the front of `s`.
pub open spec fn strip_prefix(pre: Seq<char>, s: Seq<char>) -> Option<Seq<char>> {
    if pre.is_prefix_of(s) {
        Some(s.skip(pre.len() as int))
    } else {
        None
    }
}

/// Parse one labelled field line: leading whitespace is ignored, then
/// the label, then the raw (still escaped) field value up to the line
/// break. Returns the raw value and the unconsumed remainder.
pub open spec fn parse_field(pre: Seq<char>, s: Seq<char>) -> Option<(Seq<char>, Seq<char>)> {
    match strip_prefix(pre, skip_ws(s)) {
        None => None,
        Some(t) => split_line(t),
    }
}

/// Parse one record: its three labelled field lines, in order, each
/// value unescaped.
pub open spec fn parse_record(s: Seq<char>) -> Option<(PackView, Seq<char>)> {
    match parse_field(path_prefix(), s) {
        None => None,
        Some((rawpath, s1)) => match unesc(rawpath) {
            None => None,
            Some(path) => match parse_field(url_prefix(), s1) {
                None => None,
                Some((rawurl, s2)) => match unesc(rawurl) {
                    None => None,
                    Some(url) => match parse_field(remote_prefix(), s2) {
                        None => None,
                        Some((rawrn, s3)) => match unesc(rawrn) {
                            None => None,
                            Some(rn) => Some(
                                ((PackView { path, url, remote_name: rn }), s3),
                            ),
                        },
                    },
                },
            },
        },
    }
}

/// Parse a whole document: records until the text is exhausted. Any
/// leftover or malformed text fails the parse; there is no partial
/// recovery.
pub open spec fn parse_records(s: Seq<char>) -> Option<Seq<PackView>>
    decreases s.len(),
{
    if s.len() == 0 {
        Some(Seq::empty())
    } else {
        match parse_record(s) {
            None => None,
            Some((p, rest)) => if rest.len() < s.len() {
                match parse_records(rest) {
                    None => None,
                    Some(t) => Some(seq![p] + t),
                }
            } else {
                None
            },
        }
    }
}

/// What `decode` accepts and returns: the record sequence of a
/// well-formed manifest document.
pub open spec fn spec_decode(s: Seq<char>) -> Option<Seq<PackView>> {
    parse_records(s)
}

/// A field parse always consumes at least the field's line break.
proof fn lemma_parse_field_shrinks(pre: Seq<char>, s: Seq<char>)
    ensures
        match parse_field(pre, s) {
            Some(r) => r.1.len() < s.len(),
            None => true,
        },
{
    lemma_skip_ws(s);
    let sw = skip_ws(s);
    if pre.is_prefix_of(sw) {
        let t = sw.skip(pre.len() as int);
        lemma_first_nl(t);
    }
}

/// A record parse always consumes text.
proof fn lemma_parse_record_shrinks(s: Seq<char>)
    ensures
        match parse_record(s) {
            Some(r) => r.1.len() < s.len(),
            None => true,
        },
{
    lemma_parse_field_shrinks(path_prefix(), s);
    if let Some((_, s1)) = parse_field(path_prefix(), s) {
        lemma_parse_field_shrinks(url_prefix(), s1);
        if let Some((_, s2)) = parse_field(url_prefix(), s1) {
            lemma_parse_field_shrinks(remote_prefix(), s2);
        }
    }
}

proof fn lemma_strip_prefix_of_concat(pre: Seq<char>, t: Seq<char>)
    ensures
        strip_prefix(pre, pre + t) == Some(t),
{
    assert(pre =~= (pre + t).subrange(0, pre.len() as int));
    assert((pre + t).skip(pre.len() as int) =~= t);
}

proof fn lemma_split_line_of_concat(v: Seq<char>, rest: Seq<char>)
    requires
        !v.contains('\n'),
    ensures
        split_line(v + newline() + rest) == Some((v, rest)),
{
    let s = v + newline() + rest;
    lemma_first_nl(s);
    assert(s[v.len() as int] == '\n');
    assert(forall|k: int| 0 <= k < v.len() ==> s[k] == v[k]);
    assert(forall|k: int| 0 <= k < v.len() ==> s[k] != '\n') by {
        assert(forall|k: int| 0 <= k < v.len() ==> v[k] != '\n');
    }
    match first_nl(s) {
        None => {
            assert(false);
        },
        Some(j) => {
            assert(j == v.len());
            assert(s.take(j) =~= v);
            assert(s.skip(j + 1) =~= rest);
        },
    }
}

proof fn lemma_parse_field_of_concat(w: Seq<char>, pre: Seq<char>, v: Seq<char>, rest: Seq<char>)
    requires
        forall|k: int| 0 <= k < w.len() ==> is_ws(w[k]),
        pre.len() > 0,
        !is_ws(pre[0]),
        !v.contains('\n'),
    ensures
        parse_field(pre, w + pre + v + newline() + rest) == Some((v, rest)),
{
    let x = pre + v + newline() + rest;
    assert(w + pre + v + newline() + rest =~= w + x);
    assert(x[0] == pre[0]);
    lemma_skip_ws_concat(w, x);
    lemma_strip_prefix_of_concat(pre, v + newline() + rest);
    assert(x =~= pre + (v + newline() + rest));
    lemma_split_line_of_concat(v, rest);
}

/// One encoded record at the front of a document parses back to exactly
/// that record — escapes undone — leaving the rest untouched.
proof fn lemma_parse_record_of_encoded(p: PackView, rest: Seq<char>)
    ensures
        parse_record(encode_pack(p) + rest) == Some((p, rest)),
{
    let s3 = rest;
    let s2 = indent() + remote_prefix() + esc(p.remote_name) + newline() + s3;
    let s1 = indent() + url_prefix() + esc(p.url) + newline() + s2;
    let s0 = path_prefix() + esc(p.path) + newline() + s1;
    assert(encode_pack(p) + rest =~= s0);
    lemma_esc_no_nl(p.path);
    lemma_esc_no_nl(p.url);
    lemma_esc_no_nl(p.remote_name);
    assert(forall|k: int| 0 <= k < indent().len() ==> is_ws(indent()[k]));
    assert(s0 =~= Seq::<char>::empty() + path_prefix() + esc(p.path) + newline() + s1);
    lemma_parse_field_of_concat(Seq::empty(), path_prefix(), esc(p.path), s1);
    lemma_parse_field_of_concat(indent(), url_prefix(), esc(p.url), s2);
    lemma_parse_field_of_concat(indent(), remote_prefix(), esc(p.remote_name), s3);
    lemma_unesc_esc(p.path);
    lemma_unesc_esc(p.url);
    lemma_unesc_esc(p.remote_name);
    assert((PackView { path: p.path, url: p.url, remote_name: p.remote_name }) == p);
}

/// Round trip: decoding an encoded record sequence gives back exactly
/// that sequence, field for field and in order, for every record
/// sequence — the empty one included.
pub proof fn lemma_round_trip(rs: Seq<PackView>)
    ensures
        spec_decode(spec_encode(rs)) == Some(rs),
    decreases rs.len(),
{
    if rs.len() == 0 {
        assert(rs =~= Seq::<PackView>::empty());
    } else {
        let p = rs[0];
        let tail = spec_encode(rs.skip(1));
        let s = spec_encode(rs);
        assert(s == encode_pack(p) + tail);
        lemma_parse_record_of_encoded(p, tail);
        assert(path_prefix().len() == 8);
        assert(s.len() > 0);
        assert(tail.len() < s.len());
        lemma_round_trip(rs.skip(1));
        assert(seq![p] + rs.skip(1) =~= rs);
    }
}

/// Appending one record to a sequence appends its text to the encoding.
proof fn lemma_spec_encode_push(rs: Seq<PackView>, p: PackView)
    ensures
        spec_encode(rs.push(p)) == spec_encode(rs) + encode_pack(p),
    decreases rs.len(),
{
    if rs.len() == 0 {
        assert(rs.push(p).skip(1) =~= Seq::<PackView>::empty());
        assert(encode_pack(rs.push(p)[0]) + spec_encode(Seq::<PackView>::empty()) =~= Seq::empty()
            + encode_pack(p));
        assert(spec_encode(rs) + encode_pack(p) =~= encode_pack(p));
        assert(spec_encode(rs.push(p)) =~= encode_pack(p));
    } else {
        assert(rs.push(p).skip(1) =~= rs.skip(1).push(p));
        lemma_spec_encode_push(rs.skip(1), p);
        assert(encode_pack(rs[0]) + (spec_encode(rs.skip(1)) + encode_pack(p)) =~= (encode_pack(
            rs[0],
        ) + spec_encode(rs.skip(1))) + encode_pack(p));
    }
}

/// The manifest labels, as string literals for the executable code.
proof fn lemma_prefix_literals()
    ensures
        "- path: "@ == path_prefix(),
        "url: "@ == url_prefix(),
        "remote_name: "@ == remote_prefix(),
        "\n"@ == newline(),
        "\n  url: "@ == newline() + indent() + url_prefix(),
        "\n  remote_name: "@ == newline() + indent() + remote_prefix(),
{
    reveal_strlit("- path: ");
    reveal_strlit("url: ");
    reveal_strlit("remote_name: ");
    reveal_strlit("\n");
    reveal_strlit("\n  url: ");
    reveal_strlit("\n  remote_name: ");
    assert("- path: "@ =~= path_prefix());
    assert("url: "@ =~= url_prefix());
    assert("remote_name: "@ =~= remote_prefix());
    assert("\n"@ =~= newline());
    assert("\n  url: "@ =~= newline() + indent() + url_prefix());
    assert("\n  remote_name: "@ =~= newline() + indent() + remote_prefix());
}

/// A field value as it stands in the manifest: backslashes and line
/// breaks escaped.
fn escape_field(s: &str) -> (r: String)
    ensures
        r@ == esc(s@),
{
    let n = s.unicode_len();
    let mut out = String::new();
    let mut i: usize = 0;
    proof {
        assert(s@.take(0) =~= Seq::<char>::empty());
    }
    while i < n
        invariant
            i <= n,
            n == s@.len(),
            out@ == esc(s@.take(i as int)),
        decreases n - i,
    {
        proof {
            lemma_esc_push(s@.take(i as int), s@[i as int]);
            assert(s@.take(i as int).push(s@[i as int]) =~= s@.take(i + 1));
        }
        let c = s.get_char(i);
        if c == '\\' {
            proof {
                reveal_strlit("\\\\");
                assert("\\\\"@ =~= seq!['\\', '\\']);
            }
            out.append("\\\\");
        } else if c == '\n' {
            proof {
                reveal_strlit("\\n");
                assert("\\n"@ =~= seq!['\\', 'n']);
            }
            out.append("\\n");
        } else {
            let ch = s.substring_char(i, i + 1);
            proof {
                assert(ch@ =~= seq![s@[i as int]]);
            }
            out.append(ch);
        }
        proof {
            assert(out@ =~= esc(s@.take(i + 1)));
        }
        i = i + 1;
    }
    proof {
        assert(s@.take(n as int) =~= s@);
    }
    out
}

/// The field value an escaped manifest text denotes, or nothing on a
/// dangling or unknown escape.
fn unescape_field(s: &str) -> (r: Option<String>)
    ensures
        match r {
            Some(v) => unesc(s@) == Some(v@),
            None => unesc(s@) is None,
        },
{
    let n = s.unicode_len();
    let mut out = String::new();
    let mut i: usize = 0;
    proof {
        assert(s@.skip(0) =~= s@);
        if let Some(t) = unesc(s@) {
            assert(Seq::<char>::empty() + t =~= t);
        }
    }
    while i < n
        invariant
            i <= n,
            n == s@.len(),
            unesc(s@) == (match unesc(s@.skip(i as int)) {
                None => None::<Seq<char>>,
                Some(t) => Some(out@ + t),
            }),
        decreases n - i,
    {
        let ghost rem = s@.skip(i as int);
        proof {
            assert(rem.len() == n - i);
            assert(rem[0] == s@[i as int]);
        }
        let c = s.get_char(i);
        if c == '\\' {
            if i + 1 >= n {
                return None;
            }
            let c2 = s.get_char(i + 1);
            proof {
                assert(rem[1] == s@[i + 1]);
                assert(rem.skip(2) =~= s@.skip(i + 2));
            }
            if c2 == 'n' {
                proof {
                    reveal_strlit("\n");
                    assert("\n"@ =~= seq!['\n']);
                    if let Some(t) = unesc(s@.skip(i + 2)) {
                        assert(out@ + (seq!['\n'] + t) =~= (out@ + seq!['\n']) + t);
                    }
                }
                out.append("\n");
                i = i + 2;
            } else if c2 == '\\' {
                proof {
                    reveal_strlit("\\");
                    assert("\\"@ =~= seq!['\\']);
                    if let Some(t) = unesc(s@.skip(i + 2)) {
                        assert(out@ + (seq!['\\'] + t) =~= (out@ + seq!['\\']) + t);
                    }
                }
                out.append("\\");
                i = i + 2;
            } else {
                return None;
            }
        } else {
            proof {
                assert(rem.skip(1) =~= s@.skip(i + 1));
                if let Some(t) = unesc(s@.skip(i + 1)) {
                    assert(out@ + (seq![s@[i as int]] + t) =~= (out@ + seq![s@[i as int]]) + t);
                }
            }
            let ch = s.substring_char(i, i + 1);
            proof {
                assert(ch@ =~= seq![s@[i as int]]);
            }
            out.append(ch);
            i = i + 1;
        }
    }
    proof {
        assert(s@.skip(n as int) =~= Seq::<char>::empty());
        assert(out@ + Seq::<char>::empty() =~= out@);
    }
    Some(out)
}

/// Serialize a record sequence to manifest text. Total: every record
/// sequence encodes, whatever its fields hold.
pub fn encode(packs: &Vec<Pack>) -> (s: String)
    ensures
        s@ == spec_encode(packs_view(packs@)),
{
    let mut out = String::new();
    let mut i: usize = 0;
    while i < packs.len()
        invariant
            i <= packs.len(),
            out@ == spec_encode(packs_view(packs@).take(i as int)),
        decreases packs.len() - i,
    {
        proof {
            lemma_prefix_literals();
        }
        let ghost done = packs_view(packs@).take(i as int);
        let p = &packs[i];
        out.append("- path: ");
        let escaped_path = escape_field(p.path().as_str());
        out.append(escaped_path.as_str());
        out.append("\n  url: ");
        let escaped_url = escape_field(p.url().as_str());
        out.append(escaped_url.as_str());
        out.append("\n  remote_name: ");
        let escaped_rn = escape_field(p.remote_name().as_str());
        out.append(escaped_rn.as_str());
        out.append("\n");
        proof {
            lemma_spec_encode_push(done, packs@[i as int]@);
            assert(done.push(packs@[i as int]@) =~= packs_view(packs@).take(i + 1));
            assert(out@ =~= spec_encode(done) + encode_pack(packs@[i as int]@));
        }
        i = i + 1;
    }
    proof {
        assert(packs_view(packs@).take(packs@.len() as int) =~= packs_view(packs@));
    }
    out
}

/// A manifest document that is not a valid record sequence.
#[derive(Debug, PartialEq, Eq, Structural)]
pub struct ParseError {}

/// Index of the first line break in `s`, if any.
fn find_newline(s: &str) -> (r: Option<usize>)
    ensures
        match r {
            Some(j) => first_nl(s@) == Some(j as int),
            None => first_nl(s@) is None,
        },
{
    let n = s.unicode_len();
    let mut j: usize = 0;
    while j < n
        invariant
            j <= n,
            n == s@.len(),
            forall|k: int| 0 <= k < j ==> s@[k] != '\n',
        decreases n - j,
    {
        if s.get_char(j) == '\n' {
            proof {
                lemma_first_nl(s@);
            }
            return Some(j);
        }
        j = j + 1;
    }
    proof {
        lemma_first_nl(s@);
    }
    None
}

/// Parse one labelled field line off the front of `s`: any leading
/// whitespace, the label `pre`, then the raw field value up to the line
/// break.
fn take_field<'a>(s: &'a str, pre: &str) -> (r: Option<(String, &'a str)>)
    ensures
        match r {
            Some(v) => parse_field(pre@, s@) == Some((v.0@, v.1@)),
            None => parse_field(pre@, s@) is None,
        },
{
    let sl = s.unicode_len();
    let mut w: usize = 0;
    while w < sl && (s.get_char(w) == ' ' || s.get_char(w) == '\t')
        invariant
            w <= sl,
            sl == s@.len(),
            forall|k: int| 0 <= k < w ==> is_ws(s@[k]),
        decreases sl - w,
    {
        w = w + 1;
    }
    proof {
        lemma_skip_ws(s@);
        let j = s@.len() - skip_ws(s@).len();
        if j < w {
            assert(skip_ws(s@)[0] == s@[j]);
            assert(is_ws(s@[j]));
            assert(false);
        }
        if w < j {
            assert(is_ws(s@[w as int]));
            assert(false);
        }
        assert(skip_ws(s@) =~= s@.skip(w as int));
    }
    let u = s.substring_char(w, sl);
    proof {
        assert(u@ =~= skip_ws(s@));
    }
    let n = pre.unicode_len();
    let ul = u.unicode_len();
    if ul < n {
        proof {
            assert(!pre@.is_prefix_of(u@));
        }
        return None;
    }
    let mut i: usize = 0;
    while i < n
        invariant
            i <= n,
            n == pre@.len(),
            ul == u@.len(),
            n <= ul,
            u@ == skip_ws(s@),
            forall|k: int| 0 <= k < i ==> u@[k] == pre@[k],
        decreases n - i,
    {
        if u.get_char(i) != pre.get_char(i) {
            proof {
                assert(u@.subrange(0, n as int)[i as int] != pre@[i as int]);
                assert(!pre@.is_prefix_of(u@));
            }
            return None;
        }
        i = i + 1;
    }
    proof {
        assert(pre@ =~= u@.subrange(0, n as int));
        assert(pre@.is_prefix_of(u@));
    }
    let t = u.substring_char(n, ul);
    proof {
        assert(t@ == u@.skip(n as int));
    }
    let tl = t.unicode_len();
    match find_newline(t) {
        None => None,
        Some(j) => {
            proof {
                lemma_first_nl(t@);
            }
            let line = t.substring_char(0, j);
            let rest = t.substring_char(j + 1, tl);
            proof {
                assert(line@ == t@.take(j as int));
                assert(rest@ == t@.skip(j + 1));
            }
            Some((String::from_str(line), rest))
        },
    }
}

/// Parse one record off the front of `s`: its three labelled field
/// lines, each value unescaped.
fn take_record<'a>(s: &'a str) -> (r: Option<(Pack, &'a str)>)
    ensures
        match r {
            Some(v) => parse_record(s@) == Some((v.0@, v.1@)),
            None => parse_record(s@) is None,
        },
{
    proof {
        lemma_prefix_literals();
    }
    match take_field(s, "- path: ") {
        None => None,
        Some((rawpath, s1)) => match unescape_field(rawpath.as_str()) {
            None => None,
            Some(path) => match take_field(s1, "url: ") {
                None => None,
                Some((rawurl, s2)) => match unescape_field(rawurl.as_str()) {
                    None => None,
                    Some(url) => match take_field(s2, "remote_name: ") {
                        None => None,
                        Some((rawrn, s3)) => match unescape_field(rawrn.as_str()) {
                            None => None,
                            Some(rn) => {
                                let p = Pack::new(path, url.as_str(), rn.as_str());
                                Some((p, s3))
                            },
                        },
                    },
                },
            },
        },
    }
}

/// Deserialize manifest text. Returns the record sequence the text
/// encodes; fails — with no partial recovery — exactly when the text is
/// not a well-formed record sequence.
pub fn decode(text: &str) -> (r: Result<Vec<Pack>, ParseError>)
    ensures
        match r {
            Ok(packs) => spec_decode(text@) == Some(packs_view(packs@)),
            Err(_) => spec_decode(text@) is None,
        },
{
    let mut packs: Vec<Pack> = Vec::new();
    let mut rem: &str = text;
    proof {
        assert(packs_view(packs@) =~= Seq::<PackView>::empty());
    }
    loop
        invariant
            parse_records(text@) == (match parse_records(rem@) {
                None => None::<Seq<PackView>>,
                Some(t) => Some(packs_view(packs@) + t),
            }),
        decreases rem@.len(),
    {
        if rem.unicode_len() == 0 {
            proof {
                assert(parse_records(rem@) == Some(Seq::<PackView>::empty()));
                assert(packs_view(packs@) + Seq::<PackView>::empty() =~= packs_view(packs@));
            }
            return Ok(packs);
        }
        match take_record(rem) {
            None => {
                return Err(ParseError {});
            },
            Some((p, rest)) => {
                proof {
                    lemma_parse_record_shrinks(rem@);
                    assert(packs_view(packs@.push(p)) =~= packs_view(packs@).push(p@));
                    if let Some(t) = parse_records(rest@) {
                        assert(packs_view(packs@).push(p@) + t =~= packs_view(packs@) + (seq![p@]
                            + t));
                    }
                }
                packs.push(p);
                rem = rest;
            },
        }
    }
}

} // verus!
