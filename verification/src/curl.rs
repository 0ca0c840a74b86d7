//! Renders a captured request as a replayable, multi-line curl command. The
//! host is left as the `$RIFFY_TARGET` placeholder, headers are sorted so the
//! output is deterministic, credential headers can be redacted, and a body
//! that is too large or not UTF-8 is replaced by a trailing comment.
use vstd::prelude::*;
use vstd::utf8::{decode_utf8, valid_utf8};
use crate::order::{pairs_sorted, sort_text_pairs, text_pairs};
use crate::text::{concat, decimal, decimal_string, str_eq, utf8_text};

verus! {

broadcast use vstd::std_specs::vec::group_vec_axioms;

/// Host placeholder the dashboard replaces with the chosen upstream.
pub const TARGET_PLACEHOLDER: &'static str = "$RIFFY_TARGET";

/// Largest request body, in bytes, written inline.
pub const MAX_CURL_BODY_BYTES: usize = 65536;

/// Written in place of a redacted credential header value.
pub const REDACTED: &'static str = "<redacted>";

/// A captured request.
pub struct RequestSnapshot {
    pub method: String,
    /// Path plus query string, used verbatim in the URL.
    pub path_and_query: String,
    /// Header names (lower case) and raw values, in arrival order.
    pub headers: Vec<(String, Vec<u8>)>,
    pub body: Vec<u8>,
    /// Redact credential header values.
    pub redact_credentials: bool,
}

/// Headers whose values are redacted when asked to.
pub open spec fn is_credential_header(name: Seq<char>) -> bool {
    name == "authorization"@ || name == "cookie"@ || name == "proxy-authorization"@
        || name == "x-api-key"@ || name == "x-auth-token"@
}

/// Headers never written: curl derives `host` and `content-length` itself,
/// and hop-by-hop headers must not be replayed.
pub open spec fn is_skipped_header(name: Seq<char>) -> bool {
    name == "host"@ || name == "content-length"@ || name == "connection"@ || name == "keep-alive"@
        || name == "transfer-encoding"@ || name == "te"@ || name == "upgrade"@
}

fn credential_header(name: &str) -> (b: bool)
    ensures
        b == is_credential_header(name@),
{
    str_eq(name, "authorization") || str_eq(name, "cookie") || str_eq(name, "proxy-authorization")
        || str_eq(name, "x-api-key") || str_eq(name, "x-auth-token")
}

fn skipped_header(name: &str) -> (b: bool)
    ensures
        b == is_skipped_header(name@),
{
    str_eq(name, "host") || str_eq(name, "content-length") || str_eq(name, "connection")
        || str_eq(name, "keep-alive") || str_eq(name, "transfer-encoding") || str_eq(name, "te")
        || str_eq(name, "upgrade")
}

/// Characters a POSIX shell reads literally outside quotes.
pub open spec fn shell_safe(c: char) -> bool {
    ('a' <= c && c <= 'z') || ('A' <= c && c <= 'Z') || ('0' <= c && c <= '9') || c == '-' || c == '_' || c == '='
        || c == '/' || c == ',' || c == '.' || c == '+'
}

/// The single-quoted form of `s`, each `'` or `!` written as `'\'` + the
/// character + `'`.
pub open spec fn quote_chars(s: Seq<char>) -> Seq<char>
    decreases s.len(),
{
    if s.len() == 0 {
        Seq::empty()
    } else {
        let c = s.last();
        quote_chars(s.drop_last()) + if c == '\'' || c == '!' {
            seq!['\'', '\\', c, '\'']
        } else {
            seq![c]
        }
    }
}

/// `s` as `shell_escape::unix::escape` renders it: unchanged when it is not
/// empty and every character is shell-safe, single-quoted otherwise.
pub open spec fn shell_quoted(s: Seq<char>) -> Seq<char> {
    if s.len() > 0 && forall|i: int| 0 <= i < s.len() ==> shell_safe(#[trigger] s[i]) {
        s
    } else {
        seq!['\''] + quote_chars(s) + seq!['\'']
    }
}

/// Shell-quotes `s` with `shell_escape::unix::escape`.
#[verifier::external_body]
fn shell_quote(s: &str) -> (r: String)
    ensures
        r@ == shell_quoted(s@),
{
    shell_escape::unix::escape(std::borrow::Cow::Borrowed(s)).into_owned()
}

/// The text `String::from_utf8_lossy` makes of `bytes`.
pub uninterp spec fn lossy_text(bytes: Seq<u8>) -> Seq<char>;

/// Decodes `bytes` with `String::from_utf8_lossy`: valid UTF-8 decodes as
/// it is; invalid sequences become replacement characters.
#[verifier::external_body]
pub(crate) fn lossy_string(bytes: &[u8]) -> (r: String)
    ensures
        r@ == lossy_text(bytes@),
        valid_utf8(bytes@) ==> r@ == decode_utf8(bytes@),
{
    String::from_utf8_lossy(bytes).into_owned()
}

/// The headers that are written, by name and decoded value, in arrival order.
pub open spec fn visible_headers(hs: Seq<(Seq<char>, Seq<u8>)>) -> Seq<(Seq<char>, Seq<char>)>
    decreases hs.len(),
{
    if hs.len() == 0 {
        Seq::empty()
    } else {
        let prev = visible_headers(hs.drop_last());
        if is_skipped_header(hs.last().0) {
            prev
        } else {
            prev.push((hs.last().0, lossy_text(hs.last().1)))
        }
    }
}

pub open spec fn raw_headers(v: Seq<(String, Vec<u8>)>) -> Seq<(Seq<char>, Seq<u8>)> {
    Seq::new(v.len(), |i: int| (v[i].0@, v[i].1@))
}

/// What becomes of the body.
pub enum BodyArg {
    Empty,
    Inline(String),
    Omitted(String),
}

pub ghost enum BodyArgView {
    Empty,
    Inline(Seq<char>),
    Omitted(Seq<char>),
}

impl View for BodyArg {
    type V = BodyArgView;

    open spec fn view(&self) -> BodyArgView {
        match self {
            BodyArg::Empty => BodyArgView::Empty,
            BodyArg::Inline(t) => BodyArgView::Inline(t@),
            BodyArg::Omitted(r) => BodyArgView::Omitted(r@),
        }
    }
}

/// Nothing for an empty body; the text of a UTF-8 body of at most the
/// limit; otherwise the reason it is left out.
pub open spec fn body_part(body: Seq<u8>) -> BodyArgView {
    if body.len() == 0 {
        BodyArgView::Empty
    } else if body.len() > 65536 {
        BodyArgView::Omitted(decimal(body.len()) + " bytes > 65536 limit"@)
    } else if valid_utf8(body) {
        BodyArgView::Inline(decode_utf8(body))
    } else {
        BodyArgView::Omitted("binary"@)
    }
}

pub fn body_arg(body: &[u8]) -> (r: BodyArg)
    ensures
        r@ == body_part(body@),
{
    if body.len() == 0 {
        return BodyArg::Empty;
    }
    if body.len() > MAX_CURL_BODY_BYTES {
        let n = decimal_string(body.len() as u64);
        return BodyArg::Omitted(concat(n.as_str(), " bytes > 65536 limit"));
    }
    match utf8_text(body) {
        Some(text) => BodyArg::Inline(text),
        None => BodyArg::Omitted("binary".to_string()),
    }
}

/// The headers to write, sorted by name and then value.
pub fn sorted_headers(headers: &Vec<(String, Vec<u8>)>) -> (r: Vec<(String, String)>)
    ensures
        pairs_sorted(text_pairs(r@)),
        text_pairs(r@).to_multiset() == visible_headers(raw_headers(headers@)).to_multiset(),
{
    let ghost hs = raw_headers(headers@);
    let mut out: Vec<(String, String)> = Vec::new();
    let mut i: usize = 0;
    assert(hs.take(0) =~= Seq::<(Seq<char>, Seq<u8>)>::empty());
    assert(text_pairs(out@) =~= visible_headers(hs.take(0)));
    while i < headers.len()
        invariant
            hs == raw_headers(headers@),
            i <= headers@.len(),
            text_pairs(out@) == visible_headers(hs.take(i as int)),
        decreases headers@.len() - i,
    {
        let ghost before = text_pairs(out@);
        assert(hs.take(i as int + 1).drop_last() =~= hs.take(i as int));
        assert(hs.take(i as int + 1).last() == hs[i as int]);
        let name = &headers[i].0;
        if !skipped_header(name.as_str()) {
            let value = lossy_string(headers[i].1.as_slice());
            out.push((name.clone(), value));
            assert(text_pairs(out@) =~= before.push((hs[i as int].0, lossy_text(hs[i as int].1))));
        }
        i += 1;
    }
    assert(hs.take(headers@.len() as int) =~= hs);
    sort_text_pairs(out)
}

/// The header line of one header.
pub open spec fn header_line(name: Seq<char>, value: Seq<char>, redact: bool) -> Seq<char> {
    "  -H "@ + shell_quoted(name + ": "@ + if redact && is_credential_header(name) { "<redacted>"@ } else { value })
}

/// The lines of the command: request, URL, headers, and the inline body.
pub open spec fn curl_lines(method: Seq<char>, path_and_query: Seq<char>, hs: Seq<(Seq<char>, Seq<char>)>, redact: bool, body: BodyArgView) -> Seq<Seq<char>> {
    seq!["curl -X "@ + method, "  "@ + shell_quoted("$RIFFY_TARGET"@ + path_and_query)]
        + Seq::new(hs.len(), |i: int| header_line(hs[i].0, hs[i].1, redact))
        + match body {
        BodyArgView::Inline(t) => seq!["  --data-raw "@ + shell_quoted(t)],
        _ => Seq::empty(),
    }
}

/// `lines` joined by `sep`.
pub open spec fn joined(lines: Seq<Seq<char>>, sep: Seq<char>) -> Seq<char>
    decreases lines.len(),
{
    if lines.len() == 0 {
        Seq::empty()
    } else if lines.len() == 1 {
        lines[0]
    } else {
        joined(lines.drop_last(), sep) + sep + lines.last()
    }
}

/// The command text for the given sorted headers.
pub open spec fn curl_text(method: Seq<char>, path_and_query: Seq<char>, hs: Seq<(Seq<char>, Seq<char>)>, redact: bool, body: BodyArgView) -> Seq<char> {
    let command = joined(curl_lines(method, path_and_query, hs, redact, body), " \\\n"@);
    match body {
        BodyArgView::Omitted(reason) => command + "\n  "@ + "# body omitted ("@ + reason + ")"@,
        _ => command,
    }
}

fn join_lines(lines: &Vec<String>) -> (r: String)
    ensures
        r@ == joined(crate::order::texts(lines@), " \\\n"@),
{
    let ghost ls = crate::order::texts(lines@);
    if lines.len() == 0 {
        return String::new();
    }
    let mut out = lines[0].clone();
    let mut i: usize = 1;
    assert(ls.take(1) =~= seq![ls[0]]);
    while i < lines.len()
        invariant
            ls == crate::order::texts(lines@),
            1 <= i <= lines@.len(),
            out@ == joined(ls.take(i as int), " \\\n"@),
        decreases lines@.len() - i,
    {
        assert(ls.take(i as int + 1).drop_last() =~= ls.take(i as int));
        let with_sep = concat(out.as_str(), " \\\n");
        out = concat(with_sep.as_str(), lines[i].as_str());
        i += 1;
    }
    assert(ls.take(lines@.len() as int) =~= ls);
    out
}

/// Whether `text` renders `snap`: the command for its headers in sorted order.
pub open spec fn is_curl_of(snap: RequestSnapshot, text: Seq<char>) -> bool {
    exists|hs: Seq<(Seq<char>, Seq<char>)>|
        pairs_sorted(hs) && hs.to_multiset() == visible_headers(raw_headers(snap.headers@)).to_multiset()
        && text == #[trigger] curl_text(snap.method@, snap.path_and_query@, hs, snap.redact_credentials, body_part(snap.body@))
}

/// Renders `snap` as a multi-line curl command, with its headers sorted.
pub fn build_curl(snap: &RequestSnapshot) -> (r: String)
    ensures
        is_curl_of(*snap, r@),
{
    let mut lines: Vec<String> = Vec::new();
    lines.push(concat("curl -X ", snap.method.as_str()));
    let url = concat(TARGET_PLACEHOLDER, snap.path_and_query.as_str());
    let quoted_url = shell_quote(url.as_str());
    lines.push(concat("  ", quoted_url.as_str()));
    proof {
        reveal_strlit("$RIFFY_TARGET");
        assert(TARGET_PLACEHOLDER@ == "$RIFFY_TARGET"@);
    }
    let headers = sorted_headers(&snap.headers);
    let ghost hs = text_pairs(headers@);
    let ghost base = seq![lines@[0]@, lines@[1]@];
    assert(crate::order::texts(lines@) =~= base);
    let mut i: usize = 0;
    while i < headers.len()
        invariant
            hs == text_pairs(headers@),
            i <= headers@.len(),
            crate::order::texts(lines@) == base + Seq::new(i as nat, |j: int| header_line(hs[j].0, hs[j].1, snap.redact_credentials)),
        decreases headers@.len() - i,
    {
        let name = &headers[i].0;
        let value = if snap.redact_credentials && credential_header(name.as_str()) {
            proof {
                reveal_strlit("<redacted>");
            }
            REDACTED.to_string()
        } else {
            headers[i].1.clone()
        };
        let with_colon = concat(name.as_str(), ": ");
        let text = concat(with_colon.as_str(), value.as_str());
        let quoted = shell_quote(text.as_str());
        let ghost before = crate::order::texts(lines@);
        lines.push(concat("  -H ", quoted.as_str()));
        proof {
            assert(REDACTED@ == "<redacted>"@) by {
                reveal_strlit("<redacted>");
            }
            assert(crate::order::texts(lines@) =~= before.push(header_line(hs[i as int].0, hs[i as int].1, snap.redact_credentials)));
            assert(base + Seq::new(i as nat + 1, |j: int| header_line(hs[j].0, hs[j].1, snap.redact_credentials))
                =~= (base + Seq::new(i as nat, |j: int| header_line(hs[j].0, hs[j].1, snap.redact_credentials)))
                    .push(header_line(hs[i as int].0, hs[i as int].1, snap.redact_credentials)));
        }
        i += 1;
    }
    let body = body_arg(snap.body.as_slice());
    let ghost header_part = crate::order::texts(lines@);
    let mut trailer: Option<String> = None;
    match &body {
        BodyArg::Inline(text) => {
            let quoted = shell_quote(text.as_str());
            lines.push(concat("  --data-raw ", quoted.as_str()));
            assert(crate::order::texts(lines@) =~= header_part.push("  --data-raw "@ + shell_quoted(text@)));
        },
        BodyArg::Omitted(reason) => {
            let open = concat("# body omitted (", reason.as_str());
            trailer = Some(concat(open.as_str(), ")"));
            assert(crate::order::texts(lines@) =~= header_part);
        },
        BodyArg::Empty => {
            assert(crate::order::texts(lines@) =~= header_part);
        },
    }
    let command = join_lines(&lines);
    let r = match trailer {
        Some(comment) => {
            let with_break = concat(command.as_str(), "\n  ");
            concat(with_break.as_str(), comment.as_str())
        },
        None => command,
    };
    proof {
        let lines_spec = curl_lines(snap.method@, snap.path_and_query@, hs, snap.redact_credentials, body@);
        assert(crate::order::texts(lines@) =~= lines_spec);
        assert(r@ =~= curl_text(snap.method@, snap.path_and_query@, hs, snap.redact_credentials, body_part(snap.body@)));
    }
    r
}

/// The headers written of `a + b` are those of `a`, then those of `b`.
proof fn lemma_visible_concat(a: Seq<(Seq<char>, Seq<u8>)>, b: Seq<(Seq<char>, Seq<u8>)>)
    ensures
        visible_headers(a + b) == visible_headers(a) + visible_headers(b),
    decreases b.len(),
{
    if b.len() == 0 {
        assert(a + b =~= a);
        assert(visible_headers(a) + visible_headers(b) =~= visible_headers(a));
    } else {
        lemma_visible_concat(a, b.drop_last());
        assert((a + b).drop_last() =~= a + b.drop_last());
        assert((a + b).last() == b.last());
        let pre = visible_headers(a) + visible_headers(b.drop_last());
        if is_skipped_header(b.last().0) {
            assert(visible_headers(a + b) == pre);
        } else {
            let item = (b.last().0, lossy_text(b.last().1));
            assert(visible_headers(a + b) == pre.push(item));
            assert(visible_headers(a) + visible_headers(b) =~= pre.push(item));
        }
    }
}

/// Which headers are written, counted with repeats, does not depend on the
/// order the headers arrived in.
proof fn lemma_visible_permutation(x: Seq<(Seq<char>, Seq<u8>)>, y: Seq<(Seq<char>, Seq<u8>)>)
    requires
        x.to_multiset() == y.to_multiset(),
    ensures
        visible_headers(x).to_multiset() == visible_headers(y).to_multiset(),
    decreases x.len(),
{
    broadcast use vstd::seq_lib::group_to_multiset_ensures;
    vstd::seq_lib::to_multiset_len(x);
    vstd::seq_lib::to_multiset_len(y);
    if x.len() == 0 {
        assert(y =~= x);
    } else {
        let e = x.last();
        let x1 = x.drop_last();
        assert(x =~= x1.push(e));
        assert(x.to_multiset() == x1.to_multiset().insert(e));
        assert(x.to_multiset().count(e) > 0);
        assert(y.contains(e));
        let k = choose|k: int| 0 <= k < y.len() && y[k] == e;
        let y1 = y.remove(k);
        assert(y1.to_multiset() == y.to_multiset().remove(e));
        assert(x1.to_multiset() =~= x.to_multiset().remove(e));
        lemma_visible_permutation(x1, y1);
        let pre = y.take(k);
        let post = y.skip(k + 1);
        assert(y1 =~= pre + post);
        assert(y =~= pre + seq![e] + post);
        lemma_visible_concat(pre, post);
        lemma_visible_concat(pre + seq![e], post);
        lemma_visible_concat(pre, seq![e]);
        lemma_visible_concat(x1, seq![e]);
        assert(x1 + seq![e] =~= x);
        let v = visible_headers(seq![e]);
        assert(seq![e].drop_last() =~= Seq::<(Seq<char>, Seq<u8>)>::empty());
        vstd::seq_lib::lemma_multiset_commutative(visible_headers(pre) + v, visible_headers(post));
        vstd::seq_lib::lemma_multiset_commutative(visible_headers(pre), v);
        vstd::seq_lib::lemma_multiset_commutative(visible_headers(pre), visible_headers(post));
        vstd::seq_lib::lemma_multiset_commutative(visible_headers(x1), v);
        assert(visible_headers(y).to_multiset() =~= visible_headers(y1).to_multiset().add(v.to_multiset()));
    }
}

/// The command is determined by the request: a request renders to one text
/// only, and two requests that differ only in the order their headers
/// arrived in render to the same text.
pub proof fn lemma_curl_is_deterministic(s1: RequestSnapshot, s2: RequestSnapshot, t1: Seq<char>, t2: Seq<char>)
    requires
        is_curl_of(s1, t1),
        is_curl_of(s2, t2),
        s1.method@ == s2.method@,
        s1.path_and_query@ == s2.path_and_query@,
        s1.body@ == s2.body@,
        s1.redact_credentials == s2.redact_credentials,
        raw_headers(s1.headers@).to_multiset() == raw_headers(s2.headers@).to_multiset(),
    ensures
        t1 == t2,
{
    let h1 = choose|hs: Seq<(Seq<char>, Seq<char>)>|
        pairs_sorted(hs) && hs.to_multiset() == visible_headers(raw_headers(s1.headers@)).to_multiset()
        && t1 == #[trigger] curl_text(s1.method@, s1.path_and_query@, hs, s1.redact_credentials, body_part(s1.body@));
    let h2 = choose|hs: Seq<(Seq<char>, Seq<char>)>|
        pairs_sorted(hs) && hs.to_multiset() == visible_headers(raw_headers(s2.headers@)).to_multiset()
        && t2 == #[trigger] curl_text(s2.method@, s2.path_and_query@, hs, s2.redact_credentials, body_part(s2.body@));
    lemma_visible_permutation(raw_headers(s1.headers@), raw_headers(s2.headers@));
    crate::order::lemma_sorted_pairs_unique(h1, h2);
}


/// Whether `part` occurs in `text`.
pub open spec fn occurs_in(part: Seq<char>, text: Seq<char>) -> bool {
    exists|k: int| 0 <= k && k + part.len() <= text.len() && #[trigger] text.subrange(k, k + part.len()) == part
}

/// Where line `m` stands in `lines` joined by `sep`.
proof fn lemma_joined_holds_line(lines: Seq<Seq<char>>, sep: Seq<char>, m: int) -> (k: int)
    requires
        0 <= m < lines.len(),
    ensures
        0 <= k,
        k + lines[m].len() <= joined(lines, sep).len(),
        joined(lines, sep).subrange(k, k + lines[m].len()) == lines[m],
    decreases lines.len(),
{
    if lines.len() == 1 {
        assert(joined(lines, sep).subrange(0, lines[0].len() as int) =~= lines[0]);
        0
    } else {
        let front = joined(lines.drop_last(), sep);
        let whole = joined(lines, sep);
        assert(whole == front + sep + lines.last());
        if m == lines.len() - 1 {
            let k: int = (front.len() + sep.len()) as int;
            assert(whole.subrange(k, k + lines[m].len()) =~= lines[m]);
            k
        } else {
            let k = lemma_joined_holds_line(lines.drop_last(), sep, m);
            assert(lines.drop_last()[m] == lines[m]);
            assert(whole.subrange(k, k + lines[m].len()) =~= front.subrange(k, k + lines[m].len()));
            k
        }
    }
}

/// The written headers include every header that is not skipped.
proof fn lemma_visible_holds(hs: Seq<(Seq<char>, Seq<u8>)>, i: int)
    requires
        0 <= i < hs.len(),
        !is_skipped_header(hs[i].0),
    ensures
        visible_headers(hs).contains((hs[i].0, lossy_text(hs[i].1))),
    decreases hs.len(),
{
    let prev = visible_headers(hs.drop_last());
    if i == hs.len() - 1 {
        assert(visible_headers(hs) == prev.push((hs[i].0, lossy_text(hs[i].1))));
        assert(visible_headers(hs)[prev.len() as int] == (hs[i].0, lossy_text(hs[i].1)));
    } else {
        assert(hs.drop_last()[i] == hs[i]);
        lemma_visible_holds(hs.drop_last(), i);
        let j = choose|j: int| 0 <= j < prev.len() && prev[j] == (hs[i].0, lossy_text(hs[i].1));
        assert(visible_headers(hs)[j] == prev[j]);
    }
}

/// Every request header other than `host`, `content-length` and the
/// hop-by-hop headers (`connection`, `keep-alive`, `transfer-encoding`, `te`,
/// `upgrade`) is written in the command as a `-H` line, shell-quoted, with
/// its value decoded as text, or with `<redacted>` for a credential header
/// (`authorization`, `cookie`, `proxy-authorization`, `x-api-key`,
/// `x-auth-token`) when redaction is asked for.
pub proof fn lemma_curl_writes_every_replayable_header(snap: RequestSnapshot, text: Seq<char>, i: int)
    requires
        is_curl_of(snap, text),
        0 <= i < snap.headers@.len(),
        snap.headers@[i].0@ != "host"@,
        snap.headers@[i].0@ != "content-length"@,
        snap.headers@[i].0@ != "connection"@,
        snap.headers@[i].0@ != "keep-alive"@,
        snap.headers@[i].0@ != "transfer-encoding"@,
        snap.headers@[i].0@ != "te"@,
        snap.headers@[i].0@ != "upgrade"@,
    ensures
        ({
            let name = snap.headers@[i].0@;
            let credential = name == "authorization"@ || name == "cookie"@ || name == "proxy-authorization"@
                || name == "x-api-key"@ || name == "x-auth-token"@;
            let shown = if snap.redact_credentials && credential { "<redacted>"@ } else { lossy_text(snap.headers@[i].1@) };
            occurs_in("  -H "@ + shell_quoted(name + ": "@ + shown), text)
        }),
{
    broadcast use vstd::seq_lib::group_to_multiset_ensures;
    let raw = raw_headers(snap.headers@);
    let name = snap.headers@[i].0@;
    let value = lossy_text(snap.headers@[i].1@);
    assert(raw[i] == (name, snap.headers@[i].1@));
    lemma_visible_holds(raw, i);
    let hs = choose|hs: Seq<(Seq<char>, Seq<char>)>|
        pairs_sorted(hs) && hs.to_multiset() == visible_headers(raw).to_multiset()
        && text == #[trigger] curl_text(snap.method@, snap.path_and_query@, hs, snap.redact_credentials, body_part(snap.body@));
    assert(visible_headers(raw).to_multiset().count((name, value)) > 0);
    assert(hs.contains((name, value)));
    let j = choose|j: int| 0 <= j < hs.len() && hs[j] == (name, value);
    let lines = curl_lines(snap.method@, snap.path_and_query@, hs, snap.redact_credentials, body_part(snap.body@));
    let line = header_line(name, value, snap.redact_credentials);
    assert(lines[2 + j] == line);
    let command = joined(lines, " \\\n"@);
    let k = lemma_joined_holds_line(lines, " \\\n"@, 2 + j);
    match body_part(snap.body@) {
        BodyArgView::Omitted(reason) => {
            let suffix = "\n  "@ + "# body omitted ("@ + reason + ")"@;
            assert(text =~= command + suffix);
            assert(text.subrange(k, k + line.len()) =~= command.subrange(k, k + line.len()));
        },
        _ => {
            assert(text == command);
        },
    }
    assert(text.subrange(k, k + line.len()) == line);
}

} // verus!
