use vstd::prelude::*;
use std::collections::HashSet;
use vstd::utf8::*;
use crate::numbers::{decimal, push_decimal, decimal_is_digits};
use crate::text::{matches_at, match_from, lemma_match_from, find_match, push_str, push_ascii, bytes, sbytes, byte_from, lemma_byte_from, find_byte_or_end, substr, to_owned_string, lemma_ascii_boundaries, str_eq};

verus! {

broadcast use {vstd::std_specs::hash::group_hash_axioms, vstd::utf8::encode_utf8_valid_utf8};

/// One diagnostic that clangd published: its 0-based line, its code
/// (such as `-Wunused-variable` or `unused-includes`) and its message.
#[derive(Debug, Clone)]
pub struct Diagnostic {
    pub line: usize,
    pub code: String,
    pub message: String,
}

/// The bytes strictly between the first two `'` of `b`, if it has two.
pub open spec fn quoted(b: Seq<u8>) -> Option<(int, int)> {
    let q1 = byte_from(b, 0x27, 0);
    if q1 >= b.len() {
        None
    } else {
        let q2 = byte_from(b, 0x27, q1 + 1);
        if q2 >= b.len() {
            None
        } else {
            Some((q1 + 1, q2))
        }
    }
}

/// The name a diagnostic message quotes, such as `foo` in
/// "Variable 'foo' set but not used".
pub fn quoted_name(message: &str) -> (r: Option<String>)
    ensures
        match quoted(bytes(message)) {
            None => r is None,
            Some(span) => r matches Some(s) && sbytes(&s) == bytes(message).subrange(span.0, span.1),
        },
{
    let b = message.as_bytes();
    proof {
        lemma_byte_from(b@, 0x27, 0);
    }
    let q1 = find_byte_or_end(b, 0x27, 0);
    if q1 >= b.len() {
        return None;
    }
    proof {
        lemma_byte_from(b@, 0x27, q1 + 1);
    }
    let q2 = find_byte_or_end(b, 0x27, q1 + 1);
    if q2 >= b.len() {
        return None;
    }
    proof {
        lemma_ascii_boundaries(b@, q1 as int);
        lemma_ascii_boundaries(b@, q2 as int);
    }
    Some(to_owned_string(substr(message, q1 + 1, q2)))
}

/// The names quoted by the diagnostics among `diags[..n]` whose code is
/// `code`, in order.
pub open spec fn quoted_names(diags: Seq<Diagnostic>, code: Seq<char>, n: int) -> Seq<Seq<u8>>
    decreases n,
{
    if n <= 0 {
        seq![]
    } else {
        let d = diags[n - 1];
        quoted_names(diags, code, n - 1) + if d.code@ == code && quoted(sbytes(&d.message)) is Some {
            let span = quoted(sbytes(&d.message))->0;
            seq![sbytes(&d.message).subrange(span.0, span.1)]
        } else {
            seq![]
        }
    }
}

/// The names quoted by the diagnostics whose code is `code`, in order.
pub fn names_with_code(diags: &[Diagnostic], code: &str) -> (r: Vec<String>)
    ensures
        r@.len() == quoted_names(diags@, code@, diags@.len() as int).len(),
        forall|k: int| 0 <= k < r@.len() ==> sbytes(&r@[k]) == quoted_names(diags@, code@, diags@.len() as int)[k],
{
    let mut r: Vec<String> = Vec::new();
    let mut i: usize = 0;
    while i < diags.len()
        invariant
            i <= diags@.len(),
            r@.len() == quoted_names(diags@, code@, i as int).len(),
            forall|k: int| 0 <= k < r@.len() ==> sbytes(&r@[k]) == quoted_names(diags@, code@, i as int)[k],
        decreases diags.len() - i,
    {
        let ghost prev = quoted_names(diags@, code@, i as int);
        if str_eq(diags[i].code.as_str(), code) {
            match quoted_name(diags[i].message.as_str()) {
                Some(name) => r.push(name),
                None => {},
            }
        }
        proof {
            let next = quoted_names(diags@, code@, i + 1);
            assert forall|k: int| 0 <= k < r@.len() implies sbytes(&r@[k]) == next[k] by {
                if k < prev.len() {
                    assert(next[k] == prev[k]);
                }
            }
        }
        i += 1;
    }
    r
}

/// The lines of the diagnostics whose code is `code`.
pub open spec fn lines_of_code(diags: Seq<Diagnostic>, code: Seq<char>) -> Set<usize> {
    Set::new(|l: usize| exists|i: int| 0 <= i < diags.len() && (#[trigger] diags[i]).code@ == code && diags[i].line == l)
}

/// The set of 0-based lines on which a diagnostic with code `code` was
/// reported.
pub fn lines_with_code(diagnostics: &[Diagnostic], code: &str) -> (r: HashSet<usize>)
    ensures
        r@ == lines_of_code(diagnostics@, code@),
{
    let mut r: HashSet<usize> = HashSet::new();
    let mut i: usize = 0;
    while i < diagnostics.len()
        invariant
            i <= diagnostics@.len(),
            r@ == lines_of_code(diagnostics@.subrange(0, i as int), code@),
        decreases diagnostics.len() - i,
    {
        let ghost prev = diagnostics@.subrange(0, i as int);
        let ghost next = diagnostics@.subrange(0, i + 1);
        if str_eq(diagnostics[i].code.as_str(), code) {
            r.insert(diagnostics[i].line);
        }
        proof {
            assert(next[i as int] == diagnostics@[i as int]);
            assert forall|l: usize| r@.contains(l) == lines_of_code(next, code@).contains(l) by {
                if diagnostics@[i as int].code@ == code@ && l == diagnostics@[i as int].line {
                    assert(next[i as int].code@ == code@ && next[i as int].line == l);
                }
                if lines_of_code(next, code@).contains(l) {
                    let k = choose|k: int| 0 <= k < next.len() && (#[trigger] next[k]).code@ == code@ && next[k].line == l;
                    if k < i {
                        assert(prev[k] == next[k]);
                    }
                }
                if lines_of_code(prev, code@).contains(l) {
                    let k = choose|k: int| 0 <= k < prev.len() && (#[trigger] prev[k]).code@ == code@ && prev[k].line == l;
                    assert(next[k] == prev[k]);
                }
            }
            assert(r@ =~= lines_of_code(next, code@));
        }
        i += 1;
    }
    proof {
        assert(diagnostics@.subrange(0, i as int) =~= diagnostics@);
    }
    r
}

/// The command clangd is told compiles the file: `cc`, the flags, then
/// `-c` and the file.
pub open spec fn compile_command_of(flags: Seq<&str>, path: Seq<char>) -> Seq<char>
    decreases flags.len(),
{
    if flags.len() == 0 {
        "cc"@
    } else {
        compile_command_of(flags.drop_last(), path) + " "@ + flags.last()@
    }
}

/// `cc`, each flag after a space, then ` -c ` and the file.
pub fn compile_command(extra_flags: &[&str], source_path: &str) -> (r: String)
    ensures
        r@ == compile_command_of(extra_flags@, source_path@) + " -c "@ + source_path@,
{
    let cc = "cc";
    let space = " ";
    let dash_c = " -c ";
    proof {
        reveal_strlit("cc");
        reveal_strlit(" ");
        reveal_strlit(" -c ");
        assert(is_ascii_chars(cc@));
    }
    let mut cmd = String::new();
    push_ascii(&mut cmd, cc);
    proof {
        is_ascii_chars_encode_utf8(cc@);
        encode_utf8_decode_utf8(cmd@);
        encode_utf8_decode_utf8(cc@);
        assert(cmd@ == decode_utf8(sbytes(&cmd)));
        assert(cmd@ == cc@);
        assert(extra_flags@.subrange(0, 0) =~= Seq::<&str>::empty());
    }
    let mut i: usize = 0;
    while i < extra_flags.len()
        invariant
            i <= extra_flags@.len(),
            cmd@ == compile_command_of(extra_flags@.subrange(0, i as int), source_path@),
            space@ == " "@,
        decreases extra_flags.len() - i,
    {
        push_str(&mut cmd, space);
        push_str(&mut cmd, extra_flags[i]);
        proof {
            let next = extra_flags@.subrange(0, i + 1);
            assert(next.drop_last() =~= extra_flags@.subrange(0, i as int));
            assert(next.last() == extra_flags@[i as int]);
        }
        i += 1;
    }
    proof {
        assert(extra_flags@.subrange(0, i as int) =~= extra_flags@);
    }
    push_str(&mut cmd, dash_c);
    push_str(&mut cmd, source_path);
    cmd
}

/// The header that starts every message clangd reads and writes.
pub open spec fn length_header() -> Seq<u8> {
    encode_utf8("Content-Length: "@)
}

/// The blank line that ends a header.
pub open spec fn header_end() -> Seq<u8> {
    seq![0x0du8, 0x0a, 0x0d, 0x0a]
}

/// A message framed as the language server protocol frames it: its length
/// in bytes, a blank line, and the content.
pub open spec fn framed(content: Seq<u8>) -> Seq<u8> {
    length_header() + decimal(content.len()) + header_end() + content
}

/// Frames `content` for clangd (see `framed`).
pub fn lsp_frame(content: &str) -> (r: String)
    ensures
        sbytes(&r) == framed(bytes(content)),
{
    let head = "Content-Length: ";
    let blank = "\r\n\r\n";
    proof {
        reveal_strlit("\r\n\r\n");
        assert(is_ascii_chars(blank@));
        is_ascii_chars_encode_utf8(blank@);
        assert(bytes(blank) =~= header_end());
    }
    let mut out = String::new();
    push_str(&mut out, head);
    push_decimal(&mut out, content.as_bytes().len() as u64);
    push_str(&mut out, blank);
    push_str(&mut out, content);
    proof {
        assert(sbytes(&out) =~= framed(bytes(content)));
    }
    out
}

/// The stretches of `b` between one header and the next (or the end),
/// from `from`, which follows a header.
pub open spec fn parts_from(b: Seq<u8>, from: int) -> Seq<(int, int)>
    decreases b.len() + 1 - from,
{
    if from < 0 || from > b.len() {
        seq![]
    } else {
        let m = match_from(b, length_header(), from);
        if m > b.len() {
            seq![(from, b.len() as int)]
        } else {
            proof {
                lemma_match_from(b, length_header(), from);
                assert(length_header().len() > 0) by {
                    reveal_strlit("Content-Length: ");
                }
            }
            seq![(from, m)] + parts_from(b, m + length_header().len())
        }
    }
}

/// The stretches that follow each header in clangd's output (what comes
/// before the first header is dropped).
pub open spec fn lsp_parts(b: Seq<u8>) -> Seq<(int, int)> {
    let m = match_from(b, length_header(), 0);
    if m > b.len() {
        seq![]
    } else {
        parts_from(b, m + length_header().len())
    }
}

/// The body of a part: what follows the first blank line in it.
pub open spec fn part_body(b: Seq<u8>, part: (int, int)) -> Option<(int, int)> {
    let h = match_from(b.subrange(part.0, part.1), header_end(), 0);
    if h > part.1 - part.0 {
        None
    } else {
        Some((part.0 + h + 4, part.1))
    }
}

/// The bodies of the parts `ps[..n]` that have one.
pub open spec fn bodies(b: Seq<u8>, ps: Seq<(int, int)>, n: int) -> Seq<(int, int)>
    decreases n,
{
    if n <= 0 {
        seq![]
    } else {
        bodies(b, ps, n - 1) + match part_body(b, ps[n - 1]) {
            Some(r) => seq![r],
            None => seq![],
        }
    }
}

/// The bodies of the messages in clangd's output (see `lsp_parts` and
/// `part_body`), in order.
pub fn lsp_bodies(stdout: &str) -> (r: Vec<&str>)
    ensures
        r@.len() == bodies(bytes(stdout), lsp_parts(bytes(stdout)), lsp_parts(bytes(stdout)).len() as int).len(),
        forall|k: int| 0 <= k < r@.len() ==> {
            let span = bodies(bytes(stdout), lsp_parts(bytes(stdout)), lsp_parts(bytes(stdout)).len() as int)[k];
            bytes(#[trigger] r@[k]) == bytes(stdout).subrange(span.0, span.1)
        },
{
    let b = stdout.as_bytes();
    let n = b.len();
    let head = "Content-Length: ";
    let blank = "\r\n\r\n";
    let hb = head.as_bytes();
    let bb = blank.as_bytes();
    proof {
        reveal_strlit("Content-Length: ");
        reveal_strlit("\r\n\r\n");
        assert(is_ascii_chars(head@));
        assert(is_ascii_chars(blank@));
        is_ascii_chars_encode_utf8(head@);
        is_ascii_chars_encode_utf8(blank@);
        assert(bb@ =~= header_end());
        assert(hb@ == length_header());
        assert(hb@.len() == 16);
        assert(hb@[15] == 0x20u8);
        assert(hb@[0] == 0x43u8);
        lemma_match_from(b@, hb@, 0);
    }
    let mut r: Vec<&str> = Vec::new();
    let first = match find_match(b, hb, 0) {
        Some(m) => m,
        None => {
            return r;
        },
    };
    let ghost ps = lsp_parts(b@);
    let ghost mut k: int = 0;
    let mut from: usize = first + hb.len();
    proof {
        assert(b@.subrange(first as int, first + 16) == hb@);
        assert(b@[first + 15] == hb@[15]);
        lemma_ascii_boundaries(b@, first + 15);
        assert(ps == parts_from(b@, from as int));
        assert(ps.subrange(0, ps.len() as int) =~= ps);
    }
    let mut done = false;
    while !done
        invariant
            b@ == bytes(stdout),
            n == b@.len(),
            hb@ == length_header(),
            hb@.len() == 16,
            hb@[0] == 0x43u8,
            hb@[15] == 0x20u8,
            bb@ == header_end(),
            ps == lsp_parts(b@),
            0 <= k <= ps.len(),
            from <= n,
            is_char_boundary(b@, from as int),
            !done ==> parts_from(b@, from as int) == ps.subrange(k, ps.len() as int),
            done ==> k == ps.len(),
            r@.len() == bodies(b@, ps, k).len(),
            forall|j: int| 0 <= j < r@.len() ==> {
                let span = bodies(b@, ps, k)[j];
                bytes(#[trigger] r@[j]) == b@.subrange(span.0, span.1)
            },
        decreases n - from + if done { 0int } else { 1int },
    {
        proof {
            lemma_match_from(b@, hb@, from as int);
        }
        let (end, next) = match find_match(b, hb, from) {
            Some(m) => {
                proof {
                    assert(b@.subrange(m as int, m + 16) == hb@);
                    assert(b@[m as int] == hb@[0]);
                    assert(b@[m + 15] == hb@[15]);
                    lemma_ascii_boundaries(b@, m as int);
                    lemma_ascii_boundaries(b@, m + 15);
                }
                (m, Some(m + hb.len()))
            },
            None => {
                proof {
                    is_char_boundary_start_end_of_seq(b@);
                }
                (n, None)
            },
        };
        let ghost part = (from as int, end as int);
        proof {
            assert(parts_from(b@, from as int)[0] == part);
            assert(parts_from(b@, from as int).len() > 0);
            assert(k < ps.len());
            assert(ps.subrange(k, ps.len() as int)[0] == ps[k]);
            assert(ps[k] == part);
        }
        let text = substr(stdout, from, end);
        let tb = text.as_bytes();
        let ghost before = bodies(b@, ps, k);
        proof {
            lemma_match_from(tb@, bb@, 0);
        }
        match find_match(tb, bb, 0) {
            Some(h) => {
                proof {
                    assert(tb@.subrange(h as int, h + 4) == bb@);
                    assert(tb@[h + 3] == bb@[3]);
                    lemma_ascii_boundaries(tb@, h + 3);
                    is_char_boundary_start_end_of_seq(tb@);
                }
                r.push(substr(text, h + 4, tb.len()));
                proof {
                    assert(part_body(b@, part) == Some((from + h + 4, end as int)));
                    assert(b@.subrange(from as int, end as int).subrange(h + 4, tb@.len() as int) =~= b@.subrange(from + h + 4, end as int));
                }
            },
            None => {},
        }
        proof {
            let nb = bodies(b@, ps, k + 1);
            assert forall|j: int| 0 <= j < r@.len() implies {
                let span = nb[j];
                bytes(#[trigger] r@[j]) == b@.subrange(span.0, span.1)
            } by {
                if j < before.len() {
                    assert(nb[j] == before[j]);
                }
            }
            assert(ps.subrange(k + 1, ps.len() as int) =~= ps.subrange(k, ps.len() as int).drop_first());
            k = k + 1;
        }
        match next {
            Some(nf) => {
                from = nf;
            },
            None => {
                proof {
                    assert(ps.subrange(k - 1, ps.len() as int).len() == 1);
                }
                done = true;
            },
        }
    }
    r
}

/// A diagnostic as clangd's message gives it, each field present or not.
#[derive(Debug)]
pub struct LspDiagnostic {
    pub line: Option<u64>,
    pub code: Option<String>,
    pub message: Option<String>,
}

/// A message from clangd: its method and the diagnostics it carries, if any.
#[derive(Debug)]
pub struct LspMessage {
    pub method: Option<String>,
    pub diagnostics: Option<Vec<LspDiagnostic>>,
}

/// A text, or the empty one.
pub open spec fn text_or_empty(o: Option<String>) -> Seq<char> {
    match o {
        Some(s) => s@,
        None => seq![],
    }
}

/// The diagnostic an entry gives, when it has a line.
pub open spec fn diag_of(d: LspDiagnostic) -> Seq<(usize, Seq<char>, Seq<char>)> {
    match d.line {
        Some(l) => seq![(l as usize, text_or_empty(d.code), text_or_empty(d.message))],
        None => seq![],
    }
}

/// The diagnostics of the entries `ds[..n]`.
pub open spec fn diags_of(ds: Seq<LspDiagnostic>, n: int) -> Seq<(usize, Seq<char>, Seq<char>)>
    decreases n,
{
    if n <= 0 {
        seq![]
    } else {
        diags_of(ds, n - 1) + diag_of(ds[n - 1])
    }
}

/// The diagnostics a message publishes: those of a
/// `textDocument/publishDiagnostics` message, none of another.
pub open spec fn published(m: LspMessage) -> Seq<(usize, Seq<char>, Seq<char>)> {
    if m.method matches Some(s) && s@ == "textDocument/publishDiagnostics"@ && m.diagnostics is Some {
        diags_of(m.diagnostics->0@, m.diagnostics->0@.len() as int)
    } else {
        seq![]
    }
}

/// The diagnostics the messages `ms[..n]` publish, in order.
pub open spec fn all_published(ms: Seq<LspMessage>, n: int) -> Seq<(usize, Seq<char>, Seq<char>)>
    decreases n,
{
    if n <= 0 {
        seq![]
    } else {
        all_published(ms, n - 1) + published(ms[n - 1])
    }
}

/// A diagnostic's line, code and message.
pub open spec fn diag_view(d: Diagnostic) -> (usize, Seq<char>, Seq<char>) {
    (d.line, d.code@, d.message@)
}

fn text_or_default(o: &Option<String>) -> (r: String)
    ensures
        r@ == text_or_empty(*o),
{
    match o {
        Some(s) => s.clone(),
        None => String::new(),
    }
}

/// The diagnostics clangd's messages publish (see `all_published`).
pub fn diagnostics_from_messages(messages: &[LspMessage]) -> (r: Vec<Diagnostic>)
    ensures
        r@.map_values(|d: Diagnostic| diag_view(d)) == all_published(messages@, messages@.len() as int),
{
    let method = "textDocument/publishDiagnostics";
    let mut r: Vec<Diagnostic> = Vec::new();
    let mut i: usize = 0;
    proof {
        assert(r@.map_values(|d: Diagnostic| diag_view(d)) =~= all_published(messages@, 0));
    }
    while i < messages.len()
        invariant
            i <= messages@.len(),
            method@ == "textDocument/publishDiagnostics"@,
            r@.map_values(|d: Diagnostic| diag_view(d)) == all_published(messages@, i as int),
        decreases messages.len() - i,
    {
        let m = &messages[i];
        let ghost base = r@.map_values(|d: Diagnostic| diag_view(d));
        let publishes = match &m.method {
            Some(s) => str_eq(s.as_str(), method),
            None => false,
        };
        if publishes {
            match &m.diagnostics {
                Some(ds) => {
                    let mut j: usize = 0;
                    while j < ds.len()
                        invariant
                            j <= ds@.len(),
                            r@.map_values(|d: Diagnostic| diag_view(d)) == base + diags_of(ds@, j as int),
                        decreases ds.len() - j,
                    {
                        let ghost prev = r@;
                        match ds[j].line {
                            Some(l) => {
                                let d = Diagnostic {
                                    line: l as usize,
                                    code: text_or_default(&ds[j].code),
                                    message: text_or_default(&ds[j].message),
                                };
                                r.push(d);
                            },
                            None => {},
                        }
                        proof {
                            assert(r@.map_values(|d: Diagnostic| diag_view(d)) =~= prev.map_values(
                                |d: Diagnostic| diag_view(d),
                            ) + diag_of(ds@[j as int]));
                        }
                        j += 1;
                    }
                },
                None => {},
            }
        }
        proof {
            assert(r@.map_values(|d: Diagnostic| diag_view(d)) =~= all_published(messages@, i + 1));
        }
        i += 1;
    }
    r
}

/// `p` occurs nowhere in `t`.
pub open spec fn occurs_nowhere(t: Seq<u8>, p: Seq<u8>) -> bool {
    forall|i: int| !matches_at(t, p, i)
}

proof fn lemma_header_bytes()
    ensures
        length_header() == seq![0x43u8, 0x6f, 0x6e, 0x74, 0x65, 0x6e, 0x74, 0x2d, 0x4c, 0x65, 0x6e, 0x67, 0x74, 0x68, 0x3a, 0x20],
{
    let h = "Content-Length: ";
    reveal_strlit("Content-Length: ");
    assert(is_ascii_chars(h@));
    is_ascii_chars_encode_utf8(h@);
    assert(length_header() =~= seq![0x43u8, 0x6f, 0x6e, 0x74, 0x65, 0x6e, 0x74, 0x2d, 0x4c, 0x65, 0x6e, 0x67, 0x74, 0x68, 0x3a, 0x20]);
}

/// A message framed for clangd is read back whole: its output, made of
/// that one framed message, has one body, and the body is the content
/// (which must not itself hold a header).
pub proof fn framed_message_read_back(content: Seq<u8>)
    requires
        occurs_nowhere(content, length_header()),
    ensures
        ({
            let b = framed(content);
            let ps = lsp_parts(b);
            let bs = bodies(b, ps, ps.len() as int);
            &&& bs.len() == 1
            &&& b.subrange(bs[0].0, bs[0].1) == content
        }),
{
    lemma_header_bytes();
    let h = length_header();
    let d = decimal(content.len());
    decimal_is_digits(content.len());
    let e = header_end();
    let b = framed(content);
    let off: int = 16 + d.len() as int + 4;
    assert(b == h + d + e + content);
    assert(b.len() == off + content.len());
    // The header occurs at the start, and nowhere else.
    assert(b.subrange(0, 16) =~= h);
    assert(matches_at(b, h, 0));
    assert(match_from(b, h, 0) == 0);
    assert forall|j: int| 16 <= j implies !matches_at(b, h, j) by {
        if matches_at(b, h, j) {
            assert(b.subrange(j, j + 16)[0] == h[0]);
            assert(b[j] == 0x43u8);
            if j < 16 + d.len() {
                assert(b[j] == d[j - 16]);
            } else if j < off {
                assert(b[j] == e[j - 16 - d.len()]);
            } else {
                assert(content.subrange(j - off, j - off + 16) =~= b.subrange(j, j + 16));
                assert(matches_at(content, h, j - off));
            }
        }
    }
    lemma_match_from(b, h, 16);
    assert(match_from(b, h, 16) > b.len()) by {
        if match_from(b, h, 16) <= b.len() {
            assert(matches_at(b, h, match_from(b, h, 16)));
        }
    }
    let ps = lsp_parts(b);
    assert(ps == parts_from(b, 16));
    assert(ps =~= seq![(16int, b.len() as int)]);
    // The blank line follows the digits.
    let t = b.subrange(16, b.len() as int);
    assert(t =~= d + e + content);
    assert(t.subrange(d.len() as int, d.len() + 4int) =~= e);
    assert(matches_at(t, e, d.len() as int));
    lemma_match_from(t, e, 0);
    let m = match_from(t, e, 0);
    assert(m == d.len()) by {
        if m > d.len() {
            assert(!matches_at(t, e, d.len() as int));
        } else if m < d.len() {
            assert(matches_at(t, e, m));
            assert(t.subrange(m, m + 4)[0] == e[0]);
            assert(t[m] == d[m]);
        }
    }
    assert(part_body(b, ps[0]) == Some((off, b.len() as int)));
    assert(bodies(b, ps, 0) =~= Seq::<(int, int)>::empty());
    let bs = bodies(b, ps, 1);
    assert(bs =~= seq![(off, b.len() as int)]);
    assert(b.subrange(off, b.len() as int) =~= content);
}

} // verus!
