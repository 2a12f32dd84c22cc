use vstd::prelude::*;
use vstd::utf8::*;
use crate::text::{
    bytes, sbytes, slice_ok, trim_lo, trim_hi, trim_bounds, lemma_trim_boundaries,
    lemma_ascii_boundaries, substr, ident_occurrence, match_at, ident_byte, is_ident_byte,
    match_from, lemma_match_from, push_str, find_match, matches_at, lemma_boundary_at,
    to_owned_string, byte_from, push_ascii, lemma_byte_from, find_byte_or_end, range_eq, str_eq,
};
use crate::engine::pass::Candidate;
use crate::parser::ast::{Function, ParsedUnit};
use crate::passes::clangd::{Diagnostic, quoted, quoted_name, quoted_names, names_with_code};

verus! {

broadcast use vstd::utf8::encode_utf8_valid_utf8;

/// Removes function parameters that clangd reports as unused, together
/// with the matching argument at the call sites.
#[derive(Debug, Default)]
pub struct ArgumentRemovalPass;

/// Scanning `b[i..hi]` with `depth` parentheses open, the offset of the `)`
/// that closes the last of them (the nesting goes below one and back up
/// freely before that).
pub open spec fn paren_close(b: Seq<u8>, i: int, depth: int, hi: int) -> Option<int>
    decreases hi - i,
{
    if i < 0 || i >= hi || hi > b.len() {
        None
    } else if b[i] == 0x28 {
        paren_close(b, i + 1, depth + 1, hi)
    } else if b[i] == 0x29 {
        if depth - 1 == 0 {
            Some(i)
        } else {
            paren_close(b, i + 1, depth - 1, hi)
        }
    } else {
        paren_close(b, i + 1, depth, hi)
    }
}

pub proof fn lemma_paren_close(b: Seq<u8>, i: int, depth: int, hi: int)
    ensures
        paren_close(b, i, depth, hi) matches Some(c) ==> i <= c < hi && hi <= b.len() && b[c] == 0x29,
    decreases hi - i,
{
    if 0 <= i < hi && hi <= b.len() {
        if b[i] == 0x28 {
            lemma_paren_close(b, i + 1, depth + 1, hi);
        } else if b[i] == 0x29 {
            lemma_paren_close(b, i + 1, depth - 1, hi);
        } else {
            lemma_paren_close(b, i + 1, depth, hi);
        }
    }
}

/// The `)` in `b[..hi]` that closes the `(` at or after `open`, as the
/// scan that counts parentheses from `open` on finds it.
pub fn matching_paren_in(b: &[u8], open: usize, hi: usize) -> (r: Option<usize>)
    requires
        hi <= b@.len(),
    ensures
        match r {
            Some(c) => paren_close(b@, open as int, 0, hi as int) == Some(c as int),
            None => paren_close(b@, open as int, 0, hi as int) is None,
        },
{
    let mut depth: i128 = 0;
    let mut i: usize = open;
    while i < hi
        invariant
            hi <= b@.len(),
            open <= i,
            i - open >= depth,
            i - open >= -depth,
            paren_close(b@, open as int, 0, hi as int) == paren_close(b@, i as int, depth as int, hi as int),
        decreases hi - i,
    {
        if b[i] == 0x28 {
            depth = depth + 1;
        } else if b[i] == 0x29 {
            depth = depth - 1;
            if depth == 0 {
                return Some(i);
            }
        }
        i += 1;
    }
    None
}

/// The offset of the `)` that closes the parenthesis at `open_pos` in
/// `text`, counting nested parentheses.
pub fn find_matching_paren(text: &str, open_pos: usize) -> (r: Option<usize>)
    ensures
        match r {
            Some(c) => paren_close(bytes(text), open_pos as int, 0, bytes(text).len() as int) == Some(c as int),
            None => paren_close(bytes(text), open_pos as int, 0, bytes(text).len() as int) is None,
        },
{
    let b = text.as_bytes();
    matching_paren_in(b, open_pos, b.len())
}

/// `b[lo..hi]` trimmed, as a pair of bounds.
pub open spec fn trim_pair(b: Seq<u8>, lo: int, hi: int) -> (int, int) {
    let l = trim_lo(b, lo, hi);
    (l, trim_hi(b, l, hi))
}

/// The trimmed pieces of `b[start..e]` and on, splitting at the commas that
/// lie outside parentheses and brackets; the scan is at `i` with nesting
/// `depth`, and the current piece began at `start`.
pub open spec fn comma_pieces(b: Seq<u8>, e: int, i: int, depth: int, start: int) -> Seq<(int, int)>
    decreases e - i,
{
    if i >= e || i < 0 || e > b.len() {
        seq![trim_pair(b, start, e)]
    } else if b[i] == 0x28 || b[i] == 0x5b {
        comma_pieces(b, e, i + 1, depth + 1, start)
    } else if b[i] == 0x29 || b[i] == 0x5d {
        comma_pieces(b, e, i + 1, depth - 1, start)
    } else if b[i] == 0x2c && depth == 0 {
        seq![trim_pair(b, start, i)] + comma_pieces(b, e, i + 1, depth, i + 1)
    } else {
        comma_pieces(b, e, i + 1, depth, start)
    }
}

/// The bytes of `void`.
pub open spec fn void_bytes() -> Seq<u8> {
    seq![0x76u8, 0x6f, 0x69, 0x64]
}

/// The parameters (or arguments) listed in `b[lo..hi]`: none when the
/// trimmed list is empty or `void`, else its top-level comma-separated
/// pieces, each trimmed.
pub open spec fn param_spans(b: Seq<u8>, lo: int, hi: int) -> Seq<(int, int)> {
    let (s, e) = trim_pair(b, lo, hi);
    if s == e || b.subrange(s, e) == void_bytes() {
        seq![]
    } else {
        comma_pieces(b, e, s, 0, s)
    }
}

/// Pairs of offsets as integers.
pub open spec fn int_spans(v: Seq<(usize, usize)>) -> Seq<(int, int)> {
    v.map_values(|p: (usize, usize)| (p.0 as int, p.1 as int))
}

/// The bytes of `b` that each span covers.
pub open spec fn pieces(b: Seq<u8>, spans: Seq<(int, int)>) -> Seq<Seq<u8>> {
    spans.map_values(|p: (int, int)| b.subrange(p.0, p.1))
}

/// Computes `param_spans` for `b[lo..hi]`; every span lies on character
/// boundaries.
pub fn param_spans_in(b: &[u8], lo: usize, hi: usize) -> (r: Vec<(usize, usize)>)
    requires
        valid_utf8(b@),
        slice_ok(b@, lo as int, hi as int),
    ensures
        int_spans(r@) == param_spans(b@, lo as int, hi as int),
        forall|k: int| 0 <= k < r@.len() ==> slice_ok(b@, #[trigger] r@[k].0 as int, r@[k].1 as int),
{
    let (s, e) = trim_bounds(b, lo, hi);
    proof {
        lemma_trim_boundaries(b@, lo as int, hi as int);
    }
    let mut r: Vec<(usize, usize)> = Vec::new();
    if s == e {
        proof {
            assert(int_spans(r@) =~= Seq::<(int, int)>::empty());
        }
        return r;
    }
    if e - s == 4 && b[s] == 0x76 && b[s + 1] == 0x6f && b[s + 2] == 0x69 && b[s + 3] == 0x64 {
        proof {
            assert(b@.subrange(s as int, e as int) =~= void_bytes());
            assert(int_spans(r@) =~= Seq::<(int, int)>::empty());
        }
        return r;
    }
    proof {
        let t = b@.subrange(s as int, e as int);
        if t == void_bytes() {
            assert(t.len() == 4);
            assert(t[0] == b@[s as int]);
            assert(t[1] == b@[s + 1]);
            assert(t[2] == b@[s + 2]);
            assert(t[3] == b@[s + 3]);
        }
    }
    let mut depth: i128 = 0;
    let mut start: usize = s;
    let mut i: usize = s;
    while i < e
        invariant
            valid_utf8(b@),
            slice_ok(b@, s as int, e as int),
            s <= start <= i <= e,
            i - s >= depth,
            i - s >= -depth,
            is_char_boundary(b@, start as int),
            int_spans(r@) + comma_pieces(b@, e as int, i as int, depth as int, start as int)
                == param_spans(b@, lo as int, hi as int),
            forall|k: int| 0 <= k < r@.len() ==> slice_ok(b@, #[trigger] r@[k].0 as int, r@[k].1 as int),
        decreases e - i,
    {
        let c = b[i];
        if c == 0x28 || c == 0x5b {
            depth = depth + 1;
        } else if c == 0x29 || c == 0x5d {
            depth = depth - 1;
        } else if c == 0x2c && depth == 0 {
            proof {
                lemma_ascii_boundaries(b@, i as int);
                lemma_trim_boundaries(b@, start as int, i as int);
            }
            let (ps, pe) = trim_bounds(b, start, i);
            let ghost before = int_spans(r@);
            r.push((ps, pe));
            proof {
                assert(int_spans(r@) =~= before + seq![trim_pair(b@, start as int, i as int)]);
                assert(int_spans(r@) + comma_pieces(b@, e as int, i + 1, depth as int, i + 1)
                    =~= before + comma_pieces(b@, e as int, i as int, depth as int, start as int));
            }
            start = i + 1;
        }
        i += 1;
    }
    proof {
        lemma_trim_boundaries(b@, start as int, e as int);
    }
    let (ps, pe) = trim_bounds(b, start, e);
    let ghost before = int_spans(r@);
    r.push((ps, pe));
    proof {
        assert(int_spans(r@) =~= before + seq![trim_pair(b@, start as int, e as int)]);
    }
    r
}

/// The parameters of a parameter list such as `int a, int (*f)(int, int)`:
/// none for an empty list or `void`, else the pieces between top-level
/// commas, trimmed.
pub fn split_params(text: &str) -> (r: Vec<&str>)
    ensures
        r@.len() == param_spans(bytes(text), 0, bytes(text).len() as int).len(),
        forall|k: int| 0 <= k < r@.len() ==> bytes(#[trigger] r@[k]) == pieces(
            bytes(text),
            param_spans(bytes(text), 0, bytes(text).len() as int),
        )[k],
{
    let b = text.as_bytes();
    proof {
        is_char_boundary_start_end_of_seq(b@);
    }
    let spans = param_spans_in(b, 0, b.len());
    let ghost ps = param_spans(b@, 0, b@.len() as int);
    let mut r: Vec<&str> = Vec::new();
    let mut k: usize = 0;
    while k < spans.len()
        invariant
            b@ == bytes(text),
            int_spans(spans@) == ps,
            forall|j: int| 0 <= j < spans@.len() ==> slice_ok(b@, #[trigger] spans@[j].0 as int, spans@[j].1 as int),
            k <= spans@.len(),
            r@.len() == k,
            forall|j: int| 0 <= j < k ==> bytes(#[trigger] r@[j]) == pieces(b@, ps)[j],
        decreases spans.len() - k,
    {
        let (ps0, pe0) = spans[k];
        assert(ps[k as int] == (ps0 as int, pe0 as int));
        r.push(substr(text, ps0, pe0));
        k += 1;
    }
    r
}

/// Whether `ident` occurs in `text` as a whole identifier.
pub fn identifier_occurs(text: &str, ident: &str) -> (r: bool)
    ensures
        r == (bytes(ident).len() > 0 && exists|p: int| ident_occurrence(bytes(text), bytes(ident), p)),
{
    let b = text.as_bytes();
    let name = ident.as_bytes();
    if name.len() == 0 {
        return false;
    }
    let mut i: usize = 0;
    while i <= b.len()
        invariant
            b@ == bytes(text),
            name@ == bytes(ident),
            name@.len() > 0,
            forall|p: int| 0 <= p < i ==> !ident_occurrence(b@, name@, p),
        decreases b.len() + 1 - i,
    {
        if name.len() > b.len() - i {
            assert forall|p: int| #![trigger ident_occurrence(b@, name@, p)] !ident_occurrence(b@, name@, p) by {
                if p >= i {
                    assert(!(p + name@.len() <= b@.len()));
                }
            }
            return false;
        }
        if match_at(b, name, i) {
            let before_ok = i == 0 || !ident_byte(b[i - 1]);
            let after_ok = i + name.len() >= b.len() || !ident_byte(b[i + name.len()]);
            if before_ok && after_ok {
                assert(ident_occurrence(b@, name@, i as int));
                return true;
            }
        }
        i += 1;
    }
    assert forall|p: int| #![trigger ident_occurrence(b@, name@, p)] !ident_occurrence(b@, name@, p) by {
        if p >= i {
            assert(!(p + name@.len() <= b@.len()));
        }
    }
    false
}

/// `, `, the separator of a rewritten list.
pub open spec fn comma_sep() -> Seq<u8> {
    seq![0x2cu8, 0x20]
}

/// The parts joined with `, ` between them.
pub open spec fn join_pieces(parts: Seq<Seq<u8>>) -> Seq<u8>
    decreases parts.len(),
{
    if parts.len() == 0 {
        seq![]
    } else if parts.len() == 1 {
        parts[0]
    } else {
        join_pieces(parts.drop_last()) + comma_sep() + parts.last()
    }
}

/// A parenthesised list made of the entries `spans` of `b` but the one at
/// `idx`.
pub open spec fn without_entry(b: Seq<u8>, spans: Seq<(int, int)>, idx: int) -> Seq<u8> {
    seq![0x28u8] + join_pieces(pieces(b, spans.remove(idx))) + seq![0x29u8]
}

/// What a call of `name` looks like in the text: the name and `(`.
pub open spec fn call_pattern(name: Seq<u8>) -> Seq<u8> {
    name + seq![0x28u8]
}

/// `b[from..]` with the argument at `idx` taken out of every call of
/// `name`: each `name(` not preceded by an identifier byte whose
/// parenthesis closes and whose argument list has an entry at `idx`.
pub open spec fn rewrite_calls(b: Seq<u8>, name: Seq<u8>, idx: int, from: int) -> Seq<u8>
    decreases b.len() + 1 - from,
{
    if from < 0 || from > b.len() {
        seq![]
    } else {
        let p = match_from(b, call_pattern(name), from);
        if p > b.len() {
            b.subrange(from, b.len() as int)
        } else {
            proof {
                lemma_match_from(b, call_pattern(name), from);
            }
            let op = p + name.len();
            if p > from && is_ident_byte(b[p - 1]) {
                b.subrange(from, op + 1) + rewrite_calls(b, name, idx, op + 1)
            } else {
                proof {
                    lemma_paren_close(b, op, 0, b.len() as int);
                }
                match paren_close(b, op, 0, b.len() as int) {
                    None => b.subrange(from, op + 1) + rewrite_calls(b, name, idx, op + 1),
                    Some(c) => {
                        let args = param_spans(b, op + 1, c);
                        if 0 <= idx < args.len() {
                            b.subrange(from, p) + name + without_entry(b, args, idx) + rewrite_calls(
                                b,
                                name,
                                idx,
                                c + 1,
                            )
                        } else {
                            b.subrange(from, c + 1) + rewrite_calls(b, name, idx, c + 1)
                        }
                    },
                }
            }
        }
    }
}

/// Joins the pieces of `src` that `spans` cover with `, `.
fn join_spans(src: &str, spans: &Vec<(usize, usize)>) -> (r: String)
    requires
        forall|k: int| 0 <= k < spans@.len() ==> slice_ok(bytes(src), #[trigger] spans@[k].0 as int, spans@[k].1 as int),
    ensures
        sbytes(&r) == join_pieces(pieces(bytes(src), int_spans(spans@))),
{
    let ghost ps = pieces(bytes(src), int_spans(spans@));
    let mut out = String::new();
    proof {
        assert(sbytes(&out) =~= Seq::<u8>::empty());
        assert(ps.subrange(0, 0) =~= Seq::<Seq<u8>>::empty());
    }
    let mut k: usize = 0;
    while k < spans.len()
        invariant
            ps == pieces(bytes(src), int_spans(spans@)),
            forall|j: int| 0 <= j < spans@.len() ==> slice_ok(bytes(src), #[trigger] spans@[j].0 as int, spans@[j].1 as int),
            k <= spans@.len(),
            sbytes(&out) == join_pieces(ps.subrange(0, k as int)),
        decreases spans.len() - k,
    {
        let ghost prev = sbytes(&out);
        if k > 0 {
            let sep = ", ";
            proof {
                reveal_strlit(", ");
            }
            push_ascii(&mut out, sep);
            proof {
                assert(bytes(sep) =~= comma_sep());
            }
        }
        let (s0, e0) = spans[k];
        push_str(&mut out, substr(src, s0, e0));
        proof {
            let next = ps.subrange(0, k + 1);
            assert(next.drop_last() =~= ps.subrange(0, k as int));
            assert(ps[k as int] == bytes(src).subrange(s0 as int, e0 as int));
            if k == 0 {
                assert(sbytes(&out) =~= next[0]);
            } else {
                assert(sbytes(&out) =~= join_pieces(next.drop_last()) + comma_sep() + next.last());
            }
        }
        k += 1;
    }
    proof {
        assert(ps.subrange(0, k as int) =~= ps);
    }
    out
}

/// `spans` without the entry at `idx`.
fn spans_without(spans: &Vec<(usize, usize)>, idx: usize) -> (r: Vec<(usize, usize)>)
    requires
        idx < spans@.len(),
    ensures
        r@ == spans@.remove(idx as int),
        int_spans(r@) == int_spans(spans@).remove(idx as int),
{
    let mut r: Vec<(usize, usize)> = Vec::new();
    let mut k: usize = 0;
    while k < spans.len()
        invariant
            idx < spans@.len(),
            k <= spans@.len(),
            r@ == if k <= idx {
                spans@.subrange(0, k as int)
            } else {
                spans@.subrange(0, idx as int) + spans@.subrange(idx + 1, k as int)
            },
        decreases spans.len() - k,
    {
        if k != idx {
            r.push(spans[k]);
        }
        proof {
            if k < idx {
                assert(r@ =~= spans@.subrange(0, k + 1));
            } else if k == idx {
                assert(r@ =~= spans@.subrange(0, idx as int) + spans@.subrange(idx + 1, k + 1));
            } else {
                assert(r@ =~= spans@.subrange(0, idx as int) + spans@.subrange(idx + 1, k + 1));
            }
        }
        k += 1;
    }
    proof {
        assert(r@ =~= spans@.remove(idx as int));
        assert(int_spans(r@) =~= int_spans(spans@).remove(idx as int));
    }
    r
}

/// A valid UTF-8 text does not start with a continuation byte.
proof fn lemma_first_not_continuation(s: Seq<u8>)
    requires
        valid_utf8(s),
        s.len() > 0,
    ensures
        !is_continuation_byte(s[0]),
{
    is_char_boundary_start_end_of_seq(s);
    is_char_boundary_iff_not_is_continuation_byte(s, 0);
}

/// One step of `rewrite_calls` at `pos`: `None` when no call of `name`
/// follows, else the text it emits and the offset where it goes on.
fn rewrite_step(source: &str, name: &str, pb: &[u8], idx: usize, pos: usize) -> (r: Option<(String, usize)>)
    requires
        pb@ == call_pattern(bytes(name)),
        pos <= bytes(source).len(),
        is_char_boundary(bytes(source), pos as int),
    ensures
        match r {
            None => match_from(bytes(source), pb@, pos as int) > bytes(source).len(),
            Some((piece, np)) => {
                &&& pos < np <= bytes(source).len()
                &&& is_char_boundary(bytes(source), np as int)
                &&& rewrite_calls(bytes(source), bytes(name), idx as int, pos as int) == sbytes(&piece)
                    + rewrite_calls(bytes(source), bytes(name), idx as int, np as int)
            },
        },
{
    let b = source.as_bytes();
    let nb = name.as_bytes();
    let blen = b.len();
    let open = "(";
    let close = ")";
    proof {
        reveal_strlit("(");
        reveal_strlit(")");
        assert(is_ascii_chars(open@));
        assert(is_ascii_chars(close@));
        is_ascii_chars_encode_utf8(open@);
        is_ascii_chars_encode_utf8(close@);
        assert(bytes(open) =~= seq![0x28u8]);
        assert(bytes(close) =~= seq![0x29u8]);
        lemma_match_from(b@, pb@, pos as int);
    }
    let p = match find_match(b, pb, pos) {
        None => {
            return None;
        },
        Some(p) => p,
    };
    proof {
        assert(pb@.len() == nb@.len() + 1);
        assert(matches_at(b@, pb@, p as int));
        assert(p + pb@.len() <= b@.len());
        assert(p + nb@.len() < b@.len());
    }
    let op = p + nb.len();
    proof {
        assert(b@.subrange(p as int, p + pb@.len()) == pb@);
        assert(b@[op as int] == b@.subrange(p as int, p + pb@.len())[nb@.len() as int]);
        assert(b@[op as int] == 0x28);
        lemma_ascii_boundaries(b@, op as int);
        if nb@.len() > 0 {
            lemma_first_not_continuation(nb@);
            assert(b@[p as int] == b@.subrange(p as int, p + pb@.len())[0]);
            lemma_boundary_at(b@, p as int);
        } else {
            assert(p == op);
        }
    }
    let mut out = String::new();
    proof {
        assert(sbytes(&out) =~= Seq::<u8>::empty());
    }
    if p > pos && ident_byte(b[p - 1]) {
        push_str(&mut out, substr(source, pos, op + 1));
        return Some((out, op + 1));
    }
    proof {
        lemma_paren_close(b@, op as int, 0, b@.len() as int);
    }
    match matching_paren_in(b, op, b.len()) {
        None => {
            push_str(&mut out, substr(source, pos, op + 1));
            Some((out, op + 1))
        },
        Some(c) => {
            proof {
                lemma_ascii_boundaries(b@, c as int);
            }
            let args = param_spans_in(b, op + 1, c);
            if idx < args.len() {
                push_str(&mut out, substr(source, pos, p));
                push_str(&mut out, name);
                push_ascii(&mut out, open);
                let kept = spans_without(&args, idx);
                let joined = join_spans(source, &kept);
                push_str(&mut out, joined.as_str());
                push_ascii(&mut out, close);
                proof {
                    assert(sbytes(&out) =~= b@.subrange(pos as int, p as int) + bytes(name)
                        + without_entry(b@, param_spans(b@, op + 1, c as int), idx as int));
                }
            } else {
                push_str(&mut out, substr(source, pos, c + 1));
            }
            Some((out, c + 1))
        },
    }
}

/// `source[from..]` with the argument at `idx` removed from the calls of
/// `name`, as `rewrite_calls` describes it.
fn rewrite_call_sites(source: &str, name: &str, idx: usize, from: usize) -> (r: String)
    requires
        from <= bytes(source).len(),
        is_char_boundary(bytes(source), from as int),
    ensures
        sbytes(&r) == rewrite_calls(bytes(source), bytes(name), idx as int, from as int),
{
    let b = source.as_bytes();
    let open = "(";
    proof {
        reveal_strlit("(");
        assert(is_ascii_chars(open@));
    }
    let mut pat = to_owned_string(name);
    push_ascii(&mut pat, open);
    let pb = pat.as_str().as_bytes();
    let ghost target = rewrite_calls(b@, bytes(name), idx as int, from as int);
    proof {
        assert(bytes(open) =~= seq![0x28u8]);
        assert(pb@ =~= call_pattern(bytes(name)));
    }
    let mut out = String::new();
    let mut pos: usize = from;
    proof {
        assert(sbytes(&out) =~= Seq::<u8>::empty());
        assert(sbytes(&out) + rewrite_calls(b@, bytes(name), idx as int, pos as int) =~= target);
    }
    loop
        invariant
            b@ == bytes(source),
            pb@ == call_pattern(bytes(name)),
            pos <= b@.len(),
            is_char_boundary(b@, pos as int),
            target == rewrite_calls(b@, bytes(name), idx as int, from as int),
            sbytes(&out) + rewrite_calls(b@, bytes(name), idx as int, pos as int) == target,
        decreases b@.len() - pos,
    {
        let ghost prev = sbytes(&out);
        match rewrite_step(source, name, pb, idx, pos) {
            None => {
                proof {
                    is_char_boundary_start_end_of_seq(b@);
                }
                push_str(&mut out, substr(source, pos, b.len()));
                return out;
            },
            Some((piece, np)) => {
                push_str(&mut out, piece.as_str());
                proof {
                    assert(sbytes(&out) + rewrite_calls(b@, bytes(name), idx as int, np as int) =~= prev
                        + rewrite_calls(b@, bytes(name), idx as int, pos as int));
                }
                pos = np;
            },
        }
    }
}

/// The source with parameter `idx` removed from the definition of `f`
/// and the matching argument removed from every call of `f`, before the
/// definition (declarations included) and after it; `None`
/// when the definition's text, its parameter list or that parameter cannot
/// be found.
pub open spec fn rewrite_param(b: Seq<u8>, f: Function, idx: int) -> Option<Seq<u8>> {
    let fs = f.range.start as int;
    let fe = f.range.end as int;
    let op = byte_from(b, 0x28, fs);
    if !slice_ok(b, fs, fe) || op >= fe {
        None
    } else {
        match paren_close(b, op, 0, fe) {
            None => None,
            Some(c) => {
                let params = param_spans(b, op + 1, c);
                if 0 <= idx < params.len() {
                    Some(rewrite_calls(b.subrange(0, fs), sbytes(&f.name), idx, 0) + b.subrange(fs, op)
                        + without_entry(b, params, idx) + b.subrange(c + 1, fe) + rewrite_calls(
                        b,
                        sbytes(&f.name),
                        idx,
                        fe,
                    ))
                } else {
                    None
                }
            },
        }
    }
}

/// The parameter is named, and clangd reported that name as unused.
pub open spec fn param_targeted(names: Seq<Seq<u8>>, name: Seq<u8>) -> bool {
    name.len() > 0 && names.contains(name)
}

/// The rewrites for the parameters `f.parameters[..k]`, in order.
pub open spec fn fn_rewrites(b: Seq<u8>, names: Seq<Seq<u8>>, f: Function, k: int) -> Seq<Seq<u8>>
    decreases k,
{
    if k <= 0 {
        seq![]
    } else {
        fn_rewrites(b, names, f, k - 1) + if param_targeted(names, sbytes(&f.parameters@[k - 1].name))
            && rewrite_param(b, f, k - 1) is Some {
            seq![rewrite_param(b, f, k - 1)->0]
        } else {
            seq![]
        }
    }
}

/// The pass looks at the parameters of `f`: a definition other than `main`.
pub open spec fn eligible_fn(f: Function) -> bool {
    f.name@ != "main"@ && f.is_definition
}

/// The rewrites for the functions `fs[..n]`, in order.
pub open spec fn arg_rewrites(b: Seq<u8>, names: Seq<Seq<u8>>, fs: Seq<Function>, n: int) -> Seq<Seq<u8>>
    decreases n,
{
    if n <= 0 {
        seq![]
    } else {
        arg_rewrites(b, names, fs, n - 1) + if eligible_fn(fs[n - 1]) {
            fn_rewrites(b, names, fs[n - 1], fs[n - 1].parameters@.len() as int)
        } else {
            seq![]
        }
    }
}

/// The names that unused-parameter diagnostics quote.
pub open spec fn unused_params(diags: Seq<Diagnostic>) -> Seq<Seq<u8>> {
    quoted_names(diags, "-Wunused-parameter"@, diags.len() as int)
}

/// The parameter name in an unused-parameter message, such as `b` in
/// "Unused parameter 'b'".
pub fn extract_param_name(message: &str) -> (r: Option<String>)
    ensures
        match quoted(bytes(message)) {
            None => r is None,
            Some(span) => r matches Some(s) && sbytes(&s) == bytes(message).subrange(span.0, span.1),
        },
{
    quoted_name(message)
}

/// Computes `rewrite_param`.
fn rewrite_param_text(source: &str, f: &Function, idx: usize) -> (r: Option<String>)
    ensures
        match r {
            Some(s) => rewrite_param(bytes(source), *f, idx as int) == Some(sbytes(&s)),
            None => rewrite_param(bytes(source), *f, idx as int) is None,
        },
{
    let b = source.as_bytes();
    let fs = f.range.start;
    let fe = f.range.end;
    if f.range.extract(source).is_none() {
        return None;
    }
    proof {
        lemma_byte_from(b@, 0x28, fs as int);
    }
    let op = find_byte_or_end(b, 0x28, fs);
    if op >= fe {
        return None;
    }
    proof {
        lemma_paren_close(b@, op as int, 0, fe as int);
        lemma_ascii_boundaries(b@, op as int);
    }
    let c = match matching_paren_in(b, op, fe) {
        None => {
            return None;
        },
        Some(c) => c,
    };
    proof {
        lemma_ascii_boundaries(b@, c as int);
    }
    let params = param_spans_in(b, op + 1, c);
    if idx >= params.len() {
        return None;
    }
    let open = "(";
    let close = ")";
    proof {
        reveal_strlit("(");
        reveal_strlit(")");
        assert(is_ascii_chars(open@));
        assert(is_ascii_chars(close@));
        is_char_boundary_start_end_of_seq(b@);
    }
    let prefix = substr(source, 0, fs);
    proof {
        is_char_boundary_start_end_of_seq(bytes(prefix));
    }
    let mut out = rewrite_call_sites(prefix, f.name.as_str(), idx, 0);
    push_str(&mut out, substr(source, fs, op));
    push_ascii(&mut out, open);
    let kept = spans_without(&params, idx);
    let joined = join_spans(source, &kept);
    push_str(&mut out, joined.as_str());
    push_ascii(&mut out, close);
    push_str(&mut out, substr(source, c + 1, fe));
    let rest = rewrite_call_sites(source, f.name.as_str(), idx, fe);
    push_str(&mut out, rest.as_str());
    proof {
        assert(bytes(open) =~= seq![0x28u8]);
        assert(bytes(close) =~= seq![0x29u8]);
        assert(sbytes(&out) =~= rewrite_calls(b@.subrange(0, fs as int), sbytes(&f.name), idx as int, 0)
            + b@.subrange(fs as int, op as int) + without_entry(b@, param_spans(b@, op + 1, c as int), idx as int)
            + b@.subrange(c + 1, fe as int) + rewrite_calls(b@, sbytes(&f.name), idx as int, fe as int));
    }
    Some(out)
}

/// Whether `name` is among `names`, byte for byte.
fn contains_name(names: &Vec<String>, name: &str) -> (r: bool)
    ensures
        r == exists|k: int| 0 <= k < names@.len() && sbytes(&#[trigger] names@[k]) == bytes(name),
{
    let nb = name.as_bytes();
    let mut k: usize = 0;
    while k < names.len()
        invariant
            nb@ == bytes(name),
            k <= names@.len(),
            forall|j: int| 0 <= j < k ==> sbytes(&#[trigger] names@[j]) != bytes(name),
        decreases names.len() - k,
    {
        let cand = names[k].as_str().as_bytes();
        let same = cand.len() == nb.len() && range_eq(cand, 0, cand.len(), nb);
        if same {
            proof {
                assert(cand@.subrange(0, cand@.len() as int) =~= cand@);
            }
            return true;
        }
        proof {
            if cand@.len() == nb@.len() {
                assert(cand@.subrange(0, cand@.len() as int) =~= cand@);
            }
        }
        k += 1;
    }
    false
}

impl ArgumentRemovalPass {
    /// Given clangd's unused-parameter diagnostics for `source`: one
    /// whole-source rewrite per unused parameter of each function defined
    /// in the source other than `main`, in order.
    pub fn candidates(&self, source: &str, unit: &ParsedUnit, diagnostics: &[Diagnostic]) -> (r: Vec<Candidate>)
        ensures
            ({
                let rw = arg_rewrites(
                    bytes(source),
                    unused_params(diagnostics@),
                    unit.functions@,
                    unit.functions@.len() as int,
                );
                &&& r@.len() == rw.len()
                &&& forall|k: int|
                    0 <= k < r@.len() ==> (#[trigger] r@[k]).range.start == 0 && r@[k].range.end
                        == bytes(source).len() && sbytes(&r@[k].replacement) == rw[k]
            }),
    {
        let names = names_with_code(diagnostics, "-Wunused-parameter");
        let ghost nseq = unused_params(diagnostics@);
        let ghost b = bytes(source);
        let n = source.as_bytes().len();
        let functions = unit.functions();
        let mut candidates: Vec<Candidate> = Vec::new();
        let mut i: usize = 0;
        while i < functions.len()
            invariant
                functions@ == unit.functions@,
                b == bytes(source),
                n == b.len(),
                names@.len() == nseq.len(),
                forall|k: int| 0 <= k < names@.len() ==> sbytes(&names@[k]) == nseq[k],
                nseq == unused_params(diagnostics@),
                i <= functions@.len(),
                candidates@.len() == arg_rewrites(b, nseq, functions@, i as int).len(),
                forall|k: int|
                    0 <= k < candidates@.len() ==> (#[trigger] candidates@[k]).range.start == 0
                        && candidates@[k].range.end == n && sbytes(&candidates@[k].replacement)
                        == arg_rewrites(b, nseq, functions@, i as int)[k],
            decreases functions.len() - i,
        {
            let f = &functions[i];
            let ghost before = arg_rewrites(b, nseq, functions@, i as int);
            let ghost base = candidates@.len();
            if !str_eq(f.name.as_str(), "main") && f.is_definition {
                let mut j: usize = 0;
                while j < f.parameters.len()
                    invariant
                        b == bytes(source),
                        n == b.len(),
                        names@.len() == nseq.len(),
                        forall|k: int| 0 <= k < names@.len() ==> sbytes(&names@[k]) == nseq[k],
                        j <= f.parameters@.len(),
                        base <= candidates@.len(),
                        candidates@.len() == base + fn_rewrites(b, nseq, *f, j as int).len(),
                        forall|k: int|
                            0 <= k < candidates@.len() ==> (#[trigger] candidates@[k]).range.start == 0
                                && candidates@[k].range.end == n,
                        forall|k: int|
                            0 <= k < base ==> sbytes(&(#[trigger] candidates@[k]).replacement) == before[k],
                        forall|k: int|
                            base <= k < candidates@.len() ==> sbytes(&(#[trigger] candidates@[k]).replacement)
                                == fn_rewrites(b, nseq, *f, j as int)[k - base],
                    decreases f.parameters.len() - j,
                {
                    let ghost fr = fn_rewrites(b, nseq, *f, j as int);
                    let pname = f.parameters[j].name.as_str();
                    let targeted = pname.as_bytes().len() > 0 && contains_name(&names, pname);
                    proof {
                        if param_targeted(nseq, bytes(pname)) {
                            let k = choose|k: int| 0 <= k < nseq.len() && nseq[k] == bytes(pname);
                            assert(sbytes(&names@[k]) == bytes(pname));
                        }
                        if targeted {
                            let k = choose|k: int| 0 <= k < names@.len() && sbytes(&names@[k]) == bytes(pname);
                            assert(nseq[k] == bytes(pname));
                            assert(nseq.contains(bytes(pname)));
                        }
                        assert(targeted == param_targeted(nseq, sbytes(&f.parameters@[j as int].name)));
                    }
                    if targeted {
                        match rewrite_param_text(source, f, j) {
                            Some(text) => {
                                candidates.push(Candidate::new(0..n, text.as_str()));
                            },
                            None => {},
                        }
                    }
                    proof {
                        let nf = fn_rewrites(b, nseq, *f, j + 1);
                        assert forall|k: int| base <= k < candidates@.len() implies sbytes(
                            &(#[trigger] candidates@[k]).replacement,
                        ) == nf[k - base] by {
                            if k - base < fr.len() {
                                assert(nf[k - base] == fr[k - base]);
                            }
                        }
                    }
                    j += 1;
                }
            }
            proof {
                let next = arg_rewrites(b, nseq, functions@, i + 1);
                assert forall|k: int| 0 <= k < candidates@.len() implies sbytes(
                    &(#[trigger] candidates@[k]).replacement,
                ) == next[k] by {
                    if k < base {
                        assert(next[k] == before[k]);
                    }
                }
            }
            i += 1;
        }
        candidates
    }
}

proof fn lemma_no_names_no_fn_rewrites(b: Seq<u8>, names: Seq<Seq<u8>>, f: Function, k: int)
    requires
        names.len() == 0,
    ensures
        fn_rewrites(b, names, f, k).len() == 0,
    decreases k,
{
    if k > 0 {
        lemma_no_names_no_fn_rewrites(b, names, f, k - 1);
        assert(!names.contains(sbytes(&f.parameters@[k - 1].name)));
    }
}

/// Without unused-parameter names, the pass proposes nothing: no function,
/// not even one whose parameters go unused in its body, is rewritten.
pub proof fn no_unused_params_no_rewrites(b: Seq<u8>, names: Seq<Seq<u8>>, fs: Seq<Function>, n: int)
    requires
        names.len() == 0,
    ensures
        arg_rewrites(b, names, fs, n).len() == 0,
    decreases n,
{
    if n > 0 {
        no_unused_params_no_rewrites(b, names, fs, n - 1);
        lemma_no_names_no_fn_rewrites(b, names, fs[n - 1], fs[n - 1].parameters@.len() as int);
    }
}

/// `main` is never rewritten: its parameters and its call sites stay.
pub proof fn main_never_rewritten(b: Seq<u8>, names: Seq<Seq<u8>>, fs: Seq<Function>, n: int)
    requires
        0 < n <= fs.len(),
        fs[n - 1].name@ == "main"@,
    ensures
        arg_rewrites(b, names, fs, n) == arg_rewrites(b, names, fs, n - 1),
{
    assert(arg_rewrites(b, names, fs, n) =~= arg_rewrites(b, names, fs, n - 1));
}

/// At a call of `name` (the first from `from`, not part of a longer
/// identifier, with its closing parenthesis found) whose argument list has
/// an entry at `idx`, the rewrite keeps everything before the call and the
/// name, and lists the call's arguments without the one at `idx`: argument
/// `k` of the new list is the old argument `k` for `k < idx` and the old
/// argument `k + 1` from `idx` on. The rest of the text is rewritten the
/// same way.
pub proof fn call_loses_argument_at_index(b: Seq<u8>, name: Seq<u8>, idx: int, from: int, p: int, c: int)
    requires
        0 <= from <= p <= b.len(),
        match_from(b, call_pattern(name), from) == p,
        p == from || !is_ident_byte(b[p - 1]),
        paren_close(b, p + name.len(), 0, b.len() as int) == Some(c),
        0 <= idx < param_spans(b, p + name.len() + 1, c).len(),
    ensures
        ({
            let args = param_spans(b, p + name.len() + 1, c);
            exists|kept: Seq<Seq<u8>>|
                {
                    &&& kept.len() == args.len() - 1
                    &&& forall|k: int| 0 <= k < idx ==> #[trigger] kept[k] == b.subrange(args[k].0, args[k].1)
                    &&& forall|k: int|
                        idx <= k < kept.len() ==> #[trigger] kept[k] == b.subrange(args[k + 1].0, args[k + 1].1)
                    &&& rewrite_calls(b, name, idx, from) == b.subrange(from, p) + name + seq![0x28u8] + join_pieces(kept)
                        + seq![0x29u8] + rewrite_calls(b, name, idx, c + 1)
                }
        }),
{
    let args = param_spans(b, p + name.len() + 1, c);
    let kept = pieces(b, args.remove(idx));
    lemma_match_from(b, call_pattern(name), from);
    assert(kept.len() == args.len() - 1);
    assert forall|k: int| 0 <= k < idx implies #[trigger] kept[k] == b.subrange(args[k].0, args[k].1) by {
        assert(args.remove(idx)[k] == args[k]);
    }
    assert forall|k: int| idx <= k < kept.len() implies #[trigger] kept[k] == b.subrange(args[k + 1].0, args[k + 1].1) by {
        assert(args.remove(idx)[k] == args[k + 1]);
    }
    assert(rewrite_calls(b, name, idx, from) == b.subrange(from, p) + name + seq![0x28u8] + join_pieces(kept)
        + seq![0x29u8] + rewrite_calls(b, name, idx, c + 1));
}

} // verus!
