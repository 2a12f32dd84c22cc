use vstd::prelude::*;
use vstd::utf8::*;
use vstd::string::StrSliceExecFns;
use crate::engine::pass::{Candidate, Edit, edit_of};
use crate::parser::ast::{ParsedUnit, Expression, ExpressionKind, ExprKindView};
use crate::text::{bytes, slice_ok, substr, same_text};

verus! {

broadcast use vstd::utf8::encode_utf8_valid_utf8;

/// Simplifies expressions: binary operations (but assignments) become `0`
/// or `1`, calls (but of `main` and `printf`) and unary operations become
/// `0`, and parentheses around a single word are dropped.
#[derive(Debug, Default)]
pub struct ExpressionSimplifyPass;

/// Whether a character is alphabetic or numeric, as Unicode defines them.
pub uninterp spec fn unicode_alphanumeric(c: char) -> bool;

/// `char::is_alphanumeric`: the contract names its result, which Unicode's
/// tables decide.
#[verifier::external_body]
fn is_alphanumeric(c: char) -> (r: bool)
    ensures
        r == unicode_alphanumeric(c),
{
    c.is_alphanumeric()
}

/// Every character is alphanumeric or `_`.
pub open spec fn is_word(s: Seq<char>) -> bool {
    forall|i: int| 0 <= i < s.len() ==> unicode_alphanumeric(#[trigger] s[i]) || s[i] == '_'
}

/// `0`.
pub open spec fn zero_text() -> Seq<u8> {
    seq![0x30u8]
}

/// `1`.
pub open spec fn one_text() -> Seq<u8> {
    seq![0x31u8]
}

/// `main`.
pub open spec fn main_name() -> Seq<u8> {
    seq![0x6du8, 0x61, 0x69, 0x6e]
}

/// `printf`.
pub open spec fn printf_name() -> Seq<u8> {
    seq![0x70u8, 0x72, 0x69, 0x6e, 0x74, 0x66]
}

/// What the pass proposes for expression `e` of `b`.
pub open spec fn expression_edits(b: Seq<u8>, header_end: usize, e: Expression) -> Seq<Edit> {
    let s = e.range.start as int;
    let x = e.range.end as int;
    if e.range.start < header_end || !slice_ok(b, s, x) {
        seq![]
    } else {
        let t = b.subrange(s, x);
        match e.kind@ {
            ExprKindView::Binary { operator } => if operator == seq![0x3du8] {
                seq![]
            } else {
                seq![(s, x, zero_text()), (s, x, one_text())]
            },
            ExprKindView::Paren => if t.len() > 2 && is_word(decode_utf8(t.subrange(1, t.len() - 1))) {
                seq![(s, x, t.subrange(1, t.len() - 1))]
            } else {
                seq![]
            },
            ExprKindView::Call { function, .. } => if function == main_name() || function == printf_name() {
                seq![]
            } else {
                seq![(s, x, zero_text())]
            },
            ExprKindView::Unary { .. } => seq![(s, x, zero_text())],
            _ => seq![],
        }
    }
}

/// What the pass proposes for `exprs[..n]`, in order.
pub open spec fn expressions_edits(b: Seq<u8>, header_end: usize, exprs: Seq<Expression>, n: int) -> Seq<Edit>
    decreases n,
{
    if n <= 0 {
        seq![]
    } else {
        expressions_edits(b, header_end, exprs, n - 1) + expression_edits(b, header_end, exprs[n - 1])
    }
}

/// What the pass needs of the parse: the text of a parenthesised
/// expression it looks into has whole characters after its first byte and
/// before its last.
pub open spec fn expression_ok(b: Seq<u8>, unit: &ParsedUnit) -> bool {
    forall|i: int|
        0 <= i < unit.expressions@.len() ==> {
            let e = #[trigger] unit.expressions@[i];
            let t = b.subrange(e.range.start as int, e.range.end as int);
            (e.kind is Paren && e.range.start >= unit.header_end && slice_ok(
                b,
                e.range.start as int,
                e.range.end as int,
            ) && t.len() > 2) ==> (is_char_boundary(t, 1) && is_char_boundary(t, t.len() - 1))
        }
}

/// Whether every character of `s` is alphanumeric or `_`.
fn word_chars(s: &str) -> (r: bool)
    ensures
        r == is_word(s@),
{
    let n = s.unicode_len();
    let mut i: usize = 0;
    while i < n
        invariant
            n == s@.len(),
            i <= n,
            forall|k: int| 0 <= k < i ==> unicode_alphanumeric(#[trigger] s@[k]) || s@[k] == '_',
        decreases n - i,
    {
        let c = s.get_char(i);
        if !(is_alphanumeric(c) || c == '_') {
            return false;
        }
        i += 1;
    }
    true
}

/// The candidates for one expression.
fn expression_candidates(source: &str, header_end: usize, e: &Expression, out: &mut Vec<Candidate>)
    requires
        e.kind is Paren && e.range.start >= header_end && slice_ok(bytes(source), e.range.start as int, e.range.end as int)
            && e.range.end - e.range.start > 2 ==> ({
            let t = bytes(source).subrange(e.range.start as int, e.range.end as int);
            is_char_boundary(t, 1) && is_char_boundary(t, t.len() - 1)
        }),
    ensures
        final(out)@.len() == old(out)@.len() + expression_edits(bytes(source), header_end, *e).len(),
        forall|k: int| 0 <= k < old(out)@.len() ==> final(out)@[k] == old(out)@[k],
        forall|k: int|
            0 <= k < expression_edits(bytes(source), header_end, *e).len() ==> edit_of(
                #[trigger] final(out)@[old(out)@.len() + k],
            ) == expression_edits(bytes(source), header_end, *e)[k],
{
    if e.range.start < header_end {
        return;
    }
    let text = match e.range.extract(source) {
        Some(t) => t,
        None => {
            return;
        },
    };
    let zero = "0";
    let one = "1";
    proof {
        reveal_strlit("0");
        reveal_strlit("1");
        assert(is_ascii_chars(zero@));
        assert(is_ascii_chars(one@));
        is_ascii_chars_encode_utf8(zero@);
        is_ascii_chars_encode_utf8(one@);
        assert(bytes(zero) =~= zero_text());
        assert(bytes(one) =~= one_text());
    }
    match &e.kind {
        ExpressionKind::Binary { operator } => {
            let eq = "=";
            proof {
                reveal_strlit("=");
                assert(is_ascii_chars(eq@));
                is_ascii_chars_encode_utf8(eq@);
                assert(bytes(eq) =~= seq![0x3du8]);
            }
            if same_text(operator.as_str(), eq) {
                return;
            }
            out.push(Candidate::new(e.range.to_range(), zero));
            out.push(Candidate::new(e.range.to_range(), one));
        },
        ExpressionKind::Paren => {
            let t = text.as_bytes();
            if t.len() > 2 {
                let inner = substr(text, 1, t.len() - 1);
                proof {
                    encode_utf8_decode_utf8(inner@);
                }
                if word_chars(inner) {
                    out.push(Candidate::new(e.range.to_range(), inner));
                }
            }
        },
        ExpressionKind::Call { function, .. } => {
            let main = "main";
            let printf = "printf";
            proof {
                reveal_strlit("main");
                reveal_strlit("printf");
                assert(is_ascii_chars(main@));
                assert(is_ascii_chars(printf@));
                is_ascii_chars_encode_utf8(main@);
                is_ascii_chars_encode_utf8(printf@);
                assert(bytes(main) =~= main_name());
                assert(bytes(printf) =~= printf_name());
            }
            if same_text(function.as_str(), main) || same_text(function.as_str(), printf) {
                return;
            }
            out.push(Candidate::new(e.range.to_range(), zero));
        },
        ExpressionKind::Unary { .. } => {
            out.push(Candidate::new(e.range.to_range(), zero));
        },
        _ => {},
    }
}

impl ExpressionSimplifyPass {
    pub fn new() -> (p: ExpressionSimplifyPass) {
        ExpressionSimplifyPass
    }

    /// The proposals for the expressions past the header region, in order
    /// (see `expression_edits`).
    pub fn candidates(&self, source: &str, unit: &ParsedUnit) -> (r: Vec<Candidate>)
        requires
            expression_ok(bytes(source), unit),
        ensures
            r@.len() == expressions_edits(bytes(source), unit.header_end, unit.expressions@, unit.expressions@.len() as int).len(),
            forall|k: int| 0 <= k < r@.len() ==> edit_of(#[trigger] r@[k]) == expressions_edits(
                bytes(source),
                unit.header_end,
                unit.expressions@,
                unit.expressions@.len() as int,
            )[k],
    {
        let exprs = unit.expressions();
        let header_end = unit.header_end();
        let mut out: Vec<Candidate> = Vec::new();
        let mut i: usize = 0;
        while i < exprs.len()
            invariant
                exprs@ == unit.expressions@,
                header_end == unit.header_end,
                expression_ok(bytes(source), unit),
                i <= exprs@.len(),
                out@.len() == expressions_edits(bytes(source), header_end, exprs@, i as int).len(),
                forall|k: int| 0 <= k < out@.len() ==> edit_of(#[trigger] out@[k]) == expressions_edits(
                    bytes(source),
                    header_end,
                    exprs@,
                    i as int,
                )[k],
            decreases exprs.len() - i,
        {
            let ghost before = expressions_edits(bytes(source), header_end, exprs@, i as int);
            let ghost old_out = out@;
            proof {
                let e = exprs@[i as int];
                assert(e == unit.expressions@[i as int]);
            }
            expression_candidates(source, header_end, &exprs[i], &mut out);
            proof {
                let next = expressions_edits(bytes(source), header_end, exprs@, i + 1);
                let mine = expression_edits(bytes(source), header_end, exprs@[i as int]);
                assert(next == before + mine);
                assert forall|k: int| 0 <= k < out@.len() implies edit_of(#[trigger] out@[k]) == next[k] by {
                    if k < before.len() {
                        assert(out@[k] == old_out[k]);
                    } else {
                        assert(edit_of(out@[old_out.len() + (k - old_out.len())]) == mine[k - old_out.len()]);
                    }
                }
            }
            i += 1;
        }
        out
    }
}

} // verus!
