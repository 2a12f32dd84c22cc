use vstd::prelude::*;
use vstd::utf8::*;
use crate::engine::pass::{Candidate, Edit, edit_of};
use crate::parser::ast::{ParsedUnit, Statement, StatementKind};
use crate::passes::util::{extend_to_line, line_begin, line_stop};
use crate::passes::argument_removal::trim_pair;
use crate::parser::visitor::contains_bytes;
use crate::text::{bytes, slice_ok, starts_with, range_starts_with, trim_bounds, find_bytes, matches_at};

verus! {

broadcast use vstd::utf8::encode_utf8_valid_utf8;

/// Simplifies or removes single statements: expression statements other
/// than returns, declarations and control flow are removed with their
/// lines, empty blocks become `;`, and returns of a value become
/// `return 0;`.
#[derive(Debug, Default)]
pub struct StatementPass;

/// `return`.
pub open spec fn return_word() -> Seq<u8> {
    seq![0x72u8, 0x65, 0x74, 0x75, 0x72, 0x6e]
}

/// `return;`.
pub open spec fn return_semi() -> Seq<u8> {
    return_word().push(0x3bu8)
}

/// `return 0;`.
pub open spec fn return_zero() -> Seq<u8> {
    return_word() + seq![0x20u8, 0x30, 0x3b]
}

/// `{}`.
pub open spec fn empty_block() -> Seq<u8> {
    seq![0x7bu8, 0x7d]
}

/// The removal of the whole lines a statement spans.
pub open spec fn line_removal(b: Seq<u8>, s: Statement) -> Seq<Edit> {
    seq![(line_begin(b, s.range.start as int), line_stop(b, s.range.end as int), Seq::<u8>::empty())]
}

/// What the pass proposes for statement `s` of `b`.
pub open spec fn statement_edits(b: Seq<u8>, header_end: usize, s: Statement) -> Seq<Edit> {
    if s.range.start < header_end || !slice_ok(b, s.range.start as int, s.range.end as int) {
        seq![]
    } else {
        let t = b.subrange(s.range.start as int, s.range.end as int);
        match s.kind {
            StatementKind::Expression => if starts_with(t, return_word()) {
                seq![]
            } else {
                line_removal(b, s)
            },
            StatementKind::Declaration => line_removal(b, s),
            StatementKind::If { .. } => line_removal(b, s),
            StatementKind::While => line_removal(b, s),
            StatementKind::For => line_removal(b, s),
            StatementKind::Compound => {
                let (ts, te) = trim_pair(t, 0, t.len() as int);
                if t.subrange(ts, te) == empty_block() {
                    seq![(s.range.start as int, s.range.end as int, seq![0x3bu8])]
                } else {
                    seq![]
                }
            },
            StatementKind::Return => if contains_bytes(t, seq![0x20u8]) && !contains_bytes(t, return_semi()) {
                seq![(s.range.start as int, s.range.end as int, return_zero())]
            } else {
                seq![]
            },
            _ => seq![],
        }
    }
}

/// What the pass proposes for `stmts[..n]`, in order.
pub open spec fn statements_edits(b: Seq<u8>, header_end: usize, stmts: Seq<Statement>, n: int) -> Seq<Edit>
    decreases n,
{
    if n <= 0 {
        seq![]
    } else {
        statements_edits(b, header_end, stmts, n - 1) + statement_edits(b, header_end, stmts[n - 1])
    }
}

/// What the pass proposes for the first `m` statements stays, in order, at
/// the front of what it proposes for the first `n`.
pub proof fn statements_edits_prefix(b: Seq<u8>, header_end: usize, stmts: Seq<Statement>, m: int, n: int)
    requires
        0 <= m <= n,
    ensures
        statements_edits(b, header_end, stmts, m).len() <= statements_edits(b, header_end, stmts, n).len(),
        forall|k: int|
            0 <= k < statements_edits(b, header_end, stmts, m).len() ==> #[trigger] statements_edits(
                b,
                header_end,
                stmts,
                n,
            )[k] == statements_edits(b, header_end, stmts, m)[k],
    decreases n - m,
{
    if m < n {
        statements_edits_prefix(b, header_end, stmts, m, n - 1);
        let prev = statements_edits(b, header_end, stmts, n - 1);
        let all = statements_edits(b, header_end, stmts, n);
        assert forall|k: int| 0 <= k < prev.len() implies all[k] == prev[k] by {}
    }
}

/// A declaration, `if`, `while` or `for` statement past the header region
/// that lies in the text is removed with the whole lines it spans: the pass
/// proposes exactly one edit for it, which deletes `line_begin..line_stop`
/// of its range, and that edit stands in the pass's output after those of
/// the statements before it.
pub proof fn removes_control_flow_with_lines(
    b: Seq<u8>,
    header_end: usize,
    stmts: Seq<Statement>,
    n: int,
    i: int,
)
    requires
        0 <= i < n <= stmts.len(),
        stmts[i].kind is Declaration || stmts[i].kind is If || stmts[i].kind is While || stmts[i].kind is For,
        stmts[i].range.start >= header_end,
        slice_ok(b, stmts[i].range.start as int, stmts[i].range.end as int),
    ensures
        ({
            let removal = (
                line_begin(b, stmts[i].range.start as int),
                line_stop(b, stmts[i].range.end as int),
                Seq::<u8>::empty(),
            );
            let before = statements_edits(b, header_end, stmts, i);
            &&& statements_edits(b, header_end, stmts, i + 1) == before.push(removal)
            &&& before.len() < statements_edits(b, header_end, stmts, n).len()
            &&& statements_edits(b, header_end, stmts, n)[before.len() as int] == removal
        }),
{
    let removal = (
        line_begin(b, stmts[i].range.start as int),
        line_stop(b, stmts[i].range.end as int),
        Seq::<u8>::empty(),
    );
    let before = statements_edits(b, header_end, stmts, i);
    assert(statement_edits(b, header_end, stmts[i]) == seq![removal]);
    assert(statements_edits(b, header_end, stmts, i + 1) =~= before.push(removal));
    statements_edits_prefix(b, header_end, stmts, i + 1, n);
    assert(statements_edits(b, header_end, stmts, i + 1)[before.len() as int] == removal);
}

/// Whether `p` occurs in `t`.
fn contains_text(t: &[u8], p: &[u8]) -> (r: bool)
    ensures
        r == contains_bytes(t@, p@),
{
    match find_bytes(t, p, 0) {
        Some(i) => {
            assert(matches_at(t@, p@, i as int));
            true
        },
        None => false,
    }
}

/// The candidate for one statement, if the pass proposes one.
fn statement_candidate(source: &str, header_end: usize, s: &Statement) -> (r: Option<Candidate>)
    ensures
        match r {
            Some(c) => statement_edits(bytes(source), header_end, *s) == seq![edit_of(c)],
            None => statement_edits(bytes(source), header_end, *s) == Seq::<Edit>::empty(),
        },
{
    if s.range.start < header_end {
        return None;
    }
    let text = match s.range.extract(source) {
        Some(t) => t,
        None => {
            return None;
        },
    };
    let t = text.as_bytes();
    let ret = "return";
    let ret_semi = "return;";
    let ret_zero = "return 0;";
    let semi = ";";
    let space = " ";
    let block = "{}";
    proof {
        reveal_strlit("return");
        reveal_strlit("return;");
        reveal_strlit("return 0;");
        reveal_strlit(";");
        reveal_strlit(" ");
        reveal_strlit("{}");
        assert(is_ascii_chars(ret@));
        assert(is_ascii_chars(ret_semi@));
        assert(is_ascii_chars(ret_zero@));
        assert(is_ascii_chars(semi@));
        assert(is_ascii_chars(space@));
        assert(is_ascii_chars(block@));
        is_ascii_chars_encode_utf8(ret@);
        is_ascii_chars_encode_utf8(ret_semi@);
        is_ascii_chars_encode_utf8(ret_zero@);
        is_ascii_chars_encode_utf8(semi@);
        is_ascii_chars_encode_utf8(space@);
        is_ascii_chars_encode_utf8(block@);
        assert(bytes(ret) =~= return_word());
        assert(bytes(ret_semi) =~= return_semi());
        assert(bytes(ret_zero) =~= return_zero());
        assert(bytes(semi) =~= seq![0x3bu8]);
        assert(bytes(space) =~= seq![0x20u8]);
        assert(bytes(block) =~= empty_block());
        assert(t@.subrange(0, t@.len() as int) =~= t@);
    }
    match s.kind {
        StatementKind::Expression => {
            if range_starts_with(t, 0, t.len(), ret.as_bytes()) {
                return None;
            }
            let extended = extend_to_line(source, s.range);
            Some(Candidate::removal(extended.to_range()))
        },
        StatementKind::Declaration | StatementKind::If { .. } | StatementKind::While | StatementKind::For => {
            let extended = extend_to_line(source, s.range);
            Some(Candidate::removal(extended.to_range()))
        },
        StatementKind::Compound => {
            let (ts, te) = trim_bounds(t, 0, t.len());
            let bb = block.as_bytes();
            let is_empty = te - ts == 2 && t[ts] == bb[0] && t[ts + 1] == bb[1];
            proof {
                let inner = t@.subrange(ts as int, te as int);
                if inner == empty_block() {
                    assert(inner.len() == 2);
                    assert(inner[0] == t@[ts as int]);
                    assert(inner[1] == t@[ts + 1]);
                }
                if is_empty {
                    assert(inner =~= empty_block());
                }
            }
            if is_empty {
                Some(Candidate::new(s.range.to_range(), semi))
            } else {
                None
            }
        },
        StatementKind::Return => {
            if contains_text(t, space.as_bytes()) && !contains_text(t, ret_semi.as_bytes()) {
                Some(Candidate::new(s.range.to_range(), ret_zero))
            } else {
                None
            }
        },
        _ => None,
    }
}

impl StatementPass {
    pub fn new() -> (p: StatementPass) {
        StatementPass
    }

    /// The proposals for the statements past the header region, in order
    /// (see `statement_edits`).
    pub fn candidates(&self, source: &str, unit: &ParsedUnit) -> (r: Vec<Candidate>)
        ensures
            r@.len() == statements_edits(bytes(source), unit.header_end, unit.statements@, unit.statements@.len() as int).len(),
            forall|k: int| 0 <= k < r@.len() ==> edit_of(#[trigger] r@[k]) == statements_edits(
                bytes(source),
                unit.header_end,
                unit.statements@,
                unit.statements@.len() as int,
            )[k],
    {
        let stmts = unit.statements();
        let header_end = unit.header_end();
        let mut out: Vec<Candidate> = Vec::new();
        let mut i: usize = 0;
        while i < stmts.len()
            invariant
                stmts@ == unit.statements@,
                header_end == unit.header_end,
                i <= stmts@.len(),
                out@.len() == statements_edits(bytes(source), header_end, stmts@, i as int).len(),
                forall|k: int| 0 <= k < out@.len() ==> edit_of(#[trigger] out@[k]) == statements_edits(
                    bytes(source),
                    header_end,
                    stmts@,
                    i as int,
                )[k],
            decreases stmts.len() - i,
        {
            let ghost before = statements_edits(bytes(source), header_end, stmts@, i as int);
            match statement_candidate(source, header_end, &stmts[i]) {
                Some(c) => out.push(c),
                None => {},
            }
            proof {
                let next = statements_edits(bytes(source), header_end, stmts@, i + 1);
                assert forall|k: int| 0 <= k < out@.len() implies edit_of(#[trigger] out@[k]) == next[k] by {
                    if k < before.len() {
                        assert(next[k] == before[k]);
                    }
                }
            }
            i += 1;
        }
        out
    }
}

} // verus!
