use vstd::prelude::*;
use crate::engine::pass::{Candidate, is_removal_of};
use crate::parser::ast::{ParsedUnit, Statement, StatementKind};
use crate::passes::clangd::{Diagnostic, quoted, quoted_name, quoted_names, names_with_code};
use crate::passes::util::{extend_to_line, line_begin, line_stop, line_number, LineIndex};
use crate::text::{
    bytes, sbytes, slice_ok,
    trim_lo, trim_hi, trim_bounds, strip_semis_hi, strip_semis, byte_in, find_byte_in, range_eq,
    str_eq, is_operator_byte, is_operator,
};

verus! {

broadcast use vstd::utf8::encode_utf8_valid_utf8;

/// Removes variables that clangd reports as unused (or set but never
/// read), and the plain assignments to the set-but-unused ones.
#[derive(Debug, Default)]
pub struct UnusedVariablePass;

/// The name quoted in a diagnostic message, such as `foo` in
/// "Variable 'foo' set but not used".
pub fn extract_var_name(message: &str) -> (r: Option<String>)
    ensures
        match quoted(bytes(message)) {
            None => r is None,
            Some(span) => r matches Some(s) && sbytes(&s) == bytes(message).subrange(span.0, span.1),
        },
{
    quoted_name(message)
}

/// The bounds of `b` once trimmed, stripped of trailing `;`, and trimmed
/// again.
pub open spec fn statement_core(b: Seq<u8>) -> (int, int) {
    let s1 = trim_lo(b, 0, b.len() as int);
    let e1 = trim_hi(b, s1, b.len() as int);
    let e2 = strip_semis_hi(b, s1, e1);
    let s3 = trim_lo(b, s1, e2);
    (s3, trim_hi(b, s3, e2))
}

/// When `b` is a plain assignment `lhs = ...` (not `+=`, `==` and the
/// like), the trimmed bounds of its left-hand side.
pub open spec fn assignment_lhs(b: Seq<u8>) -> Option<(int, int)> {
    let (s, e) = statement_core(b);
    let eq = byte_in(b, 0x3d, s, e);
    if eq >= e || eq == s || is_operator_byte(b[eq - 1]) || (eq + 1 < e && b[eq + 1] == 0x3d) {
        None
    } else {
        let l = trim_lo(b, s, eq);
        Some((l, trim_hi(b, l, eq)))
    }
}

/// `b` is a plain assignment to `name`.
pub open spec fn assigns_to(b: Seq<u8>, name: Seq<u8>) -> bool {
    assignment_lhs(b) matches Some(span) && b.subrange(span.0, span.1) == name
}

fn assigns_to_bytes(b: &[u8], name: &[u8]) -> (r: bool)
    ensures
        r == assigns_to(b@, name@),
{
    let n = b.len();
    let (s1, e1) = trim_bounds(b, 0, n);
    let e2 = strip_semis(b, s1, e1);
    let (s, e) = trim_bounds(b, s1, e2);
    let eq = find_byte_in(b, 0x3d, s, e);
    if eq >= e || eq == s {
        return false;
    }
    if is_operator(b[eq - 1]) {
        return false;
    }
    if eq + 1 < e && b[eq + 1] == 0x3d {
        return false;
    }
    let (l, h) = trim_bounds(b, s, eq);
    range_eq(b, l, h, name)
}

/// Whether `text` is a plain assignment to `var_name`: trimmed, stripped of
/// trailing `;`, it is `var_name = value` (not `+=`, `==` and the like).
pub fn is_simple_assignment_to(text: &str, var_name: &str) -> (r: bool)
    ensures
        r == assigns_to(bytes(text), bytes(var_name)),
{
    assigns_to_bytes(text.as_bytes(), var_name.as_bytes())
}

/// The lines that clangd flags with an unused-variable diagnostic.
pub open spec fn unused_lines(diags: Seq<Diagnostic>) -> Set<usize> {
    Set::new(|l: usize| exists|i: int| 0 <= i < diags.len() && (#[trigger] diags[i]).line == l && (
    diags[i].code@ == "-Wunused-variable"@ || diags[i].code@ == "-Wunused-but-set-variable"@))
}

/// The names that set-but-unused diagnostics quote, in order.
pub open spec fn set_but_unused(diags: Seq<Diagnostic>) -> Seq<Seq<u8>> {
    quoted_names(diags, "-Wunused-but-set-variable"@, diags.len() as int)
}

/// The statement is a removal target: a declaration on a flagged line, or
/// an expression statement that plainly assigns to a set-but-unused name.
pub open spec fn is_unused_target(
    b: Seq<u8>,
    lines: Set<usize>,
    names: Seq<Seq<u8>>,
    s: Statement,
) -> bool {
    ||| (s.kind is Declaration && lines.contains((line_number(b, s.range.start as int) - 1) as usize))
    ||| (s.kind is Expression && names.len() > 0 && slice_ok(b, s.range.start as int, s.range.end as int)
        && exists|k: int| 0 <= k < names.len() && assigns_to(
            b.subrange(s.range.start as int, s.range.end as int),
            #[trigger] names[k],
        ))
}

/// The line-extended ranges of the removal targets among `stmts[..n]`.
pub open spec fn unused_spans(
    b: Seq<u8>,
    lines: Set<usize>,
    names: Seq<Seq<u8>>,
    stmts: Seq<Statement>,
    n: int,
) -> Seq<(int, int)>
    decreases n,
{
    if n <= 0 {
        seq![]
    } else {
        unused_spans(b, lines, names, stmts, n - 1) + if is_unused_target(b, lines, names, stmts[n - 1]) {
            seq![(line_begin(b, stmts[n - 1].range.start as int), line_stop(b, stmts[n - 1].range.end as int))]
        } else {
            seq![]
        }
    }
}

/// What the pass needs of the parse: the declarations it removes lie in
/// the source on character boundaries.
pub open spec fn unused_variable_ok(b: Seq<u8>, lines: Set<usize>, unit: &ParsedUnit) -> bool {
    forall|i: int|
        0 <= i < unit.statements@.len() ==> {
            let s = #[trigger] unit.statements@[i];
            (s.kind is Declaration && lines.contains((line_number(b, s.range.start as int) - 1) as usize))
                ==> (s.range.start <= s.range.end && slice_ok(b, s.range.start as int, s.range.end as int))
        }
}

fn flagged_lines(diags: &[Diagnostic]) -> (r: Vec<usize>)
    ensures
        forall|l: usize| unused_lines(diags@).contains(l) <==> r@.contains(l),
{
    let mut r: Vec<usize> = Vec::new();
    let mut i: usize = 0;
    while i < diags.len()
        invariant
            i <= diags@.len(),
            forall|l: usize| r@.contains(l) <==> unused_lines(diags@.subrange(0, i as int)).contains(l),
        decreases diags.len() - i,
    {
        let ghost prev = diags@.subrange(0, i as int);
        let ghost next = diags@.subrange(0, i + 1);
        let ghost old_r = r@;
        let code = diags[i].code.as_str();
        let flagged = str_eq(code, "-Wunused-variable") || str_eq(code, "-Wunused-but-set-variable");
        if flagged {
            r.push(diags[i].line);
        }
        proof {
            assert(next[i as int] == diags@[i as int]);
            assert forall|l: usize| r@.contains(l) <==> unused_lines(next).contains(l) by {
                if unused_lines(next).contains(l) {
                    let k = choose|k: int| 0 <= k < next.len() && (#[trigger] next[k]).line == l && (
                    next[k].code@ == "-Wunused-variable"@ || next[k].code@ == "-Wunused-but-set-variable"@);
                    if k < i {
                        assert(prev[k] == next[k]);
                        assert(unused_lines(prev).contains(l));
                        assert(old_r.contains(l));
                        let j = choose|j: int| 0 <= j < old_r.len() && old_r[j] == l;
                        assert(r@[j] == l);
                    } else {
                        assert(flagged);
                        assert(r@[r@.len() - 1] == l);
                    }
                }
                if r@.contains(l) {
                    let j = choose|j: int| 0 <= j < r@.len() && r@[j] == l;
                    if j < old_r.len() {
                        assert(old_r[j] == l);
                        assert(old_r.contains(l));
                        assert(unused_lines(prev).contains(l));
                        let k = choose|k: int| 0 <= k < prev.len() && (#[trigger] prev[k]).line == l && (
                        prev[k].code@ == "-Wunused-variable"@ || prev[k].code@ == "-Wunused-but-set-variable"@);
                        assert(next[k] == prev[k]);
                    } else {
                        assert(flagged);
                        assert(next[i as int].line == l);
                    }
                }
            }
        }
        i += 1;
    }
    proof {
        assert(diags@.subrange(0, i as int) =~= diags@);
    }
    r
}

fn assigns_to_any(text: &str, names: &Vec<String>) -> (r: bool)
    ensures
        r == exists|m: int| 0 <= m < names@.len() && assigns_to(bytes(text), sbytes(&#[trigger] names@[m])),
{
    let mut k: usize = 0;
    while k < names.len()
        invariant
            k <= names@.len(),
            forall|m: int| 0 <= m < k ==> !assigns_to(bytes(text), sbytes(&#[trigger] names@[m])),
        decreases names.len() - k,
    {
        if is_simple_assignment_to(text, names[k].as_str()) {
            return true;
        }
        k += 1;
    }
    false
}

fn contains_line(v: &Vec<usize>, l: usize) -> (r: bool)
    ensures
        r == v@.contains(l),
{
    let mut i: usize = 0;
    while i < v.len()
        invariant
            i <= v@.len(),
            forall|k: int| 0 <= k < i ==> v@[k] != l,
        decreases v.len() - i,
    {
        if v[i] == l {
            return true;
        }
        i += 1;
    }
    false
}

impl UnusedVariablePass {
    /// Given clangd's diagnostics for `source` (with `-Wall -Wextra`): no
    /// candidate when no line has an unused-variable diagnostic; else one
    /// removal per removal target, in statement order.
    pub fn candidates(&self, source: &str, unit: &ParsedUnit, diagnostics: &[Diagnostic]) -> (r: Vec<Candidate>)
        requires
            unused_variable_ok(bytes(source), unused_lines(diagnostics@), unit),
        ensures
            ({
                let spans = if unused_lines(diagnostics@).is_empty() {
                    Seq::<(int, int)>::empty()
                } else {
                    unused_spans(
                        bytes(source),
                        unused_lines(diagnostics@),
                        set_but_unused(diagnostics@),
                        unit.statements@,
                        unit.statements@.len() as int,
                    )
                };
                &&& r@.len() == spans.len()
                &&& forall|i: int| 0 <= i < r@.len() ==> is_removal_of(#[trigger] r@[i], spans[i])
            }),
    {
        let lines = flagged_lines(diagnostics);
        let names = names_with_code(diagnostics, "-Wunused-but-set-variable");
        let ghost lset = unused_lines(diagnostics@);
        let ghost nseq = set_but_unused(diagnostics@);
        if lines.len() == 0 {
            proof {
                assert(lset =~= Set::<usize>::empty()) by {
                    assert forall|l: usize| !lset.contains(l) by {
                        assert(!lines@.contains(l));
                    }
                }
            }
            return Vec::new();
        }
        proof {
            assert(lines@.contains(lines@[0]));
            assert(lset.contains(lines@[0]));
            assert(!lset.is_empty());
        }
        let line_index = LineIndex::new(source);
        let stmts = unit.statements();
        let b = source.as_bytes();
        let mut candidates: Vec<Candidate> = Vec::new();
        let mut i: usize = 0;
        while i < stmts.len()
            invariant
                stmts@ == unit.statements@,
                b@ == bytes(source),
                line_index.text() == bytes(source),
                lset == unused_lines(diagnostics@),
                forall|l: usize| lset.contains(l) <==> lines@.contains(l),
                nseq == set_but_unused(diagnostics@),
                names@.len() == nseq.len(),
                forall|k: int| 0 <= k < names@.len() ==> sbytes(&names@[k]) == nseq[k],
                unused_variable_ok(bytes(source), lset, unit),
                i <= stmts@.len(),
                candidates@.len() == unused_spans(b@, lset, nseq, stmts@, i as int).len(),
                forall|k: int| 0 <= k < candidates@.len() ==> is_removal_of(
                    #[trigger] candidates@[k],
                    unused_spans(b@, lset, nseq, stmts@, i as int)[k],
                ),
            decreases stmts.len() - i,
        {
            let stmt = &stmts[i];
            let ghost before = unused_spans(b@, lset, nseq, stmts@, i as int);
            let stmt_start_line = line_index.line_of(stmt.range.start) - 1;
            let mut hit = false;
            match stmt.kind {
                StatementKind::Declaration => {
                    if contains_line(&lines, stmt_start_line) {
                        hit = true;
                    }
                },
                StatementKind::Expression => {
                    if names.len() > 0 {
                        match stmt.range.extract(source) {
                            Some(text) => {
                                hit = assigns_to_any(text, &names);
                            },
                            None => {},
                        }
                    }
                },
                _ => {},
            }
            proof {
                if stmt.kind is Expression && names@.len() > 0 && slice_ok(b@, stmt.range.start as int, stmt.range.end as int) {
                    let t = b@.subrange(stmt.range.start as int, stmt.range.end as int);
                    if hit {
                        let m = choose|m: int| 0 <= m < names@.len() && assigns_to(t, sbytes(&#[trigger] names@[m]));
                        assert(assigns_to(t, nseq[m]));
                    } else {
                        assert forall|m: int| 0 <= m < nseq.len() implies !assigns_to(t, #[trigger] nseq[m]) by {
                            assert(sbytes(&names@[m]) == nseq[m]);
                        }
                    }
                }
                assert(hit == is_unused_target(b@, lset, nseq, *stmt));
            }
            if hit {
                let extended = extend_to_line(source, stmt.range);
                candidates.push(Candidate::removal(extended.to_range()));
            }
            proof {
                let next = unused_spans(b@, lset, nseq, stmts@, i + 1);
                assert forall|k: int| 0 <= k < candidates@.len() implies is_removal_of(
                    #[trigger] candidates@[k],
                    next[k],
                ) by {
                    if k < before.len() {
                        assert(next[k] == before[k]);
                    }
                }
            }
            i += 1;
        }
        candidates
    }
}

} // verus!
