use vstd::prelude::*;
use crate::engine::pass::{Candidate, removals_of};
use crate::parser::ast::{Declaration, DeclarationKind, ParsedUnit};
use crate::passes::util::{extend_to_line, line_begin, line_stop};
use crate::text::{bytes, sbytes, slice_ok, occurrences, scan_safe, count_ident};

verus! {

/// Removes global variables whose name occurs only once (in their own
/// declaration).
#[derive(Debug, Default)]
pub struct GlobalRemovalPass;

/// A global variable: a variable declared before the first function body.
pub open spec fn is_global_var(d: Declaration, header_end: usize) -> bool {
    d.kind is Variable && d.range.start < header_end
}

/// A global variable with a name that occurs at most once in the source.
pub open spec fn is_unused_global(b: Seq<u8>, d: Declaration, header_end: usize) -> bool {
    &&& is_global_var(d, header_end)
    &&& d.name@.len() > 0
    &&& occurrences(b, sbytes(&d.name)) <= 1
}

/// The line-extended ranges of the unused globals among `decls[..n]`.
pub open spec fn unused_global_spans(
    b: Seq<u8>,
    decls: Seq<Declaration>,
    header_end: usize,
    n: int,
) -> Seq<(int, int)>
    decreases n,
{
    if n <= 0 {
        seq![]
    } else {
        unused_global_spans(b, decls, header_end, n - 1) + if is_unused_global(
            b,
            decls[n - 1],
            header_end,
        ) {
            seq![
                (
                    line_begin(b, decls[n - 1].range.start as int),
                    line_stop(b, decls[n - 1].range.end as int),
                ),
            ]
        } else {
            seq![]
        }
    }
}

/// What the pass needs of the parse to read it without failing: the names
/// it searches for can be searched for, and the ranges it removes lie in
/// the source on character boundaries.
pub open spec fn global_removal_ok(b: Seq<u8>, unit: &ParsedUnit) -> bool {
    forall|i: int|
        0 <= i < unit.declarations@.len() ==> {
            let d = #[trigger] unit.declarations@[i];
            &&& (is_global_var(d, unit.header_end) && d.name@.len() > 0) ==> scan_safe(
                b,
                sbytes(&d.name),
            )
            &&& is_unused_global(b, d, unit.header_end) ==> (d.range.start <= d.range.end
                && slice_ok(b, d.range.start as int, d.range.end as int))
        }
}

/// The number of whole-identifier occurrences of `name` in `source`.
pub fn count_identifier_occurrences(source: &str, name: &str) -> (r: usize)
    requires
        scan_safe(bytes(source), bytes(name)),
    ensures
        r == occurrences(bytes(source), bytes(name)),
{
    count_ident(source.as_bytes(), name.as_bytes())
}

impl GlobalRemovalPass {
    /// One removal per unused global variable, in declaration order, each
    /// widened to whole lines.
    pub fn candidates(&self, source: &str, unit: &ParsedUnit) -> (r: Vec<Candidate>)
        requires
            global_removal_ok(bytes(source), unit),
        ensures
            removals_of(
                r@,
                unused_global_spans(
                    bytes(source),
                    unit.declarations@,
                    unit.header_end,
                    unit.declarations@.len() as int,
                ),
            ),
    {
        let header_end = unit.header_end();
        let decls = unit.declarations();
        let mut candidates: Vec<Candidate> = Vec::new();
        let mut i: usize = 0;
        while i < decls.len()
            invariant
                decls@ == unit.declarations@,
                header_end == unit.header_end,
                global_removal_ok(bytes(source), unit),
                i <= decls@.len(),
                removals_of(
                    candidates@,
                    unused_global_spans(bytes(source), decls@, header_end, i as int),
                ),
            decreases decls.len() - i,
        {
            let decl = &decls[i];
            let is_global_var = match decl.kind {
                DeclarationKind::Variable { .. } => decl.range.start < header_end,
                _ => false,
            };
            let ghost spans = unused_global_spans(bytes(source), decls@, header_end, i as int);
            if is_global_var && !decl.name.as_str().is_empty() {
                let count = count_identifier_occurrences(source, decl.name.as_str());
                if count <= 1 {
                    let extended = extend_to_line(source, decl.range);
                    candidates.push(Candidate::removal(extended.to_range()));
                }
            }
            proof {
                let next = unused_global_spans(bytes(source), decls@, header_end, i + 1);
                assert(candidates@.len() == next.len());
                assert forall|k: int| 0 <= k < candidates@.len() implies crate::engine::pass::is_removal_of(
                    #[trigger] candidates@[k],
                    next[k],
                ) by {
                    if k < spans.len() {
                        assert(next[k] == spans[k]);
                    }
                }
            }
            i += 1;
        }
        candidates
    }
}

} // verus!
