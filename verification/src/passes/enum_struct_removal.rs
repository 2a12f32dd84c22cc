use vstd::prelude::*;
use crate::engine::pass::{Candidate, removals_of, is_removal_of};
use crate::parser::ast::{Declaration, DeclarationKind, ParsedUnit};
use crate::parser::span::ByteRange;
use crate::passes::util::{extend_to_line, line_begin, line_stop};
use crate::text::{bytes, sbytes, slice_ok, occurrences, scan_safe, count_ident, semi_end, semicolon_end};

verus! {

broadcast use vstd::utf8::encode_utf8_valid_utf8;

/// Removes `enum` and `struct` declarations whose name occurs only once.
#[derive(Debug, Default)]
pub struct EnumStructRemovalPass;

/// A named `struct` or `enum` declaration whose name occurs at most once.
pub open spec fn is_unused_type(b: Seq<u8>, d: Declaration) -> bool {
    &&& (d.kind is Struct || d.kind is Enum)
    &&& d.name@.len() > 0
    &&& occurrences(b, sbytes(&d.name)) <= 1
}

/// The span removed for an unused type declaration: its lines, a `;` that
/// follows on the last of them, and the rest of that line.
pub open spec fn type_decl_span(b: Seq<u8>, d: Declaration) -> (int, int) {
    let s = line_begin(b, d.range.start as int);
    let e = line_stop(b, d.range.end as int);
    (line_begin(b, s), line_stop(b, semi_end(b, e, e)))
}

/// The removal spans of the unused types among `decls[..n]`.
pub open spec fn unused_type_spans(b: Seq<u8>, decls: Seq<Declaration>, n: int) -> Seq<(int, int)>
    decreases n,
{
    if n <= 0 {
        seq![]
    } else {
        unused_type_spans(b, decls, n - 1) + if is_unused_type(b, decls[n - 1]) {
            seq![type_decl_span(b, decls[n - 1])]
        } else {
            seq![]
        }
    }
}

/// What the pass needs of the parse: the type names it counts can be
/// searched for, and the declarations it removes lie in the source on
/// character boundaries.
pub open spec fn enum_struct_ok(b: Seq<u8>, unit: &ParsedUnit) -> bool {
    forall|i: int|
        0 <= i < unit.declarations@.len() ==> {
            let d = #[trigger] unit.declarations@[i];
            &&& ((d.kind is Struct || d.kind is Enum) && d.name@.len() > 0) ==> scan_safe(
                b,
                sbytes(&d.name),
            )
            &&& is_unused_type(b, d) ==> (d.range.start <= d.range.end && slice_ok(
                b,
                d.range.start as int,
                d.range.end as int,
            ))
        }
}

/// The number of whole-identifier occurrences of `name` in `source`.
pub fn count_identifier(source: &str, name: &str) -> (r: usize)
    requires
        scan_safe(bytes(source), bytes(name)),
    ensures
        r == occurrences(bytes(source), bytes(name)),
{
    count_ident(source.as_bytes(), name.as_bytes())
}

/// Just after the first `;` at or after `from` that comes before any
/// newline, or `from` when the line has none.
pub fn find_semicolon_end(source: &str, from: usize) -> (r: usize)
    requires
        slice_ok(bytes(source), from as int, bytes(source).len() as int),
    ensures
        r == semi_end(bytes(source), from as int, from as int),
        from <= r <= bytes(source).len(),
        r > from ==> bytes(source)[r - 1] == 0x3b,
{
    semicolon_end(source.as_bytes(), from)
}

impl EnumStructRemovalPass {
    /// One removal per unused `struct` or `enum` declaration, in order.
    pub fn candidates(&self, source: &str, unit: &ParsedUnit) -> (r: Vec<Candidate>)
        requires
            enum_struct_ok(bytes(source), unit),
        ensures
            removals_of(
                r@,
                unused_type_spans(
                    bytes(source),
                    unit.declarations@,
                    unit.declarations@.len() as int,
                ),
            ),
    {
        let decls = unit.declarations();
        let mut candidates: Vec<Candidate> = Vec::new();
        let mut i: usize = 0;
        while i < decls.len()
            invariant
                decls@ == unit.declarations@,
                enum_struct_ok(bytes(source), unit),
                i <= decls@.len(),
                removals_of(candidates@, unused_type_spans(bytes(source), decls@, i as int)),
            decreases decls.len() - i,
        {
            let decl = &decls[i];
            let is_type_decl = match decl.kind {
                DeclarationKind::Struct => true,
                DeclarationKind::Enum => true,
                _ => false,
            };
            let ghost spans = unused_type_spans(bytes(source), decls@, i as int);
            if is_type_decl && !decl.name.as_str().is_empty() {
                let count = count_identifier(source, decl.name.as_str());
                if count <= 1 {
                    let extended = extend_to_line(source, decl.range);
                    proof {
                        vstd::utf8::is_char_boundary_start_end_of_seq(bytes(source));
                    }
                    let end = find_semicolon_end(source, extended.end);
                    proof {
                        if end > extended.end {
                            crate::text::lemma_ascii_boundaries(bytes(source), end - 1);
                        }
                    }
                    let range = ByteRange::new(extended.start, end);
                    let fully_extended = extend_to_line(source, range);
                    candidates.push(Candidate::removal(fully_extended.to_range()));
                }
            }
            proof {
                let next = unused_type_spans(bytes(source), decls@, i + 1);
                assert forall|k: int| 0 <= k < candidates@.len() implies is_removal_of(
                    #[trigger] candidates@[k],
                    next[k],
                ) by {
                    if k < spans.len() {
                        assert(next[k] == spans[k]);
                    }
                }
            }
            i += 1;
        }
        candidates
    }
}

} // verus!
