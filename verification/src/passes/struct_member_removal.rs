use vstd::prelude::*;
use crate::engine::pass::{Candidate, removals_of, is_removal_of};
use crate::parser::ast::{ParsedUnit, StructField};
use crate::parser::span::ByteRange;
use crate::passes::util::{extend_to_line, line_begin, line_stop};
use crate::text::{bytes, sbytes, slice_ok, scan_safe, accessed, has_access, semi_end, semicolon_end};

verus! {

broadcast use vstd::utf8::encode_utf8_valid_utf8;

/// Removes struct fields that are never accessed with `.field` or `->field`.
#[derive(Debug, Default)]
pub struct StructMemberRemovalPass;

/// `.` then the field's name.
pub open spec fn dot_pattern(name: Seq<u8>) -> Seq<u8> {
    seq![0x2eu8] + name
}

/// `->` then the field's name.
pub open spec fn arrow_pattern(name: Seq<u8>) -> Seq<u8> {
    seq![0x2du8, 0x3eu8] + name
}

/// A named field that the source never accesses.
pub open spec fn is_unaccessed_field(b: Seq<u8>, f: StructField) -> bool {
    &&& f.name@.len() > 0
    &&& !accessed(b, dot_pattern(sbytes(&f.name)))
    &&& !accessed(b, arrow_pattern(sbytes(&f.name)))
}

/// The removal span of a field: its range and a `;` that follows on the
/// same line, widened to whole lines.
pub open spec fn field_span(b: Seq<u8>, f: StructField) -> (int, int) {
    (
        line_begin(b, f.range.start as int),
        line_stop(b, semi_end(b, f.range.end as int, f.range.end as int)),
    )
}

/// The removal spans of the unaccessed fields among `fields[..n]`.
pub open spec fn unaccessed_field_spans(b: Seq<u8>, fields: Seq<StructField>, n: int) -> Seq<
    (int, int),
>
    decreases n,
{
    if n <= 0 {
        seq![]
    } else {
        unaccessed_field_spans(b, fields, n - 1) + if is_unaccessed_field(b, fields[n - 1]) {
            seq![field_span(b, fields[n - 1])]
        } else {
            seq![]
        }
    }
}

/// What the pass needs of the parse: the fields it removes lie in the
/// source on character boundaries.
pub open spec fn struct_member_ok(b: Seq<u8>, unit: &ParsedUnit) -> bool {
    forall|i: int|
        0 <= i < unit.struct_fields@.len() ==> {
            let f = #[trigger] unit.struct_fields@[i];
            is_unaccessed_field(b, f) ==> (f.range.start <= f.range.end && slice_ok(
                b,
                f.range.start as int,
                f.range.end as int,
            ))
        }
}

/// Whether `pattern` occurs in `source` with no identifier byte right after it.
pub fn has_identifier_access(source: &str, pattern: &str, _field_name: &str) -> (r: bool)
    requires
        scan_safe(bytes(source), bytes(pattern)),
    ensures
        r == accessed(bytes(source), bytes(pattern)),
{
    has_access(source.as_bytes(), pattern.as_bytes())
}

/// Just after the first `;` at or after `from` that comes before any
/// newline, or `from` when the line has none.
pub fn find_field_end(source: &str, from: usize) -> (r: usize)
    requires
        slice_ok(bytes(source), from as int, bytes(source).len() as int),
    ensures
        r == semi_end(bytes(source), from as int, from as int),
        from <= r <= bytes(source).len(),
        r > from ==> bytes(source)[r - 1] == 0x3b,
{
    semicolon_end(source.as_bytes(), from)
}

fn prefixed(prefix: &[u8], name: &str) -> (r: Vec<u8>)
    ensures
        r@ == prefix@ + bytes(name),
{
    let nb = name.as_bytes();
    let mut r: Vec<u8> = Vec::new();
    let mut i: usize = 0;
    while i < prefix.len()
        invariant
            i <= prefix@.len(),
            r@ == prefix@.subrange(0, i as int),
        decreases prefix.len() - i,
    {
        r.push(prefix[i]);
        i += 1;
    }
    let mut j: usize = 0;
    while j < nb.len()
        invariant
            j <= nb@.len(),
            r@ == prefix@ + nb@.subrange(0, j as int),
        decreases nb.len() - j,
    {
        r.push(nb[j]);
        j += 1;
    }
    assert(nb@.subrange(0, j as int) =~= nb@);
    r
}

impl StructMemberRemovalPass {
    /// One removal per unaccessed field, in order.
    pub fn candidates(&self, source: &str, unit: &ParsedUnit) -> (r: Vec<Candidate>)
        requires
            struct_member_ok(bytes(source), unit),
        ensures
            removals_of(
                r@,
                unaccessed_field_spans(
                    bytes(source),
                    unit.struct_fields@,
                    unit.struct_fields@.len() as int,
                ),
            ),
    {
        let fields = unit.struct_fields();
        let b = source.as_bytes();
        let mut candidates: Vec<Candidate> = Vec::new();
        let mut i: usize = 0;
        let dot: [u8; 1] = [0x2e];
        let arrow: [u8; 2] = [0x2d, 0x3e];
        proof {
            assert(dot@ =~= seq![0x2eu8]);
            assert(arrow@ =~= seq![0x2du8, 0x3eu8]);
        }
        while i < fields.len()
            invariant
                fields@ == unit.struct_fields@,
                b@ == bytes(source),
                dot@ == seq![0x2eu8],
                arrow@ == seq![0x2du8, 0x3eu8],
                struct_member_ok(bytes(source), unit),
                i <= fields@.len(),
                removals_of(
                    candidates@,
                    unaccessed_field_spans(bytes(source), fields@, i as int),
                ),
            decreases fields.len() - i,
        {
            let field = &fields[i];
            let ghost spans = unaccessed_field_spans(bytes(source), fields@, i as int);
            if !field.name.as_str().is_empty() {
                let dot_access = prefixed(dot.as_slice(), field.name.as_str());
                let arrow_access = prefixed(arrow.as_slice(), field.name.as_str());
                let has_dot = has_access(b, dot_access.as_slice());
                let has_arrow = has_access(b, arrow_access.as_slice());
                if !has_dot && !has_arrow {
                    proof {
                        vstd::utf8::is_char_boundary_start_end_of_seq(bytes(source));
                    }
                    let end = find_field_end(source, field.range.end);
                    proof {
                        if end > field.range.end {
                            crate::text::lemma_ascii_boundaries(bytes(source), end - 1);
                        }
                    }
                    let range_with_semi = ByteRange::new(field.range.start, end);
                    let extended = extend_to_line(source, range_with_semi);
                    candidates.push(Candidate::removal(extended.to_range()));
                }
            }
            proof {
                let next = unaccessed_field_spans(bytes(source), fields@, i + 1);
                assert forall|k: int| 0 <= k < candidates@.len() implies is_removal_of(
                    #[trigger] candidates@[k],
                    next[k],
                ) by {
                    if k < spans.len() {
                        assert(next[k] == spans[k]);
                    }
                }
            }
            i += 1;
        }
        candidates
    }
}

} // verus!
