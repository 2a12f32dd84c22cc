use vstd::prelude::*;
use crate::engine::pass::{Candidate, removals_of, is_removal_of};
use crate::parser::ast::{Function, ParsedUnit};
use crate::passes::util::{extend_to_line, line_begin, line_stop};
use crate::text::{bytes, sbytes, slice_ok, disjoint_matches, count_disjoint, str_eq};

verus! {

broadcast use vstd::utf8::encode_utf8_valid_utf8;

/// Removes functions that are never called.
#[derive(Debug, Default)]
pub struct DeadFunctionPass;

/// How many times `name` occurs in the text, as `str::matches` counts it:
/// non-overlapping occurrences, and for an empty name one per character
/// boundary.
pub open spec fn name_count(b: Seq<u8>, chars: nat, name: Seq<u8>) -> nat {
    if name.len() == 0 {
        chars + 1
    } else {
        disjoint_matches(b, name, 0)
    }
}

/// `name` is among the called functions.
pub open spec fn is_called(calls: Seq<String>, name: Seq<char>) -> bool {
    exists|i: int| 0 <= i < calls.len() && (#[trigger] calls[i])@ == name
}

/// A function that is not `main`, is never called, and whose name occurs at
/// most once in the source.
pub open spec fn is_dead_function(
    b: Seq<u8>,
    chars: nat,
    calls: Seq<String>,
    f: Function,
) -> bool {
    &&& f.name@ != "main"@
    &&& !is_called(calls, f.name@)
    &&& name_count(b, chars, sbytes(&f.name)) <= 1
}

/// The line-extended ranges of the dead functions among `funcs[..n]`.
pub open spec fn dead_function_spans(
    b: Seq<u8>,
    chars: nat,
    calls: Seq<String>,
    funcs: Seq<Function>,
    n: int,
) -> Seq<(int, int)>
    decreases n,
{
    if n <= 0 {
        seq![]
    } else {
        dead_function_spans(b, chars, calls, funcs, n - 1) + if is_dead_function(
            b,
            chars,
            calls,
            funcs[n - 1],
        ) {
            seq![
                (
                    line_begin(b, funcs[n - 1].range.start as int),
                    line_stop(b, funcs[n - 1].range.end as int),
                ),
            ]
        } else {
            seq![]
        }
    }
}

/// `span` is the line-extended range of a function among `funcs[..n]` that
/// is not `main` and that no call names.
pub open spec fn span_of_uncalled_function(
    b: Seq<u8>,
    calls: Seq<String>,
    funcs: Seq<Function>,
    n: int,
    span: (int, int),
) -> bool {
    exists|i: int|
        0 <= i < n && funcs[i].name@ != "main"@ && !is_called(calls, funcs[i].name@) && span == (
            line_begin(b, (#[trigger] funcs[i]).range.start as int),
            line_stop(b, funcs[i].range.end as int),
        )
}

/// The pass never removes `main` or a function that is called: each span it
/// removes is the line-extended range of a function that is neither.
pub proof fn removes_only_uncalled_functions(b: Seq<u8>, chars: nat, calls: Seq<String>, funcs: Seq<Function>, n: int)
    requires
        0 <= n <= funcs.len(),
    ensures
        forall|k: int|
            0 <= k < dead_function_spans(b, chars, calls, funcs, n).len() ==> span_of_uncalled_function(
                b,
                calls,
                funcs,
                n,
                #[trigger] dead_function_spans(b, chars, calls, funcs, n)[k],
            ),
    decreases n,
{
    if n > 0 {
        removes_only_uncalled_functions(b, chars, calls, funcs, n - 1);
        let prev = dead_function_spans(b, chars, calls, funcs, n - 1);
        let all = dead_function_spans(b, chars, calls, funcs, n);
        assert forall|k: int| 0 <= k < all.len() implies span_of_uncalled_function(b, calls, funcs, n, #[trigger] all[k]) by {
            if k < prev.len() {
                assert(all[k] == prev[k]);
                assert(span_of_uncalled_function(b, calls, funcs, n - 1, prev[k]));
                let i = choose|i: int|
                    0 <= i < n - 1 && funcs[i].name@ != "main"@ && !is_called(calls, funcs[i].name@) && prev[k] == (
                        line_begin(b, (#[trigger] funcs[i]).range.start as int),
                        line_stop(b, funcs[i].range.end as int),
                    );
            } else {
                assert(is_dead_function(b, chars, calls, funcs[n - 1]));
                assert(all[k] == (line_begin(b, funcs[n - 1].range.start as int), line_stop(b, funcs[n - 1].range.end as int)));
            }
        }
    }
}

/// `span` is the line-extended range of a function among `funcs[..n]` that
/// is not `main`, that no call names, and whose name occurs at most once in
/// the text.
pub open spec fn span_of_unreferenced_function(
    b: Seq<u8>,
    chars: nat,
    calls: Seq<String>,
    funcs: Seq<Function>,
    n: int,
    span: (int, int),
) -> bool {
    exists|i: int|
        0 <= i < n && funcs[i].name@ != "main"@ && !is_called(calls, funcs[i].name@) && name_count(
            b,
            chars,
            sbytes(&(#[trigger] funcs[i]).name),
        ) <= 1 && span == (line_begin(b, funcs[i].range.start as int), line_stop(b, funcs[i].range.end as int))
}

/// A function whose name occurs more than once in the source (it is still
/// referenced, say as a function pointer) is never removed: each span the
/// pass removes is the line-extended range of a function that is not
/// `main`, is not called, and whose name the text holds at most once.
pub proof fn removes_only_unreferenced_functions(
    b: Seq<u8>,
    chars: nat,
    calls: Seq<String>,
    funcs: Seq<Function>,
    n: int,
)
    requires
        0 <= n <= funcs.len(),
    ensures
        forall|k: int|
            0 <= k < dead_function_spans(b, chars, calls, funcs, n).len() ==> span_of_unreferenced_function(
                b,
                chars,
                calls,
                funcs,
                n,
                #[trigger] dead_function_spans(b, chars, calls, funcs, n)[k],
            ),
    decreases n,
{
    if n > 0 {
        removes_only_unreferenced_functions(b, chars, calls, funcs, n - 1);
        let prev = dead_function_spans(b, chars, calls, funcs, n - 1);
        let all = dead_function_spans(b, chars, calls, funcs, n);
        assert forall|k: int| 0 <= k < all.len() implies span_of_unreferenced_function(
            b,
            chars,
            calls,
            funcs,
            n,
            #[trigger] all[k],
        ) by {
            if k < prev.len() {
                assert(all[k] == prev[k]);
                assert(span_of_unreferenced_function(b, chars, calls, funcs, n - 1, prev[k]));
                let i = choose|i: int|
                    0 <= i < n - 1 && funcs[i].name@ != "main"@ && !is_called(calls, funcs[i].name@) && name_count(
                        b,
                        chars,
                        sbytes(&(#[trigger] funcs[i]).name),
                    ) <= 1 && prev[k] == (
                        line_begin(b, funcs[i].range.start as int),
                        line_stop(b, funcs[i].range.end as int),
                    );
            } else {
                assert(is_dead_function(b, chars, calls, funcs[n - 1]));
                assert(all[k] == (line_begin(b, funcs[n - 1].range.start as int), line_stop(b, funcs[n - 1].range.end as int)));
            }
        }
    }
}

/// What the pass needs of the parse: the functions it removes lie in the
/// source on character boundaries.
pub open spec fn dead_function_ok(source: &str, unit: &ParsedUnit) -> bool {
    forall|i: int|
        0 <= i < unit.functions@.len() ==> {
            let f = #[trigger] unit.functions@[i];
            is_dead_function(bytes(source), source@.len(), unit.function_calls@, f) ==> (
            f.range.start <= f.range.end && slice_ok(
                bytes(source),
                f.range.start as int,
                f.range.end as int,
            ))
        }
}

fn calls_contain(calls: &[String], name: &str) -> (r: bool)
    ensures
        r == is_called(calls@, name@),
{
    let mut i: usize = 0;
    while i < calls.len()
        invariant
            i <= calls@.len(),
            forall|j: int| 0 <= j < i ==> calls@[j]@ != name@,
        decreases calls.len() - i,
    {
        if str_eq(calls[i].as_str(), name) {
            return true;
        }
        i += 1;
    }
    false
}

impl DeadFunctionPass {
    /// One removal per dead function, in order.
    pub fn candidates(&self, source: &str, unit: &ParsedUnit) -> (r: Vec<Candidate>)
        requires
            dead_function_ok(source, unit),
        ensures
            removals_of(
                r@,
                dead_function_spans(
                    bytes(source),
                    source@.len(),
                    unit.function_calls@,
                    unit.functions@,
                    unit.functions@.len() as int,
                ),
            ),
    {
        let funcs = unit.functions();
        let calls = unit.function_calls();
        let mut candidates: Vec<Candidate> = Vec::new();
        let mut i: usize = 0;
        while i < funcs.len()
            invariant
                funcs@ == unit.functions@,
                calls@ == unit.function_calls@,
                dead_function_ok(source, unit),
                i <= funcs@.len(),
                removals_of(
                    candidates@,
                    dead_function_spans(bytes(source), source@.len(), calls@, funcs@, i as int),
                ),
            decreases funcs.len() - i,
        {
            let func = &funcs[i];
            let ghost spans = dead_function_spans(
                bytes(source),
                source@.len(),
                calls@,
                funcs@,
                i as int,
            );
            let name = func.name.as_str();
            if !str_eq(name, "main") && !calls_contain(calls, name) {
                let few = if name.is_empty() {
                    source.is_empty()
                } else {
                    count_disjoint(source.as_bytes(), name.as_bytes()) <= 1
                };
                proof {
                    if name@.len() > 0 {
                        assert(bytes(name).len() > 0);
                    } else {
                        assert(bytes(name) =~= Seq::<u8>::empty());
                    }
                }
                if few {
                    let extended = extend_to_line(source, func.range);
                    candidates.push(Candidate::removal(extended.to_range()));
                }
            }
            proof {
                let next = dead_function_spans(
                    bytes(source),
                    source@.len(),
                    calls@,
                    funcs@,
                    i + 1,
                );
                assert forall|k: int| 0 <= k < candidates@.len() implies is_removal_of(
                    #[trigger] candidates@[k],
                    next[k],
                ) by {
                    if k < spans.len() {
                        assert(next[k] == spans[k]);
                    }
                }
            }
            i += 1;
        }
        candidates
    }
}

} // verus!
