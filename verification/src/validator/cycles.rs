//! Cycle counts: reading them from `perf stat`, and padding a reduced
//! program so that it runs about as long as the original.
use vstd::prelude::*;
use vstd::utf8::*;
use crate::numbers::{unsigned_value, parse_u64, decimal, push_decimal};
use crate::text::{bytes, sbytes, substr, push_str, to_owned_string, match_from, lemma_match_from, find_match, byte_from, lemma_byte_from, find_byte_or_end, lemma_ascii_boundaries};
use crate::validator::pattern::{pattern_captures, captures, groups_are, opt_view};

verus! {

broadcast use vstd::utf8::encode_utf8_valid_utf8;

/// The pattern of the cycle count in `perf stat -x ,` output.
pub open spec fn cycles_pattern() -> Seq<char> {
    "(\\d+),,cpu-cycles"@
}

/// The cycle count that the groups of the cycle pattern captured record:
/// group 1, when it is a number that fits.
pub open spec fn cycles_of(g: Seq<Option<Seq<char>>>) -> Option<u64> {
    if g.len() > 1 && g[1] is Some {
        match unsigned_value(g[1]->0) {
            Some(v) => if v <= u64::MAX {
                Some(v as u64)
            } else {
                None
            },
            None => None,
        }
    } else {
        None
    }
}

/// The cycle count that `perf stat -x ,` reports in `stderr`, when it
/// reports one that fits.
pub open spec fn perf_cycles(stderr: Seq<char>) -> Option<u64> {
    match pattern_captures(cycles_pattern(), stderr) {
        Some(g) => cycles_of(g),
        None => None,
    }
}

/// The cycle count that the captured groups record (see `cycles_of`).
pub fn cycles_of_groups(groups: &[Option<String>]) -> (r: Option<u64>)
    ensures
        r == cycles_of(groups@.map_values(|o: Option<String>| opt_view(o))),
{
    if groups.len() <= 1 {
        return None;
    }
    match &groups[1] {
        Some(text) => parse_u64(text.as_str()),
        None => None,
    }
}

/// Reads the cycle count from the error output of `perf stat -e cpu-cycles
/// -x ,` (see `perf_cycles`).
pub fn cycles_from_perf(stderr: &str) -> (r: Option<u64>)
    ensures
        r == perf_cycles(stderr@),
{
    let pattern = "(\\d+),,cpu-cycles";
    match captures(pattern, stderr) {
        Some(groups) => {
            let r = cycles_of_groups(groups.as_slice());
            proof {
                let g = choose|g: Seq<Option<Seq<char>>>| pattern_captures(pattern@, stderr@) == Some(g) && groups_are(groups@, g);
                assert(groups@.map_values(|o: Option<String>| opt_view(o)) =~= g);
            }
            r
        },
        None => None,
    }
}

/// `int main(`.
pub open spec fn main_marker() -> Seq<u8> {
    encode_utf8("int main("@)
}

/// The padding loop that runs `n` times.
pub open spec fn padding(n: nat) -> Seq<u8> {
    encode_utf8("\n    { volatile int _pad = 0; for (long _i = 0; _i < "@) + decimal(n) + encode_utf8(
        "; _i++) _pad += (int)_i; }\n"@,
    )
}

/// `b` with the padding loop that runs `n` times put right after the `{`
/// that opens `main` (the first `{` after the first `int main(`); `None`
/// when `n` is 0 or there is no such `{`.
pub open spec fn padded(b: Seq<u8>, n: u64) -> Option<Seq<u8>> {
    if n == 0 {
        None
    } else {
        let m = match_from(b, main_marker(), 0);
        if m > b.len() {
            None
        } else {
            let br = byte_from(b, 0x7b, m);
            if br >= b.len() {
                None
            } else {
                Some(b.subrange(0, br + 1) + padding(n as nat) + b.subrange(br + 1, b.len() as int))
            }
        }
    }
}

/// Puts a loop that runs `loop_iters` times at the start of `main` (see
/// `padded`).
pub fn pad_source(reduced_source: &str, loop_iters: u64) -> (r: Option<String>)
    ensures
        match padded(bytes(reduced_source), loop_iters) {
            Some(p) => r matches Some(s) && sbytes(&s) == p,
            None => r is None,
        },
{
    if loop_iters == 0 {
        return None;
    }
    let b = reduced_source.as_bytes();
    let marker = "int main(";
    let head = "\n    { volatile int _pad = 0; for (long _i = 0; _i < ";
    let tail = "; _i++) _pad += (int)_i; }\n";
    proof {
        lemma_match_from(b@, bytes(marker), 0);
    }
    let m = match find_match(b, marker.as_bytes(), 0) {
        Some(m) => m,
        None => {
            return None;
        },
    };
    proof {
        lemma_byte_from(b@, 0x7b, m as int);
    }
    let br = find_byte_or_end(b, 0x7b, m);
    if br >= b.len() {
        return None;
    }
    proof {
        lemma_ascii_boundaries(b@, br as int);
        is_char_boundary_start_end_of_seq(b@);
    }
    let mut out = to_owned_string(substr(reduced_source, 0, br + 1));
    push_str(&mut out, head);
    push_decimal(&mut out, loop_iters);
    push_str(&mut out, tail);
    push_str(&mut out, substr(reduced_source, br + 1, b.len()));
    proof {
        assert(sbytes(&out) =~= b@.subrange(0, br + 1) + padding(loop_iters as nat) + b@.subrange(br + 1, b@.len() as int));
    }
    Some(out)
}

} // verus!
