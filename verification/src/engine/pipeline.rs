use vstd::prelude::*;
use vstd::string::StringExecFns;
use std::time::Duration;
use std::time::Instant;
use crate::engine::context::CoverageData;
use crate::engine::pass::{Candidate, ReductionPass, spliced, coverage_value};
use crate::text::slice_ok;
use vstd::utf8::{encode_utf8, decode_utf8, encode_utf8_decode_utf8};
use crate::engine::clock::{now, elapsed_since, duration_from_secs, duration_at_least, secs_duration};

verus! {

/// Some state of the oracle `F` answered `true` for a text with these characters.
pub open spec fn accepted_by<F: FnMut(&str) -> bool>(text: Seq<char>) -> bool {
    exists|o: F, t: &str| t@ == text && call_ensures(o, (t,), true)
}

/// Some state of the oracle `F` answered `v` for a text with these characters.
pub open spec fn answered<F: FnMut(&str) -> bool>(text: Seq<char>, v: bool) -> bool {
    exists|o: F, t: &str| t@ == text && call_ensures(o, (t,), v)
}

/// The text that candidate `c` makes of `t` (as `Candidate::apply` makes
/// it), or `None` when its range does not fit `t`.
pub open spec fn applied(c: Candidate, t: Seq<char>) -> Option<Seq<char>> {
    let b = encode_utf8(t);
    if slice_ok(b, c.range.start as int, c.range.end as int) {
        Some(decode_utf8(spliced(b, c.range.start as int, c.range.end as int, encode_utf8(c.replacement@))))
    } else {
        None
    }
}

/// The text after trying the candidates `cs` in order on `cur`, where
/// `answers[k]` is the oracle's answer on the text candidate `k` gives:
/// a candidate that does not fit is skipped, an accepted text becomes the
/// current one, a refused one is dropped.
pub open spec fn tried_from(cur: Seq<char>, cs: Seq<Candidate>, answers: Seq<bool>) -> Seq<char>
    decreases cs.len(),
{
    if cs.len() == 0 || answers.len() != cs.len() {
        cur
    } else {
        let prev = tried_from(cur, cs.drop_last(), answers.drop_last());
        match applied(cs.last(), prev) {
            Some(t) => if answers.last() {
                t
            } else {
                prev
            },
            None => prev,
        }
    }
}

/// Each answer in `answers` is one the oracle gave on the text that the
/// candidate made of the then-current text, when the candidate fit.
pub open spec fn heard<F: FnMut(&str) -> bool>(cur: Seq<char>, cs: Seq<Candidate>, answers: Seq<bool>) -> bool
    decreases cs.len(),
{
    if cs.len() == 0 {
        answers.len() == 0
    } else {
        &&& answers.len() == cs.len()
        &&& heard::<F>(cur, cs.drop_last(), answers.drop_last())
        &&& match applied(cs.last(), tried_from(cur, cs.drop_last(), answers.drop_last())) {
            Some(t) => answered::<F>(t, answers.last()),
            None => true,
        }
    }
}

/// Trying the candidates `cs` in order on `cur`, asking the oracle about
/// each one that fits, can end at `r`.
pub open spec fn tries<F: FnMut(&str) -> bool>(cur: Seq<char>, cs: Seq<Candidate>, r: Seq<char>) -> bool {
    exists|answers: Seq<bool>| heard::<F>(cur, cs, answers) && r == tried_from(cur, cs, answers)
}

/// `list` is `proposed` sorted from the last range start to the first,
/// stably (as `sort_by_start_desc` sorts it).
#[verifier::opaque]
pub open spec fn sorted_desc_of(list: Seq<Candidate>, proposed: Seq<Candidate>) -> bool {
    &&& list.len() == proposed.len()
    &&& list.to_multiset() == proposed.to_multiset()
    &&& sorted_by_start_desc(list)
    &&& forall|k: usize| starting_at(list, k) == starting_at(proposed, k)
}

/// Trying the sorted candidate list `list` on `mid` ends at `r`: all of
/// it, unless the wall-clock limit cut it short.
pub open spec fn list_tried<F: FnMut(&str) -> bool>(mid: Seq<char>, list: Seq<Candidate>, r: Seq<char>, timed: bool) -> bool {
    exists|n: int| 0 <= n <= list.len() && tries::<F>(mid, list.take(n), r) && (!timed ==> n == list.len())
}

/// One round of passes: `lists[p]` is the sorted list of pass `p`, which ran
/// on `ms[p]` and left `ms[p + 1]`.
#[verifier::opaque]
pub open spec fn round_tried<F: FnMut(&str) -> bool>(lists: Seq<Seq<Candidate>>, ms: Seq<Seq<char>>, timed: bool) -> bool {
    &&& ms.len() == lists.len() + 1
    &&& forall|p: int|
        0 <= p < lists.len() ==> sorted_by_start_desc(#[trigger] lists[p]) && list_tried::<F>(ms[p], lists[p], ms[p + 1], timed)
}

/// A reduction of `source` to `r` in rounds: round `k` runs the passes in
/// order, pass `p` on `mids[k][p]` with the sorted list `rounds[k][p]`,
/// starting at `texts[k]` and ending at `texts[k + 1]`; each round runs at
/// most `passes` passes, and there are at most `limit` rounds. Without a
/// wall-clock limit every round runs all the passes, and the rounds stop
/// only at the limit or after a round that changed nothing.
pub open spec fn reduction_trace<F: FnMut(&str) -> bool>(
    source: Seq<char>,
    rounds: Seq<Seq<Seq<Candidate>>>,
    texts: Seq<Seq<char>>,
    mids: Seq<Seq<Seq<char>>>,
    r: Seq<char>,
    passes: nat,
    limit: u32,
    timed: bool,
) -> bool {
    &&& texts.len() == rounds.len() + 1
    &&& mids.len() == rounds.len()
    &&& texts[0] == source
    &&& texts.last() == r
    &&& rounds.len() <= limit
    &&& forall|k: int|
        0 <= k < rounds.len() ==> {
            &&& round_tried::<F>(#[trigger] rounds[k], mids[k], timed)
            &&& mids[k].len() == rounds[k].len() + 1
            &&& mids[k][0] == texts[k]
            &&& mids[k].last() == texts[k + 1]
            &&& rounds[k].len() <= passes
            &&& !timed ==> rounds[k].len() == passes
        }
    &&& !timed ==> (rounds.len() == limit || (rounds.len() > 0 && texts[rounds.len() - 1] == r))
}

/// `v` is ordered by range start, from the last start to the first.
pub open spec fn sorted_by_start_desc(v: Seq<Candidate>) -> bool {
    forall|i: int, j: int| 0 <= i < j < v.len() ==> v[i].range.start >= v[j].range.start
}

/// Whether a candidate's range starts at `k`.
pub open spec fn starts_at(k: usize) -> spec_fn(Candidate) -> bool {
    |c: Candidate| c.range.start == k
}

/// The candidates of `v` whose range starts at `k`, in order.
pub open spec fn starting_at(v: Seq<Candidate>, k: usize) -> Seq<Candidate> {
    v.filter(starts_at(k))
}

/// Swapping two neighbours that start at different offsets keeps, for each
/// offset, the order of the candidates that start there.
proof fn lemma_swap_keeps_starts(s: Seq<Candidate>, a: int, k: usize)
    requires
        0 <= a,
        a + 1 < s.len(),
        s[a].range.start != s[a + 1].range.start,
    ensures
        starting_at(s.update(a, s[a + 1]).update(a + 1, s[a]), k) == starting_at(s, k),
{
    let pred = starts_at(k);
    let t = s.update(a, s[a + 1]).update(a + 1, s[a]);
    let p = s.subrange(0, a);
    let q = s.subrange(a + 2, s.len() as int);
    let m = seq![s[a], s[a + 1]];
    let n = seq![s[a + 1], s[a]];
    assert(s =~= p + m + q);
    assert(t =~= p + n + q);
    Seq::filter_distributes_over_add(p + m, q, pred);
    Seq::filter_distributes_over_add(p, m, pred);
    Seq::filter_distributes_over_add(p + n, q, pred);
    Seq::filter_distributes_over_add(p, n, pred);
    reveal_with_fuel(Seq::filter, 3);
    assert(m.drop_last() =~= seq![s[a]]);
    assert(n.drop_last() =~= seq![s[a + 1]]);
    assert(seq![s[a]].drop_last() =~= Seq::<Candidate>::empty());
    assert(seq![s[a + 1]].drop_last() =~= Seq::<Candidate>::empty());
    if pred(s[a]) {
        assert(m.filter(pred) =~= seq![s[a]]);
        assert(n.filter(pred) =~= seq![s[a]]);
    } else if pred(s[a + 1]) {
        assert(m.filter(pred) =~= seq![s[a + 1]]);
        assert(n.filter(pred) =~= seq![s[a + 1]]);
    } else {
        assert(m.filter(pred) =~= Seq::<Candidate>::empty());
        assert(n.filter(pred) =~= Seq::<Candidate>::empty());
    }
}

/// Orders candidates from the last range start to the first, keeping the
/// order of candidates that start at the same offset (a stable sort, as
/// `sort_by` on the descending start).
pub fn sort_by_start_desc(v: &mut Vec<Candidate>)
    ensures
        final(v)@.to_multiset() == old(v)@.to_multiset(),
        final(v)@.len() == old(v)@.len(),
        sorted_by_start_desc(final(v)@),
        forall|k: usize| starting_at(final(v)@, k) == starting_at(old(v)@, k),
{
    let n = v.len();
    let mut i: usize = 1;
    while i < n
        invariant
            n == v@.len(),
            1 <= i || n == 0,
            i <= n || n == 0,
            v@.to_multiset() == old(v)@.to_multiset(),
            forall|k: usize| starting_at(v@, k) == starting_at(old(v)@, k),
            forall|a: int, b: int| 0 <= a < b < i && b < n ==> v@[a].range.start >= v@[b].range.start,
        decreases n - i,
    {
        let mut j: usize = i;
        while j > 0 && v[j - 1].range.start < v[j].range.start
            invariant
                n == v@.len(),
                0 <= j <= i < n,
                v@.to_multiset() == old(v)@.to_multiset(),
                forall|k: usize| starting_at(v@, k) == starting_at(old(v)@, k),
                forall|a: int, b: int|
                    0 <= a < b <= i && a != j && b != j ==> v@[a].range.start >= v@[b].range.start,
                forall|b: int| j < b <= i ==> v@[j as int].range.start > v@[b].range.start,
            decreases j,
        {
            let ghost before = v@;
            let x = v[j - 1].clone();
            let y = v[j].clone();
            v.set(j - 1, y);
            v.set(j, x);
            proof {
                assert(v@ =~= before.update(j - 1, before[j as int]).update(j as int, before[j - 1]));
                lemma_swap_multiset(before, j - 1, j as int);
                assert forall|k: usize| starting_at(v@, k) == starting_at(old(v)@, k) by {
                    lemma_swap_keeps_starts(before, j - 1, k);
                }
            }
            j -= 1;
        }
        i += 1;
    }
}

proof fn lemma_swap_multiset(s: Seq<Candidate>, a: int, b: int)
    requires
        0 <= a < b < s.len(),
    ensures
        s.update(a, s[b]).update(b, s[a]).to_multiset() == s.to_multiset(),
{
    let t = s.update(a, s[b]);
    vstd::seq_lib::to_multiset_update(s, a, s[b]);
    vstd::seq_lib::to_multiset_update(t, b, s[a]);
    assert(t[b] == s[b]);
    let m = s.to_multiset();
    broadcast use vstd::multiset::group_multiset_axioms;
    broadcast use vstd::seq_lib::group_to_multiset_ensures;
    assert(s.contains(s[a]));
    assert(m.count(s[a]) > 0);
    assert(m.insert(s[b]).remove(s[a]).insert(s[a]).remove(s[b]) =~= m);
}

/// Runs reduction passes over a source text until nothing more is accepted.
pub struct Pipeline {
    passes: Vec<Box<dyn ReductionPass>>,
    max_iterations: u32,
    total_timeout: Option<Duration>,
}

impl Pipeline {
    /// The number of rounds the pipeline runs at most.
    pub closed spec fn iteration_limit(&self) -> u32 {
        self.max_iterations
    }

    /// Whether a wall-clock limit is set.
    pub closed spec fn has_timeout(&self) -> bool {
        self.total_timeout is Some
    }

    /// The number of passes.
    pub closed spec fn pass_count(&self) -> nat {
        self.passes@.len()
    }

    /// The passes, in the order each round runs them.
    pub closed spec fn passes(&self) -> Seq<Box<dyn ReductionPass>> {
        self.passes@
    }

    /// The wall-clock limit of a whole reduction, if one is set.
    pub closed spec fn time_limit(&self) -> Option<Duration> {
        self.total_timeout
    }

    /// A pipeline over `passes` that runs at most `max_iterations` rounds
    /// and has no wall-clock limit.
    pub fn new(passes: Vec<Box<dyn ReductionPass>>, max_iterations: u32) -> (p: Pipeline)
        ensures
            p.iteration_limit() == max_iterations,
            !p.has_timeout(),
            p.time_limit() is None,
            p.pass_count() == passes@.len(),
            p.passes() == passes@,
    {
        Pipeline { passes, max_iterations, total_timeout: None }
    }

    /// Sets a wall-clock limit of `seconds` for a whole reduction; 0 leaves
    /// the pipeline as it is.
    pub fn with_total_timeout(self, seconds: u64) -> (p: Pipeline)
        ensures
            p.iteration_limit() == self.iteration_limit(),
            p.pass_count() == self.pass_count(),
            p.passes() == self.passes(),
            p.has_timeout() == (self.has_timeout() || seconds > 0),
            p.time_limit() == if seconds > 0 {
                Some(secs_duration(seconds))
            } else {
                self.time_limit()
            },
    {
        let mut p = self;
        if seconds > 0 {
            p.total_timeout = Some(duration_from_secs(seconds));
        }
        p
    }

    /// Whether the wall-clock limit, when one is set, has been reached since
    /// `start`; never without a limit.
    fn out_of_time(&self, start: &Instant) -> (r: bool)
        ensures
            !self.has_timeout() ==> !r,
    {
        match &self.total_timeout {
            Some(limit) => {
                let spent = elapsed_since(start);
                duration_at_least(&spent, limit)
            },
            None => false,
        }
    }

    /// Tries `candidates` in order on `current`: a candidate whose range
    /// fits gives a text for the oracle, which becomes the current text when
    /// the oracle accepts it. Stops early only when the wall-clock limit
    /// since `start` is reached.
    pub fn try_candidates<F: FnMut(&str) -> bool>(
        &self,
        current: String,
        candidates: &Vec<Candidate>,
        start: &Instant,
        oracle: &mut F,
    ) -> (r: String)
        requires
            forall|o: F, t: &str| call_requires(o, (t,)),
        ensures
            exists|n: int|
                0 <= n <= candidates@.len() && tries::<F>(current@, candidates@.take(n), r@) && (!self.has_timeout()
                    ==> n == candidates@.len()),
    {
        let ghost cur0 = current@;
        let ghost cs = candidates@;
        let ghost mut answers: Seq<bool> = seq![];
        let mut current = current;
        let mut k: usize = 0;
        proof {
            assert(cs.take(0) =~= Seq::<Candidate>::empty());
        }
        while k < candidates.len()
            invariant_except_break
                forall|o: F, t: &str| call_requires(o, (t,)),
                cs == candidates@,
                k <= cs.len(),
                answers.len() == k,
                heard::<F>(cur0, cs.take(k as int), answers),
                current@ == tried_from(cur0, cs.take(k as int), answers),
            ensures
                k <= cs.len(),
                heard::<F>(cur0, cs.take(k as int), answers),
                current@ == tried_from(cur0, cs.take(k as int), answers),
                !self.has_timeout() ==> k == cs.len(),
            decreases candidates.len() - k,
        {
            if self.out_of_time(start) {
                break;
            }
            let ghost before = current@;
            let ghost old_answers = answers;
            let ghost next = cs.take(k + 1);
            proof {
                assert(next.drop_last() =~= cs.take(k as int));
                assert(next.last() == cs[k as int]);
            }
            match candidates[k].apply(current.as_str()) {
                Some(reduced) => {
                    proof {
                        encode_utf8_decode_utf8(reduced@);
                        assert(applied(cs[k as int], before) == Some(reduced@));
                    }
                    let ghost o0 = *oracle;
                    let text = reduced.as_str();
                    let ok = oracle(text);
                    proof {
                        assert(call_ensures(o0, (text,), ok));
                        assert(answered::<F>(reduced@, ok));
                        answers = answers.push(ok);
                        assert(answers.drop_last() =~= answers.subrange(0, k as int));
                    }
                    if ok {
                        current = reduced;
                    }
                },
                None => {
                    proof {
                        assert(applied(cs[k as int], before) is None);
                        answers = answers.push(false);
                    }
                },
            }
            proof {
                assert(answers.drop_last() =~= old_answers);
                assert(tried_from(cur0, next.drop_last(), answers.drop_last()) == before);
                assert(heard::<F>(cur0, next, answers));
                assert(current@ == tried_from(cur0, next, answers));
            }
            k += 1;
        }
        proof {
            assert(tries::<F>(cur0, cs.take(k as int), current@));
        }
        current
    }

    /// Reduces `source`: in each round every pass proposes candidates for
    /// the current text, with `coverage`; they are sorted by
    /// `sort_by_start_desc` and tried in that order (see `try_candidates`);
    /// an accepted text becomes the current one. Rounds stop when one changes
    /// nothing, after the iteration limit, or when the wall-clock limit is
    /// reached.
    ///
    /// The result is the end of such a reduction (`reduction_trace`), in
    /// which the list of pass `p` in round `k` is the sorted list of what
    /// that pass proposed for the text it ran on: the source itself, or the
    /// last text the oracle accepted.
    #[verifier::rlimit(60)]
    pub fn reduce<F: FnMut(&str) -> bool>(
        &self,
        source: &str,
        coverage: Option<&CoverageData>,
        oracle: &mut F,
    ) -> (r: String)
        requires
            forall|o: F, t: &str| call_requires(o, (t,)),
        ensures
            exists|
                rounds: Seq<Seq<Seq<Candidate>>>,
                texts: Seq<Seq<char>>,
                mids: Seq<Seq<Seq<char>>>,
                proposals: Seq<Seq<Seq<Candidate>>>,
            |
                {
                    &&& reduction_trace::<F>(
                        source@,
                        rounds,
                        texts,
                        mids,
                        r@,
                        self.pass_count(),
                        self.iteration_limit(),
                        self.has_timeout(),
                    )
                    &&& proposals.len() == rounds.len()
                    &&& forall|k: int| 0 <= k < rounds.len() ==> (#[trigger] proposals[k]).len() == rounds[k].len()
                    &&& forall|k: int, p: int|
                        #![trigger proposals[k][p]]
                        0 <= k < rounds.len() && 0 <= p < rounds[k].len() ==> self.passes()[p].proposes(
                            mids[k][p],
                            coverage_value(coverage),
                            proposals[k][p],
                        ) && sorted_desc_of(rounds[k][p], proposals[k][p])
                },
            r@ == source@ || accepted_by::<F>(r@),
            self.iteration_limit() == 0 ==> r@ == source@,
            self.pass_count() == 0 ==> r@ == source@,
            (forall|o: F, t: &str| !call_ensures(o, (t,), true)) ==> r@ == source@,
    {
        let mut current = String::from_str(source);
        let start = now();
        let ghost cov = coverage_value(coverage);
        let ghost mut rounds: Seq<Seq<Seq<Candidate>>> = seq![];
        let ghost mut texts: Seq<Seq<char>> = seq![source@];
        let ghost mut mids: Seq<Seq<Seq<char>>> = seq![];
        let ghost mut proposals: Seq<Seq<Seq<Candidate>>> = seq![];
        let mut iteration: u32 = 0;
        while iteration < self.max_iterations
            invariant_except_break
                forall|o: F, t: &str| call_requires(o, (t,)),
                cov == coverage_value(coverage),
                current@ == source@ || accepted_by::<F>(current@),
                self.pass_count() == 0 ==> current@ == source@,
                self.iteration_limit() == 0 ==> current@ == source@,
                iteration <= self.max_iterations,
                rounds.len() == iteration,
                texts.len() == rounds.len() + 1,
                mids.len() == rounds.len(),
                texts[0] == source@,
                texts.last() == current@,
                forall|k: int|
                    0 <= k < rounds.len() ==> {
                        &&& round_tried::<F>(#[trigger] rounds[k], mids[k], self.has_timeout())
                        &&& mids[k].len() == rounds[k].len() + 1
                        &&& mids[k][0] == texts[k]
                        &&& mids[k].last() == texts[k + 1]
                        &&& rounds[k].len() <= self.pass_count()
                        &&& !self.has_timeout() ==> rounds[k].len() == self.pass_count()
                    },
                proposals.len() == rounds.len(),
                forall|k: int| 0 <= k < rounds.len() ==> (#[trigger] proposals[k]).len() == rounds[k].len(),
                forall|k: int, p: int|
                    #![trigger proposals[k][p]]
                    0 <= k < rounds.len() && 0 <= p < rounds[k].len() ==> self.passes()[p].proposes(
                        mids[k][p],
                        cov,
                        proposals[k][p],
                    ) && sorted_desc_of(rounds[k][p], proposals[k][p]),
            ensures
                cov == coverage_value(coverage),
                current@ == source@ || accepted_by::<F>(current@),
                self.pass_count() == 0 ==> current@ == source@,
                self.iteration_limit() == 0 ==> current@ == source@,
                texts.len() == rounds.len() + 1,
                mids.len() == rounds.len(),
                texts[0] == source@,
                texts.last() == current@,
                rounds.len() <= self.iteration_limit(),
                !self.has_timeout() ==> (rounds.len() == self.iteration_limit() || (rounds.len() > 0
                    && texts[rounds.len() - 1] == current@)),
                forall|k: int|
                    0 <= k < rounds.len() ==> {
                        &&& round_tried::<F>(#[trigger] rounds[k], mids[k], self.has_timeout())
                        &&& mids[k].len() == rounds[k].len() + 1
                        &&& mids[k][0] == texts[k]
                        &&& mids[k].last() == texts[k + 1]
                        &&& rounds[k].len() <= self.pass_count()
                        &&& !self.has_timeout() ==> rounds[k].len() == self.pass_count()
                    },
                proposals.len() == rounds.len(),
                forall|k: int| 0 <= k < rounds.len() ==> (#[trigger] proposals[k]).len() == rounds[k].len(),
                forall|k: int, p: int|
                    #![trigger proposals[k][p]]
                    0 <= k < rounds.len() && 0 <= p < rounds[k].len() ==> self.passes()[p].proposes(
                        mids[k][p],
                        cov,
                        proposals[k][p],
                    ) && sorted_desc_of(rounds[k][p], proposals[k][p]),
            decreases self.max_iterations - iteration,
        {
            if self.out_of_time(&start) {
                break;
            }
            let prev = current.clone();
            let ghost round_start = current@;
            let ghost mut lists: Seq<Seq<Candidate>> = seq![];
            let ghost mut ms: Seq<Seq<char>> = seq![current@];
            let ghost mut props: Seq<Seq<Candidate>> = seq![];
            assert(round_tried::<F>(lists, ms, self.has_timeout())) by {
                reveal(round_tried);
            }
            let mut p: usize = 0;
            while p < self.passes.len()
                invariant_except_break
                    forall|o: F, t: &str| call_requires(o, (t,)),
                    cov == coverage_value(coverage),
                    current@ == source@ || accepted_by::<F>(current@),
                    self.pass_count() == 0 ==> current@ == source@,
                    p <= self.passes@.len(),
                    lists.len() == p,
                    round_tried::<F>(lists, ms, self.has_timeout()),
                    ms.len() == lists.len() + 1,
                    ms[0] == round_start,
                    ms.last() == current@,
                    props.len() == lists.len(),
                    forall|i: int|
                        0 <= i < lists.len() ==> self.passes()[i].proposes(ms[i], cov, #[trigger] props[i])
                            && sorted_desc_of(lists[i], props[i]),
                ensures
                    cov == coverage_value(coverage),
                    current@ == source@ || accepted_by::<F>(current@),
                    self.pass_count() == 0 ==> current@ == source@,
                    round_tried::<F>(lists, ms, self.has_timeout()),
                    ms.len() == lists.len() + 1,
                    ms[0] == round_start,
                    ms.last() == current@,
                    lists.len() <= self.pass_count(),
                    !self.has_timeout() ==> lists.len() == self.pass_count(),
                    props.len() == lists.len(),
                    forall|i: int|
                        0 <= i < lists.len() ==> self.passes()[i].proposes(ms[i], cov, #[trigger] props[i])
                            && sorted_desc_of(lists[i], props[i]),
                decreases self.passes.len() - p,
            {
                if self.out_of_time(&start) {
                    break;
                }
                let mut candidates = self.passes[p].apply(current.as_str(), coverage);
                let ghost proposed = candidates@;
                sort_by_start_desc(&mut candidates);
                let ghost mid = current@;
                let next = self.try_candidates(current, &candidates, &start, oracle);
                proof {
                    let list = candidates@;
                    assert(self.passes()[p as int].proposes(mid, cov, proposed));
                    assert(sorted_desc_of(list, proposed)) by {
                        reveal(sorted_desc_of);
                    }
                    let n = choose|n: int|
                        0 <= n <= list.len() && tries::<F>(mid, list.take(n), next@) && (!self.has_timeout() ==> n
                            == list.len());
                    assert(list_tried::<F>(mid, list, next@, self.has_timeout()));
                    let old_lists = lists;
                    let old_ms = ms;
                    lists = lists.push(list);
                    ms = ms.push(next@);
                    assert(round_tried::<F>(lists, ms, self.has_timeout())) by {
                        reveal(round_tried);
                        assert(sorted_by_start_desc(list));
                        assert forall|i: int|
                            0 <= i < lists.len() implies sorted_by_start_desc(#[trigger] lists[i]) && list_tried::<F>(
                            ms[i],
                            lists[i],
                            ms[i + 1],
                            self.has_timeout(),
                        ) by {
                            if i < old_lists.len() {
                                assert(lists[i] == old_lists[i]);
                                assert(ms[i] == old_ms[i] && ms[i + 1] == old_ms[i + 1]);
                            } else {
                                assert(ms[i] == mid);
                            }
                        }
                    }
                    let old_props = props;
                    props = props.push(proposed);
                    assert forall|i: int| 0 <= i < lists.len() implies self.passes()[i].proposes(ms[i], cov, props[i])
                        && sorted_desc_of(#[trigger] lists[i], props[i]) by {
                        if i < old_lists.len() {
                            assert(lists[i] == old_lists[i]);
                            assert(ms[i] == old_ms[i]);
                            assert(props[i] == old_props[i]);
                        } else {
                            assert(ms[i] == mid);
                            assert(lists[i] == list);
                            assert(props[i] == proposed);
                        }
                    }
                    lemma_tries_accepted::<F>(mid, list.take(n), next@);
                }
                current = next;
                p += 1;
            }
            proof {
                let old_rounds = rounds;
                let old_texts = texts;
                let old_mids = mids;
                rounds = rounds.push(lists);
                texts = texts.push(current@);
                mids = mids.push(ms);
                assert forall|k: int| 0 <= k < rounds.len() implies {
                    &&& round_tried::<F>(#[trigger] rounds[k], mids[k], self.has_timeout())
                    &&& mids[k].len() == rounds[k].len() + 1
                    &&& mids[k][0] == texts[k]
                    &&& mids[k].last() == texts[k + 1]
                    &&& rounds[k].len() <= self.pass_count()
                    &&& !self.has_timeout() ==> rounds[k].len() == self.pass_count()
                } by {
                    if k < old_rounds.len() {
                        assert(rounds[k] == old_rounds[k] && mids[k] == old_mids[k]);
                        assert(texts[k] == old_texts[k] && texts[k + 1] == old_texts[k + 1]);
                    }
                }
                let old_proposals = proposals;
                proposals = proposals.push(props);
                assert forall|k: int| 0 <= k < rounds.len() implies (#[trigger] proposals[k]).len() == rounds[k].len() by {
                    if k < old_rounds.len() {
                        assert(rounds[k] == old_rounds[k] && proposals[k] == old_proposals[k]);
                    }
                }
                assert forall|k: int, i: int|
                    #![trigger proposals[k][i]]
                    0 <= k < rounds.len() && 0 <= i < rounds[k].len() implies self.passes()[i].proposes(
                        mids[k][i],
                        cov,
                        proposals[k][i],
                    ) && sorted_desc_of(rounds[k][i], proposals[k][i]) by {
                    if k < old_rounds.len() {
                        assert(rounds[k] == old_rounds[k] && mids[k] == old_mids[k] && proposals[k] == old_proposals[k]);
                        assert(old_rounds[k][i] == old_rounds[k][i]);
                    } else {
                        assert(rounds[k] == lists && mids[k] == ms && proposals[k] == props);
                        assert(lists[i] == lists[i]);
                    }
                }
            }
            if current == prev {
                break;
            }
            iteration += 1;
        }
        proof {
            assert(reduction_trace::<F>(
                source@,
                rounds,
                texts,
                mids,
                current@,
                self.pass_count(),
                self.iteration_limit(),
                self.has_timeout(),
            ));
        }
        current
    }
}

/// What trying candidates ends at is the text it started from or one the
/// oracle accepted.
proof fn lemma_tries_accepted<F: FnMut(&str) -> bool>(cur: Seq<char>, cs: Seq<Candidate>, r: Seq<char>)
    requires
        tries::<F>(cur, cs, r),
    ensures
        r == cur || accepted_by::<F>(r),
{
    let answers = choose|answers: Seq<bool>| heard::<F>(cur, cs, answers) && r == tried_from(cur, cs, answers);
    lemma_tried_accepted::<F>(cur, cs, answers);
}

proof fn lemma_tried_accepted<F: FnMut(&str) -> bool>(cur: Seq<char>, cs: Seq<Candidate>, answers: Seq<bool>)
    requires
        heard::<F>(cur, cs, answers),
    ensures
        tried_from(cur, cs, answers) == cur || accepted_by::<F>(tried_from(cur, cs, answers)),
    decreases cs.len(),
{
    if cs.len() > 0 {
        lemma_tried_accepted::<F>(cur, cs.drop_last(), answers.drop_last());
    }
}

} // verus!
