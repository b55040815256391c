//! The benchmark loop's decisions: one candidate at a time, connect, then
//! probe, then score, keeping the fastest candidate seen so far.
//!
//! Download figures are integers that order as the measurements do; the
//! caller performs the connections and probes and reports their outcomes.
use vstd::prelude::*;
use vstd::string::StringExecFns;
use crate::select::ids_view;

verus! {

/// What the caller is to do next.
#[derive(Clone, Copy, Debug, PartialEq, Eq, Structural)]
pub enum Step {
    /// Connect to the candidate at this index.
    Connect(usize),
    /// Probe the throughput of the candidate at this index, now connected.
    Probe(usize),
    /// Every candidate is scored.
    Finished,
}

/// The best of the scores: the index and figure of the first candidate with
/// the highest download figure, or none when no candidate was measured.
pub open spec fn best_of(scores: Seq<Option<int>>) -> Option<(int, int)>
    decreases scores.len(),
{
    if scores.len() == 0 {
        None
    } else {
        let b = best_of(scores.drop_last());
        match scores.last() {
            None => b,
            Some(d) => match b {
                Some((_, bd)) if d <= bd => b,
                _ => Some((scores.len() - 1, d)),
            },
        }
    }
}

/// The best is the first candidate with the highest download figure: every
/// measured figure is at most its figure, every earlier one below it, so a
/// later candidate with an equal figure does not replace it; and there is
/// none exactly when no candidate was measured.
pub proof fn lemma_best_is_first_highest(scores: Seq<Option<int>>)
    ensures
        match best_of(scores) {
            None => forall|i: int| 0 <= i < scores.len() ==> #[trigger] scores[i] is None,
            Some((k, d)) => {
                &&& 0 <= k < scores.len()
                &&& scores[k] == Some(d)
                &&& forall|i: int|
                    0 <= i < scores.len() ==> (#[trigger] scores[i] matches Some(e) ==> e <= d && (i
                        < k ==> e < d))
            },
        },
    decreases scores.len(),
{
    if scores.len() > 0 {
        let rest = scores.drop_last();
        lemma_best_is_first_highest(rest);
        assert forall|i: int| 0 <= i < rest.len() implies rest[i] == #[trigger] scores[i] by {}
    }
}

/// When every candidate is measured and the figures strictly increase in
/// list order, the best is the last candidate, with its figure.
pub proof fn lemma_increasing_best_is_last(scores: Seq<Option<int>>)
    requires
        scores.len() >= 1,
        forall|i: int| 0 <= i < scores.len() ==> #[trigger] scores[i] is Some,
        forall|i: int, j: int|
            0 <= i < j < scores.len() ==> #[trigger] scores[i]->0 < #[trigger] scores[j]->0,
    ensures
        best_of(scores) == Some((scores.len() - 1, scores.last()->0)),
    decreases scores.len(),
{
    let rest = scores.drop_last();
    assert(scores[scores.len() - 1] is Some);
    if rest.len() >= 1 {
        assert forall|i: int| 0 <= i < rest.len() implies #[trigger] rest[i] is Some by {
            assert(rest[i] == scores[i]);
        }
        assert forall|i: int, j: int|
            0 <= i < j < rest.len() implies #[trigger] rest[i]->0 < #[trigger] rest[j]->0 by {
            assert(rest[i] == scores[i] && rest[j] == scores[j]);
        }
        lemma_increasing_best_is_last(rest);
        assert(scores[rest.len() - 1]->0 < scores[scores.len() - 1]->0);
        assert(rest.last() == scores[rest.len() - 1]);
    }
}

/// When no candidate is measured, whatever failed, there is no best.
pub proof fn lemma_all_failed_no_best(scores: Seq<Option<int>>)
    requires
        forall|i: int| 0 <= i < scores.len() ==> #[trigger] scores[i] is None,
    ensures
        best_of(scores) is None,
    decreases scores.len(),
{
    if scores.len() > 0 {
        let rest = scores.drop_last();
        assert forall|i: int| 0 <= i < rest.len() implies #[trigger] rest[i] is None by {
            assert(rest[i] == scores[i]);
        }
        lemma_all_failed_no_best(rest);
        assert(scores[scores.len() - 1] is None);
    }
}

/// A progress bar for `done` of `total` candidates: `#` for each one done,
/// `-` for each one left, between brackets.
pub open spec fn bar_of(done: nat, total: nat) -> Seq<char> {
    seq!['['] + Seq::new(done, |i: int| '#') + Seq::new((total - done) as nat, |i: int| '-')
        + seq![']']
}

/// The progress bar for `done` of `total` candidates.
pub fn progress_bar(done: usize, total: usize) -> (r: String)
    requires
        done <= total,
    ensures
        r@ == bar_of(done as nat, total as nat),
{
    proof {
        reveal_strlit("[");
    }
    let mut r = String::from_str("[");
    let mut i: usize = 0;
    while i < done
        invariant
            i <= done,
            r@ == seq!['['] + Seq::new(i as nat, |k: int| '#'),
        decreases done - i,
    {
        r.append("#");
        proof {
            reveal_strlit("#");
        }
        assert(r@ =~= seq!['['] + Seq::new((i + 1) as nat, |k: int| '#'));
        i = i + 1;
    }
    let ghost head = r@;
    let mut j: usize = done;
    while j < total
        invariant
            done <= j <= total,
            r@ == head + Seq::new((j - done) as nat, |k: int| '-'),
        decreases total - j,
    {
        r.append("-");
        proof {
            reveal_strlit("-");
        }
        assert(r@ =~= head + Seq::new((j + 1 - done) as nat, |k: int| '-'));
        j = j + 1;
    }
    r.append("]");
    proof {
        reveal_strlit("]");
    }
    assert(r@ =~= bar_of(done as nat, total as nat));
    r
}

/// A reported download figure as a score.
pub open spec fn score_view(d: Option<i64>) -> Option<int> {
    match d {
        Some(x) => Some(x as int),
        None => None,
    }
}

/// A best candidate as an index and a figure.
pub open spec fn best_view(b: Option<(usize, i64)>) -> Option<(int, int)> {
    match b {
        Some((i, d)) => Some((i as int, d as int)),
        None => None,
    }
}

/// A run of the benchmark over a list of candidates.
pub struct Benchmark {
    candidates: Vec<String>,
    done: usize,
    probing: bool,
    best: Option<(usize, i64)>,
    scores: Ghost<Seq<Option<int>>>,
}

impl Benchmark {
    /// The candidates' identifiers, in the order they are tried.
    pub closed spec fn candidate_ids(&self) -> Seq<Seq<char>> {
        ids_view(self.candidates@)
    }

    /// The scores of the candidates done so far, in order: a download
    /// figure, or none where the connection or the probe failed.
    pub closed spec fn scores(&self) -> Seq<Option<int>> {
        self.scores@
    }

    /// Whether the current candidate is connected and awaits its probe.
    pub closed spec fn probing(&self) -> bool {
        self.probing
    }

    /// The counters agree with the scores, and the best kept is theirs.
    pub closed spec fn wf(&self) -> bool {
        &&& self.done == self.scores@.len()
        &&& self.done <= self.candidates@.len()
        &&& self.probing ==> self.done < self.candidates@.len()
        &&& best_view(self.best) == best_of(self.scores@)
    }

    /// Starts a run over `candidates`; nothing is scored yet.
    pub fn new(candidates: Vec<String>) -> (r: Benchmark)
        ensures
            r.wf(),
            r.candidate_ids() == ids_view(candidates@),
            r.scores() == Seq::<Option<int>>::empty(),
            !r.probing(),
    {
        let ghost none: Seq<Option<int>> = seq![];
        Benchmark { candidates, done: 0, probing: false, best: None, scores: Ghost(none) }
    }

    /// What to do next: connect to the next candidate, probe the connected
    /// one, or nothing when every candidate is scored.
    pub fn next_step(&self) -> (r: Step)
        requires
            self.wf(),
        ensures
            r == (if self.scores().len() == self.candidate_ids().len() {
                Step::Finished
            } else if self.probing() {
                Step::Probe(self.scores().len() as usize)
            } else {
                Step::Connect(self.scores().len() as usize)
            }),
    {
        if self.done == self.candidates.len() {
            Step::Finished
        } else if self.probing {
            Step::Probe(self.done)
        } else {
            Step::Connect(self.done)
        }
    }

    fn score(&mut self, d: Option<i64>)
        requires
            old(self).wf(),
            old(self).done < old(self).candidates@.len(),
        ensures
            final(self).wf(),
            final(self).candidates == old(self).candidates,
            final(self).scores@ == old(self).scores@.push(score_view(d)),
            !final(self).probing,
    {
        let ghost prev = self.scores@;
        let n = self.candidates.len();
        let ghost next = prev.push(score_view(d));
        match d {
            Some(x) => {
                let better = match self.best {
                    Some((_, b)) => x > b,
                    None => true,
                };
                if better {
                    self.best = Some((self.done, x));
                }
            },
            None => {},
        }
        assert(next.drop_last() =~= prev);
        self.scores = Ghost(next);
        assert(best_view(self.best) == best_of(next));
        assert(self.done < n);
        self.done = self.done + 1;
        self.probing = false;
    }

    /// Records the outcome of connecting to the next candidate: once
    /// connected it awaits its probe; a failed connection scores it as
    /// unmeasured and moves on.
    pub fn connect_result(&mut self, connected: bool)
        requires
            old(self).wf(),
            !old(self).probing(),
            old(self).scores().len() < old(self).candidate_ids().len(),
        ensures
            final(self).wf(),
            final(self).candidate_ids() == old(self).candidate_ids(),
            connected ==> final(self).probing() && final(self).scores() == old(self).scores(),
            !connected ==> !final(self).probing() && final(self).scores() == old(
                self,
            ).scores().push(None),
    {
        if connected {
            self.probing = true;
        } else {
            self.score(None);
        }
    }

    /// Records the outcome of probing the connected candidate: its download
    /// figure, or none when the probe failed; then moves on.
    pub fn probe_result(&mut self, download: Option<i64>)
        requires
            old(self).wf(),
            old(self).probing(),
        ensures
            final(self).wf(),
            final(self).candidate_ids() == old(self).candidate_ids(),
            !final(self).probing(),
            final(self).scores() == old(self).scores().push(score_view(download)),
    {
        self.score(download);
    }

    /// The best candidate so far: its index and download figure.
    pub fn best(&self) -> (r: Option<(usize, i64)>)
        requires
            self.wf(),
        ensures
            best_view(r) == best_of(self.scores()),
    {
        self.best
    }

    /// The identifiers of the candidates, in order.
    pub fn candidates(&self) -> (r: &Vec<String>)
        ensures
            ids_view(r@) == self.candidate_ids(),
    {
        &self.candidates
    }

    /// How many candidates are scored.
    pub fn completed(&self) -> (r: usize)
        requires
            self.wf(),
        ensures
            r == self.scores().len(),
    {
        self.done
    }
}

} // verus!
