use vstd::prelude::*;

verus! {

/// What one browsing attempt came to.
pub enum BrowseOutcome {
    /// The browse returned a status code and the time it took, in milliseconds.
    Visited { code: usize, elapsed_ms: u128 },
    /// The browse failed.
    Failed,
}

/// The status code of a visit that went through.
pub const CODE_OK: usize = 1;

/// The status code of a visit that ended in an error.
pub const CODE_ERR: usize = 2;

/// The status code of a visit that timed out.
pub const CODE_TIMEOUT: usize = 3;

/// The sum of the elapsed times.
pub open spec fn total_ms(s: Seq<usize>) -> int
    decreases s.len(),
{
    if s.len() == 0 {
        0
    } else {
        total_ms(s.drop_last()) + s.last()
    }
}

/// The total of a single time is that time, and the total of two lists is
/// the sum of their totals: `total_ms` is the plain sum of the times.
pub proof fn lemma_total_ms_is_the_sum(x: usize, s: Seq<usize>, t: Seq<usize>)
    ensures
        total_ms(seq![x]) == x,
        total_ms(Seq::<usize>::empty()) == 0,
        total_ms(s + t) == total_ms(s) + total_ms(t),
{
    assert(seq![x].drop_last() =~= Seq::<usize>::empty());
    assert(total_ms(seq![x].drop_last()) == 0);
    assert(seq![x].last() == x);
    lemma_total_ms_concat(s, t);
}

/// The sum of a prefix is at most the sum of the whole.
pub proof fn lemma_total_ms_prefix(s: Seq<usize>, i: int)
    requires
        0 <= i <= s.len(),
    ensures
        total_ms(s.take(i)) <= total_ms(s),
    decreases s.len(),
{
    if i < s.len() {
        assert(s.drop_last().take(i) =~= s.take(i));
        lemma_total_ms_prefix(s.drop_last(), i);
    } else {
        assert(s.take(i) =~= s);
    }
}

/// The counts of a round as numbers: visits that went through, ended in an
/// error, timed out, failed, all visits, and the times of the visits with a
/// status code.
pub type Counts = (nat, nat, nat, nat, nat, Seq<usize>);

/// The counts of a round with nothing counted.
pub open spec fn no_counts() -> Counts {
    (0, 0, 0, 0, 0, Seq::empty())
}

/// The counts after one more browsing outcome.
pub open spec fn record_step(c: Counts, outcome: BrowseOutcome) -> Counts {
    match outcome {
        BrowseOutcome::Visited { code, elapsed_ms } => if code == CODE_OK {
            (c.0 + 1, c.1, c.2, c.3, c.4 + 1, c.5.push(elapsed_ms as usize))
        } else if code == CODE_ERR {
            (c.0, c.1 + 1, c.2, c.3, c.4 + 1, c.5.push(elapsed_ms as usize))
        } else if code == CODE_TIMEOUT {
            (c.0, c.1, c.2 + 1, c.3, c.4 + 1, c.5.push(elapsed_ms as usize))
        } else {
            c
        },
        BrowseOutcome::Failed => (c.0, c.1, c.2, c.3 + 1, c.4 + 1, c.5),
    }
}

/// The counts after the outcomes `outcomes`, in order, starting from `c`.
pub open spec fn record_all(c: Counts, outcomes: Seq<BrowseOutcome>) -> Counts
    decreases outcomes.len(),
{
    if outcomes.len() == 0 {
        c
    } else {
        record_step(record_all(c, outcomes.drop_last()), outcomes.last())
    }
}

/// The counts of a round whose browsed visits came to `outcomes`.
pub open spec fn round_counts(outcomes: Seq<BrowseOutcome>) -> Counts {
    record_all(no_counts(), outcomes)
}

/// The counts of two rounds together.
pub open spec fn add_counts(a: Counts, b: Counts) -> Counts {
    (a.0 + b.0, a.1 + b.1, a.2 + b.2, a.3 + b.3, a.4 + b.4, a.5 + b.5)
}

/// The summary of a round, as `RoundTally::finish` gives it, with no visit
/// read as all zeros.
pub open spec fn summary_numbers(c: Counts) -> (int, int, int, int, int, int) {
    if c.4 > 0 {
        (c.0 as int, c.1 as int, c.2 as int, c.3 as int, c.5.len() as int, total_ms(c.5))
    } else {
        (0, 0, 0, 0, 0, 0)
    }
}

/// The sum of the times of two lists is the sum of their sums.
pub proof fn lemma_total_ms_concat(s: Seq<usize>, t: Seq<usize>)
    ensures
        total_ms(s + t) == total_ms(s) + total_ms(t),
    decreases t.len(),
{
    if t.len() > 0 {
        assert((s + t).drop_last() =~= s + t.drop_last());
        lemma_total_ms_concat(s, t.drop_last());
    } else {
        assert(s + t =~= s);
    }
}

/// Recording from some counts adds to them what recording from nothing gives.
proof fn lemma_record_all_from(c: Counts, outcomes: Seq<BrowseOutcome>)
    ensures
        record_all(c, outcomes) == add_counts(c, round_counts(outcomes)),
    decreases outcomes.len(),
{
    if outcomes.len() == 0 {
        assert(c.5 + Seq::<usize>::empty() =~= c.5);
    } else {
        lemma_record_all_from(c, outcomes.drop_last());
        let d = round_counts(outcomes.drop_last());
        assert forall|x: usize| (c.5 + d.5).push(x) =~= c.5 + d.5.push(x) by {}
    }
}

/// Recording a concatenation records one list after the other.
proof fn lemma_record_all_concat(c: Counts, a: Seq<BrowseOutcome>, b: Seq<BrowseOutcome>)
    ensures
        record_all(c, a + b) == record_all(record_all(c, a), b),
    decreases b.len(),
{
    if b.len() == 0 {
        assert(a + b =~= a);
    } else {
        assert((a + b).drop_last() =~= a + b.drop_last());
        assert((a + b).last() == b.last());
        lemma_record_all_concat(c, a, b.drop_last());
    }
}

/// In the counts of a round each visit is counted once, under one kind, and
/// each visit with a status code has its time.
pub proof fn lemma_round_counts_consistent(outcomes: Seq<BrowseOutcome>)
    ensures
        round_counts(outcomes).4 == round_counts(outcomes).0 + round_counts(outcomes).1
            + round_counts(outcomes).2 + round_counts(outcomes).3,
        round_counts(outcomes).5.len() == round_counts(outcomes).0 + round_counts(outcomes).1
            + round_counts(outcomes).2,
    decreases outcomes.len(),
{
    if outcomes.len() > 0 {
        lemma_round_counts_consistent(outcomes.drop_last());
    }
}

/// The summaries of rounds add up: browsing the visits of two work lists one
/// after the other gives the sum of the summaries of browsing each, a round
/// without a visit counting as zeros, and there is no visit in the whole
/// exactly when there is none in either part.
pub proof fn lemma_round_summaries_add(a: Seq<BrowseOutcome>, b: Seq<BrowseOutcome>)
    ensures
        ({
            let (x, y, z) = (summary_numbers(round_counts(a + b)), summary_numbers(round_counts(a)), summary_numbers(round_counts(b)));
            &&& x.0 == y.0 + z.0
            &&& x.1 == y.1 + z.1
            &&& x.2 == y.2 + z.2
            &&& x.3 == y.3 + z.3
            &&& x.4 == y.4 + z.4
            &&& x.5 == y.5 + z.5
        }),
        round_counts(a + b).4 == 0 <==> (round_counts(a).4 == 0 && round_counts(b).4 == 0),
{
    lemma_record_all_concat(no_counts(), a, b);
    lemma_record_all_from(round_counts(a), b);
    lemma_round_counts_consistent(a);
    lemma_round_counts_consistent(b);
    lemma_total_ms_concat(round_counts(a).5, round_counts(b).5);
    if round_counts(a).4 == 0 {
        assert(round_counts(a).5.len() == 0);
        assert(round_counts(a).5 =~= Seq::<usize>::empty());
        assert(total_ms(round_counts(a).5) == 0);
    }
    if round_counts(b).4 == 0 {
        assert(round_counts(b).5 =~= Seq::<usize>::empty());
        assert(total_ms(round_counts(b).5) == 0);
    }
}

/// The counts of one round of browsing: the visits that went through, that
/// ended in an error, that timed out and that failed, and the time each
/// visit with a status code took.
pub struct RoundTally {
    pub num_of_ok: usize,
    pub num_of_err: usize,
    pub num_of_timeout: usize,
    pub num_of_closed: usize,
    pub num_of_visit: usize,
    pub elapsed_time: Vec<usize>,
}

impl RoundTally {
    /// Each visit is counted once, under one kind, and each visit with a
    /// status code has its time.
    pub open spec fn wf(&self) -> bool {
        &&& self.num_of_visit == self.num_of_ok + self.num_of_err + self.num_of_timeout
            + self.num_of_closed
        &&& self.elapsed_time@.len() == self.num_of_ok + self.num_of_err + self.num_of_timeout
    }

    /// The counts as numbers.
    pub open spec fn counts(&self) -> Counts {
        (
            self.num_of_ok as nat,
            self.num_of_err as nat,
            self.num_of_timeout as nat,
            self.num_of_closed as nat,
            self.num_of_visit as nat,
            self.elapsed_time@,
        )
    }

    /// A round with nothing counted.
    pub fn new() -> (r: RoundTally)
        ensures
            r.wf(),
            r.counts() == no_counts(),
            r.num_of_ok == 0,
            r.num_of_err == 0,
            r.num_of_timeout == 0,
            r.num_of_closed == 0,
            r.num_of_visit == 0,
            r.elapsed_time@ == Seq::<usize>::empty(),
    {
        RoundTally {
            num_of_ok: 0,
            num_of_err: 0,
            num_of_timeout: 0,
            num_of_closed: 0,
            num_of_visit: 0,
            elapsed_time: Vec::new(),
        }
    }

    /// Counts one browsing outcome. The result is false for a status code
    /// that is not known, which is not counted.
    pub fn record(&mut self, outcome: BrowseOutcome) -> (known: bool)
        requires
            old(self).wf(),
            old(self).num_of_visit < usize::MAX,
        ensures
            final(self).wf(),
            final(self).counts() == record_step(old(self).counts(), outcome),
            match outcome {
                BrowseOutcome::Visited { code, elapsed_ms } => {
                    &&& known == (code == CODE_OK || code == CODE_ERR || code == CODE_TIMEOUT)
                    &&& final(self).num_of_ok == old(self).num_of_ok + if code == CODE_OK {
                        1int
                    } else {
                        0int
                    }
                    &&& final(self).num_of_err == old(self).num_of_err + if code == CODE_ERR {
                        1int
                    } else {
                        0int
                    }
                    &&& final(self).num_of_timeout == old(self).num_of_timeout + if code
                        == CODE_TIMEOUT {
                        1int
                    } else {
                        0int
                    }
                    &&& final(self).num_of_closed == old(self).num_of_closed
                    &&& final(self).num_of_visit == old(self).num_of_visit + if known {
                        1int
                    } else {
                        0int
                    }
                    &&& final(self).elapsed_time@ == if known {
                        old(self).elapsed_time@.push(elapsed_ms as usize)
                    } else {
                        old(self).elapsed_time@
                    }
                },
                BrowseOutcome::Failed => {
                    &&& known
                    &&& final(self).num_of_ok == old(self).num_of_ok
                    &&& final(self).num_of_err == old(self).num_of_err
                    &&& final(self).num_of_timeout == old(self).num_of_timeout
                    &&& final(self).num_of_closed == old(self).num_of_closed + 1
                    &&& final(self).num_of_visit == old(self).num_of_visit + 1
                    &&& final(self).elapsed_time@ == old(self).elapsed_time@
                },
            },
    {
        match outcome {
            BrowseOutcome::Visited { code, elapsed_ms } => {
                if code == CODE_OK {
                    self.num_of_ok = self.num_of_ok + 1;
                } else if code == CODE_ERR {
                    self.num_of_err = self.num_of_err + 1;
                } else if code == CODE_TIMEOUT {
                    self.num_of_timeout = self.num_of_timeout + 1;
                } else {
                    return false;
                }
                self.num_of_visit = self.num_of_visit + 1;
                self.elapsed_time.push(#[verifier::truncate] (elapsed_ms as usize));
                true
            },
            BrowseOutcome::Failed => {
                self.num_of_closed = self.num_of_closed + 1;
                self.num_of_visit = self.num_of_visit + 1;
                true
            },
        }
    }

    /// The sum of the elapsed times, where it fits in a `usize`.
    pub fn elapsed_total(&self) -> (r: Option<usize>)
        ensures
            match r {
                Some(t) => t == total_ms(self.elapsed_time@),
                None => total_ms(self.elapsed_time@) > usize::MAX,
            },
    {
        let n = self.elapsed_time.len();
        let mut total: usize = 0;
        let mut i: usize = 0;
        assert(self.elapsed_time@.take(0) =~= Seq::<usize>::empty());
        while i < n
            invariant
                n == self.elapsed_time@.len(),
                0 <= i <= n,
                total == total_ms(self.elapsed_time@.take(i as int)),
            decreases n - i,
        {
            let x = self.elapsed_time[i];
            assert(self.elapsed_time@.take(i + 1).drop_last() =~= self.elapsed_time@.take(
                i as int,
            ));
            match total.checked_add(x) {
                Some(t) => {
                    total = t;
                },
                None => {
                    proof {
                        lemma_total_ms_prefix(self.elapsed_time@, i + 1);
                    }
                    return None;
                },
            }
            i = i + 1;
        }
        assert(self.elapsed_time@.take(n as int) =~= self.elapsed_time@);
        Some(total)
    }

    /// The summary of the round: the numbers of visits that went through,
    /// ended in an error, timed out and failed, the number of visits with a
    /// time, and the total time; nothing where there was no visit.
    pub fn finish(&self) -> (r: Option<(usize, usize, usize, usize, usize, usize)>)
        requires
            self.wf(),
            total_ms(self.elapsed_time@) <= usize::MAX,
        ensures
            r == if self.num_of_visit > 0 {
                Some(
                    (
                        self.num_of_ok,
                        self.num_of_err,
                        self.num_of_timeout,
                        self.num_of_closed,
                        self.elapsed_time@.len() as usize,
                        total_ms(self.elapsed_time@) as usize,
                    ),
                )
            } else {
                None
            },
    {
        let total = match self.elapsed_total() {
            Some(t) => t,
            None => 0,
        };
        if self.num_of_visit > 0 {
            Some(
                (
                    self.num_of_ok,
                    self.num_of_err,
                    self.num_of_timeout,
                    self.num_of_closed,
                    self.elapsed_time.len(),
                    total,
                ),
            )
        } else {
            None
        }
    }
}

/// Whether a visit of `user` is browsed: the user is one of `rdr_users`.
pub fn should_browse(rdr_users: &Vec<i64>, user: i64) -> (r: bool)
    ensures
        r == rdr_users@.contains(user),
{
    let mut i: usize = 0;
    while i < rdr_users.len()
        invariant
            0 <= i <= rdr_users@.len(),
            forall|j: int| 0 <= j < i ==> rdr_users@[j] != user,
        decreases rdr_users@.len() - i,
    {
        if rdr_users[i] == user {
            assert(rdr_users@[i as int] == user);
            return true;
        }
        i = i + 1;
    }
    false
}

/// The counts over all rounds of a run.
pub struct RunMetrics {
    pub num_of_ok: usize,
    pub num_of_err: usize,
    pub num_of_timeout: usize,
    pub num_of_closed: usize,
    pub num_of_visit: usize,
    pub elapsed_time: Vec<usize>,
}

impl RunMetrics {
    /// A run with nothing counted.
    pub fn new() -> (r: RunMetrics)
        ensures
            r.num_of_ok == 0,
            r.num_of_err == 0,
            r.num_of_timeout == 0,
            r.num_of_closed == 0,
            r.num_of_visit == 0,
            r.elapsed_time@ == Seq::<usize>::empty(),
    {
        RunMetrics {
            num_of_ok: 0,
            num_of_err: 0,
            num_of_timeout: 0,
            num_of_closed: 0,
            num_of_visit: 0,
            elapsed_time: Vec::new(),
        }
    }

    /// Whether the summary of a round can be added without overflow.
    pub open spec fn can_add(&self, round: (usize, usize, usize, usize, usize, usize)) -> bool {
        &&& self.num_of_ok + round.0 <= usize::MAX
        &&& self.num_of_err + round.1 <= usize::MAX
        &&& self.num_of_timeout + round.2 <= usize::MAX
        &&& self.num_of_closed + round.3 <= usize::MAX
        &&& self.num_of_visit + round.4 <= usize::MAX
    }

    /// Adds the summary of a round: its counts to the run's, its total time
    /// to the list of round times.
    pub fn add_round(&mut self, round: (usize, usize, usize, usize, usize, usize))
        requires
            old(self).can_add(round),
        ensures
            final(self).num_of_ok == old(self).num_of_ok + round.0,
            final(self).num_of_err == old(self).num_of_err + round.1,
            final(self).num_of_timeout == old(self).num_of_timeout + round.2,
            final(self).num_of_closed == old(self).num_of_closed + round.3,
            final(self).num_of_visit == old(self).num_of_visit + round.4,
            final(self).elapsed_time@ == old(self).elapsed_time@.push(round.5),
    {
        self.num_of_ok = self.num_of_ok + round.0;
        self.num_of_err = self.num_of_err + round.1;
        self.num_of_timeout = self.num_of_timeout + round.2;
        self.num_of_closed = self.num_of_closed + round.3;
        self.num_of_visit = self.num_of_visit + round.4;
        self.elapsed_time.push(round.5);
    }
}

} // verus!
