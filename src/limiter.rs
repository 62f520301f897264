use vstd::prelude::*;

verus! {

/// Why a request to the scheduler was not carried out.
#[derive(Clone, Copy, Debug, PartialEq, Eq, Structural)]
pub enum SubmitError {
    /// The scheduler has shut down and accepts nothing more.
    Closed,
    /// The admission instant that the policy asks for lies beyond the clock's range.
    OutOfRange,
}

/// A clock reading or duration as an unbounded integer.
pub open spec fn ints(s: Seq<u64>) -> Seq<int> {
    s.map_values(|x: u64| x as int)
}

/// The entries of `h` that still lie inside the window of length `d` ending at `now`,
/// that is those with `x > now - d`, in their order.
pub open spec fn pruned(h: Seq<int>, now: int, d: int) -> Seq<int>
    decreases h.len(),
{
    if h.len() == 0 {
        seq![]
    } else {
        let rest = pruned(h.drop_last(), now, d);
        if h.last() + d > now {
            rest.push(h.last())
        } else {
            rest
        }
    }
}

/// The instant given to a new job, from the history `recent` that was already pruned at
/// `now`: at once while fewer than `n` admissions are in the window, otherwise when the
/// `n`-th latest of them leaves it.
pub open spec fn slot(recent: Seq<int>, now: int, n: int, d: int) -> int {
    if recent.len() < n {
        now
    } else {
        recent[recent.len() - n] + d
    }
}

/// The admission instant of a job submitted at `now` with run history `h`.
pub open spec fn admission_instant(h: Seq<int>, now: int, n: int, d: int) -> int {
    slot(pruned(h, now, d), now, n, d)
}

/// The run history after a submission at `now`: pruned, with the new instant reserved.
pub open spec fn after_submit(h: Seq<int>, now: int, n: int, d: int) -> Seq<int> {
    pruned(h, now, d).push(admission_instant(h, now, n, d))
}

/// The run history after submissions at the instants `times`, from an empty history.
pub open spec fn history_after(times: Seq<int>, n: int, d: int) -> Seq<int>
    decreases times.len(),
{
    if times.len() == 0 {
        seq![]
    } else {
        after_submit(history_after(times.drop_last(), n, d), times.last(), n, d)
    }
}

/// The admission instants given to submissions at the instants `times`, in order.
pub open spec fn admissions(times: Seq<int>, n: int, d: int) -> Seq<int>
    decreases times.len(),
{
    if times.len() == 0 {
        seq![]
    } else {
        admissions(times.drop_last(), n, d).push(
            admission_instant(history_after(times.drop_last(), n, d), times.last(), n, d),
        )
    }
}

pub open spec fn sorted(s: Seq<int>) -> bool {
    forall|i: int, j: int| 0 <= i <= j < s.len() ==> s[i] <= s[j]
}

/// How many entries of `s` lie in `[lo, hi)`.
pub open spec fn count_in(s: Seq<int>, lo: int, hi: int) -> nat
    decreases s.len(),
{
    if s.len() == 0 {
        0
    } else {
        (if lo <= s[0] && s[0] < hi {
            1nat
        } else {
            0nat
        }) + count_in(s.drop_first(), lo, hi)
    }
}

/// Entries `n` places apart are at least `d` apart.
pub open spec fn spaced(s: Seq<int>, n: int, d: int) -> bool {
    forall|i: int, j: int| 0 <= i && i + n <= j < s.len() ==> s[i] + d <= s[j]
}

/// Each entry is no later than `last`, or no later than the entry `n` places before it
/// advanced by `d`.
pub open spec fn chained(h: Seq<int>, n: int, d: int, last: int) -> bool {
    forall|j: int|
        0 <= j < h.len() ==> #[trigger] h[j] <= last || (j >= n && h[j] <= h[j - n] + d)
}

pub open spec fn last_time(times: Seq<int>) -> int {
    if times.len() == 0 {
        0
    } else {
        times.last()
    }
}


proof fn lemma_pruned_suffix(h: Seq<int>, now: int, d: int)
    requires
        sorted(h),
    ensures
        pruned(h, now, d).len() <= h.len(),
        pruned(h, now, d) == h.skip(h.len() - pruned(h, now, d).len()),
        forall|i: int| 0 <= i < h.len() - pruned(h, now, d).len() ==> #[trigger] h[i] + d <= now,
        forall|j: int|
            0 <= j < pruned(h, now, d).len() ==> #[trigger] pruned(h, now, d)[j] + d > now,
    decreases h.len(),
{
    if h.len() > 0 {
        let t = h.drop_last();
        assert(sorted(t));
        lemma_pruned_suffix(t, now, d);
        let pt = pruned(t, now, d);
        if h.last() + d > now {
            assert(pruned(h, now, d) =~= h.skip(h.len() - pruned(h, now, d).len()));
            assert forall|i: int| 0 <= i < h.len() - pruned(h, now, d).len() implies #[trigger] h[i]
                + d <= now by {
                assert(h[i] == t[i]);
            }
        } else {
            assert forall|i: int| 0 <= i < h.len() implies #[trigger] h[i] + d <= now by {
                assert(h[i] <= h[h.len() - 1]);
            }
            if pt.len() > 0 {
                let k = t.len() - pt.len();
                assert(pt[0] == t[k]);
                assert(h[k] <= h[h.len() - 1]);
                assert(false);
            }
            assert(pruned(h, now, d) =~= h.skip(h.len() as int));
        }
    }
}

/// One submission keeps what [`lemma_model`] states of the admission log `log` and its
/// tail `h`.
proof fn lemma_step(log: Seq<int>, h: Seq<int>, last: int, now: int, n: int, d: int)
    requires
        n >= 1,
        d >= 0,
        last <= now,
        h.len() <= log.len(),
        h == log.skip(log.len() - h.len()),
        forall|i: int| 0 <= i < log.len() - h.len() ==> #[trigger] log[i] + d <= last,
        sorted(log),
        spaced(log, n, d),
        chained(h, n, d, last),
    ensures
        ({
            let p = pruned(h, now, d);
            let a = slot(p, now, n, d);
            let nlog = log.push(a);
            let nh = p.push(a);
            &&& a >= now
            &&& nh.len() <= nlog.len()
            &&& nh == nlog.skip(nlog.len() - nh.len())
            &&& (forall|i: int| 0 <= i < nlog.len() - nh.len() ==> #[trigger] nlog[i] + d <= now)
            &&& sorted(nlog)
            &&& spaced(nlog, n, d)
            &&& chained(nh, n, d, now)
        }),
{
        let s = log.len() - h.len();
        assert(sorted(h)) by {
            assert forall|i: int, j: int| 0 <= i <= j < h.len() implies h[i] <= h[j] by {
                assert(h[i] == log[s + i]);
                assert(h[j] == log[s + j]);
            }
        }
        lemma_pruned_suffix(h, now, d);
        let p = pruned(h, now, d);
        let q = h.len() - p.len();
        let a = slot(p, now, n, d);
        let nlog = log.push(a);
        let nh = p.push(a);
        assert(sorted(p)) by {
            assert forall|i: int, j: int| 0 <= i <= j < p.len() implies p[i] <= p[j] by {
                assert(p[i] == h[q + i]);
                assert(p[j] == h[q + j]);
            }
        }
        // F1
        assert(chained(p, n, d, now)) by {
            assert forall|j: int| 0 <= j < p.len() implies #[trigger] p[j] <= now || (j >= n
                && p[j] <= p[j - n] + d) by {
                assert(p[j] == h[q + j]);
                if h[q + j] <= last {
                } else {
                    assert(q + j >= n && h[q + j] <= h[q + j - n] + d);
                    if q + j - n < q {
                        assert(h[q + j - n] + d <= now);
                    } else {
                        assert(p[j - n] == h[q + j - n]);
                    }
                }
            }
        }
        // F2
        assert(a >= now) by {
            if p.len() >= n {
                assert(p[p.len() - n] + d > now);
            }
        }
        // F3
        assert forall|j: int| 0 <= j < p.len() implies #[trigger] p[j] <= a by {
            if p[j] <= now {
            } else {
                assert(j >= n && p[j] <= p[j - n] + d);
                assert(p[j - n] <= p[p.len() - n]);
            }
        }
        let ns = nlog.len() - nh.len();
        assert(ns == log.len() - p.len());
        // F4
        assert forall|i: int| 0 <= i < ns implies #[trigger] nlog[i] + d <= now by {
            assert(nlog[i] == log[i]);
            if i < s {
            } else {
                assert(log[i] == h[i - s]);
            }
        }
        // F8
        assert(nh =~= nlog.skip(ns)) by {
            assert forall|i: int| 0 <= i < nh.len() implies nh[i] == nlog.skip(ns)[i] by {
                if i < p.len() {
                    assert(nlog[ns + i] == log[ns + i]);
                    assert(log[ns + i] == h[ns + i - s]);
                    assert(p[i] == h[q + i]);
                }
            }
        }
        // F5
        assert forall|i: int| 0 <= i < nlog.len() implies #[trigger] nlog[i] <= a by {
            if i < ns {
                assert(nlog[i] + d <= now);
            } else if i < log.len() {
                assert(nlog[i] == nh[i - ns]);
                assert(nh[i - ns] == p[i - ns]);
            }
        }
        assert(sorted(nlog)) by {
            assert forall|i: int, j: int| 0 <= i <= j < nlog.len() implies nlog[i] <= nlog[j] by {
                if j < log.len() {
                    assert(nlog[i] == log[i]);
                    assert(nlog[j] == log[j]);
                } else {
                    assert(nlog[i] <= a);
                }
            }
        }
        // F6
        assert(spaced(nlog, n, d)) by {
            assert forall|i: int, j: int| 0 <= i && i + n <= j < nlog.len() implies nlog[i] + d
                <= nlog[j] by {
                if j < log.len() {
                    assert(nlog[i] == log[i]);
                    assert(nlog[j] == log[j]);
                } else {
                    if p.len() >= n {
                        let k = log.len() - n;
                        assert(nlog[k] == nh[p.len() - n]);
                        assert(nlog[i] <= nlog[k]);
                    } else {
                        assert(i < ns);
                        assert(nlog[i] + d <= now);
                    }
                }
            }
        }
        // F7
        assert(chained(nh, n, d, now)) by {
            assert forall|j: int| 0 <= j < nh.len() implies #[trigger] nh[j] <= now || (j >= n
                && nh[j] <= nh[j - n] + d) by {
                if j < p.len() {
                    assert(nh[j] == p[j]);
                    if p[j] <= now {
                    } else {
                        assert(nh[j - n] == p[j - n]);
                    }
                } else if p.len() >= n {
                    assert(nh[j - n] == p[p.len() - n]);
                }
            }
        }
}

/// What holds of every run of the admission rule: the admission log is ordered and
/// spaced, and the run history is its tail.
proof fn lemma_model(times: Seq<int>, n: int, d: int)
    requires
        n >= 1,
        d >= 0,
        sorted(times),
    ensures
        ({
            let log = admissions(times, n, d);
            let h = history_after(times, n, d);
            let last = last_time(times);
            &&& log.len() == times.len()
            &&& h.len() <= log.len()
            &&& h == log.skip(log.len() - h.len())
            &&& (forall|i: int| 0 <= i < log.len() - h.len() ==> #[trigger] log[i] + d <= last)
            &&& (forall|i: int| 0 <= i < log.len() ==> times[i] <= #[trigger] log[i])
            &&& sorted(log)
            &&& spaced(log, n, d)
            &&& chained(h, n, d, last)
        }),
    decreases times.len(),
{
    if times.len() > 0 {
        let tp = times.drop_last();
        let now = times.last();
        assert(sorted(tp));
        lemma_model(tp, n, d);
        let log = admissions(tp, n, d);
        let h = history_after(tp, n, d);
        let last = if tp.len() > 0 {
            last_time(tp)
        } else {
            now
        };
        assert(last <= now) by {
            if tp.len() > 0 {
                assert(tp[tp.len() - 1] == times[tp.len() - 1]);
                assert(times[tp.len() - 1] <= times[times.len() - 1]);
            }
        }
        lemma_step(log, h, last, now, n, d);
        let p = pruned(h, now, d);
        let a = slot(p, now, n, d);
        let nlog = log.push(a);
        assert(admissions(times, n, d) == nlog);
        assert(history_after(times, n, d) == p.push(a));
        assert forall|i: int| 0 <= i < nlog.len() implies times[i] <= #[trigger] nlog[i] by {
            if i < log.len() {
                assert(nlog[i] == log[i]);
                assert(times[i] == tp[i]);
            }
        }
    }
}


proof fn lemma_count_bound(s: Seq<int>, lo: int, hi: int, k: int)
    requires
        k >= 0,
        forall|i: int| k <= i < s.len() ==> !(lo <= #[trigger] s[i] && s[i] < hi),
    ensures
        count_in(s, lo, hi) <= k,
    decreases s.len(),
{
    if s.len() > 0 {
        let r = s.drop_first();
        if k == 0 {
            assert(!(lo <= s[0] && s[0] < hi));
            assert forall|i: int| 0 <= i < r.len() implies !(lo <= #[trigger] r[i] && r[i] < hi) by {
                assert(r[i] == s[i + 1]);
            }
            lemma_count_bound(r, lo, hi, 0);
        } else {
            assert forall|i: int| k - 1 <= i < r.len() implies !(lo <= #[trigger] r[i] && r[i]
                < hi) by {
                assert(r[i] == s[i + 1]);
            }
            lemma_count_bound(r, lo, hi, k - 1);
        }
    }
}

proof fn lemma_window_count(s: Seq<int>, n: int, d: int, t: int)
    requires
        n >= 1,
        sorted(s),
        spaced(s, n, d),
    ensures
        count_in(s, t, t + d) <= n,
    decreases s.len(),
{
    if s.len() > 0 {
        if t <= s[0] && s[0] < t + d {
            assert forall|i: int| n <= i < s.len() implies !(t <= #[trigger] s[i] && s[i] < t
                + d) by {
                assert(s[0] + d <= s[i]);
            }
            lemma_count_bound(s, t, t + d, n);
        } else {
            let r = s.drop_first();
            assert(sorted(r)) by {
                assert forall|i: int, j: int| 0 <= i <= j < r.len() implies r[i] <= r[j] by {
                    assert(r[i] == s[i + 1]);
                    assert(r[j] == s[j + 1]);
                }
            }
            assert(spaced(r, n, d)) by {
                assert forall|i: int, j: int| 0 <= i && i + n <= j < r.len() implies r[i] + d
                    <= r[j] by {
                    assert(r[i] == s[i + 1]);
                    assert(r[j] == s[j + 1]);
                }
            }
            lemma_window_count(r, n, d, t);
        }
    }
}

/// Rate ceiling: whatever the submission instants, as long as the clock does not run
/// backwards, no window `[t, t + d)` holds more than `n` admission instants.
pub proof fn lemma_rate_ceiling(times: Seq<int>, n: int, d: int, t: int)
    requires
        n >= 1,
        d >= 0,
        sorted(times),
    ensures
        count_in(admissions(times, n, d), t, t + d) <= n,
{
    lemma_model(times, n, d);
    lemma_window_count(admissions(times, n, d), n, d, t);
}

/// Slots are reserved in order: a later submission never gets an earlier admission
/// instant than an earlier one, and no job is admitted before it was submitted.
pub proof fn lemma_slots_monotonic(times: Seq<int>, n: int, d: int, i: int, j: int)
    requires
        n >= 1,
        d >= 0,
        sorted(times),
        0 <= i <= j < times.len(),
    ensures
        admissions(times, n, d)[i] <= admissions(times, n, d)[j],
        times[j] <= admissions(times, n, d)[j],
{
    lemma_model(times, n, d);
}


/// The jobs of the pending entries `p` whose instant has come at `now`, in order.
pub open spec fn fired(p: Seq<(u64, u64)>, now: int) -> Seq<u64>
    decreases p.len(),
{
    if p.len() == 0 {
        seq![]
    } else {
        let rest = fired(p.drop_last(), now);
        if p.last().0 <= now {
            rest.push(p.last().1)
        } else {
            rest
        }
    }
}

/// The pending entries of `p` whose instant lies after `now`, in order.
pub open spec fn waiting(p: Seq<(u64, u64)>, now: int) -> Seq<(u64, u64)>
    decreases p.len(),
{
    if p.len() == 0 {
        seq![]
    } else {
        let rest = waiting(p.drop_last(), now);
        if p.last().0 <= now {
            rest
        } else {
            rest.push(p.last())
        }
    }
}

/// The jobs of the pending entries `p`, in order.
pub open spec fn jobs(p: Seq<(u64, u64)>) -> Seq<u64> {
    p.map_values(|e: (u64, u64)| e.1)
}

/// The scheduler as the contracts see it.
pub struct RunnerModel {
    /// Admissions allowed per window.
    pub max_runs: int,
    /// Length of the window.
    pub window: int,
    /// False once the scheduler has shut down.
    pub running: bool,
    /// The clock readings of the admitted submissions, in order.
    pub times: Seq<int>,
    /// The pending schedule: (admission instant, job) in order of submission.
    pub pending: Seq<(u64, u64)>,
}

/// A scheduler state that can occur: at least one admission per window, and nothing
/// pending once stopped.
pub open spec fn valid(m: RunnerModel) -> bool {
    &&& m.max_runs >= 1
    &&& m.window >= 0
    &&& (!m.running ==> m.pending.len() == 0)
    &&& sorted(m.times)
    &&& forall|i: int| 0 <= i < m.times.len() ==> 0 <= #[trigger] m.times[i]
}

/// The clock reading that a submission at `now` is taken at: a reading earlier than the
/// last one counts as the last one.
pub open spec fn effective_now(m: RunnerModel, now: u64) -> int {
    if now >= last_time(m.times) {
        now as int
    } else {
        last_time(m.times)
    }
}

/// What a submission of `job` at `now` does and returns.
pub open spec fn submit_spec(m: RunnerModel, job: u64, now: u64) -> (RunnerModel, Result<
    u64,
    SubmitError,
>) {
    if !m.running {
        (m, Err(SubmitError::Closed))
    } else {
        let t = effective_now(m, now);
        let a = admission_instant(history_after(m.times, m.max_runs, m.window), t, m.max_runs, m.window);
        if a > u64::MAX {
            (m, Err(SubmitError::OutOfRange))
        } else {
            (
                RunnerModel { times: m.times.push(t), pending: m.pending.push((a as u64, job)), ..m },
                Ok(a as u64),
            )
        }
    }
}

/// What a shutdown does and returns: the jobs it discards.
pub open spec fn shutdown_spec(m: RunnerModel) -> (RunnerModel, Result<Seq<u64>, SubmitError>) {
    if !m.running {
        (m, Err(SubmitError::Closed))
    } else {
        (RunnerModel { running: false, pending: seq![], ..m }, Ok(jobs(m.pending)))
    }
}

/// What a look at the clock at `now` does and returns: the jobs to hand to the executor.
pub open spec fn due_spec(m: RunnerModel, now: u64) -> (RunnerModel, Seq<u64>) {
    (RunnerModel { pending: waiting(m.pending, now as int), ..m }, fired(m.pending, now as int))
}

/// Entries of the run history that are still in the window ending at `now` (those with
/// an instant after `now - window`), in their order.
pub fn prune_history(history: &Vec<u64>, now: u64, window: u64) -> (r: Vec<u64>)
    ensures
        ints(r@) == pruned(ints(history@), now as int, window as int),
{
    let mut r: Vec<u64> = Vec::new();
    let mut i: usize = 0;
    while i < history.len()
        invariant
            i <= history.len(),
            ints(r@) == pruned(ints(history@).take(i as int), now as int, window as int),
        decreases history.len() - i,
    {
        let x = history[i];
        let keep = if now >= window {
            x > now - window
        } else {
            true
        };
        proof {
            assert(ints(history@).take(i + 1).drop_last() == ints(history@).take(i as int));
        }
        if keep {
            let ghost before = r@;
            r.push(x);
            proof {
                assert(ints(r@) =~= ints(before).push(x as int));
            }
        }
        i += 1;
    }
    proof {
        assert(ints(history@).take(history.len() as int) == ints(history@));
    }
    r
}

/// The instant given to a new job at `now`, from a history already pruned at `now`;
/// `None` where that instant lies beyond the clock's range.
pub fn next_slot(recent: &Vec<u64>, now: u64, max_runs: usize, window: u64) -> (r: Option<u64>)
    requires
        max_runs >= 1,
    ensures
        r == (if slot(ints(recent@), now as int, max_runs as int, window as int) <= u64::MAX {
            Some(slot(ints(recent@), now as int, max_runs as int, window as int) as u64)
        } else {
            None::<u64>
        }),
{
    if recent.len() < max_runs {
        Some(now)
    } else {
        let x = recent[recent.len() - max_runs];
        proof {
            assert(ints(recent@)[recent.len() - max_runs] == x as int);
        }
        x.checked_add(window)
    }
}

/// The scheduler's state: the rate policy, the run history and the pending schedule.
/// It decides; the caller keeps the jobs, the timer and the executor, and reports
/// submissions, shutdown and the clock.
pub struct Runner {
    max_runs: usize,
    window: u64,
    running: bool,
    history: Vec<u64>,
    pending: Vec<(u64, u64)>,
    last_now: u64,
    times: Ghost<Seq<int>>,
}

impl View for Runner {
    type V = RunnerModel;

    closed spec fn view(&self) -> RunnerModel {
        RunnerModel {
            max_runs: self.max_runs as int,
            window: self.window as int,
            running: self.running,
            times: self.times@,
            pending: self.pending@,
        }
    }
}

impl Runner {
    /// The state invariant: the history is what the admissions so far leave, and a
    /// stopped scheduler holds no pending job.
    pub closed spec fn wf(&self) -> bool {
        &&& valid(self@)
        &&& ints(self.history@) == history_after(self.times@, self.max_runs as int, self.window as int)
        &&& self.last_now as int == last_time(self.times@)
        &&& (!self.running ==> self.pending@.len() == 0)
    }

    /// A well-formed scheduler is in a state that can occur.
    pub proof fn lemma_valid(&self)
        requires
            self.wf(),
        ensures
            valid(self@),
    {
    }

    /// A running scheduler admitting at most `max_runs` jobs in any window of `window`
    /// clock units, with nothing submitted yet.
    pub fn new(max_runs: usize, window: u64) -> (r: Runner)
        requires
            max_runs >= 1,
        ensures
            r.wf(),
            r@ == (RunnerModel {
                max_runs: max_runs as int,
                window: window as int,
                running: true,
                times: seq![],
                pending: seq![],
            }),
    {
        let r = Runner {
            max_runs,
            window,
            running: true,
            history: Vec::new(),
            pending: Vec::new(),
            last_now: 0,
            times: Ghost(Seq::empty()),
        };
        proof {
            assert(ints(r.history@) =~= seq![]);
        }
        r
    }

    pub fn is_running(&self) -> (r: bool)
        ensures
            r == self@.running,
    {
        self.running
    }

    /// The history pruned at `now` and the admission instant that a job submitted at
    /// `now` would get (`None` where it lies beyond the clock's range).
    pub fn compute_next_task_time(&self, now: u64) -> (r: (Vec<u64>, Option<u64>))
        requires
            self.wf(),
        ensures
            ints(r.0@) == pruned(history_after(self@.times, self@.max_runs, self@.window), now as int, self@.window),
            r.1 == (if admission_instant(history_after(self@.times, self@.max_runs, self@.window), now as int, self@.max_runs, self@.window) <= u64::MAX {
                Some(admission_instant(history_after(self@.times, self@.max_runs, self@.window), now as int, self@.max_runs, self@.window) as u64)
            } else {
                None::<u64>
            }),
    {
        let recent = prune_history(&self.history, now, self.window);
        let at = next_slot(&recent, now, self.max_runs, self.window);
        (recent, at)
    }

    /// Submits `job` at clock reading `now`: on success the job waits in the pending
    /// schedule until the returned admission instant.
    pub fn submit(&mut self, job: u64, now: u64) -> (r: Result<u64, SubmitError>)
        requires
            old(self).wf(),
        ensures
            final(self).wf(),
            (final(self)@, r) == submit_spec(old(self)@, job, now),
    {
        if !self.running {
            return Err(SubmitError::Closed);
        }
        let t = if now >= self.last_now {
            now
        } else {
            self.last_now
        };
        let (recent, at) = self.compute_next_task_time(t);
        match at {
            None => Err(SubmitError::OutOfRange),
            Some(a) => {
                let ghost old_times = self.times@;
                let mut h = recent;
                h.push(a);
                self.history = h;
                self.pending.push((a, job));
                self.last_now = t;
                self.times = Ghost(old_times.push(t as int));
                proof {
                    let n = self.max_runs as int;
                    let d = self.window as int;
                    assert(self.times@.drop_last() == old_times);
                    assert(sorted(self.times@)) by {
                        assert forall|x: int, y: int| 0 <= x <= y < self.times@.len() implies self.times@[x]
                            <= self.times@[y] by {
                            if y == old_times.len() && x < y {
                                assert(old_times[x] <= old_times[old_times.len() - 1]);
                            }
                        }
                    }
                    assert(ints(self.history@) =~= after_submit(history_after(old_times, n, d), t as int, n, d));
                }
                Ok(a)
            },
        }
    }

    /// Stops the scheduler: the pending jobs are discarded, never run, and returned.
    pub fn shutdown(&mut self) -> (r: Result<Vec<u64>, SubmitError>)
        requires
            old(self).wf(),
        ensures
            final(self).wf(),
            final(self)@ == shutdown_spec(old(self)@).0,
            match r {
                Ok(v) => shutdown_spec(old(self)@).1 == Ok::<Seq<u64>, SubmitError>(v@),
                Err(e) => shutdown_spec(old(self)@).1 == Err::<Seq<u64>, SubmitError>(e),
            },
    {
        if !self.running {
            return Err(SubmitError::Closed);
        }
        let mut discarded: Vec<u64> = Vec::new();
        let mut i: usize = 0;
        while i < self.pending.len()
            invariant
                i <= self.pending.len(),
                discarded@ == jobs(self.pending@.take(i as int)),
            decreases self.pending.len() - i,
        {
            discarded.push(self.pending[i].1);
            proof {
                assert(jobs(self.pending@.take(i + 1)) =~= jobs(self.pending@.take(i as int)).push(self.pending@[i as int].1));
            }
            i += 1;
        }
        proof {
            assert(self.pending@.take(self.pending.len() as int) == self.pending@);
        }
        self.pending = Vec::new();
        self.running = false;
        proof {
            assert(self@ == shutdown_spec(old(self)@).0);
        }
        Ok(discarded)
    }

    /// Takes out of the pending schedule the jobs whose instant has come at `now` and
    /// returns them, in order of submission, for the executor.
    pub fn due_jobs(&mut self, now: u64) -> (r: Vec<u64>)
        requires
            old(self).wf(),
        ensures
            final(self).wf(),
            (final(self)@, r@) == due_spec(old(self)@, now),
    {
        let mut fired_jobs: Vec<u64> = Vec::new();
        let mut rest: Vec<(u64, u64)> = Vec::new();
        let mut i: usize = 0;
        while i < self.pending.len()
            invariant
                i <= self.pending.len(),
                fired_jobs@ == fired(self.pending@.take(i as int), now as int),
                rest@ == waiting(self.pending@.take(i as int), now as int),
            decreases self.pending.len() - i,
        {
            let e = self.pending[i];
            proof {
                assert(self.pending@.take(i + 1).drop_last() == self.pending@.take(i as int));
            }
            if e.0 <= now {
                fired_jobs.push(e.1);
            } else {
                rest.push(e);
            }
            i += 1;
        }
        proof {
            assert(self.pending@.take(self.pending.len() as int) == self.pending@);
            if !self.running {
                assert(rest@ =~= seq![]);
            }
        }
        self.pending = rest;
        proof {
            assert(self@ == due_spec(old(self)@, now).0);
        }
        fired_jobs
    }

    /// The earliest instant in the pending schedule, when the next job comes due.
    pub fn next_wakeup(&self) -> (r: Option<u64>)
        ensures
            r is None <==> self@.pending.len() == 0,
            r matches Some(w) ==> (exists|i: int|
                0 <= i < self@.pending.len() && #[trigger] self@.pending[i].0 == w) && (forall|i: int|
                0 <= i < self@.pending.len() ==> w <= #[trigger] self@.pending[i].0),
    {
        if self.pending.len() == 0 {
            return None;
        }
        let mut best: u64 = self.pending[0].0;
        let mut i: usize = 1;
        while i < self.pending.len()
            invariant
                1 <= i <= self.pending.len(),
                exists|k: int| 0 <= k < i && #[trigger] self.pending@[k].0 == best,
                forall|k: int| 0 <= k < i ==> best <= #[trigger] self.pending@[k].0,
            decreases self.pending.len() - i,
        {
            if self.pending[i].0 < best {
                best = self.pending[i].0;
            }
            i += 1;
        }
        Some(best)
    }
}


proof fn lemma_fired_contains(p: Seq<(u64, u64)>, i: int, now: int)
    requires
        0 <= i < p.len(),
        p[i].0 <= now,
    ensures
        fired(p, now).contains(p[i].1),
    decreases p.len(),
{
    if i == p.len() - 1 {
        assert(fired(p, now).last() == p[i].1);
    } else {
        lemma_fired_contains(p.drop_last(), i, now);
        let r = fired(p.drop_last(), now);
        let k = choose|k: int| 0 <= k < r.len() && r[k] == p[i].1;
        if p.last().0 <= now {
            assert(fired(p, now)[k] == p[i].1);
        }
    }
}

/// Eventual admission: a job that a running scheduler accepts gets an admission instant
/// no earlier than its submission, and any look at the clock at or after that instant
/// hands the job to the executor.
pub proof fn lemma_eventual_admission(m: RunnerModel, job: u64, now: u64, later: u64)
    requires
        valid(m),
        m.running,
        submit_spec(m, job, now).1 is Ok,
    ensures
        ({
            let (s, r) = submit_spec(m, job, now);
            let at = r->Ok_0;
            &&& now <= at
            &&& s.running
            &&& (at <= later ==> due_spec(s, later).1.contains(job))
        }),
{
    let (s, r) = submit_spec(m, job, now);
    let t = effective_now(m, now);
    let h = history_after(m.times, m.max_runs, m.window);
    let p = pruned(h, t, m.window);
    if p.len() >= m.max_runs {
        lemma_pruned_entries(h, t, m.window, p.len() - m.max_runs);
    }
    if r->Ok_0 <= later {
        lemma_fired_contains(s.pending, s.pending.len() - 1, later as int);
    }
}

proof fn lemma_pruned_entries(h: Seq<int>, now: int, d: int, j: int)
    requires
        0 <= j < pruned(h, now, d).len(),
    ensures
        pruned(h, now, d)[j] + d > now,
    decreases h.len(),
{
    let t = h.drop_last();
    if h.last() + d > now && j == pruned(h, now, d).len() - 1 {
    } else {
        lemma_pruned_entries(t, now, d, j);
    }
}

/// The instants a scheduler hands out are the admission log of the clock readings it
/// took the submissions at, so what is proved of that log holds of them; and a
/// submission keeps the scheduler's state one that can occur.
pub proof fn lemma_submit_admits(m: RunnerModel, job: u64, now: u64)
    requires
        valid(m),
    ensures
        ({
            let (s, r) = submit_spec(m, job, now);
            &&& valid(s)
            &&& (r matches Ok(a) ==> admissions(s.times, s.max_runs, s.window) == admissions(
                m.times,
                m.max_runs,
                m.window,
            ).push(a as int))
        }),
{
    let (s, r) = submit_spec(m, job, now);
    if r is Ok {
        let t = effective_now(m, now);
        let h = history_after(m.times, m.max_runs, m.window);
        let p = pruned(h, t, m.window);
        assert(t >= 0) by {
            if m.times.len() > 0 {
                assert(0 <= m.times[m.times.len() - 1]);
            }
        }
        if p.len() >= m.max_runs {
            lemma_pruned_entries(h, t, m.window, p.len() - m.max_runs);
        }
        assert(admission_instant(h, t, m.max_runs, m.window) >= 0);
        assert(s.times.drop_last() == m.times);
        assert forall|x: int, y: int| 0 <= x <= y < s.times.len() implies s.times[x] <= s.times[y] by {
            if y == m.times.len() && x < y {
                assert(m.times[x] <= m.times[m.times.len() - 1]);
            }
        }
    }
}

/// Idempotent shutdown: after a shutdown the scheduler is stopped for good; a second
/// shutdown and any later submission are refused with `Closed` and change nothing.
pub proof fn lemma_shutdown_idempotent(m: RunnerModel, job: u64, now: u64, later: u64)
    requires
        valid(m),
    ensures
        ({
            let s = shutdown_spec(m).0;
            &&& !s.running
            &&& s.pending.len() == 0
            &&& shutdown_spec(s) == (s, Err::<Seq<u64>, SubmitError>(SubmitError::Closed))
            &&& submit_spec(s, job, now) == (s, Err::<u64, SubmitError>(SubmitError::Closed))
            &&& !due_spec(s, later).0.running
        }),
{
}

} // verus!
