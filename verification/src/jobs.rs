//! The job table: a fixed number of slots, each free or holding one job,
//! and the job IDs handed out to new jobs.
use vstd::prelude::*;
use crate::text::{decimal, signed_decimal, push_decimal, push_signed, push_str, string_from_chars};

verus! {

/// Number of slots in the job table.
pub const MAXJOBS: usize = 16;

/// Largest job ID handed out before the counter starts again at 1.
pub const MAXJID: usize = 65536;

/// The state of a job slot.
#[allow(non_camel_case_types)]
#[derive(Clone, Copy, Debug, PartialEq, Eq, Structural)]
pub enum JobState {
    /// A free slot.
    UNDEF,
    /// Running in the foreground.
    FG,
    /// Running in the background.
    BG,
    /// Stopped.
    ST,
}

/// One slot of the job table.
#[derive(Debug)]
pub struct Job {
    /// Process ID of the job's process group leader; `None` for a free slot.
    pub pid: Option<i32>,
    /// Job ID, 0 for a free slot.
    pub jid: usize,
    /// The job's state.
    pub state: JobState,
    /// The command line that started the job.
    pub cmdline: String,
}

/// A job slot as a mathematical value.
pub struct JobView {
    pub pid: Option<i32>,
    pub jid: usize,
    pub state: JobState,
    pub cmdline: Seq<char>,
}

impl View for Job {
    type V = JobView;

    open spec fn view(&self) -> JobView {
        JobView { pid: self.pid, jid: self.jid, state: self.state, cmdline: self.cmdline@ }
    }
}

/// The shell's state as a mathematical value.
pub struct ShellView {
    pub jobs: Seq<JobView>,
    pub next_jid: usize,
    pub verbose: bool,
    pub prompt: bool,
}

/// A free slot.
pub open spec fn free_slot() -> JobView {
    JobView { pid: None, jid: 0, state: JobState::UNDEF, cmdline: Seq::empty() }
}

/// A slot is either free and cleared, or holds a job with a positive process
/// ID and a positive job ID.
pub open spec fn slot_ok(j: JobView) -> bool {
    match j.pid {
        None => j == free_slot(),
        Some(p) => p >= 1 && j.jid >= 1,
    }
}

/// The invariant of the shell's state.
pub open spec fn shell_wf(s: ShellView) -> bool {
    &&& s.jobs.len() == MAXJOBS
    &&& forall|i: int| 0 <= i < s.jobs.len() ==> slot_ok(#[trigger] s.jobs[i])
    &&& s.next_jid >= 1
}

/// The first slot at or after `k` that holds process `pid`.
pub open spec fn find_pid_from(jobs: Seq<JobView>, pid: i32, k: int) -> Option<int>
    decreases jobs.len() - k,
{
    if k < 0 || k >= jobs.len() {
        None
    } else if jobs[k].pid == Some(pid) {
        Some(k)
    } else {
        find_pid_from(jobs, pid, k + 1)
    }
}

/// The first slot that holds process `pid`.
pub open spec fn find_pid(jobs: Seq<JobView>, pid: i32) -> Option<int> {
    find_pid_from(jobs, pid, 0)
}

/// The first slot at or after `k` whose job ID is `jid`.
pub open spec fn find_jid_from(jobs: Seq<JobView>, jid: usize, k: int) -> Option<int>
    decreases jobs.len() - k,
{
    if k < 0 || k >= jobs.len() {
        None
    } else if jobs[k].jid == jid {
        Some(k)
    } else {
        find_jid_from(jobs, jid, k + 1)
    }
}

/// The first slot at or after `k` in state `st`.
pub open spec fn find_state_from(jobs: Seq<JobView>, st: JobState, k: int) -> Option<int>
    decreases jobs.len() - k,
{
    if k < 0 || k >= jobs.len() {
        None
    } else if jobs[k].state == st {
        Some(k)
    } else {
        find_state_from(jobs, st, k + 1)
    }
}

/// The first free slot at or after `k`.
pub open spec fn find_free_from(jobs: Seq<JobView>, k: int) -> Option<int>
    decreases jobs.len() - k,
{
    if k < 0 || k >= jobs.len() {
        None
    } else if jobs[k].pid is None {
        Some(k)
    } else {
        find_free_from(jobs, k + 1)
    }
}

/// The largest job ID in the table, 0 when there is none.
pub open spec fn max_jid(jobs: Seq<JobView>) -> usize
    decreases jobs.len(),
{
    if jobs.len() == 0 {
        0
    } else {
        let m = max_jid(jobs.drop_last());
        if jobs.last().jid > m {
            jobs.last().jid
        } else {
            m
        }
    }
}

/// The process ID of the foreground job: that of the first slot in state `FG`.
pub open spec fn fg_pid(s: ShellView) -> Option<i32> {
    match find_state_from(s.jobs, JobState::FG, 0) {
        Some(i) => s.jobs[i].pid,
        None => None,
    }
}

/// The job ID of process `pid`, 0 when no job has that process.
pub open spec fn jid_of_pid(s: ShellView, pid: i32) -> usize {
    if pid < 1 {
        0
    } else {
        match find_pid(s.jobs, pid) {
            Some(i) => s.jobs[i].jid,
            None => 0,
        }
    }
}

/// The slot of process `pid`; none for a process ID below 1.
pub open spec fn slot_of_pid(s: ShellView, pid: i32) -> Option<int> {
    if pid < 1 {
        None
    } else {
        find_pid(s.jobs, pid)
    }
}

/// The slot of job `jid`; none for a job ID below 1.
pub open spec fn slot_of_jid(s: ShellView, jid: usize) -> Option<int> {
    if jid < 1 {
        None
    } else {
        find_jid_from(s.jobs, jid, 0)
    }
}

/// The job ID that follows `n`: one more, or 1 again past `MAXJID`.
pub open spec fn after_jid(n: usize) -> usize {
    if n + 1 > MAXJID {
        1
    } else {
        (n + 1) as usize
    }
}

/// Adding a job: the first free slot takes process `pid` with the next job
/// ID, and the counter moves on. Nothing changes (and the answer is false)
/// for a process ID below 1 or a full table.
pub open spec fn add_job(s: ShellView, pid: i32, state: JobState, cmdline: Seq<char>) -> (
    ShellView,
    bool,
) {
    if pid < 1 {
        (s, false)
    } else {
        match find_free_from(s.jobs, 0) {
            None => (s, false),
            Some(i) => (
                ShellView {
                    jobs: s.jobs.update(
                        i,
                        JobView { pid: Some(pid), jid: s.next_jid, state, cmdline },
                    ),
                    next_jid: after_jid(s.next_jid),
                    ..s
                },
                true,
            ),
        }
    }
}

/// Deleting the job of process `pid`: its slot is freed and the next job ID
/// becomes one more than the largest left. Nothing changes (and the answer is
/// false) when no job has that process.
pub open spec fn delete_job(s: ShellView, pid: i32) -> (ShellView, bool) {
    match slot_of_pid(s, pid) {
        None => (s, false),
        Some(i) => {
            let jobs = s.jobs.update(i, free_slot());
            (ShellView { jobs, next_jid: (max_jid(jobs) + 1) as usize, ..s }, true)
        },
    }
}


/// The word that the job listing shows for a state.
pub open spec fn state_label(st: JobState) -> Seq<char> {
    match st {
        JobState::BG => "Running"@,
        JobState::FG => "Foreground"@,
        JobState::ST => "Stopped"@,
        JobState::UNDEF => "listjobs: Internal error"@,
    }
}

/// The listing line of a job: `[jid] (pid) State cmdline`.
pub open spec fn job_line(j: JobView) -> Seq<char> {
    "["@ + decimal(j.jid as nat) + "] ("@ + signed_decimal(j.pid.unwrap() as int) + ") "@
        + state_label(j.state) + " "@ + j.cmdline
}

/// The listing of the occupied slots, in slot order.
pub open spec fn listing(jobs: Seq<JobView>) -> Seq<char>
    decreases jobs.len(),
{
    if jobs.len() == 0 {
        Seq::empty()
    } else {
        listing(jobs.drop_last()) + if jobs.last().pid is Some {
            job_line(jobs.last())
        } else {
            Seq::empty()
        }
    }
}

/// What `find_pid_from` finds is a slot at or after `k` holding `pid`, with
/// none between `k` and it; when it finds none, no slot from `k` on holds `pid`.
pub proof fn lemma_find_pid_from(jobs: Seq<JobView>, pid: i32, k: int)
    requires
        0 <= k,
    ensures
        find_pid_from(jobs, pid, k) matches Some(i) ==> k <= i < jobs.len() && jobs[i].pid == Some(
            pid,
        ) && forall|l: int| k <= l < i ==> jobs[l].pid != Some(pid),
        find_pid_from(jobs, pid, k) is None ==> forall|l: int|
            k <= l < jobs.len() ==> jobs[l].pid != Some(pid),
    decreases jobs.len() - k,
{
    if k < jobs.len() && jobs[k].pid != Some(pid) {
        lemma_find_pid_from(jobs, pid, k + 1);
    }
}

/// What `find_jid_from` finds is a slot at or after `k` with job ID `jid`, with
/// none between `k` and it; when it finds none, no slot from `k` on has `jid`.
pub proof fn lemma_find_jid_from(jobs: Seq<JobView>, jid: usize, k: int)
    requires
        0 <= k,
    ensures
        find_jid_from(jobs, jid, k) matches Some(i) ==> k <= i < jobs.len() && jobs[i].jid == jid
            && forall|l: int| k <= l < i ==> jobs[l].jid != jid,
        find_jid_from(jobs, jid, k) is None ==> forall|l: int|
            k <= l < jobs.len() ==> jobs[l].jid != jid,
    decreases jobs.len() - k,
{
    if k < jobs.len() && jobs[k].jid != jid {
        lemma_find_jid_from(jobs, jid, k + 1);
    }
}

/// What `find_state_from` finds is a slot at or after `k` in state `st`, with
/// none between `k` and it; when it finds none, no slot from `k` on is in `st`.
pub proof fn lemma_find_state_from(jobs: Seq<JobView>, st: JobState, k: int)
    requires
        0 <= k,
    ensures
        find_state_from(jobs, st, k) matches Some(i) ==> k <= i < jobs.len() && jobs[i].state == st
            && forall|l: int| k <= l < i ==> jobs[l].state != st,
        find_state_from(jobs, st, k) is None ==> forall|l: int|
            k <= l < jobs.len() ==> jobs[l].state != st,
    decreases jobs.len() - k,
{
    if k < jobs.len() && jobs[k].state != st {
        lemma_find_state_from(jobs, st, k + 1);
    }
}

/// What `find_free_from` finds is a free slot at or after `k`, with none
/// between `k` and it; when it finds none, every slot from `k` on is taken.
pub proof fn lemma_find_free_from(jobs: Seq<JobView>, k: int)
    requires
        0 <= k,
    ensures
        find_free_from(jobs, k) matches Some(i) ==> k <= i < jobs.len() && jobs[i].pid is None
            && forall|l: int| k <= l < i ==> jobs[l].pid is Some,
        find_free_from(jobs, k) is None ==> forall|l: int| k <= l < jobs.len() ==> jobs[l].pid is Some,
    decreases jobs.len() - k,
{
    if k < jobs.len() && jobs[k].pid is Some {
        lemma_find_free_from(jobs, k + 1);
    }
}

/// The foreground job of a well-formed table has a positive process ID.
pub proof fn lemma_fg_pid_positive(s: ShellView)
    requires
        shell_wf(s),
    ensures
        fg_pid(s) matches Some(p) ==> p >= 1,
        find_state_from(s.jobs, JobState::FG, 0) is Some ==> fg_pid(s) is Some,
{
    lemma_find_state_from(s.jobs, JobState::FG, 0);
    if let Some(i) = find_state_from(s.jobs, JobState::FG, 0) {
        assert(slot_ok(s.jobs[i]));
    }
}

/// Every job ID in the table is at most the largest.
pub proof fn lemma_max_jid_ge(jobs: Seq<JobView>)
    ensures
        forall|i: int| 0 <= i < jobs.len() ==> #[trigger] jobs[i].jid <= max_jid(jobs),
    decreases jobs.len(),
{
    if jobs.len() > 0 {
        lemma_max_jid_ge(jobs.drop_last());
        assert forall|i: int| 0 <= i < jobs.len() implies #[trigger] jobs[i].jid <= max_jid(jobs) by {
            if i < jobs.len() - 1 {
                assert(jobs[i] == jobs.drop_last()[i]);
            }
        }
    }
}

/// Every job ID in the table is at most `b` when `b` bounds each of them.
pub proof fn lemma_max_jid_bound(jobs: Seq<JobView>, b: int)
    requires
        b >= 0,
        forall|i: int| 0 <= i < jobs.len() ==> #[trigger] jobs[i].jid <= b,
    ensures
        max_jid(jobs) <= b,
    decreases jobs.len(),
{
    if jobs.len() > 0 {
        assert forall|i: int| 0 <= i < jobs.drop_last().len() implies #[trigger] jobs.drop_last()[i].jid
            <= b by {
            assert(jobs.drop_last()[i] == jobs[i]);
        }
        lemma_max_jid_bound(jobs.drop_last(), b);
    }
}

/// The job table and the shell's flags.
pub struct Shell {
    jobs: Vec<Job>,
    verbose_flag: bool,
    prompt_flag: bool,
    next_jid: usize,
}

impl View for Shell {
    type V = ShellView;

    closed spec fn view(&self) -> ShellView {
        ShellView {
            jobs: self.jobs@.map_values(|j: Job| j@),
            next_jid: self.next_jid,
            verbose: self.verbose_flag,
            prompt: self.prompt_flag,
        }
    }
}

impl Shell {
    /// The shell's invariant.
    pub open spec fn wf(&self) -> bool {
        shell_wf(self@)
    }

    /// A shell with an empty job table; the first job will get job ID 1.
    pub fn new(prompt_flag: bool, verbose_flag: bool) -> (s: Self)
        ensures
            s.wf(),
            s@.jobs == Seq::new(MAXJOBS as nat, |i: int| free_slot()),
            s@.next_jid == 1,
            s@.verbose == verbose_flag,
            s@.prompt == prompt_flag,
    {
        let s = Shell { jobs: Self::initjobs(), verbose_flag, prompt_flag, next_jid: 1 };
        assert(s@.jobs =~= Seq::new(MAXJOBS as nat, |i: int| free_slot()));
        s
    }

    /// `MAXJOBS` free slots.
    fn initjobs() -> (jobs: Vec<Job>)
        ensures
            jobs.len() == MAXJOBS,
            forall|i: int| 0 <= i < MAXJOBS ==> #[trigger] jobs@[i]@ == free_slot(),
    {
        let mut jobs: Vec<Job> = Vec::new();
        for k in 0..MAXJOBS
            invariant
                jobs.len() == k,
                forall|i: int| 0 <= i < k ==> #[trigger] jobs@[i]@ == free_slot(),
        {
            let job = Job { pid: None, jid: 0, state: JobState::UNDEF, cmdline: String::new() };
            jobs.push(job);
        }
        jobs
    }

    /// Whether diagnostic output was asked for.
    pub fn verbose(&self) -> (b: bool)
        ensures
            b == self@.verbose,
    {
        self.verbose_flag
    }

    /// The job ID that the next job will get.
    pub fn next_jid(&self) -> (n: usize)
        ensures
            n == self@.next_jid,
    {
        self.next_jid
    }

    /// The process ID in slot `i`.
    pub fn job_pid(&self, i: usize) -> (p: Option<i32>)
        requires
            self.wf(),
            i < MAXJOBS,
        ensures
            p == self@.jobs[i as int].pid,
    {
        self.jobs[i].pid
    }

    /// The job ID in slot `i`.
    pub fn job_jid(&self, i: usize) -> (j: usize)
        requires
            self.wf(),
            i < MAXJOBS,
        ensures
            j == self@.jobs[i as int].jid,
    {
        self.jobs[i].jid
    }

    /// The state of slot `i`.
    pub fn job_state(&self, i: usize) -> (st: JobState)
        requires
            self.wf(),
            i < MAXJOBS,
        ensures
            st == self@.jobs[i as int].state,
    {
        self.jobs[i].state
    }

    /// The command line of slot `i`.
    pub fn job_cmdline(&self, i: usize) -> (c: &String)
        requires
            self.wf(),
            i < MAXJOBS,
        ensures
            c@ == self@.jobs[i as int].cmdline,
    {
        &self.jobs[i].cmdline
    }

    /// Puts the job in slot `i` into state `st`.
    pub fn set_state(&mut self, i: usize, st: JobState)
        requires
            old(self).wf(),
            i < MAXJOBS,
            old(self)@.jobs[i as int].pid is Some,
        ensures
            final(self).wf(),
            final(self)@ == (ShellView {
                jobs: old(self)@.jobs.update(
                    i as int,
                    JobView { state: st, ..old(self)@.jobs[i as int] },
                ),
                ..old(self)@
            }),
    {
        let ghost before = self@;
        let old_job = self.jobs[i].pid;
        let jid = self.jobs[i].jid;
        let cmd = self.jobs[i].cmdline.clone();
        let job = Job { pid: old_job, jid, state: st, cmdline: cmd };
        self.jobs.set(i, job);
        proof {
            assert(self@.jobs =~= before.jobs.update(
                i as int,
                JobView { state: st, ..before.jobs[i as int] },
            ));
            assert forall|k: int| 0 <= k < self@.jobs.len() implies slot_ok(
                #[trigger] self@.jobs[k],
            ) by {
                if k != i {
                    assert(self@.jobs[k] == before.jobs[k]);
                }
            }
        }
    }

    /// The process ID of the foreground job, if there is one.
    pub fn fgpid(&self) -> (p: Option<i32>)
        requires
            self.wf(),
        ensures
            p == fg_pid(self@),
    {
        let mut k: usize = 0;
        while k < self.jobs.len()
            invariant
                self.wf(),
                k <= self.jobs.len(),
                find_state_from(self@.jobs, JobState::FG, 0) == find_state_from(
                    self@.jobs,
                    JobState::FG,
                    k as int,
                ),
            decreases self.jobs.len() - k,
        {
            assert(self@.jobs[k as int] == self.jobs@[k as int]@);
            if self.jobs[k].state == JobState::FG {
                return self.jobs[k].pid;
            }
            k = k + 1;
        }
        None
    }

    /// The slot of process `pid` (the original hands out the slot itself).
    pub fn getjobpid(&self, pid: i32) -> (r: Option<usize>)
        requires
            self.wf(),
        ensures
            r matches Some(i) ==> slot_of_pid(self@, pid) == Some(i as int) && i < MAXJOBS,
            r is None ==> slot_of_pid(self@, pid) is None,
            r matches Some(i) ==> self@.jobs[i as int].pid == Some(pid) && forall|l: int|
                0 <= l < i ==> self@.jobs[l].pid != Some(pid),
            r is None ==> forall|l: int| 0 <= l < self@.jobs.len() ==> self@.jobs[l].pid != Some(pid),
    {
        proof {
            lemma_find_pid_from(self@.jobs, pid, 0);
        }
        if pid < 1 {
            return None;
        }
        let mut k: usize = 0;
        while k < self.jobs.len()
            invariant
                self.wf(),
                k <= self.jobs.len(),
                pid >= 1,
                find_pid(self@.jobs, pid) == find_pid_from(self@.jobs, pid, k as int),
                forall|l: int| 0 <= l < k ==> self@.jobs[l].pid != Some(pid),
            decreases self.jobs.len() - k,
        {
            assert(self@.jobs[k as int] == self.jobs@[k as int]@);
            if self.jobs[k].pid == Some(pid) {
                return Some(k);
            }
            k = k + 1;
        }
        None
    }

    /// The slot of job `jid` (the original hands out the slot itself).
    pub fn getjobjid(&self, jid: usize) -> (r: Option<usize>)
        requires
            self.wf(),
        ensures
            r matches Some(i) ==> slot_of_jid(self@, jid) == Some(i as int) && i < MAXJOBS,
            r is None ==> slot_of_jid(self@, jid) is None,
            r matches Some(i) ==> self@.jobs[i as int].jid == jid && self@.jobs[i as int].pid is Some
                && forall|l: int| 0 <= l < i ==> self@.jobs[l].jid != jid,
            r is None ==> jid < 1 || forall|l: int|
                0 <= l < self@.jobs.len() ==> self@.jobs[l].jid != jid,
    {
        proof {
            lemma_find_jid_from(self@.jobs, jid, 0);
        }
        if jid < 1 {
            return None;
        }
        let mut k: usize = 0;
        while k < self.jobs.len()
            invariant
                self.wf(),
                k <= self.jobs.len(),
                jid >= 1,
                find_jid_from(self@.jobs, jid, 0) == find_jid_from(self@.jobs, jid, k as int),
                forall|l: int| 0 <= l < k ==> self@.jobs[l].jid != jid,
            decreases self.jobs.len() - k,
        {
            assert(self@.jobs[k as int] == self.jobs@[k as int]@);
            if self.jobs[k].jid == jid {
                assert(slot_ok(self@.jobs[k as int]));
                return Some(k);
            }
            k = k + 1;
        }
        None
    }

    /// The job ID of process `pid`, 0 when there is no such job.
    pub fn pid2jid(&self, pid: i32) -> (j: usize)
        requires
            self.wf(),
        ensures
            j == jid_of_pid(self@, pid),
    {
        match self.getjobpid(pid) {
            Some(i) => self.jobs[i].jid,
            None => 0,
        }
    }

    /// The largest job ID in the table, 0 when the table is empty.
    pub fn maxjid(&self) -> (m: usize)
        requires
            self.wf(),
        ensures
            m == max_jid(self@.jobs),
    {
        let mut max: usize = 0;
        let mut k: usize = 0;
        assert(self@.jobs.take(0) =~= Seq::<JobView>::empty());
        while k < self.jobs.len()
            invariant
                self.wf(),
                k <= self.jobs.len(),
                max == max_jid(self@.jobs.take(k as int)),
            decreases self.jobs.len() - k,
        {
            assert(self@.jobs.take(k + 1).drop_last() =~= self@.jobs.take(k as int));
            assert(self@.jobs.take(k + 1).last() == self.jobs@[k as int]@);
            if self.jobs[k].jid > max {
                max = self.jobs[k].jid;
            }
            k = k + 1;
        }
        assert(self@.jobs.take(k as int) =~= self@.jobs);
        max
    }

    /// Adds a job for process `pid` in the first free slot; false for a
    /// process ID below 1 or a full table.
    pub fn addjob(&mut self, pid: i32, state: JobState, cmdline: &str) -> (added: bool)
        requires
            old(self).wf(),
            old(self)@.next_jid < usize::MAX,
        ensures
            final(self).wf(),
            (final(self)@, added) == add_job(old(self)@, pid, state, cmdline@),
    {
        if pid < 1 {
            return false;
        }
        let ghost before = self@;
        let mut k: usize = 0;
        while k < self.jobs.len()
            invariant
                self.wf(),
                self@ == before,
                before == old(self)@,
                pid >= 1,
                self.next_jid < usize::MAX,
                k <= self.jobs.len(),
                find_free_from(self@.jobs, 0) == find_free_from(self@.jobs, k as int),
            decreases self.jobs.len() - k,
        {
            assert(self@.jobs[k as int] == self.jobs@[k as int]@);
            if self.jobs[k].pid.is_none() {
                let job = Job {
                    pid: Some(pid),
                    jid: self.next_jid,
                    state,
                    cmdline: cmdline.to_owned(),
                };
                self.jobs.set(k, job);
                self.next_jid = self.next_jid + 1;
                if self.next_jid > MAXJID {
                    self.next_jid = 1;
                }
                proof {
                    let jv = JobView {
                        pid: Some(pid),
                        jid: before.next_jid,
                        state,
                        cmdline: cmdline@,
                    };
                    assert(self@.jobs =~= before.jobs.update(k as int, jv));
                    assert(find_free_from(before.jobs, k as int) == Some(k as int));
                    assert((self@, true) == add_job(before, pid, state, cmdline@));
                    assert forall|i: int| 0 <= i < self@.jobs.len() implies slot_ok(
                        #[trigger] self@.jobs[i],
                    ) by {
                        if i != k {
                            assert(self@.jobs[i] == before.jobs[i]);
                        }
                    }
                }
                return true;
            }
            k = k + 1;
        }
        false
    }

    /// Frees the slot of process `pid`; the next job ID becomes one more than
    /// the largest one left. False when no job has that process.
    pub fn deletejob(&mut self, pid: i32) -> (deleted: bool)
        requires
            old(self).wf(),
            max_jid(old(self)@.jobs) < usize::MAX,
        ensures
            final(self).wf(),
            (final(self)@, deleted) == delete_job(old(self)@, pid),
    {
        let ghost before = self@;
        proof {
            lemma_max_jid_ge(before.jobs);
        }
        match self.getjobpid(pid) {
            None => false,
            Some(k) => {
                let job = Job { pid: None, jid: 0, state: JobState::UNDEF, cmdline: String::new() };
                self.jobs.set(k, job);
                proof {
                    assert(self.jobs@.map_values(|j: Job| j@) =~= before.jobs.update(
                        k as int,
                        free_slot(),
                    ));
                    assert forall|i: int| 0 <= i < self@.jobs.len() implies slot_ok(
                        #[trigger] self@.jobs[i],
                    ) by {
                        if i != k {
                            assert(self@.jobs[i] == before.jobs[i]);
                        }
                    }
                    assert forall|i: int| 0 <= i < self@.jobs.len() implies #[trigger] self@.jobs[i].jid
                        <= usize::MAX - 1 by {
                        if i != k {
                            assert(self@.jobs[i] == before.jobs[i]);
                        }
                    }
                    lemma_max_jid_bound(self@.jobs, usize::MAX - 1);
                }
                let m = self.maxjid();
                self.next_jid = m + 1;
                true
            },
        }
    }

    /// The job listing: one line per occupied slot, in slot order.
    pub fn listjobs(&self) -> (out: String)
        requires
            self.wf(),
        ensures
            out@ == listing(self@.jobs),
    {
        let mut v: Vec<char> = Vec::new();
        let mut k: usize = 0;
        assert(self@.jobs.take(0) =~= Seq::<JobView>::empty());
        while k < self.jobs.len()
            invariant
                self.wf(),
                k <= self.jobs.len(),
                v@ == listing(self@.jobs.take(k as int)),
            decreases self.jobs.len() - k,
        {
            assert(self@.jobs.take(k + 1).drop_last() =~= self@.jobs.take(k as int));
            assert(self@.jobs.take(k + 1).last() == self.jobs@[k as int]@);
            match self.jobs[k].pid {
                Some(p) => {
                    push_job_line(&mut v, self.jobs[k].jid, p, self.jobs[k].state, &self.jobs[k].cmdline);
                },
                None => {},
            }
            k = k + 1;
        }
        assert(self@.jobs.take(k as int) =~= self@.jobs);
        string_from_chars(&v)
    }
}

/// Appends the listing line of a job.
fn push_job_line(v: &mut Vec<char>, jid: usize, pid: i32, st: JobState, cmdline: &String)
    ensures
        final(v)@ == old(v)@ + job_line(
            JobView { pid: Some(pid), jid, state: st, cmdline: cmdline@ },
        ),
{
    let ghost start = v@;
    push_str(v, "[");
    push_decimal(v, jid as u64);
    push_str(v, "] (");
    push_signed(v, pid);
    push_str(v, ") ");
    match st {
        JobState::BG => push_str(v, "Running"),
        JobState::FG => push_str(v, "Foreground"),
        JobState::ST => push_str(v, "Stopped"),
        JobState::UNDEF => push_str(v, "listjobs: Internal error"),
    }
    push_str(v, " ");
    push_str(v, cmdline.as_str());
    assert(v@ =~= start + job_line(JobView { pid: Some(pid), jid, state: st, cmdline: cmdline@ }));
}

} // verus!
