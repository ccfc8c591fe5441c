//! What the shell decides: how a command line is read and carried out, what
//! becomes of the job table when a child changes state, and which process
//! group a keyboard signal is forwarded to. Process creation, signals and
//! output are left to the caller, which is told what to do in a `Plan`.
use vstd::prelude::*;
use crate::text::{
    decimal, signed_decimal, all_digits, digits_value, digits_fit_i32, parse_usize, has_char,
    trim, push_str, push_all, push_decimal, push_signed, string_from_chars, chars_of, str_eq,
    parse_usize_at, all_ascii_digits, digits_upto,
};
use crate::parse::{parse_line, path_dirs, split_colon, lemma_find_or_len_at, words, trimmed, sub_string};
use crate::jobs::{
    Shell, ShellView, JobView, JobState, MAXJOBS, shell_wf, slot_of_pid, slot_of_jid, jid_of_pid,
    add_job, delete_job, fg_pid, max_jid, listing, lemma_fg_pid_positive, lemma_find_pid_from,
    lemma_find_jid_from,
};

verus! {

/// What the caller is to do after a command line has been read.
pub enum Plan {
    /// Nothing (the line held no words).
    Nothing,
    /// Leave the shell with exit status 0.
    Quit,
    /// Write this text to standard output.
    Print(String),
    /// Send `SIGCONT` to `group` (a negated process ID, which `kill` reads as
    /// a process group), then write `output`, then wait while process
    /// `wait_for` is the foreground job.
    Resume { group: i32, output: String, wait_for: Option<i32> },
    /// Start an outside program with argument vector `argv`, trying the
    /// paths in `candidates` in order; run it in the background or wait for it.
    Launch { argv: Vec<String>, background: bool, candidates: Vec<String> },
}

/// A plan as a mathematical value.
pub enum PlanView {
    Nothing,
    Quit,
    Print(Seq<char>),
    Resume { group: i32, output: Seq<char>, wait_for: Option<i32> },
    Launch { argv: Seq<Seq<char>>, background: bool, candidates: Seq<Seq<char>> },
}

impl View for Plan {
    type V = PlanView;

    open spec fn view(&self) -> PlanView {
        match self {
            Plan::Nothing => PlanView::Nothing,
            Plan::Quit => PlanView::Quit,
            Plan::Print(s) => PlanView::Print(s@),
            Plan::Resume { group, output, wait_for } => PlanView::Resume {
                group: *group,
                output: output@,
                wait_for: *wait_for,
            },
            Plan::Launch { argv, background, candidates } => PlanView::Launch {
                argv: argv.deep_view(),
                background: *background,
                candidates: candidates.deep_view(),
            },
        }
    }
}

/// What `waitpid` reported about a child.
#[derive(Clone, Copy, Debug, PartialEq, Eq, Structural)]
pub enum ChildStatus {
    /// The child exited.
    Exited(i32),
    /// The child was killed by a signal.
    Signaled(i32),
    /// The child was stopped by a signal.
    Stopped(i32),
    /// Some other report (still running, continued, traced).
    Other,
    /// There are no children left.
    NoChildren,
    /// `waitpid` failed otherwise.
    Failed,
}

/// The shell with slot `i` put into state `st`.
pub open spec fn with_state(s: ShellView, i: int, st: JobState) -> ShellView {
    ShellView { jobs: s.jobs.update(i, JobView { state: st, ..s.jobs[i] }), ..s }
}

/// The job ID that an argument `%N` names, when `N` parses as a `usize`.
pub open spec fn percent_jid(a: Seq<char>) -> Option<usize> {
    if a.len() > 0 && a[0] == '%' {
        parse_usize(a.drop_first())
    } else {
        None
    }
}

/// Resuming the job in slot `i`: in the background, the job's state becomes
/// `BG` and its listing line is written; in the foreground, it becomes `FG`
/// and the shell waits for it. Either way its process group gets `SIGCONT`.
pub open spec fn resume_step(s: ShellView, i: int, background: bool) -> (ShellView, PlanView) {
    let j = s.jobs[i];
    let p = j.pid.unwrap();
    if background {
        (
            with_state(s, i, JobState::BG),
            PlanView::Resume {
                group: (-p) as i32,
                output: "["@ + decimal(j.jid as nat) + "] ("@ + signed_decimal(p as int) + ") "@
                    + j.cmdline,
                wait_for: None,
            },
        )
    } else {
        (
            with_state(s, i, JobState::FG),
            PlanView::Resume { group: (-p) as i32, output: Seq::empty(), wait_for: Some(p) },
        )
    }
}

/// The inputs on which `bg`/`fg` is defined: a command word, and an argument
/// made of digits only (and not `%N`) that is not empty and fits in an `i32`.
pub open spec fn bgfg_defined(argv: Seq<Seq<char>>) -> bool {
    &&& argv.len() >= 1
    &&& (argv.len() >= 2 && percent_jid(argv[1]) is None && all_digits(argv[1])) ==> digits_fit_i32(
        argv[1],
    )
}

/// The `bg` and `fg` built-ins: the argument is `%N` for job `N` or a process
/// ID; the job named is resumed, in the background for `bg`, else in the
/// foreground. Otherwise a message says what was wrong.
pub open spec fn bgfg_step(s: ShellView, argv: Seq<Seq<char>>) -> (ShellView, PlanView) {
    let background = argv[0] == "bg"@;
    if argv.len() < 2 {
        (s, PlanView::Print(argv[0] + " command requires PID or %jobid argument\n"@))
    } else {
        let a = argv[1];
        match percent_jid(a) {
            Some(jid) => match slot_of_jid(s, jid) {
                Some(i) => resume_step(s, i, background),
                None => (s, PlanView::Print(a + ": No such job\n"@)),
            },
            None => if all_digits(a) {
                let p = digits_value(a) as i32;
                match slot_of_pid(s, p) {
                    Some(i) => resume_step(s, i, background),
                    None => (
                        s,
                        PlanView::Print("("@ + signed_decimal(p as int) + "): No such process\n"@),
                    ),
                }
            } else {
                (s, PlanView::Print(argv[0] + ": argument must be a PID or %jobid\n"@))
            },
        }
    }
}

/// Whether the command word names a built-in: `quit`, `jobs`, `bg` or `fg`.
pub open spec fn is_builtin(w: Seq<char>) -> bool {
    w == "quit"@ || w == "jobs"@ || w == "bg"@ || w == "fg"@
}

/// The built-in commands: `quit` leaves, `jobs` lists the jobs, `bg` and `fg`
/// resume a job. `None` for any other command word.
pub open spec fn builtin_step(s: ShellView, argv: Seq<Seq<char>>) -> Option<(ShellView, PlanView)> {
    if argv[0] == "quit"@ {
        Some((s, PlanView::Quit))
    } else if argv[0] == "jobs"@ {
        Some((s, PlanView::Print(listing(s.jobs))))
    } else if argv[0] == "bg"@ || argv[0] == "fg"@ {
        Some(bgfg_step(s, argv))
    } else {
        None
    }
}

/// The paths to try for a command: the command itself when it holds a `/`
/// or no search directory is given, else the command in each directory in
/// turn (`./cmd` for an empty directory, `dir/cmd` otherwise).
pub open spec fn exec_candidates(cmd: Seq<char>, dirs: Seq<Seq<char>>) -> Seq<Seq<char>> {
    if !has_char(cmd, '/') && dirs.len() > 0 {
        Seq::new(
            dirs.len(),
            |i: int|
                if dirs[i].len() == 0 {
                    "./"@ + cmd
                } else {
                    dirs[i] + "/"@ + cmd
                },
        )
    } else {
        seq![cmd]
    }
}

/// The lines on which `eval` is defined: every single quote that opens a
/// word is closed, and `bg`/`fg` get an argument they can read.
pub open spec fn eval_defined(line: Seq<char>) -> bool {
    match parse_line(line) {
        Some((argv, bg)) => (argv.len() > 0 && (argv[0] == "bg"@ || argv[0] == "fg"@))
            ==> bgfg_defined(argv),
        None => false,
    }
}

/// Evaluating a command line: an empty line does nothing; a built-in is
/// carried out; anything else is launched, in the background when the line
/// ends with the word `&`.
pub open spec fn eval_step(s: ShellView, line: Seq<char>, dirs: Seq<Seq<char>>) -> (
    ShellView,
    PlanView,
) {
    let (argv, bg) = parse_line(line).unwrap();
    if argv.len() == 0 {
        (s, PlanView::Nothing)
    } else {
        match builtin_step(s, argv) {
            Some(r) => r,
            None => (
                s,
                PlanView::Launch {
                    argv,
                    background: bg,
                    candidates: exec_candidates(argv[0], dirs),
                },
            ),
        }
    }
}

/// Recording a started child: it is added to the job table, in state `BG`
/// or `FG`. The output is the note on the new job (when diagnostics are
/// on), or that the table is full, followed for a background job by its
/// line `[jid] (pid) command`.
pub open spec fn register_step(s: ShellView, child: i32, background: bool, line: Seq<char>) -> (
    ShellView,
    Seq<char>,
) {
    let (s2, added) = add_job(
        s,
        child,
        if background {
            JobState::BG
        } else {
            JobState::FG
        },
        line,
    );
    let note = if added {
        if s.verbose {
            "Added job ["@ + decimal(s.next_jid as nat) + "] "@ + signed_decimal(child as int) + " "@
                + line + "\n"@
        } else {
            Seq::empty()
        }
    } else if child >= 1 {
        "Tried to create too many jobs\n"@
    } else {
        Seq::empty()
    };
    let announce = if background {
        "["@ + decimal(jid_of_pid(s2, child) as nat) + "] ("@ + signed_decimal(child as int) + ") "@
            + trim(line) + "\n"@
    } else {
        Seq::empty()
    };
    (s2, note + announce)
}

/// The note written, with diagnostics on, when the job in slot `i` is deleted.
pub open spec fn deleted_note(s: ShellView, i: int, pid: i32) -> Seq<char> {
    if s.verbose {
        "Deleted job ["@ + decimal(s.jobs[i].jid as nat) + "] "@ + signed_decimal(pid as int) + "\n"@
    } else {
        Seq::empty()
    }
}

/// Handling one report of `waitpid`: a known child that exited is deleted; a
/// known child killed by a signal is reported and deleted; a known child that
/// stopped is marked `ST` and reported. The flag says whether to ask
/// `waitpid` again; any other report ends the round.
pub open spec fn reap_step(s: ShellView, status: ChildStatus) -> (ShellView, Seq<char>, bool) {
    match status {
        ChildStatus::Exited(p) => match slot_of_pid(s, p) {
            Some(i) => (delete_job(s, p).0, deleted_note(s, i, p), true),
            None => (s, Seq::empty(), false),
        },
        ChildStatus::Signaled(p) => match slot_of_pid(s, p) {
            Some(i) => (
                delete_job(s, p).0,
                "Job ["@ + decimal(s.jobs[i].jid as nat) + "] ("@ + signed_decimal(p as int)
                    + ") terminated by signal SIGINT\n"@ + deleted_note(s, i, p),
                true,
            ),
            None => (s, Seq::empty(), false),
        },
        ChildStatus::Stopped(p) => match slot_of_pid(s, p) {
            Some(i) => (
                with_state(s, i, JobState::ST),
                "Job ["@ + decimal(s.jobs[i].jid as nat) + "] ("@ + signed_decimal(p as int)
                    + ") stopped by signal SIGTSTP\n"@,
                true,
            ),
            None => (s, Seq::empty(), false),
        },
        ChildStatus::Failed => (s, "waitpid error"@, false),
        _ => (s, Seq::empty(), false),
    }
}

/// The process group that a keyboard signal goes to: that of the foreground
/// job, written as `kill` takes it (the negated process ID).
pub open spec fn forward_target(s: ShellView) -> Option<i32> {
    match fg_pid(s) {
        Some(p) => Some((-p) as i32),
        None => None,
    }
}

/// The candidate paths for command `cmd` and search directories `pathvec`.
pub fn exec_paths(cmd: &String, pathvec: &[String]) -> (r: Vec<String>)
    ensures
        r.deep_view() == exec_candidates(cmd@, pathvec.deep_view()),
{
    let cs = chars_of(cmd.as_str());
    let mut has_slash = false;
    let mut i: usize = 0;
    while i < cs.len()
        invariant
            i <= cs.len(),
            cs@ == cmd@,
            has_slash == (exists|l: int| 0 <= l < i && cs@[l] == '/'),
        decreases cs.len() - i,
    {
        if cs[i] == '/' {
            has_slash = true;
        }
        i = i + 1;
    }
    let mut r: Vec<String> = Vec::new();
    if !has_slash && pathvec.len() > 0 {
        let ghost dirs = pathvec.deep_view();
        let mut k: usize = 0;
        while k < pathvec.len()
            invariant
                k <= pathvec.len(),
                dirs == pathvec.deep_view(),
                cs@ == cmd@,
                r.len() == k,
                forall|l: int|
                    0 <= l < k ==> (#[trigger] r@[l])@ == (if dirs[l].len() == 0 {
                        "./"@ + cmd@
                    } else {
                        dirs[l] + "/"@ + cmd@
                    }),
            decreases pathvec.len() - k,
        {
            let mut v: Vec<char> = Vec::new();
            let d = chars_of(pathvec[k].as_str());
            if d.len() == 0 {
                push_str(&mut v, "./");
            } else {
                push_all(&mut v, &d);
                push_str(&mut v, "/");
            }
            push_all(&mut v, &cs);
            proof {
                assert(dirs[k as int] == pathvec@[k as int]@);
            }
            r.push(string_from_chars(&v));
            k = k + 1;
        }
        assert(r.deep_view() =~= exec_candidates(cmd@, dirs));
    } else {
        r.push(cmd.clone());
        assert(r.deep_view() =~= exec_candidates(cmd@, pathvec.deep_view()));
    }
    r
}

impl Shell {
    /// The search directories named by a `PATH` value: none for an empty
    /// value, else the pieces between the colons.
    pub fn initpath(&self, pathstr: &str) -> (v: Vec<String>)
        ensures
            v.deep_view() == path_dirs(pathstr@),
    {
        let mut pathvec: Vec<String> = Vec::new();
        let cs = chars_of(pathstr);
        if cs.len() == 0 {
            assert(pathvec.deep_view() =~= path_dirs(pathstr@));
            return pathvec;
        }
        let mut start: usize = 0;
        let mut j: usize = 0;
        assert(cs@.skip(0) == cs@);
        while j < cs.len()
            invariant
                start <= j <= cs.len(),
                cs@ == pathstr@,
                cs.len() > 0,
                forall|l: int| start <= l < j ==> cs@[l] != ':',
                split_colon(cs@) == pathvec.deep_view() + split_colon(cs@.skip(start as int)),
            decreases cs.len() - j,
        {
            if cs[j] == ':' {
                let ghost rest = cs@.skip(start as int);
                proof {
                    assert forall|l: int| 0 <= l < j - start implies rest[l] != ':' by {
                        assert(rest[l] == cs@[start + l]);
                    }
                    assert(rest[j - start] == cs@[j as int]);
                    lemma_find_or_len_at(rest, ':', j - start);
                    assert(rest.skip(j - start + 1) == cs@.skip(j + 1));
                    assert(rest.take(j - start) == cs@.subrange(start as int, j as int));
                }
                let ghost before = pathvec.deep_view();
                let piece = sub_string(&cs, start, j);
                pathvec.push(piece);
                proof {
                    assert(pathvec.deep_view() =~= before.push(piece@));
                    assert(split_colon(rest) == seq![piece@] + split_colon(cs@.skip(j + 1)));
                    assert(pathvec.deep_view() + split_colon(cs@.skip(j + 1)) =~= before
                        + split_colon(rest));
                }
                start = j + 1;
            }
            j = j + 1;
        }
        let ghost rest = cs@.skip(start as int);
        proof {
            assert forall|l: int| 0 <= l < rest.len() implies rest[l] != ':' by {
                assert(rest[l] == cs@[start + l]);
            }
            lemma_find_or_len_at(rest, ':', rest.len() as int);
            assert(rest == cs@.subrange(start as int, cs.len() as int));
        }
        let ghost before = pathvec.deep_view();
        let piece = sub_string(&cs, start, cs.len());
        pathvec.push(piece);
        assert(pathvec.deep_view() =~= before.push(piece@));
        assert(pathvec.deep_view() =~= before + split_colon(rest));
        pathvec
    }

    /// Splits a command line into its words, and tells whether it asks for
    /// background execution (a last word `&`, which is dropped).
    pub fn parseline(&self, cmdline: &str) -> (r: (Vec<String>, bool))
        requires
            parse_line(cmdline@) is Some,
        ensures
            parse_line(cmdline@) == Some((r.0.deep_view(), r.1)),
    {
        let mut argv = match words(cmdline) {
            Some(v) => v,
            None => Vec::new(),
        };
        let n = argv.len();
        if n > 0 && is_single_ampersand(&argv[n - 1]) {
            let ghost before = argv.deep_view();
            argv.pop();
            assert(argv.deep_view() =~= before.drop_last());
            return (argv, true);
        }
        (argv, false)
    }

    /// Whether `eval` is defined on this line; where it is not, the line
    /// cannot be carried out.
    pub fn accepts_line(cmdline: &str) -> (b: bool)
        ensures
            b == eval_defined(cmdline@),
    {
        match words(cmdline) {
            None => false,
            Some(v) => {
                let ghost t = v.deep_view();
                let n = v.len();
                let mut argv = v;
                if n > 0 && is_single_ampersand(&argv[n - 1]) {
                    argv.pop();
                    assert(argv.deep_view() =~= t.drop_last());
                }
                if argv.len() == 0 {
                    return true;
                }
                let w = argv[0].as_str();
                if !(str_eq(w, "bg") || str_eq(w, "fg")) {
                    return true;
                }
                assert(argv.deep_view()[0] == argv@[0]@);
                bgfg_arg_ok(argv.as_slice())
            },
        }
    }

    /// Runs a built-in command; `None` when the command word is not a built-in.
    pub fn builtin_cmd(&mut self, argv: &[String]) -> (r: Option<Plan>)
        requires
            old(self).wf(),
            argv.len() >= 1,
            (argv@[0]@ == "bg"@ || argv@[0]@ == "fg"@) ==> bgfg_defined(argv.deep_view()),
        ensures
            final(self).wf(),
            match builtin_step(old(self)@, argv.deep_view()) {
                Some((s2, p)) => r matches Some(q) && q@ == p && final(self)@ == s2,
                None => r is None && final(self)@ == old(self)@,
            },
    {
        let w = argv[0].as_str();
        assert(argv.deep_view()[0] == argv@[0]@);
        if str_eq(w, "quit") {
            Some(Plan::Quit)
        } else if str_eq(w, "jobs") {
            Some(Plan::Print(self.listjobs()))
        } else if str_eq(w, "bg") || str_eq(w, "fg") {
            Some(self.do_bgfg(argv))
        } else {
            None
        }
    }

    /// Resumes the job in slot `i`, in the background or in the foreground.
    fn resume(&mut self, i: usize, background: bool) -> (r: Plan)
        requires
            old(self).wf(),
            i < MAXJOBS,
            old(self)@.jobs[i as int].pid is Some,
        ensures
            final(self).wf(),
            (final(self)@, r@) == resume_step(old(self)@, i as int, background),
    {
        let ghost before = self@;
        let p = match self.job_pid(i) {
            Some(p) => p,
            None => 0,
        };
        assert(shell_wf(before) ==> crate::jobs::slot_ok(before.jobs[i as int]));
        let jid = self.job_jid(i);
        if background {
            let mut v: Vec<char> = Vec::new();
            push_str(&mut v, "[");
            push_decimal(&mut v, jid as u64);
            push_str(&mut v, "] (");
            push_signed(&mut v, p);
            push_str(&mut v, ") ");
            push_str(&mut v, self.job_cmdline(i).as_str());
            let output = string_from_chars(&v);
            self.set_state(i, JobState::BG);
            assert(v@ =~= resume_step(before, i as int, true).1->output);
            Plan::Resume { group: -p, output, wait_for: None }
        } else {
            self.set_state(i, JobState::FG);
            let output = String::new();
            Plan::Resume { group: -p, output, wait_for: Some(p) }
        }
    }

    /// The `bg` and `fg` built-ins.
    pub fn do_bgfg(&mut self, argv: &[String]) -> (r: Plan)
        requires
            old(self).wf(),
            bgfg_defined(argv.deep_view()),
        ensures
            final(self).wf(),
            (final(self)@, r@) == bgfg_step(old(self)@, argv.deep_view()),
    {
        let ghost av = argv.deep_view();
        assert(av[0] == argv@[0]@);
        let background = str_eq(argv[0].as_str(), "bg");
        if argv.len() < 2 {
            let mut v: Vec<char> = Vec::new();
            push_str(&mut v, argv[0].as_str());
            push_str(&mut v, " command requires PID or %jobid argument\n");
            return Plan::Print(string_from_chars(&v));
        }
        assert(av[1] == argv@[1]@);
        let cs = chars_of(argv[1].as_str());
        let jid = if cs.len() > 0 && cs[0] == '%' {
            assert(cs@.skip(1) == cs@.drop_first());
            parse_usize_at(&cs, 1)
        } else {
            None
        };
        match jid {
            Some(jid) => {
                proof {
                    lemma_find_jid_from(self@.jobs, jid, 0);
                }
                match self.getjobjid(jid) {
                    Some(i) => {
                        assert(crate::jobs::slot_ok(self@.jobs[i as int]));
                        self.resume(i, background)
                    },
                    None => {
                        let mut v: Vec<char> = Vec::new();
                        push_str(&mut v, argv[1].as_str());
                        push_str(&mut v, ": No such job\n");
                        Plan::Print(string_from_chars(&v))
                    },
                }
            },
            None => {
                if all_ascii_digits(&cs) {
                    let p = match digits_upto(&cs, 0, 2147483647) {
                        Some(v) => v as i32,
                        None => 0,
                    };
                    assert(cs@.skip(0) == cs@);
                    proof {
                        lemma_find_pid_from(self@.jobs, p, 0);
                    }
                    match self.getjobpid(p) {
                        Some(i) => self.resume(i, background),
                        None => {
                            let mut v: Vec<char> = Vec::new();
                            push_str(&mut v, "(");
                            push_signed(&mut v, p);
                            push_str(&mut v, "): No such process\n");
                            Plan::Print(string_from_chars(&v))
                        },
                    }
                } else {
                    let mut v: Vec<char> = Vec::new();
                    push_str(&mut v, argv[0].as_str());
                    push_str(&mut v, ": argument must be a PID or %jobid\n");
                    Plan::Print(string_from_chars(&v))
                }
            },
        }
    }

    /// Reads a command line and says what to do with it; built-ins that
    /// change the job table (`bg`, `fg`) have done so on return.
    pub fn eval(&mut self, cmdline: &str, pathvec: &[String]) -> (r: Plan)
        requires
            old(self).wf(),
            eval_defined(cmdline@),
        ensures
            final(self).wf(),
            (final(self)@, r@) == eval_step(old(self)@, cmdline@, pathvec.deep_view()),
    {
        let (argv, bg) = self.parseline(cmdline);
        if argv.len() == 0 {
            return Plan::Nothing;
        }
        let args = argv.as_slice();
        assert(args.deep_view() =~= argv.deep_view());
        assert(argv.deep_view()[0] == argv@[0]@);
        match self.builtin_cmd(args) {
            Some(p) => p,
            None => {
                let candidates = exec_paths(&argv[0], pathvec);
                Plan::Launch { argv, background: bg, candidates }
            },
        }
    }

    /// Records a child just started for `cmdline`, and says what to write.
    pub fn register_child(&mut self, child: i32, background: bool, cmdline: &str) -> (out: String)
        requires
            old(self).wf(),
            old(self)@.next_jid < usize::MAX,
        ensures
            final(self).wf(),
            (final(self)@, out@) == register_step(old(self)@, child, background, cmdline@),
    {
        let jid = self.next_jid();
        let verbose = self.verbose();
        let state = if background {
            JobState::BG
        } else {
            JobState::FG
        };
        let added = self.addjob(child, state, cmdline);
        let mut v: Vec<char> = Vec::new();
        if added {
            if verbose {
                push_str(&mut v, "Added job [");
                push_decimal(&mut v, jid as u64);
                push_str(&mut v, "] ");
                push_signed(&mut v, child);
                push_str(&mut v, " ");
                push_str(&mut v, cmdline);
                push_str(&mut v, "\n");
            }
        } else if child >= 1 {
            push_str(&mut v, "Tried to create too many jobs\n");
        }
        let ghost note = v@;
        if background {
            let j = self.pid2jid(child);
            push_str(&mut v, "[");
            push_decimal(&mut v, j as u64);
            push_str(&mut v, "] (");
            push_signed(&mut v, child);
            push_str(&mut v, ") ");
            let t = trimmed(cmdline);
            push_all(&mut v, &t);
            push_str(&mut v, "\n");
        }
        let out = string_from_chars(&v);
        assert(out@ =~= register_step(old(self)@, child, background, cmdline@).1);
        out
    }

    /// Handles one report of `waitpid`; answers what to write and whether to
    /// ask `waitpid` again.
    pub fn sigchld_handler(&mut self, status: ChildStatus) -> (r: (String, bool))
        requires
            old(self).wf(),
            max_jid(old(self)@.jobs) < usize::MAX,
        ensures
            final(self).wf(),
            (final(self)@, r.0@, r.1) == reap_step(old(self)@, status),
    {
        let ghost before = self@;
        let verbose = self.verbose();
        match status {
            ChildStatus::Exited(p) => match self.getjobpid(p) {
                Some(i) => {
                    let jid = self.job_jid(i);
                    self.deletejob(p);
                    let mut v: Vec<char> = Vec::new();
                    push_deleted_note(&mut v, verbose, jid, p);
                    (string_from_chars(&v), true)
                },
                None => (String::new(), false),
            },
            ChildStatus::Signaled(p) => match self.getjobpid(p) {
                Some(i) => {
                    let jid = self.job_jid(i);
                    let mut v: Vec<char> = Vec::new();
                    push_str(&mut v, "Job [");
                    push_decimal(&mut v, jid as u64);
                    push_str(&mut v, "] (");
                    push_signed(&mut v, p);
                    push_str(&mut v, ") terminated by signal SIGINT\n");
                    self.deletejob(p);
                    push_deleted_note(&mut v, verbose, jid, p);
                    let out = string_from_chars(&v);
                    assert(out@ =~= reap_step(before, status).1);
                    (out, true)
                },
                None => (String::new(), false),
            },
            ChildStatus::Stopped(p) => match self.getjobpid(p) {
                Some(i) => {
                    proof {
                        lemma_find_pid_from(self@.jobs, p, 0);
                    }
                    let jid = self.job_jid(i);
                    self.set_state(i, JobState::ST);
                    let mut v: Vec<char> = Vec::new();
                    push_str(&mut v, "Job [");
                    push_decimal(&mut v, jid as u64);
                    push_str(&mut v, "] (");
                    push_signed(&mut v, p);
                    push_str(&mut v, ") stopped by signal SIGTSTP\n");
                    let out = string_from_chars(&v);
                    assert(out@ =~= reap_step(before, status).1);
                    (out, true)
                },
                None => (String::new(), false),
            },
            ChildStatus::Failed => {
                let mut v: Vec<char> = Vec::new();
                push_str(&mut v, "waitpid error");
                (string_from_chars(&v), false)
            },
            _ => (String::new(), false),
        }
    }

    /// Where `SIGINT` is forwarded: the foreground job's process group.
    pub fn sigint_handler(&self) -> (target: Option<i32>)
        requires
            self.wf(),
        ensures
            target == forward_target(self@),
    {
        self.forward_target()
    }

    /// Where `SIGTSTP` is forwarded: the foreground job's process group.
    pub fn sigtstp_handler(&self) -> (target: Option<i32>)
        requires
            self.wf(),
        ensures
            target == forward_target(self@),
    {
        self.forward_target()
    }

    /// The foreground job's process group, as `kill` takes it.
    fn forward_target(&self) -> (target: Option<i32>)
        requires
            self.wf(),
        ensures
            target == forward_target(self@),
    {
        proof {
            lemma_fg_pid_positive(self@);
        }
        match self.fgpid() {
            Some(p) => Some(-p),
            None => None,
        }
    }
}

/// Appends the note on a deleted job when diagnostics are on.
fn push_deleted_note(v: &mut Vec<char>, verbose: bool, jid: usize, pid: i32)
    ensures
        final(v)@ == old(v)@ + if verbose {
            "Deleted job ["@ + decimal(jid as nat) + "] "@ + signed_decimal(pid as int) + "\n"@
        } else {
            Seq::empty()
        },
{
    let ghost start = v@;
    if verbose {
        push_str(v, "Deleted job [");
        push_decimal(v, jid as u64);
        push_str(v, "] ");
        push_signed(v, pid);
        push_str(v, "\n");
        assert(v@ =~= start + ("Deleted job ["@ + decimal(jid as nat) + "] "@ + signed_decimal(
            pid as int,
        ) + "\n"@));
    } else {
        assert(v@ =~= start + Seq::<char>::empty());
    }
}

/// Whether the word is the single character `&`.
fn is_single_ampersand(s: &String) -> (b: bool)
    ensures
        b == (s@ == seq!['&']),
{
    let cs = chars_of(s.as_str());
    let b = cs.len() == 1 && cs[0] == '&';
    if b {
        assert(cs@ =~= seq!['&']);
    }
    b
}

/// Whether the arguments of `bg`/`fg` are ones the built-in can read.
fn bgfg_arg_ok(argv: &[String]) -> (b: bool)
    requires
        argv.len() >= 1,
    ensures
        b == bgfg_defined(argv.deep_view()),
{
    if argv.len() < 2 {
        return true;
    }
    assert(argv.deep_view()[1] == argv@[1]@);
    let cs = chars_of(argv[1].as_str());
    if cs.len() > 0 && cs[0] == '%' {
        assert(cs@.skip(1) == cs@.drop_first());
        if parse_usize_at(&cs, 1).is_some() {
            return true;
        }
    }
    if !all_ascii_digits(&cs) {
        return true;
    }
    assert(cs@.skip(0) == cs@);
    digits_upto(&cs, 0, 2147483647).is_some()
}

} // verus!
