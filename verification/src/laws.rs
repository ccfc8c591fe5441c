//! Properties that hold across the shell's operations.
use vstd::prelude::*;
use crate::text::{is_ws, trim_end, has_char, decimal, signed_decimal, digit_char, is_digit, all_digits, digits_value, digits_fit_i32};
use crate::parse::{
    tokens, parse_line, find_or_len, lemma_find_or_len, lemma_find_or_len_at, split_colon,
    join_colon, path_dirs,
};
use crate::jobs::{
    ShellView, JobView, JobState, shell_wf, slot_ok, free_slot, find_free_from, find_pid_from,
    find_pid, find_state_from, slot_of_pid, jid_of_pid, add_job, delete_job, max_jid,
    lemma_find_free_from, lemma_find_pid_from, lemma_find_state_from, lemma_fg_pid_positive,
    lemma_find_jid_from, slot_of_jid, lemma_max_jid_ge, lemma_max_jid_bound,
};
use crate::shell::{ChildStatus, PlanView, builtin_step, bgfg_step, resume_step, register_step, reap_step, forward_target, exec_candidates, eval_step, percent_jid};

verus! {

/// A job added for a process that had none lands in the first free slot and
/// is found again by its process ID, under the job ID the counter held.
pub proof fn law_added_job_is_found(s: ShellView, pid: i32, st: JobState, cmdline: Seq<char>)
    requires
        shell_wf(s),
        pid >= 1,
        slot_of_pid(s, pid) is None,
        find_free_from(s.jobs, 0) is Some,
    ensures
        add_job(s, pid, st, cmdline).1,
        slot_of_pid(add_job(s, pid, st, cmdline).0, pid) == find_free_from(s.jobs, 0),
        jid_of_pid(add_job(s, pid, st, cmdline).0, pid) == s.next_jid,
{
    lemma_added_slot(s, pid, st, cmdline);
    lemma_find_free_from(s.jobs, 0);
    let i = find_free_from(s.jobs, 0).unwrap();
    assert(add_job(s, pid, st, cmdline).0.jobs[i].jid == s.next_jid);
}

/// The slot that `add_job` fills is the only one that holds the new process.
proof fn lemma_added_slot(s: ShellView, pid: i32, st: JobState, cmdline: Seq<char>)
    requires
        shell_wf(s),
        pid >= 1,
        slot_of_pid(s, pid) is None,
        find_free_from(s.jobs, 0) is Some,
    ensures
        add_job(s, pid, st, cmdline).1,
        find_pid(add_job(s, pid, st, cmdline).0.jobs, pid) == find_free_from(s.jobs, 0),
        add_job(s, pid, st, cmdline).0.jobs == s.jobs.update(
            find_free_from(s.jobs, 0).unwrap(),
            JobView { pid: Some(pid), jid: s.next_jid, state: st, cmdline },
        ),
{
    let i = find_free_from(s.jobs, 0).unwrap();
    lemma_find_free_from(s.jobs, 0);
    lemma_find_pid_from(s.jobs, pid, 0);
    let s2 = add_job(s, pid, st, cmdline).0;
    lemma_find_pid_from(s2.jobs, pid, 0);
    match find_pid_from(s2.jobs, pid, 0) {
        Some(k) => {
            if k != i {
                assert(s2.jobs[k] == s.jobs[k]);
            }
        },
        None => {
            assert(s2.jobs[i].pid == Some(pid));
        },
    }
}

/// Deleting a job just added for a process that had none gives back the job
/// table as it was; the counter then stands one past the largest job ID.
pub proof fn law_delete_undoes_add(s: ShellView, pid: i32, st: JobState, cmdline: Seq<char>)
    requires
        shell_wf(s),
        pid >= 1,
        slot_of_pid(s, pid) is None,
        find_free_from(s.jobs, 0) is Some,
    ensures
        delete_job(add_job(s, pid, st, cmdline).0, pid).1,
        delete_job(add_job(s, pid, st, cmdline).0, pid).0.jobs == s.jobs,
        delete_job(add_job(s, pid, st, cmdline).0, pid).0.next_jid == (max_jid(s.jobs) + 1) as usize,
{
    let i = find_free_from(s.jobs, 0).unwrap();
    lemma_added_slot(s, pid, st, cmdline);
    lemma_find_free_from(s.jobs, 0);
    assert(slot_ok(s.jobs[i]));
    let s2 = add_job(s, pid, st, cmdline).0;
    assert(s2.jobs.update(i, free_slot()) =~= s.jobs);
}

/// A child that is started and then reported as exited leaves the job table
/// as it was, and the shell goes on asking `waitpid`.
pub proof fn law_started_child_that_exits_is_forgotten(
    s: ShellView,
    child: i32,
    background: bool,
    line: Seq<char>,
)
    requires
        shell_wf(s),
        child >= 1,
        slot_of_pid(s, child) is None,
        find_free_from(s.jobs, 0) is Some,
    ensures
        reap_step(register_step(s, child, background, line).0, ChildStatus::Exited(child)).0.jobs
            == s.jobs,
        reap_step(register_step(s, child, background, line).0, ChildStatus::Exited(child)).2,
{
    let st = if background {
        JobState::BG
    } else {
        JobState::FG
    };
    lemma_added_slot(s, child, st, line);
    law_delete_undoes_add(s, child, st, line);
}

/// `SIGINT` and `SIGTSTP` go to the process group of the first job in the
/// foreground, and to nobody when no job is in the foreground.
pub proof fn law_signals_go_to_foreground_group(s: ShellView)
    requires
        shell_wf(s),
    ensures
        forward_target(s) matches Some(g) ==> g < 0 && exists|i: int|
            0 <= i < s.jobs.len() && s.jobs[i].state == JobState::FG && s.jobs[i].pid == Some(
                -g as i32,
            ) && forall|l: int| 0 <= l < i ==> s.jobs[l].state != JobState::FG,
        forward_target(s) is None <==> forall|i: int|
            0 <= i < s.jobs.len() ==> s.jobs[i].state != JobState::FG,
{
    lemma_fg_pid_positive(s);
    lemma_find_state_from(s.jobs, JobState::FG, 0);
    if let Some(i) = find_state_from(s.jobs, JobState::FG, 0) {
        let p = s.jobs[i].pid.unwrap();
        assert(s.jobs[i].pid == Some((-((-p) as i32)) as i32));
    }
}

/// The pieces of a non-empty `PATH` value hold no colon and join back, with
/// a colon between each two, into the value itself.
pub proof fn law_path_pieces_join_back(s: Seq<char>)
    requires
        s.len() > 0,
    ensures
        join_colon(path_dirs(s)) == s,
        forall|i: int| 0 <= i < path_dirs(s).len() ==> !has_char(#[trigger] path_dirs(s)[i], ':'),
{
    lemma_split_join(s);
}

/// `split_colon` gives pieces without a colon that join back into `s`.
proof fn lemma_split_join(s: Seq<char>)
    ensures
        split_colon(s).len() >= 1,
        join_colon(split_colon(s)) == s,
        forall|i: int| 0 <= i < split_colon(s).len() ==> !has_char(#[trigger] split_colon(s)[i], ':'),
    decreases s.len(),
{
    let k = find_or_len(s, ':');
    lemma_find_or_len(s, ':');
    if k < s.len() {
        let rest = s.skip(k + 1 as int);
        lemma_split_join(rest);
        let parts = split_colon(s);
        assert(parts.drop_first() =~= split_colon(rest));
        assert(s =~= s.take(k as int) + seq![':'] + rest);
        assert forall|i: int| 0 <= i < parts.len() implies !has_char(#[trigger] parts[i], ':') by {
            if i == 0 {
                assert(parts[0] == s.take(k as int));
            } else {
                assert(parts[i] == split_colon(rest)[i - 1]);
            }
        }
    } else {
        assert forall|i: int| 0 <= i < split_colon(s).len() implies !has_char(
            #[trigger] split_colon(s)[i],
            ':',
        ) by {
            assert(split_colon(s)[i] == s);
        }
    }
}

/// A line that ends in a word, followed by a space and `&`, stands for the
/// same words run in the background.
pub proof fn law_trailing_ampersand_runs_in_background(line: Seq<char>, argv: Seq<Seq<char>>)
    requires
        parse_line(line) == Some((argv, false)),
        line.len() == 0 || !is_ws(line.last()),
    ensures
        parse_line(line + seq![' ', '&']) == Some((argv, true)),
{
    let t = seq![' ', '&'];
    assert(trim_end(line) == line);
    assert((line + t).drop_last() =~= line + seq![' ']);
    assert(trim_end(line + t) == line + t);
    lemma_tokens_append_ampersand(line);
    assert(tokens(line + t).unwrap().drop_last() =~= tokens(line).unwrap());
}

/// Appending a space and `&` to a line that ends in a word adds the word `&`.
proof fn lemma_tokens_append_ampersand(s: Seq<char>)
    requires
        tokens(s) is Some,
        s.len() == 0 || !is_ws(s.last()),
    ensures
        tokens(s + seq![' ', '&']) == Some(tokens(s).unwrap().push(seq!['&'])),
    decreases s.len(),
{
    let t = seq![' ', '&'];
    let u = s + t;
    if s.len() == 0 {
        assert(u =~= t);
        assert(u.drop_first() =~= seq!['&']);
        let a = seq!['&'];
        lemma_find_or_len_at(a, ' ', 1);
        assert(a.skip(1) =~= Seq::<char>::empty());
        assert(a.take(1) =~= a);
        assert(is_ws(u[0]));
        assert(tokens(Seq::<char>::empty()) == Some(Seq::<Seq<char>>::empty()));
        assert(seq![a.take(1)] + Seq::<Seq<char>>::empty() =~= seq![a]);
        assert(tokens(a) == Some(seq![a]));
        assert(tokens(u) == Some(seq![a]));
        assert(tokens(s).unwrap().push(a) =~= seq![a]);
    } else if is_ws(s[0]) {
        assert(u[0] == s[0]);
        assert(u.drop_first() =~= s.drop_first() + t);
        if s.len() > 1 {
            assert(s.drop_first().last() == s.last());
        }
        lemma_tokens_append_ampersand(s.drop_first());
    } else if s[0] == '\'' {
        assert(u[0] == s[0]);
        let rest = s.drop_first();
        let k = find_or_len(rest, '\'');
        lemma_find_or_len(rest, '\'');
        assert(k < rest.len());
        let urest = u.drop_first();
        assert(urest =~= rest + t);
        assert forall|l: int| 0 <= l < k implies urest[l] != '\'' by {
            assert(urest[l] == rest[l]);
        }
        assert(urest[k as int] == rest[k as int]);
        lemma_find_or_len_at(urest, '\'', k as int);
        assert(urest.take(k as int) =~= rest.take(k as int));
        let r2 = rest.skip(k + 1 as int);
        assert(urest.skip(k + 1 as int) =~= r2 + t);
        if r2.len() > 0 {
            assert(r2.last() == s.last());
        }
        lemma_tokens_append_ampersand(r2);
        assert(seq![rest.take(k as int)] + tokens(r2).unwrap().push(seq!['&']) =~= (seq![
            rest.take(k as int),
        ] + tokens(r2).unwrap()).push(seq!['&']));
    } else {
        assert(u[0] == s[0]);
        let k = find_or_len(s, ' ');
        lemma_find_or_len(s, ' ');
        assert forall|l: int| 0 <= l < k implies u[l] != ' ' by {
            assert(u[l] == s[l]);
        }
        if k < s.len() {
            assert(u[k as int] == s[k as int]);
        } else {
            assert(u[k as int] == ' ');
        }
        lemma_find_or_len_at(u, ' ', k as int);
        assert(u.take(k as int) =~= s.take(k as int));
        let r2 = s.skip(k as int);
        assert(u.skip(k as int) =~= r2 + t);
        if r2.len() > 0 {
            assert(r2.last() == s.last());
        }
        lemma_tokens_append_ampersand(r2);
        assert(seq![s.take(k as int)] + tokens(r2).unwrap().push(seq!['&']) =~= (seq![
            s.take(k as int),
        ] + tokens(r2).unwrap()).push(seq!['&']));
    }
}

/// Looking a job up by its job ID finds the first slot that holds that job
/// ID, and finds nothing only when no slot holds it.
pub proof fn law_job_id_lookup_finds_the_job(s: ShellView, jid: usize)
    requires
        jid >= 1,
    ensures
        slot_of_jid(s, jid) matches Some(i) ==> 0 <= i < s.jobs.len() && s.jobs[i].jid == jid
            && forall|l: int| 0 <= l < i ==> s.jobs[l].jid != jid,
        slot_of_jid(s, jid) is None ==> forall|l: int| 0 <= l < s.jobs.len() ==> s.jobs[l].jid != jid,
{
    lemma_find_jid_from(s.jobs, jid, 0);
}

/// Looking a job up by its process ID finds the first slot that holds that
/// process, and finds nothing only when no slot holds it (or the ID is below 1).
pub proof fn law_pid_lookup_finds_the_job(s: ShellView, pid: i32)
    ensures
        slot_of_pid(s, pid) matches Some(i) ==> pid >= 1 && 0 <= i < s.jobs.len() && s.jobs[i].pid
            == Some(pid) && forall|l: int| 0 <= l < i ==> s.jobs[l].pid != Some(pid),
        slot_of_pid(s, pid) is None ==> pid < 1 || forall|l: int|
            0 <= l < s.jobs.len() ==> s.jobs[l].pid != Some(pid),
{
    lemma_find_pid_from(s.jobs, pid, 0);
}

/// The first slot holding `pid` is what a lookup by process ID finds.
proof fn lemma_first_pid_slot(s: ShellView, pid: i32, i: int)
    requires
        pid >= 1,
        0 <= i < s.jobs.len(),
        s.jobs[i].pid == Some(pid),
        forall|l: int| 0 <= l < i ==> s.jobs[l].pid != Some(pid),
    ensures
        slot_of_pid(s, pid) == Some(i),
{
    law_pid_lookup_finds_the_job(s, pid);
    if let Some(k) = slot_of_pid(s, pid) {
        if k < i {
            assert(s.jobs[k].pid == Some(pid));
        }
        if k > i {
            assert(s.jobs[i].pid == Some(pid));
        }
    }
}

/// Deleting a process that has a job frees the first slot holding it, leaves
/// every other slot alone, whatever they hold, and succeeds; the next job ID
/// is then above every job ID left and one past one of them (or 1).
pub proof fn law_delete_frees_the_job(s: ShellView, pid: i32, i: int)
    requires
        shell_wf(s),
        0 <= i < s.jobs.len(),
        s.jobs[i].pid == Some(pid),
        forall|l: int| 0 <= l < i ==> s.jobs[l].pid != Some(pid),
        max_jid(s.jobs) < usize::MAX,
    ensures
        delete_job(s, pid).1,
        delete_job(s, pid).0.jobs.len() == s.jobs.len(),
        delete_job(s, pid).0.jobs[i] == free_slot(),
        forall|l: int| 0 <= l < s.jobs.len() && l != i ==> delete_job(s, pid).0.jobs[l] == s.jobs[l],
        forall|l: int|
            0 <= l < s.jobs.len() ==> delete_job(s, pid).0.jobs[l].jid < delete_job(s, pid).0.next_jid,
        delete_job(s, pid).0.next_jid == 1 || exists|l: int|
            0 <= l < s.jobs.len() && delete_job(s, pid).0.jobs[l].jid + 1 == delete_job(
                s,
                pid,
            ).0.next_jid,
{
    assert(slot_ok(s.jobs[i]));
    lemma_first_pid_slot(s, pid, i);
    let jobs = s.jobs.update(i, free_slot());
    lemma_max_jid_ge(s.jobs);
    lemma_max_jid_ge(jobs);
    assert forall|l: int| 0 <= l < jobs.len() implies #[trigger] jobs[l].jid <= max_jid(s.jobs) by {
        if l != i {
            assert(jobs[l] == s.jobs[l]);
        }
    }
    lemma_max_jid_bound(jobs, max_jid(s.jobs) as int);
    lemma_max_jid_attained(jobs);
}

/// Deleting a process that has no job changes nothing and fails.
pub proof fn law_delete_without_job_changes_nothing(s: ShellView, pid: i32)
    requires
        forall|l: int| 0 <= l < s.jobs.len() ==> s.jobs[l].pid != Some(pid),
    ensures
        delete_job(s, pid) == (s, false),
{
    law_pid_lookup_finds_the_job(s, pid);
    if let Some(k) = slot_of_pid(s, pid) {
        assert(s.jobs[k].pid == Some(pid));
    }
}

/// The largest job ID is 0 or the job ID of some slot.
proof fn lemma_max_jid_attained(jobs: Seq<JobView>)
    ensures
        max_jid(jobs) == 0 || exists|l: int| 0 <= l < jobs.len() && jobs[l].jid == max_jid(jobs),
    decreases jobs.len(),
{
    if jobs.len() > 0 {
        lemma_max_jid_attained(jobs.drop_last());
        if max_jid(jobs) != jobs.last().jid && max_jid(jobs) != 0 {
            let l = choose|l: int|
                0 <= l < jobs.drop_last().len() && jobs.drop_last()[l].jid == max_jid(
                    jobs.drop_last(),
                );
            assert(jobs[l] == jobs.drop_last()[l]);
        }
    }
}

/// A report that a process with a job stopped puts that job (the first slot
/// holding the process) into state `ST`, whatever state it was in, keeps the
/// rest of the job and every other slot, and asks for more reports.
pub proof fn law_stopped_job_is_marked_stopped(s: ShellView, pid: i32, i: int)
    requires
        shell_wf(s),
        0 <= i < s.jobs.len(),
        s.jobs[i].pid == Some(pid),
        forall|l: int| 0 <= l < i ==> s.jobs[l].pid != Some(pid),
    ensures
        reap_step(s, ChildStatus::Stopped(pid)).2,
        reap_step(s, ChildStatus::Stopped(pid)).0.jobs.len() == s.jobs.len(),
        reap_step(s, ChildStatus::Stopped(pid)).0.jobs[i].state == JobState::ST,
        reap_step(s, ChildStatus::Stopped(pid)).0.jobs[i].pid == Some(pid),
        reap_step(s, ChildStatus::Stopped(pid)).0.jobs[i].jid == s.jobs[i].jid,
        reap_step(s, ChildStatus::Stopped(pid)).0.jobs[i].cmdline == s.jobs[i].cmdline,
        forall|l: int|
            0 <= l < s.jobs.len() && l != i ==> reap_step(s, ChildStatus::Stopped(pid)).0.jobs[l]
                == s.jobs[l],
        reap_step(s, ChildStatus::Stopped(pid)).0.next_jid == s.next_jid,
{
    assert(slot_ok(s.jobs[i]));
    lemma_first_pid_slot(s, pid, i);
}

/// A command word that holds a `/` is run as the path it names, whatever
/// the search directories.
pub proof fn law_command_with_slash_runs_as_given(cmd: Seq<char>, dirs: Seq<Seq<char>>, k: int)
    requires
        0 <= k < cmd.len(),
        cmd[k] == '/',
    ensures
        exec_candidates(cmd, dirs) == seq![cmd],
{
}

/// A command word without a `/` is looked for in each search directory in
/// turn (`dir/cmd`, or `./cmd` for an empty directory), and run as given
/// when there is no search directory.
pub proof fn law_command_without_slash_is_searched(cmd: Seq<char>, dirs: Seq<Seq<char>>)
    requires
        forall|k: int| 0 <= k < cmd.len() ==> cmd[k] != '/',
    ensures
        dirs.len() == 0 ==> exec_candidates(cmd, dirs) == seq![cmd],
        dirs.len() > 0 ==> exec_candidates(cmd, dirs).len() == dirs.len(),
        dirs.len() > 0 ==> forall|k: int|
            0 <= k < dirs.len() ==> #[trigger] exec_candidates(cmd, dirs)[k] == if dirs[k].len() == 0 {
                seq!['.', '/'] + cmd
            } else {
                dirs[k] + seq!['/'] + cmd
            },
{
    reveal_strlit("./");
    reveal_strlit("/");
    assert("./"@ =~= seq!['.', '/']);
    assert("/"@ =~= seq!['/']);
}

/// The decimal form of a number is a non-empty run of digits whose value is
/// that number.
proof fn lemma_decimal_digits(n: nat)
    ensures
        decimal(n).len() > 0,
        all_digits(decimal(n)),
        digits_value(decimal(n)) == n,
    decreases n,
{
    let d = decimal(n);
    if n < 10 {
        assert(digit_char(n) as u32 == n + 48);
        assert(d.drop_last() =~= Seq::<char>::empty());
        assert(digits_value(d) == digits_value(d.drop_last()) * 10 + n);
    } else {
        lemma_decimal_digits(n / 10);
        assert(d.drop_last() == decimal(n / 10));
        assert(d.last() == digit_char(n % 10));
        assert(digit_char(n % 10) as u32 == n % 10 + 48);
        assert((n / 10) * 10 + n % 10 == n);
        assert(digits_value(d) == digits_value(decimal(n / 10)) * 10 + n % 10);
        assert forall|l: int| 0 <= l < d.len() implies is_digit(#[trigger] d[l]) by {
            if l < d.len() - 1 {
                assert(d[l] == decimal(n / 10)[l]);
            }
        }
    }
}

/// `%N` written in decimal reads as job ID `N`.
proof fn lemma_percent_decimal(n: usize)
    ensures
        percent_jid(seq!['%'] + decimal(n as nat)) == Some(n),
{
    let a = seq!['%'] + decimal(n as nat);
    lemma_decimal_digits(n as nat);
    assert(a.drop_first() =~= decimal(n as nat));
    assert(is_digit(decimal(n as nat)[0]));
}

/// A process ID written in decimal reads as that process ID, not as `%N`.
proof fn lemma_pid_decimal(p: i32)
    requires
        p >= 0,
    ensures
        percent_jid(decimal(p as nat)) is None,
        all_digits(decimal(p as nat)),
        digits_fit_i32(decimal(p as nat)),
        digits_value(decimal(p as nat)) as i32 == p,
{
    lemma_decimal_digits(p as nat);
    assert(is_digit(decimal(p as nat)[0]));
}

/// `fg %N`, or `fg P` with `P` a process ID, given to `eval` for a job in
/// slot `i` (the first slot with that job ID, or with that process): the
/// job's state becomes `FG`, everything else stays, its process group gets
/// `SIGCONT`, nothing is written, and the shell waits for that process.
pub proof fn law_fg_brings_job_to_foreground(
    s: ShellView,
    line: Seq<char>,
    dirs: Seq<Seq<char>>,
    argv: Seq<Seq<char>>,
    bg: bool,
    i: int,
)
    requires
        shell_wf(s),
        parse_line(line) == Some((argv, bg)),
        argv.len() >= 2,
        argv[0] == "fg"@,
        0 <= i < s.jobs.len(),
        s.jobs[i].pid is Some,
        names_slot(s, argv[1], i),
    ensures
        ({
            let (s2, plan) = eval_step(s, line, dirs);
            let p = s.jobs[i].pid.unwrap();
            &&& s2.jobs.len() == s.jobs.len()
            &&& s2.jobs[i] == JobView { state: JobState::FG, ..s.jobs[i] }
            &&& forall|l: int| 0 <= l < s.jobs.len() && l != i ==> s2.jobs[l] == s.jobs[l]
            &&& s2.next_jid == s.next_jid
            &&& plan == PlanView::Resume { group: -p as i32, output: Seq::empty(), wait_for: Some(p) }
        }),
{
    reveal_strlit("fg");
    reveal_strlit("bg");
    reveal_strlit("quit");
    reveal_strlit("jobs");
    lemma_names_slot(s, argv[1], i);
    assert(argv[0] != "quit"@);
    assert(argv[0] != "jobs"@);
    assert("fg"@[0] != "bg"@[0]);
    assert(argv[0] != "bg"@);
    assert(builtin_step(s, argv) == Some(bgfg_step(s, argv)));
    assert(eval_step(s, line, dirs) == bgfg_step(s, argv));
    assert(slot_ok(s.jobs[i]));
    if let Some(n) = percent_jid(argv[1]) {
        assert(bgfg_step(s, argv) == resume_step(s, i, false));
    } else {
        assert(bgfg_step(s, argv) == resume_step(s, i, false));
    }
}

/// `bg %N`, or `bg P` with `P` a process ID, given to `eval` for a job in
/// slot `i`: the job's state becomes `BG`, everything else stays, its
/// process group gets `SIGCONT`, its line `[jid] (pid) command` is written,
/// and the shell does not wait.
pub proof fn law_bg_resumes_job_in_background(
    s: ShellView,
    line: Seq<char>,
    dirs: Seq<Seq<char>>,
    argv: Seq<Seq<char>>,
    bg: bool,
    i: int,
)
    requires
        shell_wf(s),
        parse_line(line) == Some((argv, bg)),
        argv.len() >= 2,
        argv[0] == "bg"@,
        0 <= i < s.jobs.len(),
        s.jobs[i].pid is Some,
        names_slot(s, argv[1], i),
    ensures
        ({
            let (s2, plan) = eval_step(s, line, dirs);
            let j = s.jobs[i];
            let p = j.pid.unwrap();
            &&& s2.jobs.len() == s.jobs.len()
            &&& s2.jobs[i] == JobView { state: JobState::BG, ..s.jobs[i] }
            &&& forall|l: int| 0 <= l < s.jobs.len() && l != i ==> s2.jobs[l] == s.jobs[l]
            &&& s2.next_jid == s.next_jid
            &&& plan == PlanView::Resume {
                group: -p as i32,
                output: seq!['['] + decimal(j.jid as nat) + seq![']', ' ', '('] + decimal(
                    p as nat,
                ) + seq![')', ' '] + j.cmdline,
                wait_for: None,
            }
        }),
{
    reveal_strlit("fg");
    reveal_strlit("bg");
    reveal_strlit("quit");
    reveal_strlit("jobs");
    reveal_strlit("[");
    reveal_strlit("] (");
    reveal_strlit(") ");
    lemma_names_slot(s, argv[1], i);
    assert(slot_ok(s.jobs[i]));
    assert(argv[0] != "quit"@);
    assert(argv[0] != "jobs"@);
    assert(builtin_step(s, argv) == Some(bgfg_step(s, argv)));
    assert(eval_step(s, line, dirs) == bgfg_step(s, argv));
    assert(bgfg_step(s, argv) == resume_step(s, i, true));
    let j = s.jobs[i];
    let p = j.pid.unwrap();
    assert(signed_decimal(p as int) == decimal(p as nat));
    assert("["@ =~= seq!['[']);
    assert("] ("@ =~= seq![']', ' ', '(']);
    assert(") "@ =~= seq![')', ' ']);
}

/// An argument names slot `i`: it is `%N` for the first slot with job ID `N`,
/// or the decimal process ID of the first slot holding that process.
pub open spec fn names_slot(s: ShellView, a: Seq<char>, i: int) -> bool {
    ||| exists|n: usize|
        a == seq!['%'] + decimal(n as nat) && s.jobs[i].jid == n && forall|l: int|
            0 <= l < i ==> s.jobs[l].jid != n
    ||| exists|p: i32|
        p >= 0 && a == decimal(p as nat) && s.jobs[i].pid == Some(p) && forall|l: int|
            0 <= l < i ==> s.jobs[l].pid != Some(p)
}

/// An argument that names slot `i` is read by `bg`/`fg` as that slot.
proof fn lemma_names_slot(s: ShellView, a: Seq<char>, i: int)
    requires
        shell_wf(s),
        0 <= i < s.jobs.len(),
        s.jobs[i].pid is Some,
        names_slot(s, a, i),
    ensures
        percent_jid(a) matches Some(n) ==> slot_of_jid(s, n) == Some(i),
        percent_jid(a) is None ==> all_digits(a) && digits_fit_i32(a) && slot_of_pid(
            s,
            digits_value(a) as i32,
        ) == Some(i),
{
    assert(slot_ok(s.jobs[i]));
    if exists|n: usize|
        a == seq!['%'] + decimal(n as nat) && s.jobs[i].jid == n && forall|l: int|
            0 <= l < i ==> s.jobs[l].jid != n {
        let n = choose|n: usize|
            a == seq!['%'] + decimal(n as nat) && s.jobs[i].jid == n && forall|l: int|
                0 <= l < i ==> s.jobs[l].jid != n;
        lemma_percent_decimal(n);
        law_job_id_lookup_finds_the_job(s, n);
        if let Some(k) = slot_of_jid(s, n) {
            if k > i {
                assert(s.jobs[i].jid == n);
            }
        }
    } else {
        let p = choose|p: i32|
            p >= 0 && a == decimal(p as nat) && s.jobs[i].pid == Some(p) && forall|l: int|
                0 <= l < i ==> s.jobs[l].pid != Some(p);
        lemma_pid_decimal(p);
        lemma_first_pid_slot(s, p, i);
    }
}

/// Adding a job for a positive process ID fills the first free slot with
/// that process, the given state and command line, and the job ID the
/// counter held; every other slot stays. It fails, changing nothing, for a
/// process ID below 1 or when no slot is free.
pub proof fn law_add_fills_first_free_slot(
    s: ShellView,
    pid: i32,
    st: JobState,
    cmdline: Seq<char>,
)
    requires
        shell_wf(s),
    ensures
        (pid < 1 || forall|l: int| 0 <= l < s.jobs.len() ==> s.jobs[l].pid is Some) ==> add_job(
            s,
            pid,
            st,
            cmdline,
        ) == (s, false),
        forall|i: int|
            0 <= i < s.jobs.len() && s.jobs[i].pid is None && pid >= 1 && (forall|l: int|
                0 <= l < i ==> s.jobs[l].pid is Some) ==> {
                let (s2, added) = add_job(s, pid, st, cmdline);
                &&& added
                &&& s2.jobs.len() == s.jobs.len()
                &&& s2.jobs[i] == JobView { pid: Some(pid), jid: s.next_jid, state: st, cmdline }
                &&& forall|l: int| 0 <= l < s.jobs.len() && l != i ==> s2.jobs[l] == s.jobs[l]
            },
{
    lemma_find_free_from(s.jobs, 0);
    assert forall|i: int|
        0 <= i < s.jobs.len() && s.jobs[i].pid is None && pid >= 1 && (forall|l: int|
            0 <= l < i ==> s.jobs[l].pid is Some) implies {
        let (s2, added) = add_job(s, pid, st, cmdline);
        &&& added
        &&& s2.jobs.len() == s.jobs.len()
        &&& s2.jobs[i] == JobView { pid: Some(pid), jid: s.next_jid, state: st, cmdline }
        &&& forall|l: int| 0 <= l < s.jobs.len() && l != i ==> s2.jobs[l] == s.jobs[l]
    } by {
        if let Some(f) = find_free_from(s.jobs, 0) {
            if f < i {
                assert(s.jobs[f].pid is None);
            }
            if f > i {
                assert(s.jobs[i].pid is None);
            }
        }
    }
}

/// A report about a process that has no job (or one that is not an exit,
/// a kill or a stop) leaves the shell as it was and ends the round.
pub proof fn law_report_without_job_changes_nothing(s: ShellView, status: ChildStatus)
    requires
        match status {
            ChildStatus::Exited(p) | ChildStatus::Signaled(p) | ChildStatus::Stopped(p) => forall|
                l: int,
            |
                0 <= l < s.jobs.len() ==> s.jobs[l].pid != Some(p),
            _ => true,
        },
    ensures
        reap_step(s, status).0 == s,
        !reap_step(s, status).2,
{
    match status {
        ChildStatus::Exited(p) | ChildStatus::Signaled(p) | ChildStatus::Stopped(p) => {
            law_pid_lookup_finds_the_job(s, p);
            if let Some(k) = slot_of_pid(s, p) {
                assert(s.jobs[k].pid == Some(p));
            }
        },
        _ => {},
    }
}

/// A line whose first word is not a built-in launches a program with exactly
/// the words of the line, in the background when it ends with the word `&`,
/// and leaves the job table as it was.
pub proof fn law_outside_command_is_launched(
    s: ShellView,
    line: Seq<char>,
    dirs: Seq<Seq<char>>,
    argv: Seq<Seq<char>>,
    bg: bool,
)
    requires
        parse_line(line) == Some((argv, bg)),
        argv.len() > 0,
        argv[0] != "quit"@,
        argv[0] != "jobs"@,
        argv[0] != "bg"@,
        argv[0] != "fg"@,
    ensures
        eval_step(s, line, dirs).0 == s,
        eval_step(s, line, dirs).1 matches PlanView::Launch { argv: a, background: b, candidates: c }
            && a == argv && b == bg && c == exec_candidates(argv[0], dirs),
{
}

} // verus!
