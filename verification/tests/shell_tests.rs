use tsh::jobs::{JobState, Shell, MAXJID, MAXJOBS};
use tsh::parse::{line_is_parsable, words};
use tsh::shell::{exec_paths, ChildStatus, Plan};
use tsh::text::{chars_of, digits_upto, is_whitespace, parse_usize_at, str_eq};

fn s(x: &str) -> String {
    x.to_string()
}

fn strings(v: &[&str]) -> Vec<String> {
    v.iter().map(|x| x.to_string()).collect()
}

fn print_text(p: Plan) -> String {
    match p {
        Plan::Print(t) => t,
        _ => panic!("expected a Print plan"),
    }
}

// ---- parseline ----

#[test]
fn parseline_splits_words_and_quotes() {
    let sh = Shell::new(false, false);
    let (argv, bg) = sh.parseline("echo 'hello world'\n");
    assert_eq!(argv, strings(&["echo", "hello world"]));
    assert!(!bg);
}

#[test]
fn parseline_trailing_ampersand_is_background() {
    let sh = Shell::new(false, false);
    let (argv, bg) = sh.parseline("sleep 30 &\n");
    assert_eq!(argv, strings(&["sleep", "30"]));
    assert!(bg);
}

#[test]
fn parseline_ampersand_glued_to_word_is_not_background() {
    let sh = Shell::new(false, false);
    let (argv, bg) = sh.parseline("sleep 1&");
    assert_eq!(argv, strings(&["sleep", "1&"]));
    assert!(!bg);
}

#[test]
fn parseline_blank_line_has_no_words() {
    let sh = Shell::new(false, false);
    let (argv, bg) = sh.parseline("   \t \n");
    assert!(argv.is_empty());
    assert!(!bg);
    let (argv, bg) = sh.parseline("");
    assert!(argv.is_empty());
    assert!(!bg);
}

#[test]
fn parseline_only_ampersand() {
    let sh = Shell::new(false, false);
    let (argv, bg) = sh.parseline("&\n");
    assert!(argv.is_empty());
    assert!(bg);
}

#[test]
fn parseline_words_end_only_at_spaces() {
    let sh = Shell::new(false, false);
    let (argv, _) = sh.parseline("a\tb   c\n");
    assert_eq!(argv, strings(&["a\tb", "c"]));
}

#[test]
fn parseline_empty_quotes_and_adjacent_words() {
    let sh = Shell::new(false, false);
    let (argv, _) = sh.parseline("'' x 'a b'c");
    assert_eq!(argv, strings(&["", "x", "a b", "c"]));
}

#[test]
fn parseline_quoted_ampersand_counts() {
    let sh = Shell::new(false, false);
    let (argv, bg) = sh.parseline("cmd '&'");
    assert_eq!(argv, strings(&["cmd"]));
    assert!(bg);
}

#[test]
fn parseline_unicode_whitespace_trimmed() {
    let sh = Shell::new(false, false);
    let (argv, _) = sh.parseline("\u{3000}ls\u{a0}");
    assert_eq!(argv, strings(&["ls"]));
}

#[test]
fn line_with_open_quote_is_not_parsable() {
    assert!(!line_is_parsable("echo 'abc\n"));
    assert!(line_is_parsable("echo 'abc'\n"));
    assert!(words("echo 'abc").is_none());
}

// ---- initpath ----

#[test]
fn initpath_splits_on_colons() {
    let sh = Shell::new(false, false);
    assert_eq!(sh.initpath("/bin:/usr/bin"), strings(&["/bin", "/usr/bin"]));
    assert_eq!(sh.initpath("a::b:"), strings(&["a", "", "b", ""]));
    assert_eq!(sh.initpath("/bin"), strings(&["/bin"]));
    assert!(sh.initpath("").is_empty());
}

#[test]
fn initpath_pieces_join_back() {
    let sh = Shell::new(false, false);
    for p in ["/bin:/usr/bin", ":", "x::y", "abc"] {
        assert_eq!(sh.initpath(p).join(":"), p);
    }
}

// ---- job table ----

#[test]
fn new_shell_is_empty() {
    let sh = Shell::new(true, false);
    assert_eq!(sh.listjobs(), "");
    assert_eq!(sh.fgpid(), None);
    assert_eq!(sh.maxjid(), 0);
    assert_eq!(sh.next_jid(), 1);
    for i in 0..MAXJOBS {
        assert_eq!(sh.job_pid(i), None);
        assert_eq!(sh.job_jid(i), 0);
        assert_eq!(sh.job_state(i), JobState::UNDEF);
    }
}

#[test]
fn addjob_assigns_ids_in_order() {
    let mut sh = Shell::new(false, false);
    assert!(sh.addjob(100, JobState::BG, "sleep 30 &\n"));
    assert!(sh.addjob(200, JobState::FG, "vim\n"));
    assert_eq!(sh.pid2jid(100), 1);
    assert_eq!(sh.pid2jid(200), 2);
    assert_eq!(sh.pid2jid(300), 0);
    assert_eq!(sh.pid2jid(0), 0);
    assert_eq!(sh.getjobpid(200), Some(1));
    assert_eq!(sh.getjobjid(1), Some(0));
    assert_eq!(sh.getjobjid(0), None);
    assert_eq!(sh.fgpid(), Some(200));
    assert_eq!(sh.next_jid(), 3);
    assert_eq!(sh.maxjid(), 2);
}

#[test]
fn addjob_rejects_bad_pid() {
    let mut sh = Shell::new(false, false);
    assert!(!sh.addjob(0, JobState::BG, "x\n"));
    assert!(!sh.addjob(-5, JobState::BG, "x\n"));
    assert_eq!(sh.next_jid(), 1);
    assert_eq!(sh.listjobs(), "");
}

#[test]
fn addjob_refuses_when_full() {
    let mut sh = Shell::new(false, false);
    for k in 0..MAXJOBS {
        assert!(sh.addjob(1000 + k as i32, JobState::BG, "x\n"));
    }
    assert!(!sh.addjob(5000, JobState::BG, "x\n"));
    assert_eq!(sh.pid2jid(5000), 0);
    assert_eq!(sh.next_jid(), MAXJOBS + 1);
}

#[test]
fn deletejob_frees_slot_and_recomputes_next_id() {
    let mut sh = Shell::new(false, false);
    sh.addjob(100, JobState::BG, "a\n");
    sh.addjob(200, JobState::BG, "b\n");
    sh.addjob(300, JobState::BG, "c\n");
    assert!(sh.deletejob(300));
    assert_eq!(sh.next_jid(), 3);
    assert!(sh.deletejob(100));
    assert_eq!(sh.next_jid(), 3);
    assert_eq!(sh.job_pid(0), None);
    assert_eq!(sh.job_jid(0), 0);
    assert!(!sh.deletejob(100));
    assert!(!sh.deletejob(0));
    assert!(sh.addjob(400, JobState::BG, "d\n"));
    assert_eq!(sh.getjobpid(400), Some(0));
    assert_eq!(sh.pid2jid(400), 3);
}

#[test]
fn delete_undoes_add() {
    let mut sh = Shell::new(false, false);
    sh.addjob(100, JobState::BG, "a\n");
    sh.addjob(200, JobState::ST, "b\n");
    let before = sh.listjobs();
    assert!(sh.addjob(300, JobState::FG, "c\n"));
    assert!(sh.deletejob(300));
    assert_eq!(sh.listjobs(), before);
    assert_eq!(sh.next_jid(), sh.maxjid() + 1);
}

#[test]
fn job_ids_wrap_after_maxjid() {
    let mut sh = Shell::new(false, false);
    assert!(sh.addjob(1, JobState::BG, "a\n"));
    let mut pid: i32 = 2;
    while sh.next_jid() < MAXJID {
        assert!(sh.addjob(pid, JobState::BG, "b\n"));
        assert!(sh.deletejob(pid - 1));
        pid += 1;
    }
    assert!(sh.addjob(pid, JobState::BG, "c\n"));
    assert_eq!(sh.pid2jid(pid), MAXJID);
    assert_eq!(sh.next_jid(), 1);
    assert!(sh.addjob(pid + 1, JobState::BG, "d\n"));
    assert_eq!(sh.pid2jid(pid + 1), 1);
}

#[test]
fn listjobs_shows_occupied_slots() {
    let mut sh = Shell::new(false, false);
    sh.addjob(48213, JobState::BG, "sleep 30 &\n");
    sh.addjob(48214, JobState::ST, "vi\n");
    sh.addjob(48215, JobState::FG, "cat\n");
    sh.deletejob(48214);
    assert_eq!(
        sh.listjobs(),
        "[1] (48213) Running sleep 30 &\n[3] (48215) Foreground cat\n"
    );
    sh.set_state(0, JobState::ST);
    assert_eq!(
        sh.listjobs(),
        "[1] (48213) Stopped sleep 30 &\n[3] (48215) Foreground cat\n"
    );
}

#[test]
fn job_accessors() {
    let mut sh = Shell::new(false, true);
    sh.addjob(77, JobState::BG, "x y\n");
    assert!(sh.verbose());
    assert_eq!(sh.job_pid(0), Some(77));
    assert_eq!(sh.job_jid(0), 1);
    assert_eq!(sh.job_state(0), JobState::BG);
    assert_eq!(sh.job_cmdline(0), "x y\n");
}

// ---- eval and built-ins ----

#[test]
fn eval_empty_line_does_nothing() {
    let mut sh = Shell::new(false, false);
    assert!(matches!(sh.eval("  \n", &[]), Plan::Nothing));
    assert!(matches!(sh.eval("&\n", &[]), Plan::Nothing));
}

#[test]
fn eval_quit() {
    let mut sh = Shell::new(false, false);
    assert!(matches!(sh.eval("quit\n", &[]), Plan::Quit));
}

#[test]
fn eval_jobs_lists() {
    let mut sh = Shell::new(false, false);
    sh.addjob(10, JobState::BG, "sleep 5 &\n");
    assert_eq!(print_text(sh.eval("jobs\n", &[])), "[1] (10) Running sleep 5 &\n");
}

#[test]
fn eval_bg_without_argument() {
    let mut sh = Shell::new(false, false);
    assert_eq!(
        print_text(sh.eval("bg\n", &[])),
        "bg command requires PID or %jobid argument\n"
    );
}

#[test]
fn eval_fg_unknown_job() {
    let mut sh = Shell::new(false, false);
    assert_eq!(print_text(sh.eval("fg %5\n", &[])), "%5: No such job\n");
    assert_eq!(print_text(sh.eval("fg %0\n", &[])), "%0: No such job\n");
}

#[test]
fn eval_bg_unknown_process() {
    let mut sh = Shell::new(false, false);
    assert_eq!(print_text(sh.eval("bg 123\n", &[])), "(123): No such process\n");
    assert_eq!(print_text(sh.eval("bg 007\n", &[])), "(7): No such process\n");
}

#[test]
fn eval_fg_bad_argument() {
    let mut sh = Shell::new(false, false);
    assert_eq!(
        print_text(sh.eval("fg abc\n", &[])),
        "fg: argument must be a PID or %jobid\n"
    );
    assert_eq!(
        print_text(sh.eval("fg %\n", &[])),
        "fg: argument must be a PID or %jobid\n"
    );
    assert_eq!(
        print_text(sh.eval("bg -3\n", &[])),
        "bg: argument must be a PID or %jobid\n"
    );
}

#[test]
fn eval_bg_resumes_job_in_background() {
    let mut sh = Shell::new(false, false);
    sh.addjob(4321, JobState::ST, "sleep 30 &\n");
    match sh.eval("bg %1\n", &[]) {
        Plan::Resume { group, output, wait_for } => {
            assert_eq!(group, -4321);
            assert_eq!(output, "[1] (4321) sleep 30 &\n");
            assert_eq!(wait_for, None);
        }
        _ => panic!("expected Resume"),
    }
    assert_eq!(sh.job_state(0), JobState::BG);
}

#[test]
fn eval_fg_resumes_job_in_foreground() {
    let mut sh = Shell::new(false, false);
    sh.addjob(4321, JobState::ST, "sleep 30\n");
    match sh.eval("fg 4321\n", &[]) {
        Plan::Resume { group, output, wait_for } => {
            assert_eq!(group, -4321);
            assert_eq!(output, "");
            assert_eq!(wait_for, Some(4321));
        }
        _ => panic!("expected Resume"),
    }
    assert_eq!(sh.job_state(0), JobState::FG);
    assert_eq!(sh.fgpid(), Some(4321));
}

#[test]
fn eval_percent_plus_job_id() {
    let mut sh = Shell::new(false, false);
    sh.addjob(9, JobState::ST, "x\n");
    assert!(matches!(sh.eval("fg %+1\n", &[]), Plan::Resume { group: -9, .. }));
}

#[test]
fn eval_launches_outside_program() {
    let mut sh = Shell::new(false, false);
    let dirs = strings(&["/bin", ""]);
    match sh.eval("ls -l &\n", &dirs) {
        Plan::Launch { argv, background, candidates } => {
            assert_eq!(argv, strings(&["ls", "-l"]));
            assert!(background);
            assert_eq!(candidates, strings(&["/bin/ls", "./ls"]));
        }
        _ => panic!("expected Launch"),
    }
    match sh.eval("/bin/echo hello\n", &dirs) {
        Plan::Launch { argv, background, candidates } => {
            assert_eq!(argv, strings(&["/bin/echo", "hello"]));
            assert!(!background);
            assert_eq!(candidates, strings(&["/bin/echo"]));
        }
        _ => panic!("expected Launch"),
    }
    match sh.eval("ls\n", &[]) {
        Plan::Launch { candidates, .. } => assert_eq!(candidates, strings(&["ls"])),
        _ => panic!("expected Launch"),
    }
}

#[test]
fn exec_paths_forms_candidates() {
    assert_eq!(
        exec_paths(&s("cat"), &strings(&["/usr/bin", "", "/bin"])),
        strings(&["/usr/bin/cat", "./cat", "/bin/cat"])
    );
    assert_eq!(exec_paths(&s("./cat"), &strings(&["/bin"])), strings(&["./cat"]));
}

#[test]
fn builtin_cmd_and_do_bgfg() {
    let mut sh = Shell::new(false, false);
    assert!(sh.builtin_cmd(&strings(&["ls"])).is_none());
    assert!(matches!(sh.builtin_cmd(&strings(&["quit"])), Some(Plan::Quit)));
    assert_eq!(
        print_text(sh.do_bgfg(&strings(&["fg"]))),
        "fg command requires PID or %jobid argument\n"
    );
}

#[test]
fn accepts_line_matches_panicking_inputs() {
    assert!(Shell::accepts_line("ls -l\n"));
    assert!(!Shell::accepts_line("echo 'open\n"));
    assert!(!Shell::accepts_line("fg 99999999999\n"));
    assert!(!Shell::accepts_line("fg ''\n"));
    assert!(Shell::accepts_line("fg 2147483647\n"));
    assert!(Shell::accepts_line("fg %99999999999999999999999\n"));
    assert!(Shell::accepts_line("echo 99999999999\n"));
    assert!(Shell::accepts_line("\n"));
}

// ---- children ----

#[test]
fn register_background_child_announces_it() {
    let mut sh = Shell::new(false, false);
    let out = sh.register_child(48213, true, "sleep 30 &\n");
    assert_eq!(out, "[1] (48213) sleep 30 &\n");
    assert_eq!(sh.job_state(0), JobState::BG);
}

#[test]
fn register_foreground_child_is_silent() {
    let mut sh = Shell::new(false, false);
    let out = sh.register_child(500, false, "vim\n");
    assert_eq!(out, "");
    assert_eq!(sh.fgpid(), Some(500));
}

#[test]
fn register_child_verbose_note() {
    let mut sh = Shell::new(false, true);
    let out = sh.register_child(500, true, "  sleep 1 &  \n");
    assert_eq!(out, "Added job [1] 500   sleep 1 &  \n\n[1] (500) sleep 1 &\n");
}

#[test]
fn register_child_when_table_full() {
    let mut sh = Shell::new(false, false);
    for k in 0..MAXJOBS {
        sh.addjob(10 + k as i32, JobState::BG, "x\n");
    }
    assert_eq!(sh.register_child(99, false, "y\n"), "Tried to create too many jobs\n");
    assert_eq!(sh.register_child(0, false, "y\n"), "");
}

#[test]
fn sigchld_exited_child_is_deleted() {
    let mut sh = Shell::new(false, false);
    sh.register_child(100, false, "sleep 1\n");
    let (out, more) = sh.sigchld_handler(ChildStatus::Exited(100));
    assert_eq!(out, "");
    assert!(more);
    assert_eq!(sh.listjobs(), "");
    assert_eq!(sh.fgpid(), None);
}

#[test]
fn sigchld_verbose_delete_note() {
    let mut sh = Shell::new(false, true);
    sh.addjob(100, JobState::FG, "sleep 1\n");
    let (out, more) = sh.sigchld_handler(ChildStatus::Exited(100));
    assert_eq!(out, "Deleted job [1] 100\n");
    assert!(more);
}

#[test]
fn sigchld_signaled_child_is_reported_and_deleted() {
    let mut sh = Shell::new(false, false);
    sh.addjob(100, JobState::FG, "sleep 1\n");
    let (out, more) = sh.sigchld_handler(ChildStatus::Signaled(100));
    assert_eq!(out, "Job [1] (100) terminated by signal SIGINT\n");
    assert!(more);
    assert_eq!(sh.pid2jid(100), 0);
}

#[test]
fn sigchld_stopped_child_is_marked() {
    let mut sh = Shell::new(false, false);
    sh.addjob(100, JobState::FG, "sleep 1\n");
    let (out, more) = sh.sigchld_handler(ChildStatus::Stopped(100));
    assert_eq!(out, "Job [1] (100) stopped by signal SIGTSTP\n");
    assert!(more);
    assert_eq!(sh.job_state(0), JobState::ST);
    assert_eq!(sh.fgpid(), None);
}

#[test]
fn sigchld_other_reports_end_the_round() {
    let mut sh = Shell::new(false, false);
    sh.addjob(100, JobState::FG, "sleep 1\n");
    assert_eq!(sh.sigchld_handler(ChildStatus::Exited(999)), (s(""), false));
    assert_eq!(sh.sigchld_handler(ChildStatus::Other), (s(""), false));
    assert_eq!(sh.sigchld_handler(ChildStatus::NoChildren), (s(""), false));
    assert_eq!(sh.sigchld_handler(ChildStatus::Failed), (s("waitpid error"), false));
    assert_eq!(sh.pid2jid(100), 1);
}

#[test]
fn started_child_that_exits_is_forgotten() {
    let mut sh = Shell::new(false, false);
    sh.addjob(7, JobState::BG, "a &\n");
    let before = sh.listjobs();
    sh.register_child(8, true, "b &\n");
    let (_, more) = sh.sigchld_handler(ChildStatus::Exited(8));
    assert!(more);
    assert_eq!(sh.listjobs(), before);
}

#[test]
fn keyboard_signals_go_to_foreground_group() {
    let mut sh = Shell::new(false, false);
    assert_eq!(sh.sigint_handler(), None);
    assert_eq!(sh.sigtstp_handler(), None);
    sh.addjob(300, JobState::BG, "a &\n");
    assert_eq!(sh.sigint_handler(), None);
    sh.addjob(301, JobState::FG, "b\n");
    assert_eq!(sh.sigint_handler(), Some(-301));
    assert_eq!(sh.sigtstp_handler(), Some(-301));
}

// ---- text helpers ----

#[test]
fn number_parsing_follows_std() {
    let cs = chars_of("%+42");
    assert_eq!(parse_usize_at(&cs, 1), Some(42));
    assert_eq!(parse_usize_at(&chars_of("+"), 0), None);
    assert_eq!(parse_usize_at(&chars_of(""), 0), None);
    assert_eq!(parse_usize_at(&chars_of("-1"), 0), None);
    assert_eq!(parse_usize_at(&chars_of("18446744073709551615"), 0), Some(usize::MAX));
    assert_eq!(parse_usize_at(&chars_of("18446744073709551616"), 0), None);
    assert_eq!(digits_upto(&chars_of("2147483647"), 0, 2147483647), Some(2147483647));
    assert_eq!(digits_upto(&chars_of("2147483648"), 0, 2147483647), None);
    assert_eq!(digits_upto(&chars_of("12a"), 0, 1000), None);
}

#[test]
fn whitespace_and_equality_helpers() {
    for c in [' ', '\t', '\n', '\u{85}', '\u{a0}', '\u{2000}', '\u{3000}'] {
        assert_eq!(is_whitespace(c), c.is_whitespace());
    }
    for c in ['a', '\u{200b}', '&', '\''] {
        assert_eq!(is_whitespace(c), c.is_whitespace());
    }
    assert!(str_eq("bg", "bg"));
    assert!(!str_eq("bg", "fg"));
    assert!(!str_eq("bg", "bgx"));
}
