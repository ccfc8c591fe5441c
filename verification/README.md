# tsh

A minimal job-control shell. The library (`src/`) holds what the shell
decides, verified with Verus; the program (`app/`) does the process,
signal and terminal work around it.

- `src/text.rs`: Unicode whitespace, trimming, decimal output and input.
- `src/parse.rs`: the command-line tokenizer (words, single quotes) and the
  splitting of a `PATH` value.
- `src/jobs.rs`: the job table (`MAXJOBS` slots), job IDs, and its listing.
- `src/shell.rs`: built-ins (`quit`, `jobs`, `bg`, `fg`), evaluation of a
  command line into a plan, recording of started children, handling of
  `waitpid` reports, and the target of forwarded keyboard signals.
- `src/laws.rs`: properties across operations (add/delete, `PATH`
  round trip, trailing `&`, signal forwarding).
- `app/main.rs`: flags (`-p`, `-v`), the read–eval loop, `fork`/`execve`,
  `kill`, `waitpid` and signal delivery.
