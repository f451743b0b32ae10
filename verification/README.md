# statusline

A powerline-style statusline for coding-agent terminal panes, and the hook
that tracks whether a pane is working or waiting on its user.

- `src/` is the verified library (Verus): the JSON payload reader (`json`),
  the line itself (`render`), the state hook's decisions and the detection of
  `issue.ps1 claim|done <n>` invocations (`state`), what the git and stamp
  files say (`paths`), the rate-limited self-collection of abandoned renders
  (`reap`), the command line (`cli`), and character-level text helpers
  (`text`). The laws each module proves stand beside the functions they
  speak of.
- `app/` is the program around it: stdin with a deadline, the files under
  `session-tasks/`, `gh` and the summarizer script, the clock, and the
  floating-point handling of the payload's percentages.
- `tests/` runs the library on concrete inputs.
