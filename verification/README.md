# ciron

The decisions of a process supervisor, verified with Verus, and the programs around them:
the daemon `cirond` and its control utility `cironctl`.

`src/` is the library. It never does anything itself: it is told what happened, and says
what to do next.

| module        | decides                                                                |
|---------------|------------------------------------------------------------------------|
| `config`      | what a configuration means once defaults are filled in                 |
| `command`     | what to ask the operating system for, given a command line             |
| `start_order` | (specification) in which order programs are started, and its laws      |
| `resolver`    | how that order is computed                                             |
| `process`     | what happens to the table of programs: start, stop, restart, exit      |
| `lifecycle`   | (specification) what whole requests do to the table                    |
| `logs`        | which lines of output are kept and handed out                          |
| `log_format`  | how the daemon writes its own log                                      |
| `transport`   | at which addresses the daemon is reached                               |
| `service`     | how requests are answered                                              |
| `ctl`         | what the control utility shows                                         |
| `error`, `text` | errors in words; numbers and texts                                   |

Two things are believed without proof, and each says so where it is declared: how
`shell_words::split` takes a command line apart, and how `{:?}` writes a string.

`tests/` runs the library on concrete values. `app/` spawns processes, sends signals,
waits, reads files and speaks gRPC.
