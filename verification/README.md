# fleetreach

A security audit of the dependencies of a whole fleet of repositories, across ecosystems: which
advisories apply where, what to upgrade first, and whether the result can be trusted at all.

`src/` is the library. It is written in Verus: every function states what it returns, and the
proof is checked with the code. What holds of the library as a whole (that a gap is never clean,
that folding loses no occurrence, that a version match never proves code unreachable, that an
offline run touches no network) stands in public proof functions beside the functions it is
about.

| modules | what they decide |
| --- | --- |
| `finding`, `report`, `outcome`, `severity`, `score` | the report and its parts |
| `version`, `osv`, `mirror`, `tier_c` | versions, requirements, OSV ranges and advisories, and the archives that hold them |
| `go`, `go_offline`, `go_run`, `hex`, `ghactions` | what a manifest asks for, and what a mirror or the Go checker says of it |
| `orchestrate`, `repo_scan`, `resolve`, `correlate`, `assemble` | from repositories to one report and its exit code |
| `remediation`, `enrich` | what to do, and what first |
| `reach`, `npm_reach`, `static_reach`, `depgraph` | whether vulnerable code can be reached |
| `config`, `db`, `cli`, `scan`, `pipeline`, `diff`, `vex`, `vex_run` | the commands, step by step |
| `text`, `textmap`, `cut`, `number`, `order`, `value`, `json` | texts, maps, orders and JSON trees |

`app/` reads, runs, fetches and prints: it does what the library waits for and hands back what
came of it. `tests/` runs the library from outside.
