# Forge

Forge keeps the decisions of a project, and the forces that they rest on, as
plain Markdown files, and tells which decisions have lost their premises.

A **force** is a fact about the world. It holds until it changes or is retired.
A **decision** cites forces, and forces depend on each other. Where a force
falls, every decision that rests on it, directly or over other forces, is stale.

## Layout

- `src/` is the library, verified with [Verus](https://github.com/verus-lang/verus).
  Its functions state what they return; the proof functions whose names start
  with `law_` state what holds of the library as a whole.
- `app/` is the programs around it: `forge-mcp`, an MCP server over stdio, and
  `forge-inspect`, which prints a corpus. Files, floating-point vectors, models
  and the protocol are there.
- `tests/` runs the library.

## The library

| Module | What it does |
|---|---|
| `discovery` | finds the files that are records |
| `record` | reads frontmatter, and checks what was read |
| `linker`, `cycles` | keeps one record for each id, and reports what is wrong |
| `graph` | looks records up, and who refers to them |
| `judge` | the verdicts: what is stale, what is superseded, what is the present |
| `embed`, `score` | embedders, the cache of vectors, and scores |
| `snapshot`, `report` | everything derived from a corpus, and the reports on it |
| `recall` | search, and near matches of a force |
| `ids`, `guardian` | ids of new records, and proposals |
| `serialize`, `commit`, `readback` | what is written, and that it is read back |
| `server` | what each request is answered in each phase of the server |
| `config`, `resolve`, `scaffold`, `logging`, `inspect` | configuration and set-up |
| `text`, `chars`, `order`, `paths` | texts, sorting and paths |

A record is a Markdown file with frontmatter:

```markdown
---
id: f-rust-stable
type: force
title: Rust is a stable, mature systems language
status_log:
  - { status: holds, since: 2026-01-01 }
---
Editions keep old code compiling.
```
