# pixie-pi

The logic of a terminal coding agent, written in Verus. Verus proves the
contracts of the library's functions. The exceptions are the small wrappers around
other crates and std: their contracts are taken on trust, and nothing is claimed
of what the clock says.

- `src/ai`: messages, models, the streaming protocol (server-sent events,
  partial JSON, responses) and requests.
- `src/agent`: the agent loop as a state machine, tool results, argument checks.
- `src/tools`: read, write, edit (exact and fuzzy), grep, find, ls, skills; diffs
  and truncation.
- `src/session.rs`: transcripts, token budgets and compaction.
- `src/modes`: the interactive session and its slash commands.
- `src/text.rs`, `src/json.rs`: the vocabulary of the contracts.
- `app/`: the program around the library: files, HTTP, the terminal.
- `tests/`: tests of the library from outside.

Public proof functions named `law_...` state what holds of several functions
together. What is taken on trust (of `serde_json`, `regex`, `globset`,
`unicode-normalization`, `reqwest` and std) stands in those wrappers, whose
comments say what is claimed.

Paths are texts with `/` between their parts, and absolute where they start with
`/`; paths with a drive letter are not known.

`PIXIE_PI_MODEL_FAMILY` names the family that the provider's model ids start
with.
