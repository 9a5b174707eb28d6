# ORCA

ORCA orchestrates external commands and AI agent command-line tools: command plans with
dependencies, bounded concurrency, retries, timeouts and cancellation, and goal runs in which
a graph of agents plans, critiques, implements and checks work until its completion gates pass.

## Layout

- `src/` is the library, written in Verus and verified. Each function states what it returns
  in its contract; laws that relate several functions are public proof functions.
  - `config`, `defaults`, `loading`, `settings`: the workflow and settings model, its
    validation, the built-in agent graph, and where files are read from.
  - `planner`, `scheduler`, `executor`, `model`: command plans, the run state that decides what
    starts next, retries and how a finished process is reported.
  - `agent`, `agent_backend`, `orchestrator`, `completion`, `goal`, `artifacts`: agent graphs,
    their scheduling state, prompts and contexts, completion gates and goal summaries.
  - `output`, `tui`: the live output state and its rendering decisions.
  - `cli`: argument normalisation and request building.
  - `gui`, `desktop`: reading and editing workflow files as text for the graphical front ends.
  - `text`, `split`, `keyed`, `graph`, `paths`, `errors`: supporting text, collection, graph
    and path operations.
- `tests/` exercises the library on concrete values.
- `app/` is the `orca` command: argument parsing, file and process I/O, and the terminal
  output, calling the library for every decision.
