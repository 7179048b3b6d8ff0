# Bulbasaur

A branch-guided coverage fuzzer. Three variants of the target are run: a fast
one on every input, a full one when an input shows a new edge, and a trace one
that records the operands of comparisons. Mutation functions for branches that
resist can be requested from an agent bridge.

- `src/` is the verified library. It holds everything that the fuzzer decides
  or computes: reading coverage maps (`branches`, `chunks`), favouring and
  picking seeds (`depot`), mutating inputs (`search`, `extras`, `utils`),
  understanding fork servers and runs (`executor`, `wait_status`), the
  exchange with the agent bridge (`llm_loop`), tables sent by targets
  (`parse_raw_section`, `trace_data`), settings (`command`, `config`, `defs`,
  `check_dep`, `fuzz_main`, `bind_cpu`), counts (`stats`, `chart`), and the
  arithmetic of floating-point numbers on integers (`binary32`, `binary64`).
- `app/` is the program around it: processes, shared memory, files, sockets,
  threads, and what needs floating-point numbers.
- `tests/` runs the library.

State is plain data behind `&mut`; the program shares it between workers with
locks. Random choices take the generator as a parameter, times are passed in
as seconds, and every loop that runs a target is driven by a state machine of
the library: `executor::exam::Exam`, `search::AFLFuzz`, `search::TaintFuzz`,
`search::trim::Trim`, `executor::forksrv::Handshake`.

Public proof functions state what holds of several functions together, such as
`branches::paths::noted_runs_show_nothing_new`,
`search::taint::payloads_come_back`, `search::handler::budgets_stay_bounded` or
`depot::favor_queue::seeds_take_turns`.

What is taken from other crates without proof is declared in `rng`, `chunks`,
`depot::queue`, `text`, `wait_status`, `hash` and `check_dep`, with what is
claimed of it.
