# tape

A deterministic record + replay runtime, verified with Verus.

A program here is a function of its code and of the answers it gets from
the runtime's effect calls (clock, randomness, stdout, files, environment,
arguments, sleep). Recording asks the real world and writes every call and
its answer into a trace; replaying answers each call from the trace and
stops with an error the moment the program drifts (another site, another
kind of effect, other arguments, the trace ran out).

Replay refuses a trace whose schema version differs, or whose build
identity differs from this build's. The build identity (`CODE_HASH_HEX`)
is a fixed value in `src/lib.rs`: no build step recomputes it from the
source, so editing the library does not by itself make older traces
unreplayable; change the value along with an edit to get that effect.

## Layout

- `src/` — the verified library.
  - `runtime.rs`: the `Runtime` contract, stated over the history of calls a
    runtime has answered.
  - `recording.rs`, `replaying.rs`: the two runtimes. `Recording` asks a
    `Host` (the real world, supplied by the caller) and logs each call.
  - `codec.rs`: the bincode encodings of arguments and answers, behind
    wrappers, with round-trip lemmas.
  - `programs.rs`: the built-in demo programs, each specified as a function
    from the answers so far to its next call, with the record-then-replay
    law.
  - `lang/`: the scripting language (lexer, parser, interpreter) and its
    semantics; the interpreter is proved against the semantics, and the
    record-then-replay law is proved for scripts too.
  - `inspect.rs`, `stats.rs`, `diff.rs`: reports on traces, each proved
    equal to a specification of its text.
  - `cli.rs`: the decisions of the command line (arguments, filters, the
    bench load).
- `app/` — the command-line program: argument handling, files, the real
  host, the on-disk (serde) form of a trace, timing and the float-valued
  text statistics.
- `tests/` — tests of the library.
