# aether

A daemon for rooted Android devices that pins the threads of chosen apps to
CPU cores. A JSON configuration lists packages and, per package, which
threads go to which cores; apps it does not know are noticed, cached with a
default placement (heavy threads on the big cores) and picked up on the next
merge.

## Layout

- `src/` — the verified library (Verus):
  - `text.rs`, `numtext.rs` — character-level string work (search, trim,
    split, words) and decimal numbers, with their specifications;
  - `pattern.rs` — name patterns, rule priorities, thread load classes;
  - `json.rs` — the JSON document model and the call into the `json` crate;
  - `config.rs` — rules, the package set, loading a configuration and
    merging the cache;
  - `process.rs` — deciding which processes and threads are placed and
    where, `/proc` directory records, CPU lists, binding plans;
  - `cache.rs` — the text of cache entries and of the cache file;
  - `status.rs` — the status records and log lines the daemon writes;
  - `daemon.rs` — command line and the main loop's decisions;
  - `topology.rs` — the CPU layout: clusters by highest frequency, the
    big and little core lists;
  - `laws.rs` — properties proved across functions.
- `app/` — the program: file and `/proc` access, system calls, signals,
  the main loop.
- `tests/` — tests of the library on concrete inputs.
