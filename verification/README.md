# lightning

Selective execution, flaky-test scoring and a remote build cache for Gradle
CI, as a verified Rust library with a thin command line and server around it.

- `src/` — the library, written in Verus: every function carries a
  contract, and the properties the tool relies on (what a change affects,
  how flakiness is judged, how the cache index and directory agree, …) are
  proved as `law_*` proof functions next to the code they speak of.
- `tests/` — executable tests of the library.
- `app/` — `main`: argument parsing, git, Gradle, files, HTTP and SQLite;
  it hands plain values to the library and acts on its answers (the
  server's HTML pages are rendered by the library). The flaky score's
  floating-point weighting and the conversion of JUnit times to
  milliseconds live here too.
