# cultist

A verified library behind the `cargo cultist` tool, which reads a Rust
repository and its Git history and reports evidence about test-module naming
precedent, generated companions, active-work collisions and review receipts.

The command-line program in `app/` runs the `diff`/`check` precedent report.
The generated-companion decisions and the active-work collision gates stand
in the library with their contracts, but are not wired into the program:
generator discovery, the inventory reader and the `preflight`, `ci-tests` and
repository-wide report commands are not part of this build.

- `src/` is the library, written in Verus: every function carries a contract
  and is proved. Calls into outside crates (`serde_json`, `sha2`, `syn`,
  `proc-macro2`) and into the clock stand behind small trusted wrappers whose
  doc comments say what each one claims.
- `tests/` runs the library on concrete inputs.
- `app/` is the command-line program around it: argument handling, Git and
  file I/O, the `syn` tree walk, and JSON output.
