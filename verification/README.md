# openvm_profiler

A guest-program profiler for running a ray tracer on the OpenVM zkVM, with
its logic verified in Verus.

`FoldedProfile` is built from the guest ELF (`FoldedProfile::new`), takes one
program counter per executed instruction (`on_instruction`) and writes the
folded-stack text format (`write`): one line per call path, root first,
`frame0; frame1; ...; frameN <count>`, as consumed by `inferno-flamegraph`
and similar tools.

Layout:

- `src/profile.rs`: the profiler, its abstract view (`ProfileView`) and the
  step relation that `on_instruction` follows.
- `src/symbols.rs`: which ELF symbols become profiled functions, and their
  demangled labels; the `object`, `rustc-demangle` and `cpp_demangle` crates
  are reached through small trusted wrappers.
- `src/folded.rs`: the folded text format.
- `src/laws.rs`: the proved properties of profiles and steps.
- `src/public_values.rs`: decoding of what the guest reveals (image address,
  size and SHA-256 digest) and the digest check, with `sha2` behind a wrapper.
- `app/`: the host runner (file I/O, OpenVM execution and proving).
- `tests/`: tests of the library, including hand-built ELF images.
