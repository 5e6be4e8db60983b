# samply

The decisions of a sampling profiler, as a verified library: what they are is stated in
`requires` and `ensures`, and proved by Verus.

- `lib_mappings` keeps track of which library is mapped at which address.
- `v8_inline` and `v8_fields` reconstruct the inlined frames of JavaScript code from V8's log.
- `linux` says what to ask of `perf_event_open`, and reads the records of the ring buffers.
- `mac` says which processes of a launched tree are sampled.
- `preload` says what happens when a profiled process executes another program.
- `text` reads and writes text.

`app/` is the ordinary Rust around the library: system calls, threads and hooks. The hooks are
for macOS only, the perf events for Linux only.
