# libkrebs

A library for scanning and decoding the memory of another process, written in Verus:
its behaviour is stated in `requires`/`ensures` contracts and proved.

- `src/pattern_scan`: byte patterns with masks (`BytePattern`, `WordPattern`,
  `Simd32Pattern`), their concatenation and aligned scans of a buffer.
- `src/mem`: addresses and ranges, regions and modules, the `Reader`/`Writer`/`Process`
  traits and the chunked `Buffer` scan over an address range. A reader and a writer keep
  a record of the reads and writes they answered; the contracts of the functions that
  read (the scan, the layout, pointer chains, C++ strings) say which reads they make
  and what they do with each answer.
- `src/boros.rs`: the ring-like buffer whose tail is carried over between chunks.
- `src/cpp_std`: the in-memory layouts of GCC and MSVC `std::string` and MSVC
  `std::vector`, with decoding, validation and scan patterns.
- `src/scanner`: the memory layout of a process (writable heap, the executable's module).
- `src/unix`: parsing of `/proc/<pid>/maps` into regions and modules.
- `src/win`: Windows page protections, memory blocks and wide strings as plain values.
- `src/bindings.rs`: the pattern and result shapes the Elixir bindings exchange.

`app/` holds what Verus does not see: the `/proc` reader and writer, the parallel
scanner, and the Elixir NIF layer.
