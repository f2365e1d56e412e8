# libmwemu

The core state of an x86 emulator, written in Verus: every function of the
library in `src/` carries a contract that Verus proves, except the small
trusted wrappers (marked `#[verifier::external_body]`) around the calls into
`slab`, `ahash`, `md5` and a few std functions, whose contracts state what
those sources document and are taken without proof.

- `flags`: the EFLAGS register, the flag rules of the integer instructions
  (additions, subtractions, shifts, rotations, multiplications), and the
  conversion of the register to and from its 32 bit image.
- `fpu`: the x87 unit: 80-bit extended values (`fpu::f80`), the register
  stack with its top, depth and invalid bits (`fpu::fpu_stack`), and the
  control, status and tag words with the `fxsave` image.
- `maps`: the emulated address space: named memory regions (`maps::mem64`),
  their index by base and by name, the page lookup cache (`maps::tlb`), reads
  and writes of bytes, words, strings and buffers, searches, and allocation
  of free ranges.
- `structures`: the Windows and Linux structures that the emulated process
  finds in its memory (PEB, TEB, loader data, exception records, system
  information, ...), each with what it reads and writes at an address.
- `kuser_shared`: the shared user data block mapped at its fixed address.
- `winapi64`: API calls of `kernelbase` and `shlwapi`, from the argument
  registers to the result register, and `kernelbase_call`, which carries
  out a kernelbase call by name.
- `exception_type`: the kinds of exceptions the emulator raises.

Contracts speak of mathematical views: a region is its base, its end and
its bytes (`Seq<u8>`); the address space is a map from keys to regions with
its base and name indexes and its cache, kept consistent by `Maps::wf`.
Laws that relate several calls stand as public proof functions, such as
`maps::lemma_maps_read_after_write`, `fpu::fpu_stack::lemma_pop_after_push`
and the `lemma_load_after_save` of the structures.

`app/` holds what Verus does not check: logging and dumps, file input and
output, the `f64` views of the x87 registers, serde copies of plain types,
the clock, and the mapping of decoder registers to x87 registers.
`tests/` exercises the library with concrete values.
