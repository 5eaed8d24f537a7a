# deku

Declarative bit-level reading and writing, verified with Verus.

The library reads values from a stream of bytes bit by bit and writes them
back, with the bit order (`Msb0`/`Lsb0`) and the byte order (little/big
endian) chosen per field.

Layout of `src/`:

- `bits.rs`: packed bit storage (`BitSlice`, `BitSliceMut`, `BitVec`), bit
  orders, iteration, chunking and integer loads.
- `bounded.rs`: the small fixed-capacity bit vector that holds pending bits.
- `no_std_io.rs`: an in-memory byte stream (`Cursor`) with reads, writes and
  seeks.
- `noseek.rs`: a wrapper that counts a stream's position and only "seeks" to
  where it already is.
- `reader.rs`, `container.rs`: bit readers over a stream.
- `writer.rs`: the bit writer.
- `ctx.rs`: the contexts of reads and writes (endianness, sizes, limits).
- `error.rs`: the error type and its messages.
- `impls/`: reading and writing integers (unsigned and signed, up to 64
  bits), `bool`, `Option`, `()`, tuples, `Arc`, `Cow`, `Vec`, arrays and
  boxed slices; reading `HashMap` and `HashSet`; writing slices.
- `properties.rs`: laws that tie single writes and reads together.
- `runs.rs`: laws over runs of reads and of writes, and the round trip of
  several fields written one after another and read back.
- `lib.rs`: the `DekuReader`, `DekuWriter` and container traits.

Every function carries a contract, and `tests/` runs the library on concrete
values.
