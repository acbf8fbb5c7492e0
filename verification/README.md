# postgres_extension

A toolkit for writing PostgreSQL extensions in Rust, split in two.

`src/` is the verified library (Verus):

- `postgres` – datums, `Int32GetDatum` / `DatumGetInt32` and their round-trip laws.
- `fmgr` – choosing a call argument (`getarg_value`).
- `executor::spi` – SPI status codes, the outcome of `SPI_execute`, and the
  cursors that walk the rows of a result and the attributes of a row.
- `rust_utils` – `PanicType`, what a caught panic turns into
  (`classify_panic`), and the `Write` trait with its implementation for C
  character buffers (`&mut [i8]`).
- `config` – reading `pg_config --version --bindir --pkglibdir` output,
  including the version parser and the law that it reads back `PostgreSQL a.b`.
- `export` – the decisions of the `pg_export` attribute: the calling
  convention, which functions can be exported, and the symbol names.
- `utils::elog` – message levels.

`app/` holds what talks to the server through its C interface (SPI, fmgr,
elog, memory contexts, background workers, `setjmp`), the global allocator,
the panic hook and macros, running `pg_config`, and the token-stream side of
the export attribute.
