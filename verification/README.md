# uscope

A verified library for µScope traces: a binary, streaming format for what
happens inside hardware, cycle by cycle, and the CPU pipeline protocol on top
of it. Written in [Verus](https://github.com/verus-lang/verus): the functions
under `src/` carry contracts, and all but the few calls named under "What is
trusted" are proved.

## Layout

| Path | Contents |
|------|----------|
| `src/bytes.rs`, `src/wire.rs`, `src/leb128.rs`, `src/text.rs` | bytes, integers, UTF-8 |
| `src/types.rs`, `src/schema.rs`, `src/string_pool.rs` | the records of a file and its schema |
| `src/frame.rs`, `src/checkpoint.rs`, `src/state.rs` | cycles, checkpoints, replay |
| `src/trace.rs`, `src/writer.rs`, `src/reader.rs`, `src/segment.rs` | whole traces, writing and reading |
| `src/summary.rs`, `src/mipmap.rs`, `src/tally.rs`, `src/summarize.rs`, `src/embed.rs`, `src/density.rs` | multi-resolution summaries |
| `src/protocols/`, `src/cpu/` | the CPU protocol: schema, writer, opening and loading |
| `src/konata.rs`, `src/konata_emit.rs` | conversion of Konata logs |
| `src/generate.rs` | synthetic pipelines |
| `src/query.rs`, `src/report.rs`, `src/analysis.rs`, `src/commands.rs`, `src/tools.rs`, `src/rpc.rs` | what the programs show and answer |
| `src/*_laws.rs`, `src/cpu/*_laws.rs`, `src/roundtrip.rs` | laws that span several modules |
| `app/` | the programs: inspector, server, converter, generator |
| `tests/` | tests against the compiled library |

## What is proved

* A trace is read back as it was written: schema, strings, segments, the state
  at any time, the events of any range (`roundtrip.rs`, `writer_laws.rs`).
* A trace that is still being written can be opened and followed.
* Embedding a summary leaves the trace as it is, and every level of a summary
  adds up to the same totals (`embed.rs`, `mipmap.rs`, `tally.rs`).
* A CPU trace is opened with the stages, counters and buffers it was built
  with; an instruction is shown from its fetch to its end; counters show the
  sum of what was added; buffers show what was put into them (`cpu/`).
* A Konata log is converted to a trace that holds what the log says, in its
  order (`konata_laws.rs`).

## What is trusted

The calls into `byteorder`, `lz4_flex`, `flate2` and a few functions of the
standard library stand behind small functions whose contracts are believed:
see `bytes.rs`, `compress.rs`, `konata.rs`, `numerals.rs` and `text.rs`.
