# eventcv_core

Event-camera data: streams of `(x, y, t, polarity)`, the files they are kept in, the frames that are
made of them, and the wires they travel on. The library is written in Verus: its functions carry
contracts, and the verifier has proved them. What the machine or another crate decides is said to be
so (see below).

## Layout

| Path | What is there |
|---|---|
| `src/stream.rs`, `src/transform.rs` | event streams, their builder, and transforms of them |
| `src/io/` | formats: text, NumPy archives, HDF5, ROS 1 bags, Prophesee DAT and RAW (EVT2, EVT3), AEDAT 2 and 4, E2VID |
| `src/representation/` | binary and count images, polarity, time surfaces, voxel grids, Tencode, MCTS, masks, point sets |
| `src/net.rs`, `src/ros2.rs` | datagrams and ROS 2 packets |
| `src/track.rs`, `src/mask.rs`, `src/simulate.rs`, `src/model.rs` | tracking, regions, simulation, networks |
| `tests/` | tests of the library |
| `app/` | files, sockets and runtimes around the library, and arithmetic with fractions |

## Reading the contracts

Contracts speak of streams by `events()`, a sequence of raw events, with `width()`, `height()` and
`scale()`; of files by the sequence of their bytes; of texts by sequences of characters. Numbers with
a fraction are held by their bit patterns: what a contract says of them is about those patterns.

A format that is read and written has a law that what was written is read back, such as
`written_is_read` (RAW), `finished_reads_back` (AEDAT 4), `stream_reads_back` (NumPy archives),
`text_reads_back` and `packet_round_trip` (ROS 2). A recording that is sliced has laws that a slice
is a part of the whole recording, such as `index_slice_exact` and `time_slice_exact`
(RAW, AEDAT 2) and `text_index_slice` and `text_time_slice`.

## What is trusted

The lz4, zstd, rayon, npyz and zip crates, and a few functions of the standard library, are called
through functions whose contracts are not proved. Each has a comment that names the function it
calls and says what is claimed of it. Which byte order the machine has, `host_order`, is left open.
