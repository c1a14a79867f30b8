# Phantora

A simulator of GPU clusters, verified with Verus.

Traced training processes report the CUDA and NCCL calls and the PyTorch operators that they
run. The library decides what becomes of each of them: the events on CUDA streams, the
transfers between machines, the clocks of the processes, and the answers to the threads that
wait. Kernel times are measured on a GPU, or recorded once and replayed without one.

- `src/` is the library.
  - `simulator`: streams, clocks, communicators, collectives and point-to-point transfers, and
    what holds of the event graph they build.
  - `cuda_estimate`, `torch_estimate`: known times, and what has to be measured.
  - `kernel`, `tensor_cache`: how an operator is measured, and which tensors are kept.
  - `perf_db`, `recording`: recorded times as CSV tables, replaying and recording them.
  - `args`, `message`, `wire`: settings, incoming messages, outgoing bytes.
  - `simulator::trace`: how collectives are matched, as JSON. The program logs it where the
    environment variable `PHANTORA_NCCL_MATCH_TRACE` is `1`, `true`, `yes` or `on`.
- `tests/` runs the library on concrete cases.
- `app/` is the program around it: the command line, sockets, files, and measurements on the
  GPU. It belongs to a workspace with the crates `cuda_call`, `torch_call`, `netsim`,
  `event_queue` and `nccl_ops`.
