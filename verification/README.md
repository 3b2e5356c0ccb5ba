# ContextStore

The core of a distributed key/value store for LLM context blocks, written in Rust and proved
with Verus. The functions under `src/` state what they return in `requires` and `ensures`
clauses (the clock is the exception: nothing is promised of its value), and the laws that span
functions are public proof functions beside them.

## Layout

| Part | What it holds |
|---|---|
| `src/key`, `src/metadata`, `src/pb`, `src/config`, `src/error` | keys, records, messages, configuration, errors |
| `src/placement`, `src/stripes`, `src/streaming`, `src/distributed`, `src/readback` | where stripes go, how objects are cut, sent and stored over several nodes, and that they are read back as they were written |
| `src/handlers`, `src/put_flow`, `src/get_flow`, `src/convert` | the operations of the service, as decisions and state machines |
| `src/memory_tier`, `src/tier_history`, `src/recency` | the memory cache, and what holds of it over a history of calls |
| `src/io_plan`, `src/io_rounds`, `src/io_route`, `src/aligned_buffer` | disk I/O: pieces, rounds of submissions, devices, buffers |
| `src/wire`, `src/adapters`, `src/regions`, `src/region_client`, `src/client`, `src/rdma_bench`, `src/store_bench` | the RDMA protocol, adapters, registered memory, the client and the benchmarks |
| `src/gds`, `src/gds_client` | GPUDirect Storage |
| `src/metrics`, `src/startup`, `src/inspect` | metrics, start-up options, inspection of records |
| `src/text`, `src/paths`, `src/order`, `src/hash`, `src/payload` | text, paths, sorting, and what is taken over from other crates |
| `tests/` | tests of the library |
| `app/` | the program around it: the service over its tiers, files, rings, sockets, Redis, Prometheus, RDMA and GPU libraries |

The functions of other crates that the proofs rest on are declared, with what is believed of
them, in `payload`, `hash`, `recency`, `gds_client`, `convert`, `inspect` and `io_route`.
