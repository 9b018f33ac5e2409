# smolvm_hip

HIP remoting for virtual machine guests, verified with Verus: a guest's calls of
the HIP runtime travel over a byte stream to the host, which forwards them to the
runtime library of its GPU. Beside it stands the sparse capture of guest memory
into a tar archive.

Covered are device queries, flat memory management and synchronization. Module
loading, kernel launches and the libraries on top of the runtime are not.

## Layout

`src/` is the verified library. It performs no I/O: sockets, files and the GPU
runtime are functions handed to it, and the contracts say which operations are
asked of them, in which order, and what becomes of every outcome.

| module | what it holds |
| --- | --- |
| `stream` | byte streams, their log, and what it means to read or write |
| `bytes`, `text` | little-endian integers; texts and decimal numbers |
| `proto` | the wire protocol |
| `client` | the guest's side of a call |
| `host` | backends and the dispatch of requests |
| `driver`, `loader` | the runtime library, and opening it; logs of both |
| `gpu` | the backend over the runtime library |
| `rpc` | calls and answers reach the other side unchanged; reads give back writes |
| `dialer` | the way to the host, and its log |
| `shim` | the entry points of the guest's runtime |
| `capture` | copying a bounded part of a stream |
| `extents` | the sparse map of a memory image |
| `header`, `archive` | the image as a sparse file in a tar archive |
| `restore` | the image can be had back from the archive |
| `blockstat` | the statistics line of a block device |

Functions named `law_...` state what holds of the library as a whole.

`tests/` runs the library. `app/` connects it to sockets, files, the GPU runtime
(`SMOLVM_HIP_LIB` names its path) and the C interface (`SMOLVM_HIP_RPC` chooses
the transport).
