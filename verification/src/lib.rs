//! HIP remoting for virtual machine guests: the wire protocol, the guest
//! client, the host dispatcher and its GPU backend, the entry points of the
//! guest's drop-in runtime library, and the sparse capture of guest memory.
//!
//! The library performs no I/O itself. Whatever touches a socket, a file or
//! the GPU runtime is handed in as a function (see [`stream`], [`driver`],
//! [`loader`] and [`dialer`]); the contracts say exactly which operations are
//! asked of it, in which order, and what becomes of every outcome.
//!
//! What holds of several functions together is stated as laws: of single calls
//! in [`calls`], of the bytes on the wire in [`wire`], of the runtime behind the
//! backend in [`forwarding`], of whole sessions in [`rpc`], and of the archive in
//! [`restore`] and [`unpack`].

pub mod archive;
pub mod blockstat;
pub mod bytes;
pub mod calls;
pub mod capture;
pub mod client;
pub mod dialer;
pub mod driver;
pub mod extents;
pub mod forwarding;
pub mod gpu;
pub mod header;
pub mod host;
pub mod loader;
pub mod proto;
pub mod restore;
pub mod rpc;
pub mod shim;
pub mod stream;
pub mod text;
pub mod unpack;
pub mod wire;
