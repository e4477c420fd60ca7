//! Core of a small microkernel with userspace drivers: the object/table IPC
//! layer, the address-space and memory-object manager, the thread scheduler
//! with its ticket/waker machinery, and the shared-memory stream-table buffer
//! protocol. Hardware access (MMU loads, `iretq`, UART registers, the
//! `syscall` instruction) lives outside this crate; everything here works on
//! plain values and is verified.

pub mod address_space;
pub mod errors;
pub mod jobs;
pub mod object;
pub mod page;
pub mod process;
pub mod stream;
pub mod syscall;
pub mod sync;
pub mod tables;
pub mod thread;
pub mod ticket;
