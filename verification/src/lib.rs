//! A user-space heap allocator modelled over an explicit data segment.
//!
//! The allocator manages a singly-growing contiguous region of memory,
//! partitioned into a doubly-linked list of header-prefixed blocks. It
//! offers the classical three-operation surface: allocate, free, resize
//! (`mm_malloc`, `mm_free`, `mm_realloc`), with first-fit search, block
//! splitting, eager coalescing of free neighbours, and a magic-word
//! integrity check that turns foreign or stale pointers into no-ops.
//!
//! The segment is held as an owned byte vector whose length is the current
//! break; addresses are offsets into it, and the address `0` plays the role
//! of the null pointer (every payload lies behind a header, so no payload
//! ever has address `0`). The growth of the segment models the operating
//! system's break primitive; a configurable break limit models the
//! primitive's refusal to grow further.

pub mod block;
pub mod heap;
pub mod laws;
pub mod model;
