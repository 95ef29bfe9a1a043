//! Software transactional memory after the Transactional Locking II scheme:
//! a striped byte memory with versioned locks, read and write transactions,
//! and retrying transaction drivers.

pub mod tl2;

pub use tl2::{
    valid_stripe_addr, Memory, ReadTrans, STMResult, WriteTrans, LOCK_BIT, MEM_SIZE, NUM_STRIPES, STM,
    STRIPE_SIZE,
};
