//! An in-memory transaction pool for a blockchain node.
//!
//! The pool sits between the peer-to-peer gossip network and the block-import
//! pipeline and maintains the authoritative set of not-yet-included, locally
//! valid transactions. The modules follow the component split of the design:
//! a stateless [`validator`], the authoritative [`pool`] with its conflict and
//! capacity policy, a bounded publish/subscribe [`notifier`], the gossip
//! [`relay`], the block-import [`reactor`], and the [`service`] that wires
//! them together. [`laws`] states and proves the pool-wide guarantees.

pub mod config;
pub mod types;
pub mod validator;
pub mod pool;
pub mod notifier;
pub mod reactor;
pub mod relay;
pub mod service;
pub mod laws;
