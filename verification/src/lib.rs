//! A functional reactive stream library: synchronous streams whose listeners are
//! pegged to subscriptions, with memory of the last event and imitators for
//! cyclic streams.
pub mod comb;
pub mod imit;
pub mod inner;
pub mod peg;
pub mod sub;

pub use comb::{Combine, CombineView, Combined};
pub use imit::{Imitator, Stream};
pub use inner::{
    Inner, InnerView, Listener, MemoryMode, Network, NetworkView, Replay, SafeInner,
};
pub use peg::{Peg, PegTable, PegTableView, Pegged, Slot};
pub use sub::{Listeners, Subscription};
