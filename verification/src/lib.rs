//! A compressed set of unsigned integers.
//!
//! Values are split into a high half, the key, and a low half. All values
//! that share a key live in one [`Container`], whose [`Store`] is a sorted
//! array while it is sparse and a dense bitmap once it is not. A
//! [`RoaringBitmap`] is the sequence of its containers in key order.
//!
//! Every type has a view, written `@`, which is the mathematical set of the
//! numbers it holds, and every operation is specified over that view. A
//! type also says what a valid state is, `wf`: constructors establish it,
//! operations ask for it and keep it.
//!
//! The modules, from the ground up:
//! - [`util`]: the integer widths, and how a value splits into halves;
//! - [`ops`]: the four operations of set algebra;
//! - [`bits`]: 64-bit words and rows of them;
//! - [`sorted`]: strictly increasing arrays;
//! - [`store`], [`container`], [`bitmap`]: the three layers of the set;
//! - [`iter`]: values handed out one at a time;
//! - [`laws`]: identities that hold of every two sets.

pub mod util;
pub mod ops;
pub mod bits;
pub mod sorted;
pub mod store;
pub mod container;
pub mod bitmap;
pub mod iter;
pub mod laws;

pub use bitmap::RoaringBitmap;
pub use container::{Container, Malformed};
pub use iter::{Iter, MergeIter};
pub use ops::SetOp;
pub use store::Store;
pub use util::{ExtInt, Halveable};
