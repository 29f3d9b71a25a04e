//! Cycle-safe traversal of term graphs stored in a WAM-style heap.
//!
//! A term is a graph of tagged cells spread over a heap and a machine
//! stack; it may share subterms and contain cycles. The pre-order iterator
//! walks it with an explicit work list and no side table: it sets a `mark`
//! bit on each cell it enters and a `forwarding` bit on a reference that
//! leads back to a marked cell, which it then yields as a cycle sentinel.
//! The post-order adapter reorders any such stream so that each compound
//! cell follows its arguments.
//!
//! The iterator owns the heap and the machine stack while it runs, so no
//! one can observe the transient bits. `finish` clears every bit still set,
//! removes the root cell appended at construction and hands both containers
//! back exactly as they were given.

pub mod cell;
pub mod loc;
pub mod heap;
pub mod preorder;
pub mod postorder;
pub mod walk;

pub use crate::cell::{CellValue, HeapCellValue};
pub use crate::loc::{HeapOrStackTag, IterStackLoc, IterStackLocTag, Ref};
pub use crate::postorder::{stackful_post_order_iter, LeftistPostOrderHeapIter, PostOrderIterator};
pub use crate::preorder::{stackful_preorder_iter, FocusedHeapIter, StackfulPreOrderHeapIter};
