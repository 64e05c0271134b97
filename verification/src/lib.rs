//! A dynamically typed value model whose containers live in an explicit heap.
//!
//! A [`Heap`] owns the storage of every container. Values of the three
//! container kinds ([`List`], [`Table`] and [`String`]) are handles into it:
//! an aliasing copy (`refcopy`) is a second handle on the same storage and
//! raises its counter, a deep copy (`clone`) allocates fresh storage, and
//! `refdrop` lowers the counter and releases the storage when it reaches zero.
//! Nothing is released behind the caller's back: a handle that is forgotten
//! without `refdrop` leaves its count as it is, and a container that holds a
//! handle on itself is never released.
//!
//! A float is carried as its bit pattern, which is how `tostr` writes it;
//! [`Data::pieces`] renders a value with its floats set apart, for a caller
//! that writes them in decimal.
//!
//! Every operation is stated over the mathematical view of the heap,
//! [`HeapView`], and verified against it. What the operations guarantee when
//! they are taken together is proved in [`laws`].
pub mod copying;
pub mod counting;
pub mod data;
pub mod error;
pub mod heap;
pub mod laws;
pub mod list;
pub mod map;
pub mod pieces;
pub mod render;
pub mod string;
pub mod traits;
pub mod util;

pub use data::Data;
pub use data::DataTypes;
pub use error::Error;
pub use heap::Heap;
pub use heap::HeapView;
pub use list::List;
pub use list::ListView;
pub use map::Table;
pub use pieces::Piece;
pub use string::String;
