//! Feed ingestion core: normalizing raw feed entries into news items,
//! deriving image cache paths, merging fresh items into a durable,
//! deduplicated, date-ordered store, and the store's file format.
//!
//! - `item`: the item model and normalization of one entry.
//! - `pipeline`: per-endpoint failure isolation, batch normalization, image
//!   download planning, and one fetch-merge cycle.
//! - `store`: identity, date order and the merge, with its laws.
//! - `codec`: the store file format, with its round trip.
//! - `reading`: which items a reader has read, and filtering by that.

pub mod item;
pub mod store;
pub mod pipeline;
pub mod codec;
pub mod reading;
