//! A small threaded discussion board core: posts with flat (one-level)
//! threading, bump ordering of top-level posts, pagination over the bumped
//! listing, a stable binary record format, and media classification of
//! attachment filenames. Persistence goes through a sled key-value store.
//!
//! - [`post`]: the post entity, its mathematical view, and classification
//!   of attachment filenames by suffix.
//! - [`codec`]: the versioned binary record format, with a proved
//!   encode/decode round trip and legacy-record defaulting.
//! - [`store`]: the trusted boundary to sled, modeled as a map from key
//!   bytes to value bytes.
//! - [`order`]: stable insertion sorts by timestamp, ascending for
//!   replies and descending for the listing.
//! - [`pagination`]: page windows and previous/next flags.
//! - [`repo`]: creating posts, bumping a reply's parent, the thread
//!   query, and the paginated top-level listing.

pub mod codec;
pub mod order;
pub mod pagination;
pub mod post;
pub mod repo;
pub mod store;
