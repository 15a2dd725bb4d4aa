//! A hierarchical bookmark store: named folders holding name -> value
//! entries, together with a textual codec that serializes a store to a
//! line-based format and parses that format back.

pub mod codec;
pub mod store;
