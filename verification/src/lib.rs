//! Codec for the HTTP `Link` header: a comma-separated list of URI references,
//! each followed by optional `; name=value` parameters.

pub mod error;
pub mod item;
pub mod link;
pub mod params;
pub mod round_trip;
pub mod text;
pub mod uri;

pub use error::InvalidLink;
pub use item::LinkItem;
pub use link::Link;
pub use uri::UriRef;
