//! A read-only, verified core for streaming visible assets out of a photo
//! library database: timestamp decoding, row-to-record mapping, query text
//! construction, and memoized lazy attribute loading.

mod extra;
mod kind;
mod query;
mod record;
mod timestamp;

pub use extra::{interpret_extra_row, ExtraCell, LookupError, PhotoExtra};
pub use kind::PhotoKind;
pub use query::{database_path, extra_sql, visible_sql, QueryOptions};
pub use record::{map_row, map_rows, ColumnValue, MappingError, Photo, TimestampField};
pub use timestamp::{decode, encode, DecodeError, Instant, EPOCH_OFFSET_SECS};
