//! Notes: their dates and timestamps, identifiers, bodies, collections and tags.
pub mod body;
pub mod change;
pub mod collection;
pub mod date;
pub mod domain;
pub mod id;
pub mod markdown;
pub mod rows;
pub mod stamp;
pub mod store;

pub use change::{AddOrRemove, Change, ChangeOperation};
pub use collection::{CollectionPath, Tag};
pub use date::{add_days, timestamp_from_system_time, timestamp_now, validate_date, Timestamp};
pub use domain::{NewNote, Note};
pub use id::NoteId;
pub use markdown::{sources_from_body, title_from_body};
pub use stamp::{iso_from_id, note_path, validate_id};
