//! Reading, editing and writing the `Host` blocks of an SSH client
//! configuration file, keeping comments, unknown directives and the order
//! of the blocks.
pub mod directive;
pub mod document;
pub mod editor;
pub mod host;
pub mod manager;
pub mod roundtrip;
pub mod status;
pub mod text;

pub use directive::{split_directive, split_lines};
pub use document::{parse_document, serialize_document, validate_unique_hosts, ConfigDocument};
pub use editor::HostEditor;
pub use host::HostEntry;
pub use manager::ManagerApp;
pub use status::{StatusKind, StatusMessage};
