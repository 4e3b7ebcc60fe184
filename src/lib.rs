//! In-memory index of the markdown documents under a root directory, kept in
//! step with the filesystem, and the rules that turn raw filesystem events
//! into change notifications for connected clients.
pub mod classify;
pub mod documents;
pub mod events;
pub mod index;
pub mod messages;
pub mod order;
pub mod paths;
pub mod scan;
pub mod serve;
pub mod text;

pub use classify::detect_file_change;
pub use documents::TrackedFile;
pub use events::{
    handle_file_event, ActionKind, DebounceScheduler, EventAction, EventKind, RenameMode,
    RESCAN_DELAY_MS,
};
pub use index::{FileContents, FileIndex, FileRead, IndexError, MarkdownAction, ScanEntry};
pub use messages::{change_message, ApiFile, ClientMessage, FileChangeType, ServerMessage};
pub use paths::{
    calculate_relative_path, guess_image_content_type, is_image_file, is_markdown_file,
    is_within_base, PathError,
};
pub use scan::scan_markdown_files;
pub use serve::{static_access, StaticAccess};
