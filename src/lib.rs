//! Tracking of a paginated patch-feed archive: deduplication of mailed
//! patches into one representative per series, mailbox splitting, and
//! reply-template generation.

pub mod lists;
pub mod mbox;
pub mod patch;
pub mod reply;
pub mod scrape;
pub mod session;
pub mod text;

pub use lists::{
    collect_available_lists, process_available_lists, sort_available_lists, ListsFetch, ListsStep,
    MailingList,
};
pub use mbox::{extract_mbox_name_from_message_id, split_cover, split_patchset};
pub use patch::Patch;
pub use reply::{
    extract_git_reply_command, generate_patch_reply_template, patch_message_id,
    reply_file_name, reply_with_reviewed_by,
};
pub use session::{FeedStep, LoreSession, LoreSessionError, LORE_PAGE_SIZE};
