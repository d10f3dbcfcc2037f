//! The logic behind an editor-hosted terminal: the git gutter of its code editor,
//! key encoding, Markdown and transcript models, popup and panel state, and the
//! texts exchanged with the host.
pub mod blob;
pub mod diff;
pub mod fetch;
pub mod gutter;
pub mod keys;
pub mod markdown;
pub mod panel;
pub mod patch;
pub mod popup;
pub mod pty;
pub mod selection;
pub mod session;
pub mod sort;
pub mod text;
pub mod transcript;
