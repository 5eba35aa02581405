//! An interactive note-taking core: a command grammar, an editor session
//! state machine, a tag-frontmatter note codec, and a cached statistics
//! engine, all with verified contracts.

pub mod commands;
pub mod editor;
pub mod notefile;
pub mod stats;
pub mod text;
