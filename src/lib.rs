//! The content engine of a static-site generator: an arena of filesystem
//! entries, an append-only list with a movable display order, metadata over
//! a dynamic value type, the classification of content into collections,
//! and the stages that rewrite a document on its way to HTML.

pub mod text;
pub mod url;
pub mod num;
pub mod slug;
pub mod fstree;
pub mod list;
pub mod value;
pub mod taxonomy;
pub mod admonition;
pub mod markdown;
pub mod util;
pub mod render;
pub mod alias;
pub mod frontmatter;
pub mod indexer;
pub mod toc;
pub mod code_filter;
pub mod page;
