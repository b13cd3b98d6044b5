//! Indentation-structure parsing and re-printing for marked code blocks of
//! markdown documents, and the splicing of the re-printed blocks back into
//! their document.

pub mod text;
pub mod semindent;
pub mod align;
pub mod common_indent;
pub mod rewrite;
pub mod scan;
pub mod checklist;
pub mod front_matter;
pub mod cite;
