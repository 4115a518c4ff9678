//! Discovery of AGENTS files under a working directory, and the section that
//! tells an agent which of them to read and when.

pub mod agents_md;
pub mod discovery;
pub mod discovery_laws;
pub mod json;
pub mod listing_laws;
pub mod order;
pub mod path;
pub mod path_laws;
pub mod reply_laws;
pub mod request;
pub mod request_laws;
pub mod section;
pub mod section_laws;
pub mod set_text;
pub mod sort;
pub mod summaries;
pub mod text;
pub mod text_laws;
pub mod tree;
pub mod validation;
