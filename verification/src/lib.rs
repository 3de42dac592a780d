//! A local index of a filesystem: what is there, what happened to it, and what
//! is known about its contents.
pub mod api;
pub mod archive;
pub mod control;
pub mod embeddings;
pub mod enrich;
pub mod enrich_worker;
pub mod enrichment;
pub mod events;
pub mod extract;
pub mod extract_worker;
pub mod facets;
pub mod filename;
pub mod frames;
pub mod fspath;
pub mod history;
pub mod image;
pub mod load;
pub mod log_history;
pub mod logging;
pub mod lookup;
pub mod metadata;
pub mod migrations;
pub mod observe;
pub mod office;
pub mod office_text;
pub mod paths;
pub mod pdf;
pub mod promises;
pub mod queue;
pub mod ranked;
pub mod record;
pub mod rescan;
pub mod resume;
pub mod scan;
pub mod search;
pub mod sniff;
pub mod store;
pub mod text;
pub mod timeline;
pub mod touch;
pub mod watch;
pub mod watch_control;
pub mod xml;
