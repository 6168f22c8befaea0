//! Parses plain-text planning files (headings, state keywords, tags,
//! scheduling stamps, logbooks) and picks, for a given instant, the most
//! relevant task and event.
pub mod text;
pub mod stamp;
pub mod entry;
pub mod scan;
pub mod agenda;
