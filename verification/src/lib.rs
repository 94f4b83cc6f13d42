//! Tools for reading and writing sender-policy records.
//!
//! A record string such as `v=spf1 a mx ~all` can be parsed into an
//! [`spf::Spf`] value, inspected through typed accessors, and rendered
//! back to a canonical text form; a record can also be built
//! programmatically from [`mechanism::Mechanism`] values without ever
//! having a source string.
//!
//! Parsing, classification and rendering are specified and verified:
//! [`spf::spec_parse`] states exactly which strings are accepted and what
//! record each one yields, [`spf::record_text`] states the canonical
//! rendering, and [`spf::lemma_round_trip`] proves that rendering a
//! parsed record and parsing it again preserves the version tag and
//! every mechanism group.

pub mod helpers;
pub mod mechanism;
pub mod spf;
