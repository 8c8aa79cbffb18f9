//! A parser and canonical writer for a small, indentation-based YAML dialect
//! with anchors, merge keys, block literals and preserved comments.

mod model;
mod text;
mod mapping;
mod lines;
mod error;
mod writer;
mod anchors;
mod machine;
mod document;
mod laws;
mod semantics;

pub use model::{CommentLine, YamlNode, YamlValue, copy_value};
pub use mapping::{map_insert, absorb_entries};
pub use error::{ParseError, DumpError};
pub use writer::{dump_naay, is_well_formed};
pub use document::{parse_naay, check_version, is_date_version, REQUIRED_VERSION};
pub use anchors::AnchorTable;
pub use laws::{law_canonical_key_order, law_merge_precedence_and_fill, law_explicit_entry_wins, law_alias_identity,
    law_anchor_binds_block, law_version_gate, law_version_gate_refuses, law_comments_attach_to_entry,
    law_block_literal_reads_back, law_block_literal_layout};
