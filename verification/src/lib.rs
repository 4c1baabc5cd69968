//! Verified core of an AsciiDoc parser: token model, include-directive
//! processing, tag selection, table specs, attribute lists and more.

pub mod attr_def;
pub mod attr_entry;
pub mod attr_list;
pub mod attr_refs;
pub mod attrs;
pub mod author;
pub mod blocks;
pub mod csv_terms;
pub mod dsv;
pub mod bytes;
pub mod encoding;
pub mod ifeval;
pub mod include_directive;
pub mod index_term;
pub mod includes;
pub mod line;
pub mod laws;
pub mod lines;
pub mod parser;
pub mod psv;
pub mod resolver;
pub mod revision;
pub mod rx;
pub mod section_id;
pub mod skip_endif;
pub mod source_file;
pub mod structure;
pub mod subs;
pub mod table;
pub mod table_rows;
pub mod table_spec;
pub mod tags;
pub mod text;
pub mod text_order;
pub mod time;
pub mod toc;
pub mod token;
