//! A verified parser and validator for `sysctl.conf`-style configuration
//! text: a line parser producing a flat key/value table, a builder turning
//! dot-separated keys into a nested tree, and a schema validator that checks
//! every declared field and reports all violations at once.

pub mod parser;
pub mod schema;
pub mod text;
pub mod tree;

pub use parser::{SysctlConfig, SysctlError};
pub use schema::{Schema, SchemaError, SchemaField, SchemaType};
pub use tree::TreeNode;
