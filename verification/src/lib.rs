//! Flattening of sparse, heterogeneously-keyed numeric records into a dense
//! rectangular matrix: the column set is the lexicographically ordered union
//! of all record keys, missing entries are filled with a default value, and
//! each record becomes one fixed-width row in input order.

pub mod matrix;
pub mod order;
pub mod record;

pub use matrix::convert_to_generic_map;
pub use matrix::convert_to_matrix_format;
pub use matrix::generic_map;
pub use matrix::total_num_of_cols;
pub use matrix::total_num_rows;
pub use record::Record;
