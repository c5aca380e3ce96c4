pub mod bindings;
pub mod half_line;
pub mod layout;
pub mod lines;
pub mod rows;
pub mod side_diff;
