//! Interactive tree browser: the directory tree, its flattened visible
//! rows, and how keys move the selection and open or close directories.

pub mod app;
pub mod tree;
