//! Flattens a tree of source files into one compilation unit by replacing
//! each out-of-line module declaration (`mod x;`) with the expanded contents
//! of the file it resolves to, and sizes the result.
pub mod text;
pub mod splice;
pub mod indent;
pub mod syntax;
pub mod paths;
pub mod expand;
pub mod sizes;
pub mod toc;
