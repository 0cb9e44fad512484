//! Label generation from a tree of label groups: a small template language
//! (`data`), the resolver that names, colours and describes every label for
//! one repository (`labels`), and the plan that brings a repository's existing
//! labels in line with them (`sync`).

pub mod data;
pub mod labels;
pub mod sync;
