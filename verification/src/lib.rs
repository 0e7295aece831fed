//! Interactive selection and deployment of stack description files: a
//! verified core for scanning a directory tree for `yaml` files, numbering
//! them for the operator, resolving a typed selection against that
//! numbering, and building the external `docker stack deploy` invocation.

pub mod ansi;
pub mod command;
pub mod laws;
pub mod order;
pub mod present;
pub mod scan;
pub mod select;
pub mod text;
