use vstd::prelude::*;

pub mod text;
pub mod glob;
pub mod cherry_pick;
pub mod message;
pub mod encoded;
pub mod commit;
pub mod ident;
pub mod date;
pub mod clone;
pub mod clean;
pub mod renames;
pub mod summary;
pub mod gitdir;
