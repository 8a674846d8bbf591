//! Recent projects, frecency bookkeeping and definition/reference
//! classification of search matches, with their contracts proved by Verus.

pub mod text;
pub mod frecent;
pub mod projects;
pub mod rg;
pub mod definition;
pub mod provider;
