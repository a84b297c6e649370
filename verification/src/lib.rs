//! The core of the MVTec license fetcher: product detection from
//! installation directory names, version ordering, license selection,
//! backup rotation planning and the decisions of a license check run.

pub mod ordering;
pub mod text;
pub mod paths;
pub mod version;
pub mod detect;
pub mod github;
pub mod license;
pub mod install;
pub mod service;
pub mod check;
