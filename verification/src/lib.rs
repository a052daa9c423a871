//! A static-site builder: content discovery, collection aggregation,
//! template state construction and render planning, with the decisions of the
//! watch loop. Everything here is a function from plain values to plain values;
//! reading, evaluating and writing are left to the caller.

pub mod app;
pub mod assets;
pub mod assoc;
pub mod config;
pub mod io;
pub mod md;
pub mod paths;
pub mod template;
pub mod text;
pub mod tinylang;
pub mod watch;
