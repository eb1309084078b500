//! The core of a development-time HTTP stub server: which paths may touch
//! the disk, what the configuration files say, which file answers a request,
//! and what the request log holds.
//!
//! The library reads no file and opens no socket. Its functions take the text
//! of a file or the body of a form and return what follows from it, so that
//! the program around them only has to fetch and to store.
//!
//! - [`path_guard`]: safe names and safe relative paths.
//! - [`config`]: the endpoints, the switch of the log and its ignore list.
//! - [`routes`] and [`route_laws`]: the route table and what holds of it.
//! - [`updates`]: the changes that a posted form asks for.
//! - [`serve`]: the answer to a request, and where the files lie.
//! - [`form`]: form bodies, percent-encoding and HTML escaping.
//! - [`listing`]: sorted listings of files and folders.
//! - [`log_hub`]: the bounded history of the log and its broadcast channel.
//! - [`text`]: strings as sequences of characters.

pub mod config;
pub mod form;
pub mod listing;
pub mod log_hub;
pub mod path_guard;
pub mod route_laws;
pub mod routes;
pub mod serve;
pub mod text;
pub mod updates;
