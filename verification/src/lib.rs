//! Shared shell sessions: commands as cells of a content-addressed tree, with branches, a log, a
//! daemon's rules, and the rules of the clients that attach to it.

pub mod client;
pub mod cockpit;
pub mod cockpit_laws;
pub mod daemon;
pub mod daemon_laws;
pub mod eval;
pub mod eval_laws;
pub mod evaluator;
pub mod forest;
pub mod grammar;
pub mod hash;
pub mod helm;
pub mod history;
pub mod joins;
pub mod keys;
pub mod layout;
pub mod lexing;
pub mod lines;
pub mod lines_laws;
pub mod merkle;
pub mod mux;
pub mod mux_laws;
pub mod names;
pub mod outline;
pub mod parse;
pub mod persist;
pub mod quoting;
pub mod render;
pub mod render_laws;
pub mod screen;
pub mod screen_laws;
pub mod session_laws;
pub mod snapshot;
pub mod splice;
pub mod store;
pub mod store_laws;
pub mod text;
pub mod text_laws;
pub mod tree;
pub mod wire;
