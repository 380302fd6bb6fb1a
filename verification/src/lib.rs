//! File transfers between the panes of a terminal multiplexer and the outer terminal, in Kitty's
//! OSC 5113 protocol, and what the agents in the panes add up to.
//!
//! A pane and the outer terminal each emit a stream of bytes, so a command may be split anywhere.
//! `scanner` finds the commands in what a pane emits, `extractor` in what the outer terminal sends,
//! and `frame` reads a single one. No file data is decoded and no file is touched: complete, bounded
//! commands are handed on, by `server` to the client that owns the outer terminal, and by `client`
//! back to the pane. `control` holds the messages between the two. `aggregate` is about agents.
//!
//! The modules whose names end in `_laws` hold what is proved of several calls together.
pub mod aggregate;
pub mod attention_laws;
pub mod bytes;
pub mod client;
pub mod client_laws;
pub mod client_step_laws;
pub mod codec;
pub mod control;
pub mod decimal;
pub mod endpoint;
pub mod extractor;
pub mod extractor_laws;
pub mod frame;
pub mod frame_laws;
pub mod input_laws;
pub mod reading_laws;
pub mod relay_laws;
pub mod scanner;
pub mod scanner_laws;
pub mod server;
pub mod server_laws;
pub mod server_step_laws;
pub mod string_laws;
pub mod table;
pub mod text_laws;
pub mod upkeep;
