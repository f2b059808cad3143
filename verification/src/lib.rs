//! Decoding of saved profiling data: the printable envelope around a raw
//! DEFLATE stream, the self-describing binary object format inside it, the
//! textual table syntax that carries the recordings, and the typed recording
//! schema that both feed.

pub mod deflate;
pub mod float;
pub mod libserialize;
pub mod parser;
pub mod savedvariables;
pub mod schema;
pub mod types;
pub mod value;
pub mod written;
