//! Removal of ANSI/VT100 escape sequences from text.
//!
//! A single-pass scanner walks a string, recognizes CSI, OSC, DCS, SOS, PM
//! and APC escape sequences (with both the BEL and the ESC-backslash String
//! Terminator endings), and yields the plain-text runs between them, one at a
//! time.  Malformed or truncated sequences at the end of the input are
//! silently discarded.

pub mod laws;
pub mod model;
pub mod scanner;

pub use scanner::strip;
pub use scanner::AnsiStripper;
pub use scanner::NonEsc;

pub use model::Mode;
pub use model::BEL;
pub use model::ESC;
pub use model::ST_CHAR;
