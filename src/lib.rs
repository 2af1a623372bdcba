//! Decoding of 64-bit little-endian Mach-O object files and of the DWARF v4
//! debugging data carried in their `__DWARF` segment.
//!
//! Every decoder works on a borrowed byte image, checks every access against
//! its bounds, and returns either an owned value or an
//! [`error::ParseError`]; none panics. Each states, over spec functions of
//! the input bytes, exactly which value or which failure it returns.
//!
//! Of `__debug_info`, the first compile unit is decoded: its header and the
//! DIE tree that follows it.
pub mod dwarf;
pub mod error;
pub mod le;
pub mod leb;
pub mod line;
pub mod macho;
