//! A non-blocking buffered line reader.
//!
//! [`reader::LineReader`] owns a byte stream whose reads may report that no
//! data is available yet. The caller makes one read attempt on the stream and
//! hands its outcome to `apply_read`, which appends what arrived to an
//! internal buffer and splits lines off its front, scanning each byte for a
//! separator once. A line that is not valid UTF-8 stops the split: it is
//! dropped and reported, and the bytes after it wait for the next data. A
//! read that finds no data changes nothing; at the end of the stream the
//! whole buffer, if not empty, becomes the last line. `lines_get` hands the
//! lines out.
//!
//! - [`lines`]: how a byte stream splits into lines, as spec functions, with
//!   the lemmas about it.
//! - [`model`]: the state of a reader seen from outside, how reads and drains
//!   change it, and the laws that hold of it.
//! - [`reader`]: the reader itself.
//! - [`deps`]: the calls into std and memchr that the reader relies on.

pub mod lines;
pub mod deps;
pub mod model;
pub mod reader;
