//! Arena-backed segmented byte streams.
//!
//! A [`Writer`] stores what is written in segments that an arena allocates,
//! and turns into a [`Reader`] without copying them. A reader copies bytes out,
//! lends them from where they lie, or shows them through a [`ReaderView`]. A
//! [`SharedReader`] does so through a shared reference.
//!
//! Each type has a model, a plain mathematical value that its contracts speak
//! of: [`writer::WriterModel`] and [`reader::ReaderModel`]. What holds of
//! streams as a whole is stated in [`laws`], and what the words of the contracts
//! come to for a caller in [`meaning`].

pub mod arena;
pub mod error;
pub mod laws;
pub mod meaning;
pub mod pieces;
pub mod read_buf;
pub mod reader;
pub mod retained;
pub mod segments;
pub mod shared;
pub mod text;
pub mod view;
pub mod writer;

pub use brz_ds::EphemeralBytesArena;
pub use error::{Error, ErrorKind};
pub use reader::Reader;
pub use shared::SharedReader;
pub use view::ReaderView;
pub use writer::Writer;
