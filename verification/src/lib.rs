//! Library and viewer logic of the Taureria comic-archive reader: the
//! catalogue of libraries, the per-library content metadata, the rules that
//! pick archives, cover images and viewer pages, and the strings the
//! application derives from them.

mod outside;

pub mod archive;
pub mod keyed;
pub mod laws;
pub mod library;
pub mod paths;
pub mod text;
pub mod viewer;
