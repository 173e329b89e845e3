//! Small text tools: case conversion, columns, counting, wrapping, tailing
//! a file, copying a pipe to files, and printing lines or characters from
//! either end of a text.
pub mod case;
pub mod col;
pub mod count;
pub mod cut;
pub mod seek;
pub mod shrink;
pub mod split;
pub mod text;
pub mod tr;
