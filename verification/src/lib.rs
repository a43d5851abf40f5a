//! Verified core of the Sudachi dictionary tools.

pub mod adjust;
pub mod bytes;
pub mod convert;
pub mod csv;
pub mod export;
pub mod grammar;
pub mod kana;
pub mod kkc;
pub mod lines;
pub mod marisa;
pub mod matrix;
pub mod mode;
pub mod options;
pub mod order;
pub mod params;
pub mod prefix;
pub mod reading;
pub mod table;
pub mod text;
pub mod word_info;
pub mod yada;
