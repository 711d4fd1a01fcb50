pub mod text;
pub mod tags;
pub mod matching;
pub mod header;
pub mod codimd;
pub mod download;
pub mod line;
pub mod html;
pub mod balance;
