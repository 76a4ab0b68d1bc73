//! What holds of the library as a whole, proved.

pub mod admitting;
pub mod allowing;
pub mod canonical;
pub mod checking;
pub mod clockwork;
pub mod consuming;
pub mod contents;
pub mod covering;
pub mod escaping;
pub mod naming;
pub mod ordering;
pub mod paths;
pub mod pem;
pub mod proving;
pub mod reading;
pub mod removing;
pub mod rendering;
pub mod round_trip;
pub mod signing;
pub mod spelling;
pub mod time;
pub mod tree;
pub mod wording;
