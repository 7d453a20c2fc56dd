//! Number conversion in both directions.
pub mod atof;
pub mod atoi;
pub mod dtoa;
pub mod itoa;
pub mod pow10;
pub mod table;
pub mod zmij;
