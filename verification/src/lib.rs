//! Seating-chart generation: people are placed into seating zones so that
//! nobody sits in the same restricted zone twice in a row, nobody sits in
//! the Zone 2 area three times in a row, and every zone is filled exactly
//! to its capacity.

pub mod chart;
pub mod config;
pub mod excel_io;
pub mod generator;
pub mod gui;
pub mod random;
pub mod text;
pub mod zone;
