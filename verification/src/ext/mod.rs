pub mod hashset;
pub mod vec;
pub mod iterator;
