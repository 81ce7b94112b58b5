pub mod components;
pub mod boundary;
pub mod cluster;
pub mod community;
pub mod shortest_path;
pub mod structural_holes;
pub mod centrality;
pub mod square;
pub mod triangle_pairs;
