//! CUBIC congestion control for TCP.

pub mod accuracy;
pub mod binary64;
pub mod bounds;
pub mod cube_root;
pub mod cubic;
pub mod growth;
pub mod laws;
pub mod loss;
pub mod nearness;
pub mod order;
pub mod plateau;
pub mod reach;
pub mod root;
pub mod rounding;
pub mod shape;
pub mod state;
pub mod time;
pub mod value;
