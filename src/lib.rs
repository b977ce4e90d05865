pub mod words;
pub mod perfect;
pub mod lyndon;
pub mod lyndon_order;
pub mod enumerate;
pub mod math;
pub mod count;
