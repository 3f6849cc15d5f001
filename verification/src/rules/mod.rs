//! Game rules: win detection, capture-breakable fives, and the forbidden
//! double-three.

pub mod capture_breaking;
pub mod double_three;
pub mod win_detection;
