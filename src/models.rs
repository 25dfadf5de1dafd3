pub mod category;
pub mod heat;
pub mod heat_advancement;
pub mod heat_state;
pub mod judge;
pub mod lycra_color;
pub mod participation;
pub mod permission;
pub mod preliminary_result;
pub mod result;
pub mod score;
pub mod surfer;
pub mod user;
