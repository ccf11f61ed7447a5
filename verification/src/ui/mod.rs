pub mod frames;
pub mod instruments;
pub mod message_box;
pub mod views;
