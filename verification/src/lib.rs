pub mod handler;
pub mod messages;
pub mod unique_id;
