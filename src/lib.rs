pub mod card;
pub mod codec;
pub mod error;
pub mod rules;
pub mod session;
