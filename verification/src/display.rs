//! What the screen layer computes before anything is drawn.

pub mod keys;
pub mod layout;
pub mod outline;
pub mod route;
pub mod ui_state;
pub mod window;
