//! What is shown on the screen.

pub mod frame;
pub mod line;
pub mod render_hex;
pub mod render_text;
pub mod rows;
pub mod screen_laws;
pub mod status_bar;
pub mod viewport;
