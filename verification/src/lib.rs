//! Screen stripe generator: the verified model behind the overlay, the region
//! selector, the control panel and the startup disclaimer.

pub mod win;
pub mod model;
pub mod text;
pub mod layer;
pub mod selector;
pub mod app;
pub mod disclaimer;
pub mod cli;
