pub mod monitor;
pub mod net;
pub mod reporters;
pub mod utils;
