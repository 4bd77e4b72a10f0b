pub mod bluetooth;
pub mod utilities;
