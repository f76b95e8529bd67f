pub mod algorithms;
pub mod bits;
pub mod bytes;
pub mod curves;
pub mod dpc;
pub mod fields;
pub mod gadgets;
pub mod hexadecimal;
pub mod marlin;
