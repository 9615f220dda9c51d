pub mod bms;
