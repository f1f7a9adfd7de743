pub mod adder_law;
pub mod alu_law;
pub mod assemble;
pub mod bank_law;
pub mod bcd_law;
pub mod blueprint;
pub mod color;
pub mod counter_law;
pub mod decoder_law;
pub mod display_law;
pub mod emulator;
pub mod graph;
pub mod laws;
pub mod logic;
pub mod logic_gate;
pub mod logic_unit;
pub mod mux_law;
pub mod order;
pub mod pos;
pub mod register_law;
pub mod register8_law;
pub mod rom_law;
pub mod select_law;
pub mod tree;
pub mod utils;
pub mod table_parser;
