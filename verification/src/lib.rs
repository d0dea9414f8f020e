//! Deterministic checks behind the STM32 firmware simulator: memory layouts,
//! ELF placement, flash and over-the-air update behaviour, linked-bay routing,
//! emulator scripts and the reports drawn from emulator output.

pub mod architecture;
pub mod arith;
pub mod bay;
pub mod campaign;
pub mod certify;
pub mod debug;
pub mod double;
pub mod elf;
pub mod execution;
pub mod flash;
pub mod layout;
pub mod machine;
pub mod output;
pub mod overlay;
pub mod peripherals;
pub mod pico;
pub mod platform;
pub mod pool;
pub mod probes;
pub mod report;
pub mod roster;
pub mod script;
pub mod security;
pub mod simulator;
pub mod supervise;
pub mod text;
pub mod traffic;
pub mod update;
