//! A CHIP-8 virtual machine: memory, keypad, monochrome frame buffer and the
//! interpreter that ties them together.  Every function here is verified
//! against a mathematical model of the machine, except `utils::get_rand_byte`,
//! whose contract is trusted (it hands on a byte from the `rand` crate and
//! promises nothing of its value).  Window handling, file loading and the
//! main loop's input and output live in the application around the library.

pub mod ram;
pub mod keyboard;
pub mod display;
pub mod utils;
pub mod cpu;
