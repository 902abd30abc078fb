//! The verified core of `vrun`, a test runner for competitive programming:
//! it saves test cases received from the browser, finds the test cases of
//! a problem, decides when a solution has to be compiled again, and judges
//! a program's output against the expected one.
pub mod cache;
pub mod discovery;
pub mod listen;
pub mod name;
pub mod number;
pub mod path;
pub mod report;
pub mod text;
