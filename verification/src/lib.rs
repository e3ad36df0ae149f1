//! The middle of a compiler from the code of a stack machine to an
//! intermediate representation in static single assignment form.
//!
//! [`translate`] turns the stack code of a function into a body of basic
//! blocks, with the help of the operand stack in [`stack`] and of [`ssa`],
//! which finds the definitions of local variables and gives blocks their
//! parameters. [`ir`] holds the body itself. [`module`] gathers functions,
//! global variables and data segments into modules, and [`program`] links
//! modules into one program: it lays the global variables out on the heap
//! ([`globals`]), keeps the data segments in address order ([`segments`]) and
//! settles the entrypoint. [`config`] holds the options of the translation.
//! [`target`] decides, step by step, how the compiler target for
//! WebAssembly gets installed.

pub mod config;
pub mod declarations;
pub mod function;
pub mod globals;
pub mod ident;
pub mod ir;
pub mod module;
pub mod program;
pub mod segments;
pub mod ssa;
pub mod stack;
pub mod target;
pub mod translate;
pub mod types;
