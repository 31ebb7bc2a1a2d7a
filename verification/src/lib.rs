//! A back end for a language of call-by-push-value: passes that optimize function definitions, what
//! the code generator has to know of types and of the runtime, and the runtime that generated code
//! calls.
//!
//! - [`ast`] has the terms of the language, definitions of functions, and the passes that optimize
//!   these.
//! - [`signature`] has definitions that do not tell how they are called, and their two passes.
//!   What holds of these is stated in [`signature_laws`] and [`thunk_laws`].
//! - [`backend`] has the types of generated code, and the names and signatures of functions.
//! - [`runtime`] has memory, thunks, handlers of effects and captured continuations.
//!
//! Contracts speak of mathematical counterparts of terms and definitions. What holds of several
//! functions together is stated by public proof functions beside them.
pub mod ast;
pub mod backend;
pub mod runtime;
pub mod signature;
pub mod signature_laws;
pub mod thunk_laws;
