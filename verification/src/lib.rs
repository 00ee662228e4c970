//! Verified pieces of a JavaScript tool chain: the `no-useless-forwarding-function`
//! lint rule over a model of the syntax tree, the exit codes of the formatter's
//! command line, and a text dedenting helper.
pub mod ast;
pub mod cli_outcome;
pub mod dedent;
pub mod no_useless_forwarding_function;
pub mod semantic;
