//! A verified core of a make tool: the makefile reader, the rule database,
//! the remake decisions and the plugin bookkeeping.

pub mod stopchar;
pub mod parser;
pub mod recipe;
pub mod dep;
pub mod rule;
pub mod execctx;
pub mod remote_stub;
pub mod file;
pub mod remake;
pub mod read;
pub mod plugin;
pub mod posixos;
