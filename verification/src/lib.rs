//! Control-flow and scope facts used by a static analyzer for Hack code:
//! response-context tracking, control actions of statement lists, and
//! helpers on variable paths such as `$a->b['c']`.

pub mod scope;
pub mod scope_context;
pub mod clause;
pub mod reconciler;
pub mod stmt;
