//! Layers around the dispatch of a tool call. Each says what is to be done
//! before the call goes on inward, and what becomes of its result.
pub mod dispatch;
pub mod memo;
pub mod output_limit;
pub mod permission;
pub mod redaction;
pub mod shell;
pub mod shield;
pub mod timeout;
pub mod tool_call;
pub mod unknown_tool;
pub mod verify;
