//! Canonical style names of the built-in theme.

use vstd::prelude::*;

verus! {

// -- User input --
pub const USER_PROMPT: &'static str = "user.prompt";

pub const USER_PROMPT_QUEUED: &'static str = "user.prompt.queued";

// -- Agent responses --
pub const AGENT_RESPONSE: &'static str = "agent.response";

pub const AGENT_PENDING: &'static str = "agent.pending";

// -- Tool execution --
pub const TOOL_RUNNING: &'static str = "tool.running";

pub const TOOL_RESULT: &'static str = "tool.result";

pub const TOOL_ERROR: &'static str = "tool.error";

pub const TOOL_PROGRESS: &'static str = "tool.progress";

// -- Extensions --
pub const EXTENSION_LIFECYCLE: &'static str = "extension.lifecycle";

// -- System --
pub const SYSTEM_INFO: &'static str = "system.info";

pub const SYSTEM_DISCONNECT: &'static str = "system.disconnect";

// -- Model status --
pub const MODEL_STATUS: &'static str = "model.status";

// -- Completion menu --
pub const COMPLETION_LABEL: &'static str = "completion.label";

pub const COMPLETION_DESC: &'static str = "completion.desc";

pub const COMPLETION_SELECTED: &'static str = "completion.selected";

// -- Prompt --
pub const PROMPT_MARKER: &'static str = "prompt.marker";

// -- Banner --
pub const BANNER_ACCENT: &'static str = "banner.accent";

} // verus!
