//! Every size, count and duration relay holds itself to, in one place.

use vstd::prelude::*;

verus! {

/// Sizes of the session-start brief.
pub const BRIEF_MAX_CHARS: usize = 2400;
pub const PROJECT_MAX_CHARS: usize = 1000;
/// The brief's budget for remembered items, in bytes.
pub const MEMORY_CHARS: usize = 700;

/// A title longer than this does not fit a line of the brief.
pub const OVERLONG_CHARS: usize = 120;
/// Two titles sharing at least this share of their words (numerator over
/// denominator) say the same thing.
pub const SIMILAR_NUM: usize = 3;
pub const SIMILAR_DEN: usize = 5;

/// Tool output, in estimated tokens, between two reminders to an agent.
pub const WARN_EVERY: usize = 150_000;

/// Seconds a claim stays live after its session's last edit.
pub const CLAIM_LIVE_SECS: u64 = 2 * 3600;
/// Seconds a claim file is kept after its last edit.
pub const CLAIM_KEEP_SECS: u64 = 24 * 3600;
pub const CLAIM_AREAS_SHOWN: usize = 3;
pub const CLAIM_DIRTY_SHOWN: usize = 5;
pub const CLAIM_BRIEF_CHARS: usize = 600;
pub const CLAIM_LABEL_CHARS: usize = 60;

/// One page for one task.
pub const TASK_MAX_CHARS: usize = 6000;
pub const TASK_SECTION_CHARS: usize = 3000;
pub const TASK_MIN_SECTION_CHARS: usize = 400;
pub const TASK_SECTIONS: usize = 3;
pub const TASK_OTHER_MATCHES: usize = 5;
pub const TASK_FILES: usize = 8;
/// Recent sessions and commits searched for a task's likely files.
pub const TASK_SESSIONS_READ: usize = 20;
pub const TASK_COMMITS_READ: usize = 200;

/// Whole-file reads above this many bytes get an outline instead.
pub const GUARD_BYTES: u64 = 60 * 1024;
/// Files above this many bytes are not outlined.
pub const OUTLINE_MAX_BYTES: u64 = 8 * 1024 * 1024;
pub const OUTLINE_ENTRIES: usize = 60;
/// Reads above this many bytes are not remembered for re-read notes.
pub const DEDUP_MAX_BYTES: usize = 256 * 1024;
/// Lines of context around each change in a re-read diff.
pub const DIFF_CONTEXT: usize = 3;

/// Command output shorter than this many bytes is shown as it came.
pub const MIN_OUTPUT_BYTES: usize = 512;

/// relay's failure log is cut to its newer half past this many bytes.
pub const LOG_BYTES: u64 = 256 * 1024;

/// Budgets `relay lint` checks.
pub const LINT_INSTRUCTIONS_BYTES: u64 = 8 * 1024;
pub const LINT_INDEX_BYTES: u64 = 8 * 1024;
pub const LINT_DOC_BYTES: u64 = 100 * 1024;
pub const LINT_DONE_LINES: usize = 1;
pub const LINT_ADR_SECTION_LINES: usize = 10;
pub const LINT_SUBJECT_CHARS: usize = 72;

/// Caps of the handoff.
pub const HANDOFF_STOPPED_CHARS: usize = 1200;
pub const HANDOFF_LAST_REPLY_CHARS: usize = 400;
pub const HANDOFF_DECISION_CHARS: usize = 200;
pub const HANDOFF_PROMPT_CHARS: usize = 220;
pub const HANDOFF_EARLIER_REPLIES: usize = 3;
pub const HANDOFF_EARLIER_REPLY_CHARS: usize = 200;
pub const HANDOFF_PLAN_CHARS: usize = 1500;
pub const HANDOFF_FILES: usize = 15;
pub const HANDOFF_DIRTY: usize = 10;
pub const HANDOFF_READ_FIRST: usize = 8;
pub const HANDOFF_COMMAND_CHARS: usize = 80;
pub const HANDOFF_FAILING: usize = 5;
pub const HANDOFF_COMMANDS: usize = 12;

} // verus!
