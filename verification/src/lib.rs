use vstd::prelude::*;

pub mod agents_md;
pub mod audit;
pub mod bench;
pub mod bootstrap;
pub mod brief;
pub mod budget;
pub mod claims;
pub mod collide;
pub mod compile;
pub mod condense;
pub mod fmt;
pub mod frontmatter;
pub mod handoff;
pub mod hygiene;
pub mod index;
pub mod json;
pub mod likely;
pub mod limits;
pub mod lint;
pub mod log;
pub mod memory;
pub mod okf;
pub mod order;
pub mod outline;
pub mod outputs;
pub mod paths;
pub mod pattern;
pub mod read_guard;
pub mod reads;
pub mod scoreboard;
pub mod seqs;
pub mod sort;
pub mod spool;
pub mod strset;
pub mod task_brief;
pub mod text;
pub mod time;
pub mod timings;
pub mod usage;

verus! {
} // verus!
