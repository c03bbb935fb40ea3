//! The language's public surface, gathered in one place.

pub use crate::engine::{ExecutionContext, ExecutionStatus, LoopReason};
pub use crate::instr::{ExtendedInstr, Instr};
pub use crate::loop_span::{LoopSpan, LoopSpanHistory};
pub use crate::program::{CompileError, Program};
