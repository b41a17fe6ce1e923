//! A small PostScript-like, stack-oriented language interpreter.
//!
//! Source text is tokenized by a scanner, and each token is either routed
//! into an open procedure body or evaluated against four runtime
//! structures: an operand stack, a layered dictionary stack, an execution
//! stack of deferred runners, and a nested procedure builder.  Printing
//! operators append their lines to an output buffer that the host drains.

mod decimal;
mod dstack;
mod error;
mod object;
mod proc_builder;
mod scanner;
mod token;
mod text;

mod engine;
mod stack;
mod xstack;

pub use decimal::int_text;
pub use dstack::{lemma_name_shadowing, lookup, system_map, with_user_binding, DictStack};
pub use engine::{
    drain_run, eval_step, lemma_drain_done_out, lemma_eval_step_extends_out,
    lemma_eval_step_no_limit, lemma_op_step_extends_out, lemma_op_step_no_limit, op_step,
    Drained, Engine, MachineView,
};
pub use error::PsError;
pub use object::{deep_clone, text_of, to_text, Object, ObjectMode, ObjectView, Operator};
pub use proc_builder::{builder_push, lemma_procedure_capture, ProcBuilder};
pub use scanner::{
    drive_step, lemma_drive_step_no_limit, lemma_run_source_monotonic, lemma_scanner_dicts,
    next_token, run_source, spec_scan, ScanStep, ScanStepView, Scanner, SourceOutcome,
};
pub use stack::{
    add_step, clear_to_mark_step, cond_if_step, cond_ifelse_step, copy_step, count_to_mark_step,
    def_step, div_step, dup_step, eq_step, exch_step, exec_step, gt_step, in_i64, index_step,
    lemma_roll_group_action, make_array_step, mark_index, mod_step, mul_step, ne_step, pop_step,
    popn, pstack_lines, repeat_step, roll_step, rotate_right, sub_step, trunc_div, trunc_rem,
    Stack, StackStep,
};
pub use token::{Token, TokenView};
pub use xstack::{ExecStack, OnceRunner, RepeatRunner, Runner};
