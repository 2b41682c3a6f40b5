//! Where the interpreter's output goes: sinks that the host supplies.
//!
//! What a sink does with a value is its own affair. Each sink says it with a
//! relation `took` between its state before and after a push, and the
//! interpreter's contracts speak of the pushes by that relation.
use vstd::prelude::*;
use super::command::Command;
use super::motion::ArcError;
use super::motion::ResolvedMotionCommand;

verus! {

/// A piece of the source text.
#[derive(Debug, Clone, Copy, PartialEq, Eq, Structural)]
pub struct SourceSpan {
    /// The byte at which it starts.
    pub start: usize,
    /// Its length in bytes.
    pub length: usize,
    /// The line that it is on, counted from zero.
    pub line: usize,
}

/// What can be wrong with a line.
#[derive(Debug, Clone, Copy, PartialEq, Eq, Structural)]
pub enum InterpretError {
    /// Axis words with no motion mode active: none was ever commanded, or the
    /// last one was cancelled by G80.
    NoActiveMotionMode,
    /// Two G or M words of one modal group on a line.
    ModalGroupConflict,
    /// M6 before any T word.
    NoToolSelected,
    /// The I/J/K/R words of a G2/G3 line give no arc.
    InvalidArc(ArcError),
    /// A canned cycle without its depth, retract plane or dwell, none of which
    /// was ever given.
    CannedCycleMissingParameter,
    /// G83 with an increment that is missing, not positive, or too small to ever
    /// reach the bottom.
    InvalidPeckIncrement,
    /// A canned cycle in a plane other than G17.
    UnsupportedCannedCyclePlane,
    /// A parameter or an expression in place of a number.
    UnsupportedSyntax,
    /// What the parser could not read.
    SyntaxError(SourceSpan),
    /// The output sink rejected a move or a command.
    OutputSinkFull,
}

/// What a line resolves to, piece by piece.
#[derive(Debug, Clone, Copy, PartialEq)]
pub enum LineOutput {
    Motion(ResolvedMotionCommand),
    Command(Command),
}

/// Takes moves and commands in the order in which they were resolved.
pub trait OutputSink {
    /// The sink may be pushed to.
    open spec fn ready(&self) -> bool {
        true
    }

    /// `after` is a state that pushing `output` can lead to.
    open spec fn took(&self, output: LineOutput, accepted: bool, after: &Self) -> bool {
        true
    }

    /// `Err` where the sink has no room.
    fn push(&mut self, output: LineOutput) -> (r: Result<(), ()>)
        requires
            old(self).ready(),
        ensures
            final(self).ready(),
            old(self).took(output, r is Ok, final(self)),
    ;
}

/// Takes moves alone.
pub trait MotionSink {
    /// `after` is a state that pushing `command` can lead to.
    open spec fn took(&self, command: ResolvedMotionCommand, accepted: bool, after: &Self) -> bool {
        true
    }

    /// `Err` where the sink has no room.
    fn push(&mut self, command: ResolvedMotionCommand) -> (r: Result<(), ()>)
        ensures
            old(self).took(command, r is Ok, final(self)),
    ;
}

/// Takes commands alone.
pub trait CommandSink {
    /// `after` is a state that pushing `command` can lead to.
    open spec fn took(&self, command: Command, accepted: bool, after: &Self) -> bool {
        true
    }

    /// `Err` where the sink has no room.
    fn push(&mut self, command: Command) -> (r: Result<(), ()>)
        ensures
            old(self).took(command, r is Ok, final(self)),
    ;
}

/// Takes errors.
pub trait ErrorSink {
    /// `after` is a state that pushing `error` can lead to.
    open spec fn took(&self, error: InterpretError, after: &Self) -> bool {
        true
    }

    fn push(&mut self, error: InterpretError)
        ensures
            old(self).took(error, final(self)),
    ;
}

/// An output sink made of one sink for moves and one for commands, for a host
/// that does not need to know how they interleave.
pub struct SplitSink<M, C> {
    pub motions: M,
    pub commands: C,
}

impl<M: MotionSink, C: CommandSink> OutputSink for SplitSink<M, C> {
    open spec fn ready(&self) -> bool {
        true
    }

    open spec fn took(&self, output: LineOutput, accepted: bool, after: &Self) -> bool {
        match output {
            LineOutput::Motion(command) => {
                self.motions.took(command, accepted, &after.motions) && after.commands
                    == self.commands
            },
            LineOutput::Command(command) => {
                self.commands.took(command, accepted, &after.commands) && after.motions
                    == self.motions
            },
        }
    }

    fn push(&mut self, output: LineOutput) -> (r: Result<(), ()>) {
        match output {
            LineOutput::Motion(command) => self.motions.push(command),
            LineOutput::Command(command) => self.commands.push(command),
        }
    }
}

/// One thing that interpreting a line hands out.
pub enum Emission {
    Output(LineOutput),
    Error(InterpretError),
}

impl Emission {
    /// What handing it out does to the sinks. A rejected output is reported as
    /// an error of its own.
    pub open spec fn handed<O: OutputSink, E: ErrorSink>(
        self,
        outputs: O,
        errors: E,
        outputs_after: O,
        errors_after: E,
    ) -> bool {
        match self {
            Emission::Output(output) => {
                ||| outputs.took(output, true, &outputs_after) && errors_after == errors
                ||| outputs.took(output, false, &outputs_after) && errors.took(
                    InterpretError::OutputSinkFull,
                    &errors_after,
                )
            },
            Emission::Error(error) => outputs_after == outputs && errors.took(
                error,
                &errors_after,
            ),
        }
    }
}

/// What handing out a whole trace, one after the other, does to the sinks.
pub open spec fn delivered<O: OutputSink, E: ErrorSink>(
    trace: Seq<Emission>,
    outputs: O,
    errors: E,
    outputs_after: O,
    errors_after: E,
) -> bool
    decreases trace.len(),
{
    if trace.len() == 0 {
        outputs_after == outputs && errors_after == errors
    } else {
        exists|o: O, e: E|
            delivered(trace.drop_last(), outputs, errors, o, e)
                && #[trigger] trace.last().handed(o, e, outputs_after, errors_after)
    }
}

/// Handing out one more.
pub proof fn lemma_delivered_push<O: OutputSink, E: ErrorSink>(
    trace: Seq<Emission>,
    last: Emission,
    outputs: O,
    errors: E,
    o: O,
    e: E,
    outputs_after: O,
    errors_after: E,
)
    requires
        delivered(trace, outputs, errors, o, e),
        last.handed(o, e, outputs_after, errors_after),
    ensures
        delivered(trace.push(last), outputs, errors, outputs_after, errors_after),
{
    let all = trace.push(last);
    assert(all.drop_last() == trace);
    assert(all.last().handed(o, e, outputs_after, errors_after));
}

/// Handing out one trace and then another is handing out both in a row.
pub proof fn lemma_delivered_concat<O: OutputSink, E: ErrorSink>(
    first: Seq<Emission>,
    second: Seq<Emission>,
    outputs: O,
    errors: E,
    o: O,
    e: E,
    outputs_after: O,
    errors_after: E,
)
    requires
        delivered(first, outputs, errors, o, e),
        delivered(second, o, e, outputs_after, errors_after),
    ensures
        delivered(first + second, outputs, errors, outputs_after, errors_after),
    decreases second.len(),
{
    if second.len() == 0 {
        assert(first + second == first);
    } else {
        let (p, f) = choose|p: O, f: E|
            delivered(second.drop_last(), o, e, p, f)
                && #[trigger] second.last().handed(p, f, outputs_after, errors_after);
        lemma_delivered_concat(first, second.drop_last(), outputs, errors, o, e, p, f);
        lemma_delivered_push(
            first + second.drop_last(),
            second.last(),
            outputs,
            errors,
            p,
            f,
            outputs_after,
            errors_after,
        );
        assert((first + second.drop_last()).push(second.last()) == first + second);
    }
}

} // verus!
