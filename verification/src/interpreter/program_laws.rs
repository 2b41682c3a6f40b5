//! What holds of every program as a whole: how it can be cut up, which codes
//! exclude each other, and what reaches the sinks.
use vstd::prelude::*;
use super::laws::as_motion;
use super::laws::commands_motion;
use super::laws::law_cancelled_mode_is_gone;
use super::laws::law_nothing_moves_before_a_motion_mode;
use super::laws::lemma_pecks_are_outputs;
use super::line::Event;
use super::line::Line;
use super::line::code_group;
use super::line::mode_of;
use super::meaning::Progress;
use super::modal_groups::ModalGroup;
use super::modal_groups::ModalGroupSet;
use super::modal_groups::miscellaneous_group;
use super::parser::complete;
use super::sink::Emission;
use super::sink::ErrorSink;
use super::sink::InterpretError;
use super::sink::LineOutput;
use super::sink::OutputSink;
use super::sink::delivered;
use super::sink::lemma_delivered_concat;
use super::state::ModalState;
use super::visitor::Interpreter;

verus! {

// ---- cutting a program up ----

/// Events in two portions.
proof fn lemma_after_all_concat(at: Progress, first: Seq<Event>, second: Seq<Event>)
    ensures
        at.after_all(first + second) == at.after_all(first).after_all(second),
    decreases second.len(),
{
    let all = first + second;
    if second.len() == 0 {
        assert(all == first);
    } else {
        assert(all.drop_last() == first + second.drop_last());
        lemma_after_all_concat(at, first, second.drop_last());
    }
}

/// What was handed out before has no influence on what comes.
proof fn lemma_after_all_trace(at: Progress, before: Seq<Emission>, events: Seq<Event>)
    ensures
        ({
            let plain = at.after_all(events);
            let prefixed = (Progress { trace: before + at.trace, ..at }).after_all(events);
            &&& prefixed.state == plain.state
            &&& prefixed.line == plain.line
            &&& prefixed.trace == before + plain.trace
        }),
    decreases events.len(),
{
    if events.len() > 0 {
        lemma_after_all_trace(at, before, events.drop_last());
        let plain = at.after_all(events.drop_last());
        let prefixed = (Progress { trace: before + at.trace, ..at }).after_all(events.drop_last());
        reveal(Progress::after);
        let event = events.last();
        let more = plain.after(event).trace.skip(plain.trace.len() as int);
        assert(plain.after(event).trace == plain.trace + more);
        assert(prefixed.after(event).trace == prefixed.trace + more);
        assert((before + plain.trace) + more == before + (plain.trace + more));
    }
}

/// A program can be cut at the end of any line: interpreting the first part and
/// then the second is interpreting the whole.
pub proof fn law_program_can_be_cut_between_lines(
    state: ModalState,
    first: Seq<Event>,
    second: Seq<Event>,
)
    requires
        complete(first),
    ensures
        ({
            let whole = Progress::fresh(state).after_all(first + second);
            let half = Progress::fresh(state).after_all(first);
            let rest = Progress::fresh(half.state).after_all(second);
            &&& whole.state == rest.state
            &&& whole.line == rest.line
            &&& whole.trace == half.trace + rest.trace
        }),
{
    let start = Progress::fresh(state);
    let half = start.after_all(first);
    lemma_after_all_concat(start, first, second);
    assert(half.line == Line::blank()) by {
        reveal(Progress::after);
    }
    let fresh = Progress::fresh(half.state);
    lemma_after_all_trace(fresh, half.trace, second);
    assert(half.trace + fresh.trace == half.trace);
}

/// Texts can be fed to an interpreter one by one: each run takes up where the one
/// before it left off, as long as that left no line open.
pub proof fn law_runs_follow_one_another<O: OutputSink, E: ErrorSink>(
    before: &Interpreter<O, E>,
    middle: &Interpreter<O, E>,
    after: &Interpreter<O, E>,
    first: Seq<Event>,
    second: Seq<Event>,
)
    requires
        complete(first),
        middle.went_through(before, first),
        after.went_through(middle, second),
    ensures
        after.went_through(before, first + second),
{
    law_program_can_be_cut_between_lines(before.modal(), first, second);
    lemma_delivered_concat(
        Progress::fresh(before.modal()).after_all(first).trace,
        Progress::fresh(middle.modal()).after_all(second).trace,
        before.outputs(),
        before.errors(),
        middle.outputs(),
        middle.errors(),
        after.outputs(),
        after.errors(),
    );
}

// ---- codes that exclude each other ----

/// The modal group of the code that an event reports, if it has one.
pub open spec fn group_of(event: Event) -> Option<ModalGroup> {
    match event {
        Event::GeneralCode { major, minor } => code_group(major, minor),
        Event::MiscellaneousCode { major, minor } => miscellaneous_group(major, minor),
        _ => None,
    }
}

/// Some of these events reports a code of the group.
pub open spec fn mentions(words: Seq<Event>, group: ModalGroup) -> bool {
    exists|i: int| 0 <= i < words.len() && group_of(#[trigger] words[i]) == Some(group)
}

/// A line remembers exactly the groups of the codes on it.
pub proof fn law_line_remembers_its_groups(
    state: ModalState,
    words: Seq<Event>,
    group: ModalGroup,
)
    requires
        forall|i: int| 0 <= i < words.len() ==> !(#[trigger] words[i] is EndLine),
    ensures
        Progress::fresh(state).after_all(words).line.seen_groups@.contains(group) <==> mentions(
            words,
            group,
        ),
    decreases words.len(),
{
    if words.len() == 0 {
        ModalGroupSet::lemma_none();
    } else {
        let before = words.drop_last();
        assert forall|i: int| 0 <= i < before.len() implies !(#[trigger] before[i] is EndLine) by {
            assert(before[i] == words[i]);
        }
        law_line_remembers_its_groups(state, before, group);
        let at = Progress::fresh(state).after_all(before);
        let last = words[words.len() - 1];
        reveal(Progress::after);
        if let Some(g) = group_of(last) {
            at.line.seen_groups.lemma_with(g);
        }
        if mentions(words, group) {
            let i = choose|i: int|
                0 <= i < words.len() && group_of(#[trigger] words[i]) == Some(group);
            if i < before.len() {
                assert(before[i] == words[i]);
                assert(mentions(before, group));
            }
        }
        if mentions(before, group) {
            let i = choose|i: int|
                0 <= i < before.len() && group_of(#[trigger] before[i]) == Some(group);
            assert(words[i] == before[i]);
        }
    }
}

/// A code is reported as a conflict exactly if an earlier one on its line has the
/// same modal group; codes of different groups share a line freely.
pub proof fn law_conflict_is_reported_exactly_when_a_group_repeats(
    state: ModalState,
    words: Seq<Event>,
    code: Event,
)
    requires
        forall|i: int| 0 <= i < words.len() ==> !(#[trigger] words[i] is EndLine),
        code is GeneralCode || code is MiscellaneousCode,
    ensures
        ({
            let at = Progress::fresh(state).after_all(words);
            let next = at.after(code);
            let conflict = seq![Emission::Error(InterpretError::ModalGroupConflict)];
            if group_of(code) is Some && mentions(words, group_of(code)->0) {
                next.trace == at.trace + conflict
            } else {
                next.trace == at.trace
            }
        }),
{
    if let Some(g) = group_of(code) {
        law_line_remembers_its_groups(state, words, g);
    }
    reveal(Progress::after);
    let at = Progress::fresh(state).after_all(words);
    assert(at.trace + Seq::<Emission>::empty() == at.trace);
}

/// How many of these events report a code that has a group.
pub open spec fn grouped(words: Seq<Event>) -> nat
    decreases words.len(),
{
    if words.len() == 0 {
        0
    } else {
        grouped(words.drop_last()) + if group_of(words.last()) is Some {
            1nat
        } else {
            0
        }
    }
}

/// The groups of the codes that these events report.
pub open spec fn groups_in(words: Seq<Event>) -> Set<ModalGroup>
    decreases words.len(),
{
    if words.len() == 0 {
        Set::empty()
    } else {
        match group_of(words.last()) {
            Some(group) => groups_in(words.drop_last()).insert(group),
            None => groups_in(words.drop_last()),
        }
    }
}

/// How many conflicts a trace reports.
pub open spec fn conflicts_in(trace: Seq<Emission>) -> nat
    decreases trace.len(),
{
    if trace.len() == 0 {
        0
    } else {
        conflicts_in(trace.drop_last()) + if is_conflict(trace.last()) {
            1nat
        } else {
            0
        }
    }
}

pub open spec fn is_conflict(emission: Emission) -> bool {
    emission == Emission::Error(InterpretError::ModalGroupConflict)
}

proof fn lemma_conflicts_concat(a: Seq<Emission>, b: Seq<Emission>)
    ensures
        conflicts_in(a + b) == conflicts_in(a) + conflicts_in(b),
    decreases b.len(),
{
    if b.len() == 0 {
        assert(a + b == a);
    } else {
        assert((a + b).drop_last() == a + b.drop_last());
        lemma_conflicts_concat(a, b.drop_last());
    }
}

proof fn lemma_no_conflicts(trace: Seq<Emission>)
    requires
        forall|i: int| 0 <= i < trace.len() ==> !is_conflict(#[trigger] trace[i]),
    ensures
        conflicts_in(trace) == 0,
    decreases trace.len(),
{
    if trace.len() > 0 {
        assert(!is_conflict(trace[trace.len() - 1]));
        assert forall|i: int| 0 <= i < trace.len() - 1 implies !is_conflict(
            #[trigger] trace.drop_last()[i],
        ) by {
            assert(!is_conflict(trace[i]));
        }
        lemma_no_conflicts(trace.drop_last());
    }
}

/// The end of a line reports no conflict.
proof fn lemma_line_end_has_no_conflicts(state: ModalState, line: Line)
    ensures
        conflicts_in(state.after_line(line).trace) == 0,
{
    reveal(ModalState::after_line);
    let state = state.after_feed(line);
    let moved = state.after_motion(line);
    let commanded = moved.state.after_machine_words(line);
    let tooled = commanded.state.after_tool_words(line);
    let homed = tooled.state.after_shift(line).after_homing(line);
    let mode = line.mode(state);
    let words = line.cycle_words();
    if line.moves(state) && mode.canned_cycle() && state.cycle_error(mode, words) is None {
        let depths = match state.cycle_bites(words) {
            Some(depths) => depths,
            None => Seq::empty(),
        };
        lemma_pecks_are_outputs(state.hole(words), depths);
    }
    lemma_no_conflicts(moved.trace);
    lemma_no_conflicts(commanded.trace);
    lemma_no_conflicts(tooled.trace);
    lemma_no_conflicts(homed.trace);
    lemma_conflicts_concat(moved.trace, commanded.trace);
    lemma_conflicts_concat(moved.trace + commanded.trace, tooled.trace);
    lemma_conflicts_concat(moved.trace + commanded.trace + tooled.trace, homed.trace);
}

proof fn lemma_conflicts_so_far(state: ModalState, words: Seq<Event>)
    requires
        forall|i: int| 0 <= i < words.len() ==> !(#[trigger] words[i] is EndLine),
    ensures
        groups_in(words).finite(),
        Progress::fresh(state).after_all(words).line.seen_groups@ == groups_in(words),
        conflicts_in(Progress::fresh(state).after_all(words).trace) + groups_in(words).len()
            == grouped(words),
    decreases words.len(),
{
    if words.len() == 0 {
        ModalGroupSet::lemma_none();
    } else {
        let before = words.drop_last();
        assert forall|i: int| 0 <= i < before.len() implies !(#[trigger] before[i] is EndLine) by {
            assert(before[i] == words[i]);
        }
        lemma_conflicts_so_far(state, before);
        let at = Progress::fresh(state).after_all(before);
        let last = words[words.len() - 1];
        let next = at.after(last);
        reveal(Progress::after);
        if let Some(g) = group_of(last) {
            at.line.seen_groups.lemma_with(g);
        }
        let more = next.trace.skip(at.trace.len() as int);
        assert(next.trace == at.trace + more);
        lemma_conflicts_concat(at.trace, more);
        let repeated = group_of(last) is Some && groups_in(before).contains(group_of(last)->0);
        assert(conflicts_in(more) == if repeated {
            1nat
        } else {
            0
        }) by {
            reveal_with_fuel(conflicts_in, 2);
        }
    }
}

/// A line reports exactly as many conflicts as it has codes with a group, less the
/// different groups among them: none if all are different, and whatever was on earlier
/// lines.
pub proof fn law_line_reports_every_repeat_once(state: ModalState, words: Seq<Event>)
    requires
        forall|i: int| 0 <= i < words.len() ==> !(#[trigger] words[i] is EndLine),
    ensures
        groups_in(words).finite(),
        conflicts_in(Progress::fresh(state).after_all(words.push(Event::EndLine)).trace)
            == grouped(words) - groups_in(words).len(),
{
    lemma_conflicts_so_far(state, words);
    let at = Progress::fresh(state).after_all(words);
    assert(words.push(Event::EndLine).drop_last() == words);
    reveal(Progress::after);
    lemma_line_end_has_no_conflicts(at.state, at.line);
    lemma_conflicts_concat(at.trace, at.state.after_line(at.line).trace);
}

// ---- cancelled modes ----

/// The line runs in the mode that the last motion word on it names.
proof fn lemma_last_motion_word(state: ModalState, words: Seq<Event>, k: int)
    requires
        0 <= k < words.len(),
        words[k] matches Event::GeneralCode { major, minor } && code_group(major, minor) == Some(
            ModalGroup::Motion,
        ),
        forall|i: int| k < i < words.len() ==> group_of(#[trigger] words[i]) != Some(
            ModalGroup::Motion,
        ),
        forall|i: int| 0 <= i < words.len() ==> !(#[trigger] words[i] is EndLine),
    ensures
        words[k] matches Event::GeneralCode { major, minor } && ({
            let line = Progress::fresh(state).after_all(words).line;
            &&& line.resolved_mode == Some(mode_of(major, minor))
            &&& line.mode_cancelled == (major == 80)
        }),
    decreases words.len(),
{
    reveal(Progress::after);
    if k < words.len() - 1 {
        let before = words.drop_last();
        assert forall|i: int| 0 <= i < before.len() implies !(#[trigger] before[i] is EndLine) by {
            assert(before[i] == words[i]);
        }
        assert forall|i: int| k < i < before.len() implies group_of(#[trigger] before[i]) != Some(
            ModalGroup::Motion,
        ) by {
            assert(before[i] == words[i]);
        }
        lemma_last_motion_word(state, before, k);
        assert(group_of(words[words.len() - 1]) != Some(ModalGroup::Motion));
        assert(!(words[words.len() - 1] is EndLine));
    }
}

/// After a line whose last motion word is G80, be there axis words on it or not, nothing
/// moves until a motion mode is commanded again.
pub proof fn law_nothing_moves_after_g80(
    state: ModalState,
    words: Seq<Event>,
    k: int,
    later: Seq<Event>,
)
    requires
        0 <= k < words.len(),
        words[k] == (Event::GeneralCode { major: 80, minor: None }),
        forall|i: int| k < i < words.len() ==> group_of(#[trigger] words[i]) != Some(
            ModalGroup::Motion,
        ),
        forall|i: int| 0 <= i < words.len() ==> !(#[trigger] words[i] is EndLine),
        forall|i: int| 0 <= i < later.len() ==> !commands_motion(#[trigger] later[i]),
    ensures
        ({
            let line = words.push(Event::EndLine);
            let cancelled = Progress::fresh(state).after_all(line);
            let end = Progress::fresh(state).after_all(line + later);
            &&& end.state.motion_mode is Inactive
            &&& end.state.position == cancelled.state.position
            &&& end.trace.len() >= cancelled.trace.len()
            &&& forall|i: int|
                cancelled.trace.len() <= i < end.trace.len() ==> as_motion(#[trigger] end.trace[i])
                    is None
        }),
{
    let line = words.push(Event::EndLine);
    let at = Progress::fresh(state).after_all(words);
    let cancelled = Progress::fresh(state).after_all(line);
    lemma_last_motion_word(state, words, k);
    law_cancelled_mode_is_gone(at.state, at.line);
    assert(line.drop_last() == words);
    assert(cancelled.state == at.state.after_line(at.line).state) by {
        reveal(Progress::after);
    }
    law_program_can_be_cut_between_lines(state, line, later);
    law_nothing_moves_before_a_motion_mode(cancelled.state, later);
    let rest = Progress::fresh(cancelled.state).after_all(later);
    let end = Progress::fresh(state).after_all(line + later);
    assert forall|i: int| cancelled.trace.len() <= i < end.trace.len() implies as_motion(
        #[trigger] end.trace[i],
    ) is None by {
        assert(end.trace[i] == rest.trace[i - cancelled.trace.len()]);
    }
}

// ---- what reaches the sinks ----

/// The moves and commands of a trace.
pub open spec fn outputs_of(trace: Seq<Emission>) -> Seq<LineOutput>
    decreases trace.len(),
{
    if trace.len() == 0 {
        Seq::empty()
    } else {
        match trace.last() {
            Emission::Output(output) => outputs_of(trace.drop_last()).push(output),
            Emission::Error(_) => outputs_of(trace.drop_last()),
        }
    }
}

/// The errors of a trace.
pub open spec fn errors_of(trace: Seq<Emission>) -> Seq<InterpretError>
    decreases trace.len(),
{
    if trace.len() == 0 {
        Seq::empty()
    } else {
        match trace.last() {
            Emission::Output(_) => errors_of(trace.drop_last()),
            Emission::Error(error) => errors_of(trace.drop_last()).push(error),
        }
    }
}

/// A sink that keeps a log of what is pushed to it sees the moves and commands of a
/// trace, all of them and in their order.
pub proof fn law_outputs_arrive_in_order<O: OutputSink, E: ErrorSink>(
    log: spec_fn(O) -> Seq<LineOutput>,
    trace: Seq<Emission>,
    outputs: O,
    errors: E,
    outputs_after: O,
    errors_after: E,
)
    requires
        forall|o: O, x: LineOutput, ok: bool, p: O| #[trigger]
            o.took(x, ok, &p) ==> log(p) == log(o).push(x),
        delivered(trace, outputs, errors, outputs_after, errors_after),
    ensures
        log(outputs_after) == log(outputs) + outputs_of(trace),
    decreases trace.len(),
{
    if trace.len() == 0 {
        assert(log(outputs) + outputs_of(trace) == log(outputs));
    } else {
        let (o, e) = choose|o: O, e: E|
            delivered(trace.drop_last(), outputs, errors, o, e)
                && #[trigger] trace.last().handed(o, e, outputs_after, errors_after);
        law_outputs_arrive_in_order(log, trace.drop_last(), outputs, errors, o, e);
        match trace.last() {
            Emission::Output(x) => {
                assert(o.took(x, true, &outputs_after) || o.took(x, false, &outputs_after));
            },
            Emission::Error(_) => {},
        }
    }
}

/// Where the output sink takes everything, an error sink that keeps a log sees the
/// errors of a trace, all of them and in their order, and no others.
pub proof fn law_errors_arrive_in_order<O: OutputSink, E: ErrorSink>(
    log: spec_fn(E) -> Seq<InterpretError>,
    trace: Seq<Emission>,
    outputs: O,
    errors: E,
    outputs_after: O,
    errors_after: E,
)
    requires
        forall|o: O, x: LineOutput, p: O| !#[trigger] o.took(x, false, &p),
        forall|e: E, x: InterpretError, f: E| #[trigger]
            e.took(x, &f) ==> log(f) == log(e).push(x),
        delivered(trace, outputs, errors, outputs_after, errors_after),
    ensures
        log(errors_after) == log(errors) + errors_of(trace),
    decreases trace.len(),
{
    if trace.len() == 0 {
        assert(log(errors) + errors_of(trace) == log(errors));
    } else {
        let (o, e) = choose|o: O, e: E|
            delivered(trace.drop_last(), outputs, errors, o, e)
                && #[trigger] trace.last().handed(o, e, outputs_after, errors_after);
        law_errors_arrive_in_order(log, trace.drop_last(), outputs, errors, o, e);
        match trace.last() {
            Emission::Output(x) => {
                assert(!o.took(x, false, &outputs_after));
            },
            Emission::Error(_) => {},
        }
    }
}

/// Where the output sink takes nothing, every output is answered by an error of its
/// own: the error sink sees as many errors as the trace holds outputs and errors.
pub proof fn law_every_rejection_is_reported<O: OutputSink, E: ErrorSink>(
    log: spec_fn(E) -> Seq<InterpretError>,
    trace: Seq<Emission>,
    outputs: O,
    errors: E,
    outputs_after: O,
    errors_after: E,
)
    requires
        forall|o: O, x: LineOutput, p: O| !#[trigger] o.took(x, true, &p),
        forall|e: E, x: InterpretError, f: E| #[trigger]
            e.took(x, &f) ==> log(f) == log(e).push(x),
        delivered(trace, outputs, errors, outputs_after, errors_after),
    ensures
        log(errors_after) == log(errors) + trace.map_values(
            |m: Emission|
                match m {
                    Emission::Output(_) => InterpretError::OutputSinkFull,
                    Emission::Error(error) => error,
                },
        ),
    decreases trace.len(),
{
    let answer = |m: Emission|
        match m {
            Emission::Output(_) => InterpretError::OutputSinkFull,
            Emission::Error(error) => error,
        };
    if trace.len() == 0 {
        assert(log(errors) + trace.map_values(answer) == log(errors));
    } else {
        let (o, e) = choose|o: O, e: E|
            delivered(trace.drop_last(), outputs, errors, o, e)
                && #[trigger] trace.last().handed(o, e, outputs_after, errors_after);
        law_every_rejection_is_reported(log, trace.drop_last(), outputs, errors, o, e);
        match trace.last() {
            Emission::Output(x) => {
                assert(!o.took(x, true, &outputs_after));
            },
            Emission::Error(_) => {},
        }
        assert(trace.map_values(answer) == trace.drop_last().map_values(answer).push(
            answer(trace.last()),
        ));
    }
}

} // verus!
