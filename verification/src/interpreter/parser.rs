//! The parser in front of the interpreter: `gcode`, which drives a visitor over the
//! source text. The visitor here writes down what it is told, one `Event` for each
//! call; the interpreter reads the list.
use vstd::prelude::*;
use crate::single::Single;
use super::line::Event;
use super::line::WordValue;
use super::sink::SourceSpan;
use super::source::readable;

verus! {

// What the parser hands to a visitor. The values are opaque here. Each is converted by
// one function below, and the visitor's contracts say by `call_ensures` that what is
// written down is what that function made of the very value that was handed over.

#[verifier::external_type_specification]
#[verifier::external_body]
pub struct ExParserSpan(gcode::core::Span);

#[verifier::external_type_specification]
#[verifier::external_body]
pub struct ExParserNumber(gcode::core::Number);

#[verifier::external_type_specification]
#[verifier::external_body]
pub struct ExParserValue<'src>(gcode::core::Value<'src>);

#[verifier::external_type_specification]
#[verifier::external_body]
pub struct ExParserTokenType(gcode::core::TokenType);

#[verifier::external_type_specification]
#[verifier::external_body]
pub struct ExParseIntError(core::num::ParseIntError);

/// `gcode::core::Number::major`: the part of a code number before the point. The
/// number is held in tenths in 32 bits, which bounds that part.
pub assume_specification[ gcode::core::Number::major ](number: gcode::core::Number) -> (major: u32)
    ensures
        major <= u32::MAX / 10,
;

/// `gcode::core::Number::minor`: the digit of a code number behind the point, unless
/// it is zero. The digit is one of nine.
#[verifier::external_body]
fn minor_of(number: gcode::core::Number) -> (minor: Option<u32>)
    ensures
        minor matches Some(digit) ==> 1 <= digit <= 9,
{
    number.minor().map(|digit| digit.get())
}

/// The fields of a `gcode::core::Span`, one by one.
#[verifier::external_body]
fn span_of(span: gcode::core::Span) -> (place: SourceSpan) {
    SourceSpan { start: span.start, length: span.length, line: span.line }
}

/// A `gcode::core::Value`: a literal by its bit pattern, a variable without its name.
#[verifier::external_body]
fn value_of(value: gcode::core::Value<'_>) -> (word: WordValue) {
    match value {
        gcode::core::Value::Literal(number) => WordValue::Literal(
            Single { bits: number.to_bits() },
        ),
        gcode::core::Value::Variable(_) => WordValue::Variable,
    }
}

/// What the visitor was told, in order.
pub struct Recorder {
    pub events: Vec<Event>,
}

/// The visitor of a block, and of a code with its arguments: all write into one list.
pub struct Recording<'a> {
    pub to: &'a mut Recorder,
}

/// The visitor of a tool code: what stands behind it is passed over.
pub struct Passing;

impl gcode::core::Diagnostics for Passing {

}

impl gcode::core::CommandVisitor for Passing {

}

/// The two parts of a code number.
pub closed spec fn number_reads(
    number: gcode::core::Number,
    major: u32,
    minor: Option<u32>,
) -> bool {
    &&& call_ensures(gcode::core::Number::major, (number,), major)
    &&& call_ensures(minor_of, (number,), minor)
}

/// The value of a word.
pub closed spec fn value_reads(value: gcode::core::Value<'_>, word: WordValue) -> bool {
    call_ensures(value_of, (value,), word)
}

/// The place of something in the text.
pub closed spec fn span_reads(span: gcode::core::Span, place: SourceSpan) -> bool {
    call_ensures(span_of, (span,), place)
}

/// One event was written down behind the others.
pub open spec fn one_more(before: Seq<Event>, after: Seq<Event>) -> bool {
    after.len() > 0 && after == before.push(after.last())
}

/// A diagnostic with this place was written down.
pub open spec fn diagnosed(
    span: gcode::core::Span,
    before: Seq<Event>,
    after: Seq<Event>,
) -> bool {
    one_more(before, after) && (after.last() matches Event::Diagnostic(place) && span_reads(
        span,
        place,
    ))
}

/// A word with this letter and value was written down.
pub open spec fn worded(
    letter: char,
    value: gcode::core::Value<'_>,
    before: Seq<Event>,
    after: Seq<Event>,
) -> bool {
    one_more(before, after) && (after.last() matches Event::Word { letter: l, value: word } && l
        == letter && value_reads(value, word))
}

impl gcode::core::Diagnostics for Recorder {
    fn emit_unknown_content(&mut self, _text: &str, span: gcode::core::Span)
        ensures
            diagnosed(span, old(self).events@, final(self).events@),
    {
        self.events.push(Event::Diagnostic(span_of(span)));
    }

    fn emit_unexpected(
        &mut self,
        _actual: &str,
        _expected: &[gcode::core::TokenType],
        span: gcode::core::Span,
    )
        ensures
            diagnosed(span, old(self).events@, final(self).events@),
    {
        self.events.push(Event::Diagnostic(span_of(span)));
    }

    fn emit_parse_int_error(
        &mut self,
        _value: &str,
        _error: core::num::ParseIntError,
        span: gcode::core::Span,
    )
        ensures
            diagnosed(span, old(self).events@, final(self).events@),
    {
        self.events.push(Event::Diagnostic(span_of(span)));
    }
}

impl gcode::core::Diagnostics for Recording<'_> {
    fn emit_unknown_content(&mut self, _text: &str, span: gcode::core::Span)
        ensures
            diagnosed(span, old(self).to.events@, final(self).to.events@),
    {
        self.to.events.push(Event::Diagnostic(span_of(span)));
    }

    fn emit_unexpected(
        &mut self,
        _actual: &str,
        _expected: &[gcode::core::TokenType],
        span: gcode::core::Span,
    )
        ensures
            diagnosed(span, old(self).to.events@, final(self).to.events@),
    {
        self.to.events.push(Event::Diagnostic(span_of(span)));
    }

    fn emit_parse_int_error(
        &mut self,
        _value: &str,
        _error: core::num::ParseIntError,
        span: gcode::core::Span,
    )
        ensures
            diagnosed(span, old(self).to.events@, final(self).to.events@),
    {
        self.to.events.push(Event::Diagnostic(span_of(span)));
    }
}

impl gcode::core::ProgramVisitor for Recorder {
    #[allow(refining_impl_trait)]
    fn start_block(&mut self) -> (flow: core::ops::ControlFlow<(), Recording<'_>>)
        ensures
            flow matches core::ops::ControlFlow::Continue(block) && block.to.events@ == old(
                self,
            ).events@ && *final(self) == *final(block.to),
    {
        core::ops::ControlFlow::Continue(Recording { to: self })
    }
}

impl gcode::core::BlockVisitor for Recording<'_> {
    fn word_address(
        &mut self,
        letter: char,
        value: gcode::core::Value<'_>,
        _span: gcode::core::Span,
    )
        ensures
            worded(letter, value, old(self).to.events@, final(self).to.events@),
    {
        self.to.events.push(Event::Word { letter, value: value_of(value) });
    }

    #[allow(refining_impl_trait)]
    fn start_general_code(&mut self, number: gcode::core::Number) -> (flow:
        core::ops::ControlFlow<(), Recording<'_>>)
        ensures
            flow matches core::ops::ControlFlow::Continue(code) && one_more(
                old(self).to.events@,
                code.to.events@,
            ) && (code.to.events@.last() matches Event::GeneralCode { major, minor } && number_reads(
                number,
                major,
                minor,
            )) && *final(self).to == *final(code.to),
    {
        self.to.events.push(
            Event::GeneralCode { major: number.major(), minor: minor_of(number) },
        );
        core::ops::ControlFlow::Continue(Recording { to: self.to })
    }

    #[allow(refining_impl_trait)]
    fn start_miscellaneous_code(&mut self, number: gcode::core::Number) -> (flow:
        core::ops::ControlFlow<(), Recording<'_>>)
        ensures
            flow matches core::ops::ControlFlow::Continue(code) && one_more(
                old(self).to.events@,
                code.to.events@,
            ) && (code.to.events@.last() matches Event::MiscellaneousCode { major, minor }
                && number_reads(number, major, minor)) && *final(self).to == *final(code.to),
    {
        self.to.events.push(
            Event::MiscellaneousCode { major: number.major(), minor: minor_of(number) },
        );
        core::ops::ControlFlow::Continue(Recording { to: self.to })
    }

    #[allow(refining_impl_trait)]
    fn start_tool_change_code(&mut self, number: gcode::core::Number) -> (flow:
        core::ops::ControlFlow<(), Passing>)
        ensures
            flow is Continue,
            one_more(old(self).to.events@, final(self).to.events@),
            final(self).to.events@.last() matches Event::ToolCode { major } && call_ensures(
                gcode::core::Number::major,
                (number,),
                major,
            ),
    {
        self.to.events.push(Event::ToolCode { major: number.major() });
        core::ops::ControlFlow::Continue(Passing)
    }

    fn end_line(self, _span: gcode::core::Span)
        ensures
            final(self.to).events@ == old(self.to).events@.push(Event::EndLine),
    {
        self.to.events.push(Event::EndLine);
    }
}

impl gcode::core::CommandVisitor for Recording<'_> {
    fn argument(&mut self, letter: char, value: gcode::core::Value<'_>, _span: gcode::core::Span)
        ensures
            worded(letter, value, old(self).to.events@, final(self).to.events@),
    {
        self.to.events.push(Event::Word { letter, value: value_of(value) });
    }
}

/// What the parser reports of a text: one event for each call of the visitor, in the
/// order of the calls.
pub uninterp spec fn reported(src: Seq<char>) -> Seq<Event>;

/// No line is left open.
pub open spec fn complete(events: Seq<Event>) -> bool {
    events.len() == 0 || events.last() is EndLine
}

/// `gcode::core::parse`: drives a visitor over the text, from the first line to the
/// last. The calls that it makes depend on nothing but the text, and the last one, if
/// any, ends a line.
///
/// What the calls are for a given text is not said here.
#[verifier::external_body]
pub(crate) fn parse(src: &str) -> (events: Vec<Event>)
    requires
        readable(src@),
    ensures
        events@ == reported(src@),
        complete(events@),
{
    let mut recorder = Recorder { events: Vec::new() };
    gcode::core::parse(src, &mut recorder);
    recorder.events
}

} // verus!
