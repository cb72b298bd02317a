//! The steps of the state machine: what one character makes of a state,
//! state by state, and what a whole input makes of it.

use crate::frame::ASLANDataInsertionType;
use crate::grammar::{
    kind_of_letter, policy_of_arg, state_after_letter, ASLANDelimiterType, ASLANParserState,
};
use crate::model::{opener, DelimiterView, ParserView};
use crate::recent_items::added;
use crate::text::{is_content_char, is_letter};
use vstd::prelude::*;

verus! {

/// How many delimiter kinds the parser looks back on.
pub open spec fn lookback() -> int {
    5
}

impl ParserView {
    /// The state with `ch` at the end of the delimiter buffer.
    pub open spec fn buffered(self, ch: char) -> ParserView {
        ParserView { delimiter_buffer: self.delimiter_buffer.push(ch), ..self }
    }

    /// The state after the delimiter buffer grew to `buffer`: the opening
    /// text may be complete with it.
    pub open spec fn matching(self, buffer: Seq<char>) -> ParserView {
        ParserView {
            state: if buffer == opener(self.settings.prefix) {
                ASLANParserState::Delimiter
            } else {
                ASLANParserState::MaybeDelimiter
            },
            delimiter_buffer: buffer,
            ..self
        }
    }

    /// Whether `ch` is the next character of the opening text.
    pub open spec fn continues_opener(self, ch: char) -> bool {
        let expected = opener(self.settings.prefix);
        self.delimiter_buffer.len() < expected.len() && expected[self.delimiter_buffer.len() as int]
            == ch
    }

    /// The state after a delimiter was read that changes nothing but the
    /// state: the buffer and the waiting text are dropped.
    pub open spec fn delimiter_done(self, state: ASLANParserState) -> ParserView {
        ParserView {
            state: state,
            delimiter_buffer: Seq::empty(),
            current_value: Seq::empty(),
            ..self
        }
    }

    /// The state after the underscore that opens the content of a
    /// delimiter.
    pub open spec fn content_opened(self, state: ASLANParserState, ch: char) -> ParserView {
        ParserView {
            state: state,
            delimiter: DelimiterView { content: Some(Seq::empty()), ..self.delimiter },
            current_value: Seq::empty(),
            ..self.buffered(ch)
        }
    }

    /// The state after one more character of the content.
    pub open spec fn content_grown(self, ch: char) -> ParserView {
        ParserView { delimiter: self.delimiter.with_content_char(ch), ..self.buffered(ch) }
    }

    /// The state after the colon that opens the arguments of a delimiter.
    pub open spec fn args_opened(self, state: ASLANParserState, ch: char) -> ParserView {
        ParserView {
            state: state,
            delimiter: DelimiterView { args: seq![Seq::empty()], ..self.delimiter },
            current_value: Seq::empty(),
            ..self.buffered(ch)
        }
    }

    /// The state after one more character of the arguments: a colon
    /// starts the next argument, anything else is part of the last.
    pub open spec fn args_grown(self, ch: char) -> ParserView {
        if ch == ':' {
            ParserView {
                delimiter: DelimiterView {
                    args: self.delimiter.args.push(Seq::empty()),
                    ..self.delimiter
                },
                ..self.buffered(ch)
            }
        } else {
            ParserView { delimiter: self.delimiter.with_arg_char(ch), ..self.buffered(ch) }
        }
    }

    /// A step in a state that reads text: `[` may open a delimiter.
    #[verifier::opaque]
    pub open spec fn step_bracket(self) -> ParserView {
        self.matching(self.delimiter_buffer.push('['))
    }

    /// A step while the opening text is matched.
    #[verifier::opaque]
    pub open spec fn step_maybe_delimiter(self, ch: char) -> ParserView {
        if self.continues_opener(ch) {
            self.matching(self.delimiter_buffer.push(ch))
        } else {
            self.exit_delimiter_into_data(ch)
        }
    }

    /// A step on the letter after the opening text. Inside an escape
    /// region only an escape delimiter is read; elsewhere one of the ten
    /// kinds, or a reserved delimiter for any other letter.
    #[verifier::opaque]
    pub open spec fn step_delimiter(self, ch: char) -> ParserView {
        let fresh = ParserView { delimiter: DelimiterView::none(), ..self };
        match kind_of_letter(ch) {
            Some(kind) => if self.current_escape_delimiter is Some && kind
                != ASLANDelimiterType::Escape {
                fresh.exit_delimiter_into_data(ch)
            } else {
                ParserView {
                    state: state_after_letter(kind),
                    recent_delimiters: added(self.recent_delimiters, kind, lookback()),
                    ..fresh.buffered(ch)
                }
            },
            None => if is_letter(ch) && self.current_escape_delimiter is None {
                ParserView { state: ASLANParserState::ReservedDelimiter, ..fresh.buffered(ch) }
            } else {
                fresh.exit_delimiter_into_data(ch)
            },
        }
    }

    /// A step after the letter of a data delimiter.
    #[verifier::opaque]
    pub open spec fn step_data_delimiter(self, ch: char) -> ParserView {
        if ch == ']' {
            if self.top().tree is Sequence {
                self.delimiter_done(
                    ASLANParserState::Data,
                ).emit_end_events().emit_end_data_events().next_key()
            } else {
                self.exit_delimiter_into_data(ch)
            }
        } else if ch == '_' {
            self.content_opened(ASLANParserState::DataDelimiterName, ch)
        } else {
            self.exit_delimiter_into_data(ch)
        }
    }

    /// A step in the name of a data delimiter.
    #[verifier::opaque]
    pub open spec fn step_data_delimiter_name(self, ch: char) -> ParserView {
        let content = self.delimiter.content_text();
        if ch == ':' && content.len() > 0 {
            if content.last() == '_' {
                self.exit_delimiter_into_data(ch)
            } else {
                self.args_opened(
                    ASLANParserState::DataDelimiterArgs,
                    ch,
                ).emit_end_events().emit_end_data_events().next_key()
            }
        } else if ch == ']' {
            if self.delimiter.content_complete() {
                let moved = ParserView {
                    state: ASLANParserState::Data,
                    ..self
                }.emit_end_events().emit_end_data_events().next_key();
                ParserView {
                    delimiter_buffer: Seq::empty(),
                    ..moved
                }.set_data_insertion_type(ASLANDataInsertionType::Default).separate_repeated_key()
            } else {
                self.exit_delimiter_into_data(ch)
            }
        } else if (ch == '_' && content.len() == 0) || !is_content_char(ch) {
            self.exit_delimiter_into_data(ch)
        } else {
            self.content_grown(ch)
        }
    }

    /// A step in the arguments of a data delimiter.
    #[verifier::opaque]
    pub open spec fn step_data_delimiter_args(self, ch: char) -> ParserView {
        if ch == ']' {
            ParserView {
                state: ASLANParserState::Data,
                delimiter_buffer: Seq::empty(),
                ..self
            }.set_data_insertion_type(
                policy_of_arg(self.delimiter.first_arg()),
            ).emit_end_events().emit_end_data_events().separate_repeated_key()
        } else {
            self.args_grown(ch)
        }
    }

    /// A step after the letter of an instruction delimiter: it needs a
    /// content.
    #[verifier::opaque]
    pub open spec fn step_instruction_delimiter(self, ch: char) -> ParserView {
        if ch == '_' {
            self.content_opened(ASLANParserState::InstructionDelimiterName, ch)
        } else {
            self.exit_delimiter_into_data(ch)
        }
    }

    /// A step after the letter of an escape delimiter: it needs a
    /// content.
    #[verifier::opaque]
    pub open spec fn step_escape_delimiter(self, ch: char) -> ParserView {
        if ch == '_' {
            self.content_opened(ASLANParserState::EscapeDelimiterName, ch)
        } else {
            self.exit_delimiter_into_data(ch)
        }
    }

    /// A step in the name of an instruction delimiter.
    #[verifier::opaque]
    pub open spec fn step_instruction_delimiter_name(self, ch: char) -> ParserView {
        let content = self.delimiter.content_text();
        if ch == ':' && content.len() > 0 {
            if content.last() == '_' {
                self.exit_delimiter_into_data(ch)
            } else {
                self.args_opened(ASLANParserState::InstructionDelimiterArgs, ch)
            }
        } else if ch == ']' {
            if self.delimiter.content_complete() {
                self.instruction_delimiter()
            } else {
                self.exit_delimiter_into_data(ch)
            }
        } else if (ch == '_' && content.len() == 0) || !is_content_char(ch) {
            self.exit_delimiter_into_data(ch)
        } else {
            self.content_grown(ch)
        }
    }

    /// A step in the arguments of an instruction delimiter.
    #[verifier::opaque]
    pub open spec fn step_instruction_delimiter_args(self, ch: char) -> ParserView {
        if ch == ']' {
            self.instruction_delimiter()
        } else {
            self.args_grown(ch)
        }
    }

    /// A step in the name of an escape delimiter.
    #[verifier::opaque]
    pub open spec fn step_escape_delimiter_name(self, ch: char) -> ParserView {
        let content = self.delimiter.content_text();
        if ch == ']' {
            if self.delimiter.content_complete() {
                self.escape_delimiter(content, ch)
            } else {
                self.exit_delimiter_into_data(ch)
            }
        } else if (ch == '_' && content.len() == 0) || !is_content_char(ch) {
            self.exit_delimiter_into_data(ch)
        } else {
            self.content_grown(ch)
        }
    }

    /// A step after the letter of a reserved delimiter: `]` completes
    /// it, and it changes nothing.
    #[verifier::opaque]
    pub open spec fn step_reserved_delimiter(self, ch: char) -> ParserView {
        if ch == ']' {
            self.delimiter_done(ASLANParserState::Data)
        } else {
            self.exit_delimiter_into_data(ch)
        }
    }

    /// A step after the letter of an object delimiter.
    #[verifier::opaque]
    pub open spec fn step_object_delimiter(self, ch: char) -> ParserView {
        if ch == ']' {
            self.container_delimiter(ASLANDelimiterType::Object)
        } else {
            self.exit_delimiter_into_data(ch)
        }
    }

    /// A step after the letter of an array delimiter.
    #[verifier::opaque]
    pub open spec fn step_array_delimiter(self, ch: char) -> ParserView {
        if ch == ']' {
            self.container_delimiter(ASLANDelimiterType::Array)
        } else {
            self.exit_delimiter_into_data(ch)
        }
    }

    /// A step after the letter of a void delimiter.
    #[verifier::opaque]
    pub open spec fn step_void_delimiter(self, ch: char) -> ParserView {
        if ch == ']' {
            self.void_delimiter()
        } else {
            self.exit_delimiter_into_data(ch)
        }
    }

    /// A step after the letter of a part delimiter.
    #[verifier::opaque]
    pub open spec fn step_part_delimiter(self, ch: char) -> ParserView {
        if ch == ']' {
            self.part_delimiter()
        } else {
            self.exit_delimiter_into_data(ch)
        }
    }

    /// A step after the letter of a comment delimiter.
    #[verifier::opaque]
    pub open spec fn step_comment_delimiter(self, ch: char) -> ParserView {
        if ch == ']' {
            self.delimiter_done(ASLANParserState::Comment)
        } else {
            self.exit_delimiter_into_data(ch)
        }
    }

    /// A step after the letter of a go delimiter.
    #[verifier::opaque]
    pub open spec fn step_go_delimiter(self, ch: char) -> ParserView {
        if ch == ']' {
            self.go()
        } else {
            self.exit_delimiter_into_data(ch)
        }
    }

    /// A step after the letter of a stop delimiter.
    #[verifier::opaque]
    pub open spec fn step_stop_delimiter(self, ch: char) -> ParserView {
        if ch == ']' {
            self.stop()
        } else {
            self.exit_delimiter_into_data(ch)
        }
    }

    /// The state with `ch` at the end of the waiting text.
    pub open spec fn appended(self, ch: char) -> ParserView {
        ParserView { current_value: self.current_value.push(ch), ..self }
    }

    /// A step at the start of the input: the first character of a text
    /// waits.
    #[verifier::opaque]
    pub open spec fn step_start(self, ch: char) -> ParserView {
        if ch == '[' {
            self.step_bracket()
        } else {
            ParserView { state: ASLANParserState::Data, ..self.appended(ch) }
        }
    }

    /// A step after a go delimiter.
    #[verifier::opaque]
    pub open spec fn step_go(self, ch: char) -> ParserView {
        if ch == '[' {
            self.step_bracket()
        } else {
            self.exit_delimiter_into_data(ch)
        }
    }

    /// A step after a stop delimiter, after an object delimiter or after
    /// an array delimiter: text waits and is not stored.
    #[verifier::opaque]
    pub open spec fn step_waiting(self, ch: char) -> ParserView {
        if ch == '[' {
            self.step_bracket()
        } else {
            self.appended(ch)
        }
    }

    /// A step in a comment: everything up to the next `[` is dropped.
    #[verifier::opaque]
    pub open spec fn step_comment(self, ch: char) -> ParserView {
        if ch == '[' {
            self.step_bracket()
        } else {
            self
        }
    }

    /// A step in a text: each character is stored at once.
    #[verifier::opaque]
    pub open spec fn step_data(self, ch: char) -> ParserView {
        if ch == '[' {
            self.step_bracket()
        } else {
            self.appended(ch).store_current_value()
        }
    }

    /// A step right after the delimiter that opened an escape region.
    #[verifier::opaque]
    pub open spec fn step_escape(self, ch: char) -> ParserView {
        if ch == '[' {
            self.step_bracket()
        } else {
            ParserView {
                state: ASLANParserState::Data,
                ..self.appended(ch)
            }.store_current_value()
        }
    }

    /// A step while parsing is unlocked.
    #[verifier::opaque]
    pub open spec fn step_unlocked(self, ch: char) -> ParserView {
        match self.state {
            ASLANParserState::GoDelimiter => self.step_go_delimiter(ch),
            ASLANParserState::StopDelimiter => self.step_stop_delimiter(ch),
            ASLANParserState::Go => self.step_go(ch),
            ASLANParserState::Stop => self.step_waiting(ch),
            ASLANParserState::Start => self.step_start(ch),
            ASLANParserState::MaybeDelimiter => self.step_maybe_delimiter(ch),
            ASLANParserState::Delimiter => self.step_delimiter(ch),
            ASLANParserState::ReservedDelimiter => self.step_reserved_delimiter(ch),
            ASLANParserState::Object => self.step_waiting(ch),
            ASLANParserState::Array => self.step_waiting(ch),
            ASLANParserState::Comment => self.step_comment(ch),
            ASLANParserState::Escape => self.step_escape(ch),
            ASLANParserState::InstructionDelimiter => self.step_instruction_delimiter(ch),
            ASLANParserState::InstructionDelimiterName => self.step_instruction_delimiter_name(
                ch,
            ),
            ASLANParserState::InstructionDelimiterArgs => self.step_instruction_delimiter_args(
                ch,
            ),
            ASLANParserState::DataDelimiter => self.step_data_delimiter(ch),
            ASLANParserState::DataDelimiterName => self.step_data_delimiter_name(ch),
            ASLANParserState::DataDelimiterArgs => self.step_data_delimiter_args(ch),
            ASLANParserState::ObjectDelimiter => self.step_object_delimiter(ch),
            ASLANParserState::ArrayDelimiter => self.step_array_delimiter(ch),
            ASLANParserState::VoidDelimiter => self.step_void_delimiter(ch),
            ASLANParserState::CommentDelimiter => self.step_comment_delimiter(ch),
            ASLANParserState::EscapeDelimiter => self.step_escape_delimiter(ch),
            ASLANParserState::EscapeDelimiterName => self.step_escape_delimiter_name(ch),
            ASLANParserState::PartDelimiter => self.step_part_delimiter(ch),
            ASLANParserState::Data => self.step_data(ch),
            ASLANParserState::Locked => self.step_comment(ch),
        }
    }

    /// The state in which a locked parser waits for the next `[`.
    pub open spec fn relocked(self) -> ParserView {
        ParserView {
            state: ASLANParserState::Locked,
            delimiter_buffer: Seq::empty(),
            ..self
        }
    }

    /// A step while parsing is locked: everything is ignored but a go
    /// delimiter.
    #[verifier::opaque]
    pub open spec fn step_locked(self, ch: char) -> ParserView {
        match self.state {
            ASLANParserState::MaybeDelimiter => if self.continues_opener(ch) {
                self.matching(self.delimiter_buffer.push(ch))
            } else {
                self.relocked()
            },
            ASLANParserState::Delimiter => if ch == 'g' {
                ParserView {
                    state: ASLANParserState::GoDelimiter,
                    delimiter: DelimiterView::none(),
                    recent_delimiters: added(
                        self.recent_delimiters,
                        ASLANDelimiterType::Go,
                        lookback(),
                    ),
                    ..self.buffered(ch)
                }
            } else {
                self.relocked()
            },
            ASLANParserState::GoDelimiter => if ch == ']' {
                self.go()
            } else {
                self.relocked()
            },
            _ => if ch == '[' {
                self.relocked().step_bracket()
            } else {
                self.relocked()
            },
        }
    }

    /// The state after one character.
    #[verifier::opaque]
    pub open spec fn step(self, ch: char) -> ParserView {
        if self.parsing_locked {
            self.step_locked(ch)
        } else {
            self.step_unlocked(ch)
        }
    }

    /// The state after the characters of `input`, one by one.
    pub open spec fn feed(self, input: Seq<char>) -> ParserView
        decreases input.len(),
    {
        if input.len() == 0 {
            self
        } else {
            self.feed(input.drop_last()).step(input.last())
        }
    }
}

} // verus!
