//! The handlers: one for each state of the parser, each taking one
//! character.

use crate::aslan_parser::{ASLANDelimiterData, ASLANParser};
use crate::events::texts_of;
use crate::frame::ASLANDataInsertionType;
use crate::grammar::{
    delimiter_kind, policy_of_arg, state_for_kind, ASLANDelimiterType, ASLANParserState,
};
use crate::model::ParserView;
use crate::node::Node;
use crate::text::{char_is_content, char_is_letter, ends_with_underscore, push_char};
use vstd::prelude::*;
use vstd::string::*;

verus! {

/// The write policy that the first argument of a data delimiter selects.
pub(crate) fn policy_for_arg(arg: &str) -> (r: ASLANDataInsertionType)
    ensures
        r == policy_of_arg(arg@),
{
    if arg.unicode_len() == 1 {
        let c = arg.get_char(0);
        assert(arg@ =~= seq![c]);
        if c == 'a' {
            ASLANDataInsertionType::Append
        } else if c == 'f' {
            ASLANDataInsertionType::KeepFirst
        } else if c == 'l' {
            ASLANDataInsertionType::KeepLast
        } else {
            ASLANDataInsertionType::Default
        }
    } else {
        assert(seq!['a'].len() == 1 && seq!['f'].len() == 1 && seq!['l'].len() == 1);
        ASLANDataInsertionType::Default
    }
}

impl ASLANParser {
    /// Whether `ch` is the next character of the opening text.
    pub(crate) fn continues_opener(&self, ch: char) -> (r: bool)
        requires
            self.sane(),
        ensures
            r == self@.continues_opener(ch),
    {
        let n: usize = self.delimiter_buffer.as_str().unicode_len();
        n < self.delimiter_open_substring.as_str().unicode_len()
            && self.delimiter_open_substring.as_str().get_char(n) == ch
    }

    /// Takes `ch` into the delimiter buffer; the opening text may be
    /// complete with it.
    pub(crate) fn match_opener(&mut self, ch: char)
        requires
            old(self).sane(),
        ensures
            final(self).sane(),
            final(self)@ == old(self)@.matching(old(self)@.delimiter_buffer.push(ch)),
    {
        push_char(&mut self.delimiter_buffer, ch);
        self.state = if self.delimiter_buffer == self.delimiter_open_substring {
            ASLANParserState::Delimiter
        } else {
            ASLANParserState::MaybeDelimiter
        };
    }

    /// The buffer and the waiting text are dropped, and the parser reads
    /// on in `state`.
    pub(crate) fn delimiter_done(&mut self, state: ASLANParserState)
        requires
            old(self).sane(),
        ensures
            final(self).sane(),
            final(self)@ == old(self)@.delimiter_done(state),
    {
        self.state = state;
        self.delimiter_buffer = String::new();
        self.current_value = String::new();
    }

    /// The underscore that opens the content of a delimiter was read.
    pub(crate) fn open_content(&mut self, state: ASLANParserState, ch: char)
        requires
            old(self).sane(),
        ensures
            final(self).sane(),
            final(self)@ == old(self)@.content_opened(state, ch),
    {
        self.state = state;
        push_char(&mut self.delimiter_buffer, ch);
        self.current_delimiter.content = Some(String::new());
        self.current_value = String::new();
    }

    /// One more character of the content was read.
    pub(crate) fn grow_content(&mut self, ch: char)
        requires
            old(self).sane(),
        ensures
            final(self).sane(),
            final(self)@ == old(self)@.content_grown(ch),
    {
        let mut content = match &self.current_delimiter.content {
            Some(c) => c.clone(),
            None => String::new(),
        };
        push_char(&mut content, ch);
        self.current_delimiter.content = Some(content);
        push_char(&mut self.delimiter_buffer, ch);
    }

    /// The colon that opens the arguments of a delimiter was read.
    pub(crate) fn open_args(&mut self, state: ASLANParserState, ch: char)
        requires
            old(self).sane(),
        ensures
            final(self).sane(),
            final(self)@ == old(self)@.args_opened(state, ch),
    {
        self.state = state;
        let mut args: Vec<String> = Vec::new();
        args.push(String::new());
        assert(texts_of(args@) =~= seq![Seq::<char>::empty()]);
        self.current_delimiter.args = args;
        self.current_value = String::new();
        push_char(&mut self.delimiter_buffer, ch);
    }

    /// One more character of the arguments was read.
    pub(crate) fn grow_args(&mut self, ch: char)
        requires
            old(self).sane(),
        ensures
            final(self).sane(),
            final(self)@ == old(self)@.args_grown(ch),
    {
        let ghost before = texts_of(self.current_delimiter.args@);
        if ch == ':' {
            self.current_delimiter.args.push(String::new());
            assert(texts_of(self.current_delimiter.args@) =~= before.push(Seq::empty()));
        } else {
            let n: usize = self.current_delimiter.args.len();
            if n > 0 {
                let mut last = self.current_delimiter.args[n - 1].clone();
                push_char(&mut last, ch);
                self.current_delimiter.args[n - 1] = last;
                assert(texts_of(self.current_delimiter.args@) =~= before.update(
                    n - 1,
                    before.last().push(ch),
                ));
            }
        }
        push_char(&mut self.delimiter_buffer, ch);
    }

    /// The content read so far is empty.
    pub(crate) fn content_is_empty(&self) -> (r: bool)
        ensures
            r == (self@.delimiter.content_text().len() == 0),
    {
        match &self.current_delimiter.content {
            Some(c) => c.as_str().is_empty(),
            None => true,
        }
    }

    /// The content read so far ends with an underscore.
    pub(crate) fn content_ends_with_underscore(&self) -> (r: bool)
        ensures
            r == (self@.delimiter.content_text().len() > 0 && self@.delimiter.content_text().last()
                == '_'),
    {
        match &self.current_delimiter.content {
            Some(c) => ends_with_underscore(c.as_str()),
            None => false,
        }
    }

    /// The content is complete.
    pub(crate) fn content_is_complete(&self) -> (r: bool)
        ensures
            r == self@.delimiter.content_complete(),
    {
        !self.content_is_empty() && !self.content_ends_with_underscore()
    }

    /// `[` was read in a state that reads text.
    pub(crate) fn handle_bracket(&mut self)
        requires
            old(self).sane(),
        ensures
            final(self).sane(),
            final(self)@ == old(self)@.step_bracket(),
    {
        reveal(ParserView::step_bracket);
        self.match_opener('[');
    }

    /// Takes one character while the opening text is matched.
    pub(crate) fn handle_maybe_delimiter(&mut self, ch: char)
        requires
            old(self).sane(),
        ensures
            final(self).sane(),
            final(self)@ == old(self)@.step_maybe_delimiter(ch),
    {
        reveal(ParserView::step_maybe_delimiter);
        if self.continues_opener(ch) {
            self.match_opener(ch);
        } else {
            self.exit_delimiter_into_data(ch);
        }
    }

    /// Takes the letter after the opening text: it selects the kind of
    /// delimiter.
    pub(crate) fn handle_delimiter(&mut self, ch: char)
        requires
            old(self).sane(),
        ensures
            final(self).sane(),
            final(self)@ == old(self)@.step_delimiter(ch),
    {
        reveal(ParserView::step_delimiter);
        self.current_delimiter = ASLANDelimiterData::none();
        let escaping = self.current_escape_delimiter.is_some();
        match delimiter_kind(ch) {
            Some(kind) => {
                let is_escape = match kind {
                    ASLANDelimiterType::Escape => true,
                    _ => false,
                };
                if escaping && !is_escape {
                    self.exit_delimiter_into_data(ch);
                } else {
                    self.state = state_for_kind(kind);
                    push_char(&mut self.delimiter_buffer, ch);
                    self.recent_delimiters.add(kind);
                }
            },
            None => {
                if char_is_letter(ch) && !escaping {
                    self.state = ASLANParserState::ReservedDelimiter;
                    push_char(&mut self.delimiter_buffer, ch);
                } else {
                    self.exit_delimiter_into_data(ch);
                }
            },
        }
    }

    /// Takes one character after the letter of a reserved delimiter.
    pub(crate) fn handle_reserved_delimiter(&mut self, ch: char)
        requires
            old(self).sane(),
        ensures
            final(self).sane(),
            final(self)@ == old(self)@.step_reserved_delimiter(ch),
    {
        reveal(ParserView::step_reserved_delimiter);
        if ch == ']' {
            self.delimiter_done(ASLANParserState::Data);
        } else {
            self.exit_delimiter_into_data(ch);
        }
    }

    /// Takes one character after the letter of an object delimiter.
    pub(crate) fn handle_object_delimiter(&mut self, ch: char)
        requires
            old(self).sane(),
        ensures
            final(self).sane(),
            final(self)@ == old(self)@.step_object_delimiter(ch),
    {
        reveal(ParserView::step_object_delimiter);
        if ch == ']' {
            self.container_delimiter(ASLANDelimiterType::Object);
        } else {
            self.exit_delimiter_into_data(ch);
        }
    }

    /// Takes one character after the letter of an array delimiter.
    pub(crate) fn handle_array_delimiter(&mut self, ch: char)
        requires
            old(self).sane(),
        ensures
            final(self).sane(),
            final(self)@ == old(self)@.step_array_delimiter(ch),
    {
        reveal(ParserView::step_array_delimiter);
        if ch == ']' {
            self.container_delimiter(ASLANDelimiterType::Array);
        } else {
            self.exit_delimiter_into_data(ch);
        }
    }

    /// Takes one character after the letter of a void delimiter.
    pub(crate) fn handle_void_delimiter(&mut self, ch: char)
        requires
            old(self).sane(),
        ensures
            final(self).sane(),
            final(self)@ == old(self)@.step_void_delimiter(ch),
    {
        reveal(ParserView::step_void_delimiter);
        if ch == ']' {
            self.void_delimiter();
        } else {
            self.exit_delimiter_into_data(ch);
        }
    }

    /// Takes one character after the letter of a part delimiter.
    pub(crate) fn handle_part_delimiter(&mut self, ch: char)
        requires
            old(self).sane(),
        ensures
            final(self).sane(),
            final(self)@ == old(self)@.step_part_delimiter(ch),
    {
        reveal(ParserView::step_part_delimiter);
        if ch == ']' {
            self.part_delimiter();
        } else {
            self.exit_delimiter_into_data(ch);
        }
    }

    /// Takes one character after the letter of a comment delimiter.
    pub(crate) fn handle_comment_delimiter(&mut self, ch: char)
        requires
            old(self).sane(),
        ensures
            final(self).sane(),
            final(self)@ == old(self)@.step_comment_delimiter(ch),
    {
        reveal(ParserView::step_comment_delimiter);
        if ch == ']' {
            self.delimiter_done(ASLANParserState::Comment);
        } else {
            self.exit_delimiter_into_data(ch);
        }
    }

    /// Takes one character after the letter of a go delimiter.
    pub(crate) fn handle_go_delimiter(&mut self, ch: char)
        requires
            old(self).sane(),
        ensures
            final(self).sane(),
            final(self)@ == old(self)@.step_go_delimiter(ch),
    {
        reveal(ParserView::step_go_delimiter);
        if ch == ']' {
            self.go();
        } else {
            self.exit_delimiter_into_data(ch);
        }
    }

    /// Takes one character after the letter of a stop delimiter.
    pub(crate) fn handle_stop_delimiter(&mut self, ch: char)
        requires
            old(self).sane(),
        ensures
            final(self).sane(),
            final(self)@ == old(self)@.step_stop_delimiter(ch),
    {
        reveal(ParserView::step_stop_delimiter);
        if ch == ']' {
            self.stop();
        } else {
            self.exit_delimiter_into_data(ch);
        }
    }

    /// Takes one character after the letter of a data delimiter.
    pub(crate) fn handle_data_delimiter(&mut self, ch: char)
        requires
            old(self).sane(),
        ensures
            final(self).sane(),
            final(self)@ == old(self)@.step_data_delimiter(ch),
    {
        reveal(ParserView::step_data_delimiter);
        if ch == ']' {
            let is_sequence = match &self.stack[self.stack.len() - 1].inner_result {
                Node::Sequence(_) => true,
                _ => false,
            };
            if is_sequence {
                self.delimiter_done(ASLANParserState::Data);
                self.emit_end_events_if_required();
                self.emit_end_data_events_if_required();
                self.next_key();
            } else {
                self.exit_delimiter_into_data(ch);
            }
        } else if ch == '_' {
            self.open_content(ASLANParserState::DataDelimiterName, ch);
        } else {
            self.exit_delimiter_into_data(ch);
        }
    }

    /// Takes one character in the name of a data delimiter.
    pub(crate) fn handle_data_delimiter_name(&mut self, ch: char)
        requires
            old(self).sane(),
        ensures
            final(self).sane(),
            final(self)@ == old(self)@.step_data_delimiter_name(ch),
    {
        reveal(ParserView::step_data_delimiter_name);
        let empty = self.content_is_empty();
        if ch == ':' && !empty {
            if self.content_ends_with_underscore() {
                self.exit_delimiter_into_data(ch);
            } else {
                self.open_args(ASLANParserState::DataDelimiterArgs, ch);
                self.emit_end_events_if_required();
                self.emit_end_data_events_if_required();
                self.next_key();
            }
        } else if ch == ']' {
            if self.content_is_complete() {
                self.state = ASLANParserState::Data;
                self.emit_end_events_if_required();
                self.emit_end_data_events_if_required();
                self.next_key();
                self.delimiter_buffer = String::new();
                self.set_data_insertion_type(ASLANDataInsertionType::Default);
                self.separate_repeated_key();
            } else {
                self.exit_delimiter_into_data(ch);
            }
        } else if (ch == '_' && empty) || !char_is_content(ch) {
            self.exit_delimiter_into_data(ch);
        } else {
            self.grow_content(ch);
        }
    }

    /// Takes one character in the arguments of a data delimiter.
    pub(crate) fn handle_data_delimiter_args(&mut self, ch: char)
        requires
            old(self).sane(),
        ensures
            final(self).sane(),
            final(self)@ == old(self)@.step_data_delimiter_args(ch),
    {
        reveal(ParserView::step_data_delimiter_args);
        if ch == ']' {
            self.state = ASLANParserState::Data;
            self.delimiter_buffer = String::new();
            let policy = if self.current_delimiter.args.len() > 0 {
                policy_for_arg(self.current_delimiter.args[0].as_str())
            } else {
                assert(seq!['a'].len() == 1 && seq!['f'].len() == 1 && seq!['l'].len() == 1);
                ASLANDataInsertionType::Default
            };
            self.set_data_insertion_type(policy);
            self.emit_end_events_if_required();
            self.emit_end_data_events_if_required();
            self.separate_repeated_key();
        } else {
            self.grow_args(ch);
        }
    }

    /// Takes one character after the letter of an instruction delimiter.
    pub(crate) fn handle_instruction_delimiter(&mut self, ch: char)
        requires
            old(self).sane(),
        ensures
            final(self).sane(),
            final(self)@ == old(self)@.step_instruction_delimiter(ch),
    {
        reveal(ParserView::step_instruction_delimiter);
        if ch == '_' {
            self.open_content(ASLANParserState::InstructionDelimiterName, ch);
        } else {
            self.exit_delimiter_into_data(ch);
        }
    }

    /// Takes one character in the name of an instruction delimiter.
    pub(crate) fn handle_instruction_delimiter_name(&mut self, ch: char)
        requires
            old(self).sane(),
        ensures
            final(self).sane(),
            final(self)@ == old(self)@.step_instruction_delimiter_name(ch),
    {
        reveal(ParserView::step_instruction_delimiter_name);
        let empty = self.content_is_empty();
        if ch == ':' && !empty {
            if self.content_ends_with_underscore() {
                self.exit_delimiter_into_data(ch);
            } else {
                self.open_args(ASLANParserState::InstructionDelimiterArgs, ch);
            }
        } else if ch == ']' {
            if self.content_is_complete() {
                self.instruction_delimiter();
            } else {
                self.exit_delimiter_into_data(ch);
            }
        } else if (ch == '_' && empty) || !char_is_content(ch) {
            self.exit_delimiter_into_data(ch);
        } else {
            self.grow_content(ch);
        }
    }

    /// Takes one character in the arguments of an instruction delimiter.
    pub(crate) fn handle_instruction_delimiter_args(&mut self, ch: char)
        requires
            old(self).sane(),
        ensures
            final(self).sane(),
            final(self)@ == old(self)@.step_instruction_delimiter_args(ch),
    {
        reveal(ParserView::step_instruction_delimiter_args);
        if ch == ']' {
            self.instruction_delimiter();
        } else {
            self.grow_args(ch);
        }
    }

    /// Takes one character after the letter of an escape delimiter.
    pub(crate) fn handle_escape_delimiter(&mut self, ch: char)
        requires
            old(self).sane(),
        ensures
            final(self).sane(),
            final(self)@ == old(self)@.step_escape_delimiter(ch),
    {
        reveal(ParserView::step_escape_delimiter);
        if ch == '_' {
            self.open_content(ASLANParserState::EscapeDelimiterName, ch);
        } else {
            self.exit_delimiter_into_data(ch);
        }
    }

    /// Takes one character in the name of an escape delimiter.
    pub(crate) fn handle_escape_delimiter_name(&mut self, ch: char)
        requires
            old(self).sane(),
        ensures
            final(self).sane(),
            final(self)@ == old(self)@.step_escape_delimiter_name(ch),
    {
        reveal(ParserView::step_escape_delimiter_name);
        let empty = self.content_is_empty();
        if ch == ']' {
            if self.content_is_complete() {
                let tag = match &self.current_delimiter.content {
                    Some(c) => c.clone(),
                    None => String::new(),
                };
                self.escape_delimiter(tag, ch);
            } else {
                self.exit_delimiter_into_data(ch);
            }
        } else if (ch == '_' && empty) || !char_is_content(ch) {
            self.exit_delimiter_into_data(ch);
        } else {
            self.grow_content(ch);
        }
    }

    /// Takes `ch` to the end of the waiting text.
    pub(crate) fn append_to_current_value(&mut self, ch: char)
        requires
            old(self).sane(),
        ensures
            final(self).sane(),
            final(self)@ == old(self)@.appended(ch),
    {
        push_char(&mut self.current_value, ch);
    }

    /// Takes one character at the start of the input.
    pub(crate) fn handle_start(&mut self, ch: char)
        requires
            old(self).sane(),
        ensures
            final(self).sane(),
            final(self)@ == old(self)@.step_start(ch),
    {
        reveal(ParserView::step_start);
        if ch == '[' {
            self.handle_bracket();
        } else {
            self.state = ASLANParserState::Data;
            self.append_to_current_value(ch);
        }
    }

    /// Takes one character after a go delimiter.
    pub(crate) fn handle_go(&mut self, ch: char)
        requires
            old(self).sane(),
        ensures
            final(self).sane(),
            final(self)@ == old(self)@.step_go(ch),
    {
        reveal(ParserView::step_go);
        if ch == '[' {
            self.handle_bracket();
        } else {
            self.exit_delimiter_into_data(ch);
        }
    }

    /// Takes one character after a stop delimiter.
    pub(crate) fn handle_stop(&mut self, ch: char)
        requires
            old(self).sane(),
        ensures
            final(self).sane(),
            final(self)@ == old(self)@.step_waiting(ch),
    {
        reveal(ParserView::step_waiting);
        if ch == '[' {
            self.handle_bracket();
        } else {
            self.append_to_current_value(ch);
        }
    }

    /// Takes one character after an object delimiter.
    pub(crate) fn handle_object(&mut self, ch: char)
        requires
            old(self).sane(),
        ensures
            final(self).sane(),
            final(self)@ == old(self)@.step_waiting(ch),
    {
        reveal(ParserView::step_waiting);
        if ch == '[' {
            self.handle_bracket();
        } else {
            self.append_to_current_value(ch);
        }
    }

    /// Takes one character after an array delimiter.
    pub(crate) fn handle_array(&mut self, ch: char)
        requires
            old(self).sane(),
        ensures
            final(self).sane(),
            final(self)@ == old(self)@.step_waiting(ch),
    {
        reveal(ParserView::step_waiting);
        if ch == '[' {
            self.handle_bracket();
        } else {
            self.append_to_current_value(ch);
        }
    }

    /// Takes one character in a comment.
    pub(crate) fn handle_comment(&mut self, ch: char)
        requires
            old(self).sane(),
        ensures
            final(self).sane(),
            final(self)@ == old(self)@.step_comment(ch),
    {
        reveal(ParserView::step_comment);
        if ch == '[' {
            self.handle_bracket();
        }
    }

    /// Takes one character right after the delimiter that opened an escape
    /// region.
    pub(crate) fn handle_escape(&mut self, ch: char)
        requires
            old(self).sane(),
        ensures
            final(self).sane(),
            final(self)@ == old(self)@.step_escape(ch),
    {
        reveal(ParserView::step_escape);
        if ch == '[' {
            self.handle_bracket();
        } else {
            self.state = ASLANParserState::Data;
            self.append_to_current_value(ch);
            self.store_current_value();
        }
    }

    /// Takes one character of a text.
    pub(crate) fn handle_data(&mut self, ch: char)
        requires
            old(self).sane(),
        ensures
            final(self).sane(),
            final(self)@ == old(self)@.step_data(ch),
    {
        reveal(ParserView::step_data);
        if ch == '[' {
            self.handle_bracket();
        } else {
            self.append_to_current_value(ch);
            self.store_current_value();
        }
    }

    /// Takes one character while parsing is locked.
    pub(crate) fn handle_locked(&mut self, ch: char)
        requires
            old(self).sane(),
        ensures
            final(self).sane(),
            final(self)@ == old(self)@.step_locked(ch),
    {
        reveal(ParserView::step_locked);
        match self.state {
            ASLANParserState::MaybeDelimiter => {
                if self.continues_opener(ch) {
                    self.match_opener(ch);
                } else {
                    self.state = ASLANParserState::Locked;
                    self.delimiter_buffer = String::new();
                }
            },
            ASLANParserState::Delimiter => {
                if ch == 'g' {
                    self.state = ASLANParserState::GoDelimiter;
                    self.current_delimiter = ASLANDelimiterData::none();
                    push_char(&mut self.delimiter_buffer, ch);
                    self.recent_delimiters.add(ASLANDelimiterType::Go);
                } else {
                    self.state = ASLANParserState::Locked;
                    self.delimiter_buffer = String::new();
                }
            },
            ASLANParserState::GoDelimiter => {
                if ch == ']' {
                    self.go();
                } else {
                    self.state = ASLANParserState::Locked;
                    self.delimiter_buffer = String::new();
                }
            },
            _ => {
                self.state = ASLANParserState::Locked;
                self.delimiter_buffer = String::new();
                if ch == '[' {
                    self.handle_bracket();
                }
            },
        }
    }

    /// Takes one character.
    pub(crate) fn handle_next_char(&mut self, ch: char)
        requires
            old(self).sane(),
        ensures
            final(self).sane(),
            final(self)@ == old(self)@.step(ch),
    {
        reveal(ParserView::step);
        reveal(ParserView::step_unlocked);
        if self.parsing_locked {
            self.handle_locked(ch);
            return ;
        }
        match self.state {
            ASLANParserState::GoDelimiter => self.handle_go_delimiter(ch),
            ASLANParserState::StopDelimiter => self.handle_stop_delimiter(ch),
            ASLANParserState::Go => self.handle_go(ch),
            ASLANParserState::Stop => self.handle_stop(ch),
            ASLANParserState::Start => self.handle_start(ch),
            ASLANParserState::MaybeDelimiter => self.handle_maybe_delimiter(ch),
            ASLANParserState::Delimiter => self.handle_delimiter(ch),
            ASLANParserState::ReservedDelimiter => self.handle_reserved_delimiter(ch),
            ASLANParserState::Object => self.handle_object(ch),
            ASLANParserState::Array => self.handle_array(ch),
            ASLANParserState::Comment => self.handle_comment(ch),
            ASLANParserState::Escape => self.handle_escape(ch),
            ASLANParserState::InstructionDelimiter => self.handle_instruction_delimiter(ch),
            ASLANParserState::InstructionDelimiterName => self.handle_instruction_delimiter_name(
                ch,
            ),
            ASLANParserState::InstructionDelimiterArgs => self.handle_instruction_delimiter_args(
                ch,
            ),
            ASLANParserState::DataDelimiter => self.handle_data_delimiter(ch),
            ASLANParserState::DataDelimiterName => self.handle_data_delimiter_name(ch),
            ASLANParserState::DataDelimiterArgs => self.handle_data_delimiter_args(ch),
            ASLANParserState::ObjectDelimiter => self.handle_object_delimiter(ch),
            ASLANParserState::ArrayDelimiter => self.handle_array_delimiter(ch),
            ASLANParserState::VoidDelimiter => self.handle_void_delimiter(ch),
            ASLANParserState::CommentDelimiter => self.handle_comment_delimiter(ch),
            ASLANParserState::EscapeDelimiter => self.handle_escape_delimiter(ch),
            ASLANParserState::EscapeDelimiterName => self.handle_escape_delimiter_name(ch),
            ASLANParserState::PartDelimiter => self.handle_part_delimiter(ch),
            ASLANParserState::Data => self.handle_data(ch),
            ASLANParserState::Locked => self.handle_comment(ch),
        }
    }
}

} // verus!
