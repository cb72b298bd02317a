//! What the delimiters that change the tree do once they are complete:
//! object and array, part, void, instruction and escape.

use crate::aslan_parser::ASLANParser;
use crate::events::{copy_texts, instructions_of, ASLANEventKind, ASLANRegisteredInstruction};
use crate::frame::{ASLANDataInsertionType, ASLANParserStateStackFrame, FrameView};
use crate::grammar::{ASLANDelimiterType, ASLANParserState};
use crate::node::{
    entry_is_container, entry_latest_part, entry_view, entry_with_part_added, parts_of_texts,
    text_length, Node, Tree,
};
use crate::reporting::count_object_frames;
use vstd::prelude::*;
use vstd::string::*;

verus! {

/// What a part delimiter makes of the entry under a key.
pub(crate) enum PartPlan {
    /// The entry has parts already: it takes the given parts.
    Grow(Node),
    /// The entry becomes a list of parts.
    Start(Node),
    /// The entry is left as it is.
    Keep,
}

/// What a part delimiter makes of `entry`.
pub(crate) fn plan_part(entry: Option<&Node>) -> (r: PartPlan)
    ensures
        match entry_view(entry) {
            Some(Tree::Sequence(parts)) => r matches PartPlan::Grow(node) && node@
                == Tree::Sequence(parts.push(Tree::Text(Seq::empty()))),
            Some(Tree::Mapping(_)) => r is Keep,
            Some(Tree::Text(s)) => r matches PartPlan::Start(node) && node@ == (if s.len() > 0 {
                Tree::Sequence(seq![Tree::Text(s), Tree::Text(Seq::empty())])
            } else {
                Tree::Sequence(seq![Tree::Text(Seq::empty())])
            }),
            _ => r matches PartPlan::Start(node) && node@ == Tree::Sequence(
                seq![Tree::Text(Seq::empty())],
            ),
        },
{
    match entry {
        Some(Node::Sequence(_)) => {
            match entry_with_part_added(entry) {
                Some(node) => PartPlan::Grow(node),
                None => PartPlan::Keep,
            }
        },
        Some(Node::Mapping(_)) => PartPlan::Keep,
        Some(Node::Text(s)) => {
            let mut texts: Vec<String> = Vec::new();
            if !s.as_str().is_empty() {
                texts.push(s.clone());
            }
            texts.push(String::new());
            let node = parts_of_texts(texts);
            proof {
                if s@.len() > 0 {
                    assert(node@->Sequence_0 =~= seq![Tree::Text(s@), Tree::Text(Seq::empty())]);
                } else {
                    assert(node@->Sequence_0 =~= seq![Tree::Text(Seq::empty())]);
                }
            }
            PartPlan::Start(node)
        },
        _ => {
            let mut texts: Vec<String> = Vec::new();
            texts.push(String::new());
            let node = parts_of_texts(texts);
            assert(node@->Sequence_0 =~= seq![Tree::Text(Seq::empty())]);
            PartPlan::Start(node)
        },
    }
}

impl ASLANParser {
    /// Opens a mapping under the current key: the key takes the empty
    /// mapping, and a new frame owns it.
    pub(crate) fn create_new_object(&mut self)
        requires
            old(self).sane(),
        ensures
            final(self).sane(),
            final(self)@ == old(self)@.open_container(ASLANDelimiterType::Object),
    {
        self.current_value = String::new();
        let last: usize = self.stack.len() - 1;
        let key = self.stack[last].current_key.clone();
        self.stack[last].inner_result.set(&key, Node::empty_mapping());
        self.stack.push(
            ASLANParserStateStackFrame::for_mapping(&self.parser_settings.default_field_name),
        );
        proof {
            let top = old(self)@.top();
            let parent = FrameView {
                tree: top.tree.set(top.current_key, Tree::Mapping(Seq::empty())),
                ..top
            };
            let child = FrameView::for_mapping(old(self)@.settings.default_field_name);
            assert(self@.stack =~= old(self)@.stack.update(last as int, parent).push(child));
        }
        self.sync_stack_to_root();
    }

    /// Opens a sequence under the current key: the key takes the empty
    /// sequence, and a new frame owns it.
    pub(crate) fn create_new_array(&mut self)
        requires
            old(self).sane(),
        ensures
            final(self).sane(),
            final(self)@ == old(self)@.open_container(ASLANDelimiterType::Array),
    {
        self.current_value = String::new();
        let last: usize = self.stack.len() - 1;
        let key = self.stack[last].current_key.clone();
        self.stack[last].inner_result.set(&key, Node::empty_sequence());
        self.stack.push(ASLANParserStateStackFrame::for_sequence());
        proof {
            let top = old(self)@.top();
            let parent = FrameView {
                tree: top.tree.set(top.current_key, Tree::Sequence(Seq::empty())),
                ..top
            };
            assert(self@.stack =~= old(self)@.stack.update(last as int, parent).push(
                FrameView::for_sequence(),
            ));
        }
        self.sync_stack_to_root();
    }

    /// Opens a container under the current key: a mapping for an object
    /// delimiter, else a sequence.
    pub(crate) fn open_container(&mut self, kind: ASLANDelimiterType)
        requires
            old(self).sane(),
        ensures
            final(self).sane(),
            final(self)@ == old(self)@.open_container(kind),
    {
        match kind {
            ASLANDelimiterType::Object => self.create_new_object(),
            _ => {
                assert(old(self)@.open_container(kind) == old(self)@.open_container(
                    ASLANDelimiterType::Array,
                ));
                self.create_new_array()
            },
        }
    }

    /// Closes the innermost container, where one is open.
    pub(crate) fn close_container(&mut self)
        requires
            old(self).sane(),
        ensures
            final(self).sane(),
            final(self)@ == old(self)@.close_container(),
    {
        if self.stack.len() > 1 {
            self.emit_end_events_if_required();
            self.emit_end_data_events_if_required();
            assert(self@.stack.len() == old(self)@.stack.len());
            self.sync_stack_to_root();
            let ghost before = self@.stack;
            assert(self.stack@.len() == before.len());
            self.stack.pop();
            assert(self@.stack =~= before.drop_last());
        }
    }

    /// An object or array delimiter was read.
    pub(crate) fn container_delimiter(&mut self, kind: ASLANDelimiterType)
        requires
            old(self).sane(),
        ensures
            final(self).sane(),
            final(self)@ == old(self)@.container_delimiter(kind),
    {
        let object = match kind {
            ASLANDelimiterType::Object => true,
            _ => false,
        };
        self.state = if object {
            ASLANParserState::Object
        } else {
            ASLANParserState::Array
        };
        self.delimiter_buffer = String::new();
        let after_data = match self.get_2nd_most_recent_material_delimiter() {
            Some(ASLANDelimiterType::Data) => true,
            _ => false,
        };
        let field = self.current_field();
        let held = entry_is_container(self.get_value_at_key());
        let substantial = self.get_object_safe_latest_result();
        let limit: Option<usize> = if object {
            self.parser_settings.max_object_depth
        } else {
            None
        };
        let limited = limit.is_some();
        let at_limit = match limit {
            Some(max) => count_object_frames(&self.stack) >= max,
            None => false,
        };
        let opens = if at_limit {
            false
        } else if limited && !held {
            true
        } else if substantial || !after_data {
            (held && after_data) || field.duplicate_seen
        } else {
            true
        };
        let replaces = field.duplicate_seen && (if limited && !held {
            true
        } else {
            !after_data || (substantial && !held)
        });
        if !opens {
            self.close_container();
        } else if replaces {
            let mut state = field;
            state.duplicate_seen = false;
            self.set_current_field(state);
            self.open_container(kind);
        } else {
            self.open_container(kind);
        }
    }

    /// A part delimiter was read.
    pub(crate) fn part_delimiter(&mut self)
        requires
            old(self).sane(),
        ensures
            final(self).sane(),
            final(self)@ == old(self)@.part_delimiter(),
    {
        let field = self.current_field();
        if !field.locked {
            match plan_part(self.get_value_at_key()) {
                PartPlan::Grow(parts) => {
                    self.emit_end_events_if_required();
                    self.set_value_at_key(parts);
                },
                PartPlan::Start(parts) => {
                    let mut state = field;
                    state.implicit_array = true;
                    self.set_current_field(state);
                    self.set_value_at_key(parts);
                },
                PartPlan::Keep => {},
            }
        }
        self.state = ASLANParserState::Data;
        self.delimiter_buffer = String::new();
        self.current_value = String::new();
        self.next_key();
    }

    /// A void delimiter was read.
    pub(crate) fn void_delimiter(&mut self)
        requires
            old(self).sane(),
        ensures
            final(self).sane(),
            final(self)@ == old(self)@.void_delimiter(),
    {
        self.state = ASLANParserState::Data;
        self.delimiter_buffer = String::new();
        self.current_value = String::new();
        let mut state = self.current_field();
        state.void = true;
        self.set_current_field(state);
        self.set_value_at_key(Node::Void);
    }

    /// An instruction delimiter was read.
    pub(crate) fn instruction_delimiter(&mut self)
        requires
            old(self).sane(),
        ensures
            final(self).sane(),
            final(self)@ == old(self)@.instruction_delimiter(),
    {
        let field = self.current_field();
        let entry = self.get_value_at_key();
        let is_container = entry_is_container(entry);
        let (index, part_index): (usize, usize) = match entry {
            Some(Node::Sequence(_)) => {
                let (latest, text) = entry_latest_part(entry);
                (text_length(&text), latest)
            },
            Some(Node::Text(s)) => (text_length(s), 0),
            _ => (0, 0),
        };
        self.state = ASLANParserState::Data;
        let keeps_first = match field.policy {
            Some(ASLANDataInsertionType::KeepFirst) => true,
            _ => false,
        };
        if !(field.duplicate_seen && keeps_first) {
            let name = match &self.current_delimiter.content {
                Some(content) => content.clone(),
                None => String::new(),
            };
            let instruction = ASLANRegisteredInstruction {
                key: self.get_current_key_string(),
                name,
                index,
                args: copy_texts(&self.current_delimiter.args),
                part_index,
            };
            let last: usize = self.stack.len() - 1;
            let ghost before = instructions_of(self.stack[last as int].registered_instructions@);
            self.stack[last].registered_instructions.push(instruction);
            proof {
                let top = old(self)@.top();
                assert(instructions_of(self.stack[last as int].registered_instructions@)
                    =~= before.push(instruction@));
                assert(self@.stack =~= old(self)@.stack.update(
                    last as int,
                    FrameView { instructions: top.instructions.push(instruction@), ..top },
                ));
            }
            if !is_container {
                self.emit_content_events_for_primitive_with_tag(ASLANEventKind::Content);
            }
            if field.implicit_array {
                self.emit_content_events_for_implicit_array_with_tag(ASLANEventKind::Content);
            }
        }
        self.delimiter_buffer = String::new();
        self.current_value = String::new();
    }

    /// An escape delimiter with the tag `tag` was read.
    pub(crate) fn escape_delimiter(&mut self, tag: String, ch: char)
        requires
            old(self).sane(),
        ensures
            final(self).sane(),
            final(self)@ == old(self)@.escape_delimiter(tag@, ch),
    {
        let closes: Option<bool> = match &self.current_escape_delimiter {
            Some(open) => Some(*open == tag),
            None => None,
        };
        match closes {
            None => {
                self.state = ASLANParserState::Escape;
                self.delimiter_buffer = String::new();
                self.current_value = String::new();
                self.current_escape_delimiter = Some(tag);
            },
            Some(true) => {
                self.state = ASLANParserState::Data;
                self.delimiter_buffer = String::new();
                self.current_value = String::new();
                self.current_escape_delimiter = None;
            },
            Some(false) => {
                self.exit_delimiter_into_data(ch);
            },
        }
    }
}

} // verus!
