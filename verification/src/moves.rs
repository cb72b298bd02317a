//! What a complete delimiter does: moving to the next key, assigning a
//! policy, opening and closing containers and documents.

use crate::aslan_parser::{ASLANDelimiterData, ASLANParser};
use crate::events::{instructions_of, ASLANRegisteredInstruction};
use crate::frame::{ASLANDataInsertionType, ASLANParserStateStackFrame, FrameView};
use crate::grammar::{ASLANDelimiterType, ASLANParserState};
use crate::model::without_key;
use crate::node::{entry_is_container, Node, Tree};
use crate::recent_items::lemma_filter_prefix;
use crate::text::{parse_index_text, push_char, text_is_blank};
use vstd::prelude::*;
use vstd::string::*;

verus! {

/// Drops the instructions that annotate `key`.
pub(crate) fn drop_instructions_for(list: &mut Vec<ASLANRegisteredInstruction>, key: &String)
    ensures
        instructions_of(final(list)@) == without_key(instructions_of(old(list)@), key@),
{
    let ghost all = instructions_of(list@);
    let mut kept: Vec<ASLANRegisteredInstruction> = Vec::new();
    let mut i: usize = 0;
    proof {
        reveal(Seq::filter);
        assert(all.take(0) =~= Seq::empty());
        assert(instructions_of(kept@) =~= Seq::empty());
    }
    while i < list.len()
        invariant
            i <= list.len(),
            all == instructions_of(list@),
            instructions_of(kept@) == without_key(all.take(i as int), key@),
        decreases list.len() - i,
    {
        proof {
            reveal(Seq::filter);
            assert(all.take(i + 1).drop_last() =~= all.take(i as int));
            assert(all.take(i + 1).last() == list@[i as int]@);
        }
        if list[i].key != *key {
            let ghost before = instructions_of(kept@);
            let copy = list[i].clone();
            kept.push(copy);
            assert(instructions_of(kept@) =~= before.push(copy@));
        }
        i += 1;
    }
    assert(all.take(list.len() as int) =~= all);
    *list = kept;
}

impl ASLANParser {
    /// Gives up the delimiter that is being read: what was buffered of
    /// it, and `ch`, become text.
    pub(crate) fn exit_delimiter_into_data(&mut self, ch: char)
        requires
            old(self).sane(),
        ensures
            final(self).sane(),
            final(self)@ == old(self)@.exit_delimiter_into_data(ch),
    {
        self.current_value.append(self.delimiter_buffer.as_str());
        push_char(&mut self.current_value, ch);
        self.delimiter_buffer = String::new();
        self.current_delimiter = ASLANDelimiterData::none();
        self.state = ASLANParserState::Data;
        assert(self.current_value@ =~= old(self)@.current_value + old(self)@.delimiter_buffer
            + seq![ch]);
        if self.current_escape_delimiter.is_some() {
            self.store_current_value();
        }
    }

    /// Moves the innermost frame to its next key.
    pub(crate) fn next_key(&mut self)
        requires
            old(self).sane(),
        ensures
            final(self).sane(),
            final(self)@ == old(self)@.next_key(),
    {
        let last: usize = self.stack.len() - 1;
        let is_sequence = match &self.stack[last].inner_result {
            Node::Sequence(_) => true,
            _ => false,
        };
        if is_sequence {
            let named: Option<i64> = match &self.current_delimiter.content {
                Some(content) => parse_index_text(content.as_str()),
                None => None,
            };
            self.stack[last].advance_index(named);
            assert(self@.stack =~= old(self)@.next_key().stack);
        } else {
            let name: Option<String> = match &self.current_delimiter.content {
                Some(content) => Some(content.clone()),
                None => None,
            };
            match name {
                Some(name) => {
                    self.stack[last].advance_name(name, &self.parser_settings.default_field_name);
                    assert(self@.stack =~= old(self)@.stack.update(
                        last as int,
                        old(self)@.top().next_name(name@, old(self)@.settings.default_field_name),
                    ));
                    self.sync_stack_to_root();
                },
                None => {},
            }
        }
    }

    /// Assigns `policy` to the current key, where none is assigned yet.
    pub(crate) fn set_data_insertion_type(&mut self, policy: ASLANDataInsertionType)
        requires
            old(self).sane(),
        ensures
            final(self).sane(),
            final(self)@ == old(self)@.set_data_insertion_type(policy),
    {
        let field = self.current_field();
        match field.policy {
            None => {
                let mut state = field;
                state.policy = Some(policy);
                self.set_current_field(state);
            },
            Some(ASLANDataInsertionType::KeepLast) => {
                let last: usize = self.stack.len() - 1;
                let key = self.stack[last].current_key.clone();
                let key_text = key.as_string();
                let is_mapping = match &self.stack[last].inner_result {
                    Node::Mapping(_) => true,
                    _ => false,
                };
                if is_mapping {
                    self.stack[last].inner_result.set(&key, Node::Text(String::new()));
                }
                drop_instructions_for(&mut self.stack[last].registered_instructions, &key_text);
                proof {
                    let top = old(self)@.top();
                    assert(self@.stack =~= old(self)@.stack.update(
                        last as int,
                        FrameView {
                            tree: if top.tree is Mapping {
                                top.tree.set(top.current_key, Tree::Text(Seq::empty()))
                            } else {
                                top.tree
                            },
                            instructions: without_key(top.instructions, top.key_text()),
                            ..top
                        },
                    ));
                }
                self.sync_stack_to_root();
            },
            Some(ASLANDataInsertionType::KeepFirst) => {
                let mut state = field;
                state.locked = true;
                self.set_current_field(state);
            },
            Some(_) => {},
        }
    }

    /// Writes the append separator under a key that was seen again, has a
    /// value that is no container and appends; then drops the waiting
    /// text.
    pub(crate) fn separate_repeated_key(&mut self)
        requires
            old(self).sane(),
        ensures
            final(self).sane(),
            final(self)@ == old(self)@.separate_repeated_key(),
    {
        let field = self.current_field();
        let appends = match field.policy {
            Some(ASLANDataInsertionType::Append) => true,
            Some(ASLANDataInsertionType::Default) => true,
            _ => false,
        };
        let entry = self.get_value_at_key();
        let scalar = entry.is_some() && !entry_is_container(entry);
        if field.duplicate_seen && appends && scalar {
            self.current_value = self.parser_settings.append_separator.clone();
            self.store_current_value();
        }
        self.current_value = String::new();
    }

    /// Ends the document as far as it was read.
    pub(crate) fn close_document(&mut self)
        requires
            old(self).sane(),
        ensures
            final(self).sane(),
            final(self)@ == old(self)@.close(),
    {
        self.emit_end_events_if_required();
        self.emit_end_data_events_if_required();
        self.store_current_value();
        self.sync_stack_to_root();
    }

    /// Starts a new root frame; everything else stays.
    pub(crate) fn reset_stack(&mut self)
        requires
            old(self).sane(),
        ensures
            final(self).sane(),
            final(self)@ == old(self)@.reset(),
    {
        let mut stack: Vec<ASLANParserStateStackFrame> = Vec::new();
        stack.push(ASLANParserStateStackFrame::root(&self.parser_settings.default_field_name));
        self.stack = stack;
        assert(self@.stack =~= old(self)@.reset().stack);
    }

    /// Ends the current document and starts the next one in the list of
    /// documents.
    pub(crate) fn next_document(&mut self)
        requires
            old(self).sane(),
        ensures
            final(self).sane(),
            final(self)@ == old(self)@.next_document(),
    {
        self.close_document();
        self.reset_stack();
        let ghost before = self@.results;
        let root = self.stack[0].inner_result.clone();
        self.multi_aslan_results.push(root);
        assert(self@.results =~= before.push(root@));
    }

    /// A go delimiter was read.
    pub(crate) fn go(&mut self)
        requires
            old(self).sane(),
        ensures
            final(self).sane(),
            final(self)@ == old(self)@.go(),
    {
        self.state = ASLANParserState::Go;
        self.delimiter_buffer = String::new();
        self.current_value = String::new();
        self.parsing_locked = false;
        if self.parser_settings.strict_start && !self.did_stop {
            self.next_document();
        }
        self.did_stop = false;
    }

    /// A stop delimiter was read.
    pub(crate) fn stop(&mut self)
        requires
            old(self).sane(),
        ensures
            final(self).sane(),
            final(self)@ == old(self)@.stop(),
    {
        self.state = ASLANParserState::Stop;
        self.delimiter_buffer = String::new();
        self.current_value = String::new();
        if self.parser_settings.strict_end {
            if self.parser_settings.strict_start {
                self.parsing_locked = true;
            }
            self.next_document();
            self.state = ASLANParserState::Start;
            self.did_stop = true;
        }
    }

    /// The kind of the material delimiter before the latest one.
    pub(crate) fn get_2nd_most_recent_material_delimiter(&self) -> (r: Option<
        ASLANDelimiterType,
    >)
        requires
            self.sane(),
        ensures
            r == self@.previous_material(),
    {
        let ghost excluded = set![ASLANDelimiterType::Comment, ASLANDelimiterType::Escape];
        let ghost pred = |x: ASLANDelimiterType| !excluded.contains(x);
        let ghost all = self.recent_delimiters@;
        let mut count: usize = 0;
        let mut n: usize = 1;
        proof {
            reveal(Seq::filter);
            assert(all.take(0).filter(pred) =~= Seq::empty());
        }
        loop
            invariant
                self.sane(),
                all == self.recent_delimiters@,
                pred == (|x: ASLANDelimiterType| !excluded.contains(x)),
                excluded == set![ASLANDelimiterType::Comment, ASLANDelimiterType::Escape],
                1 <= n <= all.len() + 1,
                count < 2,
                count == all.take(n - 1).filter(pred).len(),
            decreases all.len() + 1 - n,
        {
            match self.recent_delimiters.get_nth_most_recent(n) {
                None => {
                    proof {
                        assert(all.take(n - 1) =~= all);
                    }
                    return None;
                },
                Some(kind) => {
                    proof {
                        lemma_filter_prefix(all, pred, n - 1);
                        lemma_filter_prefix(all, pred, n as int);
                    }
                    let material = match kind {
                        ASLANDelimiterType::Comment => false,
                        ASLANDelimiterType::Escape => false,
                        _ => true,
                    };
                    if material {
                        count += 1;
                        if count == 2 {
                            return Some(*kind);
                        }
                    }
                    n += 1;
                },
            }
        }
    }

    /// Whether the current key has a value that stands in the way of a
    /// new container.
    pub(crate) fn get_object_safe_latest_result(&self) -> (r: bool)
        requires
            self.sane(),
        ensures
            r == self@.value_is_substantial(),
    {
        match self.get_value_at_key() {
            Some(Node::Text(s)) => {
                if self.parser_settings.collapse_object_start_whitespace {
                    !text_is_blank(s.as_str())
                } else {
                    !s.as_str().is_empty()
                }
            },
            Some(Node::Void) => false,
            Some(_) => true,
            None => false,
        }
    }
}

} // verus!
