//! What the parser does to its state between the characters: writing
//! values, reporting events, and moving from key to key.

use crate::aslan_parser::ASLANParser;
use crate::events::{
    instructions_of, parts_of, texts_of, ASLANContentPart, ASLANEndDataInstruction, ASLANEvent,
    ASLANEventKind, ASLANInstruction,
};

use crate::model::tag_of;
use crate::node::{
    entry_is_container, entry_latest_part, entry_text, entry_with_part_extended,
    lemma_view_sequence, text_of, Node,
};
use crate::reporting::{
    announce, current_path, deliver, fold_stack, instruction_infos, lemma_announced_unheard,
};
use vstd::prelude::*;
use vstd::string::*;

verus! {

/// The tag that an event of `kind` carries.
pub(crate) fn tag_string(kind: ASLANEventKind) -> (r: String)
    ensures
        r@ == tag_of(kind),
{
    match kind {
        ASLANEventKind::Content => String::from_str("content"),
        ASLANEventKind::End => String::from_str("end"),
        ASLANEventKind::EndData => String::from_str("end_data"),
    }
}

impl ASLANParser {
    /// Writes every frame into its parent, from the innermost up to the
    /// root, and the root into the current document.
    pub(crate) fn sync_stack_to_root(&mut self)
        requires
            old(self).sane(),
        ensures
            final(self).sane(),
            final(self)@ == old(self)@.synced(),
            final(self)@.stack.len() == old(self)@.stack.len(),
    {
        fold_stack(&mut self.stack);
        let n: usize = self.multi_aslan_results.len();
        if n > 0 {
            let root = self.stack[0].inner_result.clone();
            self.multi_aslan_results[n - 1] = root;
            assert(self@.results =~= old(self)@.synced().results);
        }
    }

    /// Puts `value` under the current key of the innermost frame and
    /// writes it through to the root.
    pub(crate) fn set_value_at_key(&mut self, value: Node)
        requires
            old(self).sane(),
        ensures
            final(self).sane(),
            final(self)@ == old(self)@.put(value@),
    {
        let last: usize = self.stack.len() - 1;
        let key = self.stack[last].current_key.clone();
        self.stack[last].inner_result.set(&key, value);
        proof {
            let top = old(self)@.top();
            assert(self@.stack =~= old(self)@.stack.update(
                last as int,
                crate::frame::FrameView { tree: top.tree.set(top.current_key, value@), ..top },
            ));
        }
        self.sync_stack_to_root();
    }

    /// The index of the current document.
    pub(crate) fn document_index(&self) -> (r: usize)
        ensures
            r == self@.document_index(),
    {
        let n: usize = self.multi_aslan_results.len();
        if n == 0 {
            0
        } else {
            n - 1
        }
    }

    /// Whether events of `kind` are reported at all.
    pub(crate) fn reports(&self, kind: ASLANEventKind) -> (r: bool)
        ensures
            r == self@.reports(kind),
    {
        match kind {
            ASLANEventKind::Content => self.parser_settings.emittable_events.content,
            ASLANEventKind::End => self.parser_settings.emittable_events.end,
            ASLANEventKind::EndData => self.parser_settings.emittable_events.end_data,
        }
    }

    /// Hands one event of `kind` for each instruction on the part
    /// `part_index` of the current key to every listener of `kind`.
    pub(crate) fn announce_current(
        &mut self,
        content: String,
        part_index: usize,
        kind: ASLANEventKind,
    )
        requires
            old(self).sane(),
        ensures
            final(self).sane(),
            final(self)@ == old(self)@.announce(content@, part_index, kind),
    {
        let listeners = match kind {
            ASLANEventKind::Content => &self.event_listeners.content,
            ASLANEventKind::End => &self.event_listeners.end,
            ASLANEventKind::EndData => &self.event_listeners.end_data,
        };
        if listeners.len() == 0 {
            proof {
                assert(texts_of(listeners@) =~= Seq::empty());
                lemma_announced_unheard(
                    self@.outbox,
                    self@.top().instructions,
                    self@.event_template(content@, part_index, kind),
                    kind,
                );
            }
            return ;
        }
        let last: usize = self.stack.len() - 1;
        let template = ASLANInstruction {
            content,
            part_index,
            field_name: self.stack[last].current_key.as_string(),
            path: current_path(&self.stack, &self.parser_settings.default_field_name),
            structure: self.stack[0].inner_result.clone(),
            instruction: String::new(),
            args: Vec::new(),
            index: 0,
            multi_aslan_index: self.document_index(),
            tag: tag_string(kind),
        };
        assert(texts_of(template.args@) =~= Seq::empty());
        assert(template@ == self@.event_template(content@, part_index, kind));
        announce(
            &mut self.outbox,
            &self.stack[last].registered_instructions,
            listeners,
            &template,
            kind,
        );
    }

    /// Reports the text under the current key for the instructions on
    /// the key as a whole.
    pub(crate) fn emit_content_events_for_primitive_with_tag(&mut self, kind: ASLANEventKind)
        requires
            old(self).sane(),
        ensures
            final(self).sane(),
            final(self)@ == old(self)@.emit_for_value(kind),
    {
        if !self.reports(kind) {
            return ;
        }
        let content = entry_text(self.get_value_at_key());
        self.announce_current(content, 0, kind);
    }

    /// Reports the latest part under the current key for the
    /// instructions on that part.
    pub(crate) fn emit_content_events_for_implicit_array_with_tag(
        &mut self,
        kind: ASLANEventKind,
    )
        requires
            old(self).sane(),
        ensures
            final(self).sane(),
            final(self)@ == old(self)@.emit_for_part(kind),
    {
        if !self.reports(kind) {
            return ;
        }
        let (part_index, content) = entry_latest_part(self.get_value_at_key());
        self.announce_current(content, part_index, kind);
    }

    /// Reports that the writes to the current key are complete, to the
    /// end listeners.
    pub(crate) fn emit_end_events_if_required(&mut self)
        requires
            old(self).sane(),
        ensures
            final(self).sane(),
            final(self)@ == old(self)@.emit_end_events(),
    {
        if !self.parser_settings.emittable_events.end {
            return ;
        }
        let is_container = entry_is_container(self.get_value_at_key());
        let is_implicit_array = self.current_field().implicit_array;
        if !is_container {
            self.emit_content_events_for_primitive_with_tag(ASLANEventKind::End);
        }
        if is_implicit_array {
            self.emit_content_events_for_implicit_array_with_tag(ASLANEventKind::End);
        }
    }

    /// The parts that an end-data event for the current key carries.
    pub(crate) fn end_data_parts(&self) -> (r: Vec<ASLANContentPart>)
        requires
            self.sane(),
        ensures
            parts_of(r@) == self@.end_data_parts(),
    {
        let last: usize = self.stack.len() - 1;
        let key = self.get_current_key_string();
        let instructions = &self.stack[last].registered_instructions;
        let mut content: Vec<ASLANContentPart> = Vec::new();
        if self.current_field().implicit_array {
            match self.get_value_at_key() {
                Some(Node::Sequence(items)) => {
                    proof {
                        lemma_view_sequence(*items);
                    }
                    let mut i: usize = 0;
                    while i < items.len()
                        invariant
                            i <= items.len(),
                            content.len() == i,
                            key@ == self@.top().key_text(),
                            instructions_of(instructions@) == self@.top().instructions,
                            forall|j: int|
                                0 <= j < i ==> (#[trigger] content@[j])@
                                    == (crate::events::ContentPartView {
                                    value: text_of(Some(items@[j]@)),
                                    part_index: j as usize,
                                    instructions: crate::model::infos_for(
                                        self@.top().instructions,
                                        self@.top().key_text(),
                                        Some(j as usize),
                                    ),
                                }),
                        decreases items.len() - i,
                    {
                        content.push(
                            ASLANContentPart {
                                value: entry_text(Some(&items[i])),
                                part_index: i,
                                instructions: instruction_infos(instructions, &key, Some(i)),
                            },
                        );
                        i += 1;
                    }
                    assert(parts_of(content@) =~= self@.end_data_parts());
                },
                _ => {
                    assert(parts_of(content@) =~= self@.end_data_parts());
                },
            }
        } else {
            content.push(
                ASLANContentPart {
                    value: entry_text(self.get_value_at_key()),
                    part_index: 0,
                    instructions: instruction_infos(instructions, &key, None),
                },
            );
            assert(parts_of(content@) =~= self@.end_data_parts());
        }
        content
    }

    /// Reports that the writes to the current key are complete, with all
    /// its parts, to the end-data listeners.
    pub(crate) fn emit_end_data_events_if_required(&mut self)
        requires
            old(self).sane(),
        ensures
            final(self).sane(),
            final(self)@ == old(self)@.emit_end_data_events(),
    {
        if !self.parser_settings.emittable_events.end_data {
            return ;
        }
        let is_container = entry_is_container(self.get_value_at_key());
        if is_container && !self.current_field().implicit_array {
            return ;
        }
        if self.event_listeners.end_data.len() == 0 {
            proof {
                assert(texts_of(self.event_listeners.end_data@) =~= Seq::empty());
                assert(self@.emit_end_data_events().outbox =~= self@.outbox);
            }
            return ;
        }
        let event = ASLANEndDataInstruction {
            content: self.end_data_parts(),
            field_name: self.get_current_key_string(),
            path: current_path(&self.stack, &self.parser_settings.default_field_name),
            structure: self.stack[0].inner_result.clone(),
            multi_aslan_index: self.document_index(),
            tag: tag_string(ASLANEventKind::EndData),
        };
        deliver(&mut self.outbox, &self.event_listeners.end_data, &ASLANEvent::EndData(event));
    }

    /// Stores the waiting text under the current key.
    pub(crate) fn store_current_value(&mut self)
        requires
            old(self).sane(),
        ensures
            final(self).sane(),
            final(self)@ == old(self)@.store_current_value(),
    {
        let field = self.current_field();
        if field.void {
            self.current_value = String::new();
            self.set_value_at_key(Node::Void);
            return ;
        }
        if !self.current_value.as_str().is_empty() {
            let is_container = entry_is_container(self.get_value_at_key());
            if !field.locked && !is_container {
                let mut text = entry_text(self.get_value_at_key());
                text.append(self.current_value.as_str());
                self.set_value_at_key(Node::Text(text));
                self.emit_content_events_for_primitive_with_tag(ASLANEventKind::Content);
            }
            if !field.locked && field.implicit_array {
                let extended = entry_with_part_extended(
                    self.get_value_at_key(),
                    self.current_value.as_str(),
                );
                match extended {
                    Some(parts) => {
                        self.set_value_at_key(parts);
                    },
                    None => {},
                }
                self.emit_content_events_for_implicit_array_with_tag(ASLANEventKind::Content);
            }
            self.current_value = String::new();
        }
    }
}

} // verus!
