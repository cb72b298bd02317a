//! The parser as a mathematical state machine: the state it is in, and what
//! each part of a step makes of it. The executable parser is proved to take
//! exactly these steps.

use crate::events::{
    ASLANEventKind, ContentPartView, DeliveryView, EndDataEventView, EventView,
    InstructionEventView, InstructionInfoView, InstructionView,
};
use crate::frame::{ASLANDataInsertionType, FieldState, FrameView};
use crate::grammar::{ASLANDelimiterType, ASLANParserState};
use crate::node::{holds_container, items_of, text_of, KeyView, Tree};
use crate::recent_items::{items_not_in, nth_of};
use crate::settings::SettingsView;
use crate::text::{decimal_text, is_blank, parse_index};
use vstd::prelude::*;

verus! {

/// The delimiter that is being read: its content, once an underscore
/// opened it, and its arguments.
pub struct DelimiterView {
    pub content: Option<Seq<char>>,
    pub args: Seq<Seq<char>>,
}

impl DelimiterView {
    /// No delimiter is being read.
    pub open spec fn none() -> DelimiterView {
        DelimiterView { content: None, args: Seq::empty() }
    }

    /// The content read so far; empty where none was opened.
    pub open spec fn content_text(self) -> Seq<char> {
        match self.content {
            Some(c) => c,
            None => Seq::empty(),
        }
    }

    /// The content is complete: it has a character and does not end with
    /// an underscore.
    pub open spec fn content_complete(self) -> bool {
        self.content_text().len() > 0 && self.content_text().last() != '_'
    }

    /// The first argument; empty where there is none.
    pub open spec fn first_arg(self) -> Seq<char> {
        if self.args.len() > 0 {
            self.args[0]
        } else {
            Seq::empty()
        }
    }

    /// The delimiter with `ch` at the end of its content.
    pub open spec fn with_content_char(self, ch: char) -> DelimiterView {
        DelimiterView { content: Some(self.content_text().push(ch)), ..self }
    }

    /// The delimiter with `ch` at the end of its last argument.
    pub open spec fn with_arg_char(self, ch: char) -> DelimiterView {
        if self.args.len() > 0 {
            DelimiterView {
                args: self.args.update(self.args.len() - 1, self.args.last().push(ch)),
                ..self
            }
        } else {
            self
        }
    }
}

/// The texts of `list` that are not `key`, in their order.
pub open spec fn without_text(list: Seq<Seq<char>>, key: Seq<char>) -> Seq<Seq<char>> {
    list.filter(|k: Seq<char>| k != key)
}

/// The instructions of `list` that do not annotate `key`, in their order.
pub open spec fn without_key(list: Seq<InstructionView>, key: Seq<char>) -> Seq<InstructionView> {
    list.filter(|i: InstructionView| i.key != key)
}

/// The listeners that are registered: the keys in use, and for each kind
/// of event the keys of its listeners in the order of registration.
pub struct ListenersView {
    pub known: Set<Seq<char>>,
    pub content: Seq<Seq<char>>,
    pub end: Seq<Seq<char>>,
    pub end_data: Seq<Seq<char>>,
}

impl ListenersView {
    /// No listener is registered.
    pub open spec fn none() -> ListenersView {
        ListenersView {
            known: Set::empty(),
            content: Seq::empty(),
            end: Seq::empty(),
            end_data: Seq::empty(),
        }
    }

    /// The listeners for one kind of event.
    pub open spec fn of_kind(self, kind: ASLANEventKind) -> Seq<Seq<char>> {
        match kind {
            ASLANEventKind::Content => self.content,
            ASLANEventKind::End => self.end,
            ASLANEventKind::EndData => self.end_data,
        }
    }

    /// The listeners after `key` was offered for `kind`: unchanged where
    /// the key is in use, else with `key` as the last listener of `kind`.
    pub open spec fn with_listener(self, kind: ASLANEventKind, key: Seq<char>) -> ListenersView {
        if self.known.contains(key) {
            self
        } else {
            let known = self.known.insert(key);
            match kind {
                ASLANEventKind::Content => ListenersView {
                    known,
                    content: self.content.push(key),
                    ..self
                },
                ASLANEventKind::End => ListenersView { known, end: self.end.push(key), ..self },
                ASLANEventKind::EndData => ListenersView {
                    known,
                    end_data: self.end_data.push(key),
                    ..self
                },
            }
        }
    }

    /// The listeners after `key` was withdrawn for `kind`: the key is free
    /// again, and no listener of `kind` has it.
    pub open spec fn without_listener(self, kind: ASLANEventKind, key: Seq<char>)
        -> ListenersView {
        let known = self.known.remove(key);
        match kind {
            ASLANEventKind::Content => ListenersView {
                known,
                content: without_text(self.content, key),
                ..self
            },
            ASLANEventKind::End => ListenersView {
                known,
                end: without_text(self.end, key),
                ..self
            },
            ASLANEventKind::EndData => ListenersView {
                known,
                end_data: without_text(self.end_data, key),
                ..self
            },
        }
    }
}

/// The text that opens every delimiter: `[` and the prefix.
pub open spec fn opener(prefix: Seq<char>) -> Seq<char> {
    seq!['['] + prefix
}

/// The tag that an event of `kind` carries.
pub open spec fn tag_of(kind: ASLANEventKind) -> Seq<char> {
    match kind {
        ASLANEventKind::Content => "content"@,
        ASLANEventKind::End => "end"@,
        ASLANEventKind::EndData => "end_data"@,
    }
}

/// The stack after each frame from `i` down to 1 was written into its
/// parent, under the parent's key.
pub open spec fn folded(stack: Seq<FrameView>, i: int) -> Seq<FrameView>
    decreases i,
{
    if i <= 0 || i >= stack.len() {
        stack
    } else {
        let parent = stack[i - 1];
        folded(
            stack.update(
                i - 1,
                FrameView { tree: parent.tree.set(parent.current_key, stack[i].tree), ..parent },
            ),
            i - 1,
        )
    }
}

/// The keys from the root to the key of the next write, as texts, without
/// the default field.
pub open spec fn path_of(frames: Seq<FrameView>, default_field_name: Seq<char>) -> Seq<
    Seq<char>,
>
    decreases frames.len(),
{
    if frames.len() == 0 {
        Seq::empty()
    } else {
        let rest = path_of(frames.drop_last(), default_field_name);
        match frames.last().current_key {
            KeyView::Name(s) => if s != default_field_name {
                rest.push(s)
            } else {
                rest
            },
            KeyView::Index(i) => rest.push(decimal_text(i as int)),
        }
    }
}

/// How many of the frames from `from` on own a mapping.
pub open spec fn mapping_frames(stack: Seq<FrameView>, from: int) -> nat
    decreases stack.len() - from,
{
    if from < 0 || from >= stack.len() {
        0
    } else {
        (if stack[from].tree is Mapping {
            1nat
        } else {
            0nat
        }) + mapping_frames(stack, from + 1)
    }
}

/// `outbox` with one delivery of `event` to each of `listeners`, in
/// their order.
pub open spec fn delivered(outbox: Seq<DeliveryView>, listeners: Seq<Seq<char>>, event: EventView)
    -> Seq<DeliveryView> {
    outbox + Seq::new(
        listeners.len(),
        |i: int| DeliveryView { listener: listeners[i], event: event },
    )
}

/// The event that `template` becomes for one instruction.
pub open spec fn event_for(
    template: InstructionEventView,
    instruction: InstructionView,
    kind: ASLANEventKind,
) -> EventView {
    let payload = InstructionEventView {
        instruction: instruction.name,
        args: instruction.args,
        index: instruction.index,
        ..template
    };
    if kind == ASLANEventKind::Content {
        EventView::Content(payload)
    } else {
        EventView::End(payload)
    }
}

/// `outbox` after one event for each of `instructions` that annotates the
/// key and the part of `template`, oldest first, each handed to every one
/// of `listeners`.
pub open spec fn announced(
    outbox: Seq<DeliveryView>,
    instructions: Seq<InstructionView>,
    listeners: Seq<Seq<char>>,
    template: InstructionEventView,
    kind: ASLANEventKind,
) -> Seq<DeliveryView>
    decreases instructions.len(),
{
    if instructions.len() == 0 {
        outbox
    } else {
        let before = announced(outbox, instructions.drop_last(), listeners, template, kind);
        let last = instructions.last();
        if last.key == template.field_name && last.part_index == template.part_index {
            delivered(before, listeners, event_for(template, last, kind))
        } else {
            before
        }
    }
}

/// What an end-data event tells of the instructions for `key`: all of
/// them, or those of one part, oldest first.
pub open spec fn infos_for(instructions: Seq<InstructionView>, key: Seq<char>, part: Option<usize>)
    -> Seq<InstructionInfoView>
    decreases instructions.len(),
{
    if instructions.len() == 0 {
        Seq::empty()
    } else {
        let rest = infos_for(instructions.drop_last(), key, part);
        let last = instructions.last();
        if last.key == key && (part is None || part == Some(last.part_index)) {
            rest.push(InstructionInfoView { name: last.name, args: last.args, index: last.index })
        } else {
            rest
        }
    }
}

/// A policy under which a repeated key appends to its value.
pub open spec fn appends(policy: Option<ASLANDataInsertionType>) -> bool {
    policy == Some(ASLANDataInsertionType::Append) || policy == Some(
        ASLANDataInsertionType::Default,
    )
}

/// The state of a parser.
pub struct ParserView {
    pub state: ASLANParserState,
    /// The frames, the root first and the innermost last.
    pub stack: Seq<FrameView>,
    pub delimiter: DelimiterView,
    /// Text read but not yet stored.
    pub current_value: Seq<char>,
    /// The characters of the delimiter that is being read.
    pub delimiter_buffer: Seq<char>,
    /// The kinds of the latest delimiters, the most recent first.
    pub recent_delimiters: Seq<ASLANDelimiterType>,
    /// The tag of the escape region that is open.
    pub current_escape_delimiter: Option<Seq<char>>,
    pub parsing_locked: bool,
    pub settings: SettingsView,
    /// The documents of the stream, the current one last.
    pub results: Seq<Tree>,
    pub did_stop: bool,
    pub listeners: ListenersView,
    /// The deliveries made and not yet taken, oldest first.
    pub outbox: Seq<DeliveryView>,
}

impl ParserView {
    /// The state of a new parser.
    pub open spec fn initial(settings: SettingsView) -> ParserView {
        ParserView {
            state: if settings.strict_start {
                ASLANParserState::Locked
            } else {
                ASLANParserState::Start
            },
            stack: seq![FrameView::root(settings.default_field_name)],
            delimiter: DelimiterView::none(),
            current_value: Seq::empty(),
            delimiter_buffer: Seq::empty(),
            recent_delimiters: Seq::empty(),
            current_escape_delimiter: None,
            parsing_locked: settings.strict_start,
            settings: settings,
            results: seq![FrameView::root(settings.default_field_name).tree],
            did_stop: true,
            listeners: ListenersView::none(),
            outbox: Seq::empty(),
        }
    }

    /// What a parse returns: the list of all documents where the
    /// settings ask for it, else the root of the current document.
    pub open spec fn output(self) -> Tree {
        if self.settings.multi_aslan_output {
            Tree::Sequence(self.results)
        } else {
            self.root_tree()
        }
    }

    /// The innermost frame.
    pub open spec fn top(self) -> FrameView {
        self.stack.last()
    }

    /// The tree of the root frame.
    pub open spec fn root_tree(self) -> Tree {
        self.stack[0].tree
    }

    /// The state with `frame` in place of the innermost frame.
    pub open spec fn with_top(self, frame: FrameView) -> ParserView {
        ParserView { stack: self.stack.update(self.stack.len() - 1, frame), ..self }
    }

    /// The state with `state` as what is known of the current key.
    pub open spec fn with_field(self, state: FieldState) -> ParserView {
        let top = self.top();
        self.with_top(FrameView { fields: top.fields.insert(top.key_text(), state), ..top })
    }

    /// The state with no text waiting to be stored.
    pub open spec fn with_value_cleared(self) -> ParserView {
        ParserView { current_value: Seq::empty(), ..self }
    }

    /// The state after every frame was written into its parent, from the
    /// innermost up to the root, and the root into the current document.
    pub open spec fn synced(self) -> ParserView {
        let stack = folded(self.stack, self.stack.len() - 1);
        ParserView {
            stack: stack,
            results: if self.results.len() > 0 {
                self.results.update(self.results.len() - 1, stack[0].tree)
            } else {
                self.results
            },
            ..self
        }
    }

    /// The state with `value` under the current key of the innermost
    /// frame, written through to the root.
    pub open spec fn put(self, value: Tree) -> ParserView {
        let top = self.top();
        self.with_top(FrameView { tree: top.tree.set(top.current_key, value), ..top }).synced()
    }

    /// The index of the current document.
    pub open spec fn document_index(self) -> usize {
        if self.results.len() == 0 {
            0
        } else {
            (self.results.len() - 1) as usize
        }
    }

    /// Whether events of `kind` are reported at all.
    pub open spec fn reports(self, kind: ASLANEventKind) -> bool {
        match kind {
            ASLANEventKind::Content => self.settings.emittable_events.content,
            ASLANEventKind::End => self.settings.emittable_events.end,
            ASLANEventKind::EndData => self.settings.emittable_events.end_data,
        }
    }

    /// The content or end event for the current key, before the
    /// instruction that it is about is filled in.
    pub open spec fn event_template(
        self,
        content: Seq<char>,
        part_index: usize,
        kind: ASLANEventKind,
    ) -> InstructionEventView {
        InstructionEventView {
            content: content,
            part_index: part_index,
            field_name: self.top().key_text(),
            path: path_of(self.stack, self.settings.default_field_name),
            structure: self.root_tree(),
            instruction: Seq::empty(),
            args: Seq::empty(),
            index: 0,
            multi_aslan_index: self.document_index(),
            tag: tag_of(kind),
        }
    }

    /// The state after one event of `kind` for each instruction on the
    /// part `part_index` of the current key, oldest first, each handed to
    /// every listener of `kind`.
    pub open spec fn announce(self, content: Seq<char>, part_index: usize, kind: ASLANEventKind)
        -> ParserView {
        ParserView {
            outbox: announced(
                self.outbox,
                self.top().instructions,
                self.listeners.of_kind(kind),
                self.event_template(content, part_index, kind),
                kind,
            ),
            ..self
        }
    }

    /// Reports the text under the current key for the instructions on
    /// the key as a whole.
    pub open spec fn emit_for_value(self, kind: ASLANEventKind) -> ParserView {
        if !self.reports(kind) {
            self
        } else {
            self.announce(text_of(self.top().value()), 0, kind)
        }
    }

    /// The index of the latest part under the current key; 0 where there
    /// are no parts.
    pub open spec fn latest_part(self) -> usize {
        let parts = items_of(self.top().value());
        if parts.len() == 0 {
            0
        } else {
            (parts.len() - 1) as usize
        }
    }

    /// The text of the latest part under the current key; empty where
    /// there are no parts.
    pub open spec fn latest_part_text(self) -> Seq<char> {
        let parts = items_of(self.top().value());
        if parts.len() == 0 {
            Seq::empty()
        } else {
            text_of(Some(parts.last()))
        }
    }

    /// Reports the latest part under the current key for the
    /// instructions on that part.
    pub open spec fn emit_for_part(self, kind: ASLANEventKind) -> ParserView {
        if !self.reports(kind) {
            self
        } else {
            self.announce(self.latest_part_text(), self.latest_part(), kind)
        }
    }

    /// Reports that the writes to the current key are complete, to the
    /// end listeners.
    pub open spec fn emit_end_events(self) -> ParserView {
        if !self.reports(ASLANEventKind::End) {
            self
        } else {
            let first = if !holds_container(self.top().value()) {
                self.emit_for_value(ASLANEventKind::End)
            } else {
                self
            };
            if self.top().field().implicit_array {
                first.emit_for_part(ASLANEventKind::End)
            } else {
                first
            }
        }
    }

    /// The parts that an end-data event for the current key carries.
    pub open spec fn end_data_parts(self) -> Seq<ContentPartView> {
        let top = self.top();
        if top.field().implicit_array {
            let parts = items_of(top.value());
            Seq::new(
                parts.len(),
                |i: int|
                    ContentPartView {
                        value: text_of(Some(parts[i])),
                        part_index: i as usize,
                        instructions: infos_for(
                            top.instructions,
                            top.key_text(),
                            Some(i as usize),
                        ),
                    },
            )
        } else {
            seq![
                ContentPartView {
                    value: text_of(top.value()),
                    part_index: 0,
                    instructions: infos_for(top.instructions, top.key_text(), None),
                },
            ]
        }
    }

    /// Reports that the writes to the current key are complete, with all
    /// its parts, to the end-data listeners. Nothing is reported for a
    /// key that holds a mapping or a sequence of its own.
    pub open spec fn emit_end_data_events(self) -> ParserView {
        let top = self.top();
        if !self.reports(ASLANEventKind::EndData) || (holds_container(top.value())
            && !top.field().implicit_array) {
            self
        } else {
            ParserView {
                outbox: delivered(
                    self.outbox,
                    self.listeners.end_data,
                    EventView::EndData(
                        EndDataEventView {
                            content: self.end_data_parts(),
                            field_name: top.key_text(),
                            path: path_of(self.stack, self.settings.default_field_name),
                            structure: self.root_tree(),
                            multi_aslan_index: self.document_index(),
                            tag: tag_of(ASLANEventKind::EndData),
                        },
                    ),
                ),
                ..self
            }
        }
    }

    /// Stores the waiting text under the current key. A void key takes
    /// the void marker and drops the text; a locked key drops it; a key
    /// with a text has it appended; a key with parts has it appended to
    /// the latest part. Each write is reported to the content listeners.
    pub open spec fn store_current_value(self) -> ParserView {
        let field = self.top().field();
        if field.void {
            self.with_value_cleared().put(Tree::Void)
        } else if self.current_value.len() > 0 {
            let text = self.current_value;
            let first = if !field.locked && !holds_container(self.top().value()) {
                self.put(Tree::Text(text_of(self.top().value()) + text)).emit_for_value(
                    ASLANEventKind::Content,
                )
            } else {
                self
            };
            let second = if !field.locked && field.implicit_array {
                let parts = items_of(first.top().value());
                (if parts.len() > 0 {
                    first.put(
                        Tree::Sequence(
                            parts.update(
                                parts.len() - 1,
                                Tree::Text(text_of(Some(parts.last())) + text),
                            ),
                        ),
                    )
                } else {
                    first
                }).emit_for_part(ASLANEventKind::Content)
            } else {
                first
            };
            second.with_value_cleared()
        } else {
            self
        }
    }

    /// Gives up the delimiter that is being read: what was buffered of
    /// it, and `ch`, become text. Inside an escape region the text is
    /// stored at once.
    pub open spec fn exit_delimiter_into_data(self, ch: char) -> ParserView {
        let left = ParserView {
            current_value: self.current_value + self.delimiter_buffer + seq![ch],
            delimiter_buffer: Seq::empty(),
            delimiter: DelimiterView::none(),
            state: ASLANParserState::Data,
            ..self
        };
        if self.current_escape_delimiter is Some {
            left.store_current_value()
        } else {
            left
        }
    }

    /// Moves the innermost frame to its next key. In a sequence: to the
    /// index that the delimiter names, or to the next free one. In a
    /// mapping: to the name that the delimiter gives; an empty default
    /// field becomes void, and a name that the mapping holds already is
    /// marked as seen again.
    pub open spec fn next_key(self) -> ParserView {
        let top = self.top();
        if top.tree is Sequence {
            self.with_top(
                top.next_index(
                    match self.delimiter.content {
                        Some(c) => parse_index(c),
                        None => None,
                    },
                ),
            )
        } else {
            match self.delimiter.content {
                Some(name) => self.with_top(
                    top.next_name(name, self.settings.default_field_name),
                ).synced(),
                None => self,
            }
        }
    }

    /// Assigns `policy` to the current key, where none is assigned yet.
    /// Where one is: under keep-last the key's text in a mapping is
    /// wiped and its instructions are dropped; under keep-first the key
    /// is locked; under the others nothing changes.
    pub open spec fn set_data_insertion_type(self, policy: ASLANDataInsertionType)
        -> ParserView {
        let top = self.top();
        let key = top.key_text();
        let field = top.field();
        match field.policy {
            None => self.with_field(FieldState { policy: Some(policy), ..field }),
            Some(ASLANDataInsertionType::KeepLast) => self.with_top(
                FrameView {
                    tree: if top.tree is Mapping {
                        top.tree.set(top.current_key, Tree::Text(Seq::empty()))
                    } else {
                        top.tree
                    },
                    instructions: without_key(top.instructions, key),
                    ..top
                },
            ).synced(),
            Some(ASLANDataInsertionType::KeepFirst) => self.with_field(
                FieldState { locked: true, ..field },
            ),
            Some(_) => self,
        }
    }

    /// Writes the append separator under a key that was seen again, has
    /// a value that is no container and appends; then drops the waiting
    /// text.
    pub open spec fn separate_repeated_key(self) -> ParserView {
        let top = self.top();
        let field = top.field();
        (if field.duplicate_seen && appends(field.policy) && top.value() is Some
            && !holds_container(top.value()) {
            ParserView {
                current_value: self.settings.append_separator,
                ..self
            }.store_current_value()
        } else {
            self
        }).with_value_cleared()
    }

    /// Ends the document as far as it was read: reports the current key
    /// as complete, stores the waiting text and writes every frame
    /// through to the root.
    pub open spec fn close(self) -> ParserView {
        self.emit_end_events().emit_end_data_events().store_current_value().synced()
    }

    /// Starts a new root frame; everything else stays.
    pub open spec fn reset(self) -> ParserView {
        ParserView { stack: seq![FrameView::root(self.settings.default_field_name)], ..self }
    }

    /// Ends the current document and starts the next one in the list of
    /// documents.
    pub open spec fn next_document(self) -> ParserView {
        let fresh = self.close().reset();
        ParserView { results: fresh.results.push(fresh.root_tree()), ..fresh }
    }

    /// A go delimiter was read: parsing is unlocked, and under strict
    /// start a document that no stop delimiter ended is ended now.
    pub open spec fn go(self) -> ParserView {
        let cleared = ParserView {
            state: ASLANParserState::Go,
            delimiter_buffer: Seq::empty(),
            current_value: Seq::empty(),
            parsing_locked: false,
            ..self
        };
        let begun = if self.settings.strict_start && !self.did_stop {
            cleared.next_document()
        } else {
            cleared
        };
        ParserView { did_stop: false, ..begun }
    }

    /// A stop delimiter was read: under strict end the document is ended
    /// and, under strict start too, parsing is locked.
    pub open spec fn stop(self) -> ParserView {
        let cleared = ParserView {
            state: ASLANParserState::Stop,
            delimiter_buffer: Seq::empty(),
            current_value: Seq::empty(),
            ..self
        };
        if self.settings.strict_end {
            let ended = ParserView {
                parsing_locked: self.parsing_locked || self.settings.strict_start,
                ..cleared
            }.next_document();
            ParserView { state: ASLANParserState::Start, did_stop: true, ..ended }
        } else {
            cleared
        }
    }

    /// The kind of the material delimiter before the latest one.
    pub open spec fn previous_material(self) -> Option<ASLANDelimiterType> {
        nth_of(
            items_not_in(
                self.recent_delimiters,
                set![ASLANDelimiterType::Comment, ASLANDelimiterType::Escape],
            ),
            2,
        )
    }

    /// The current key has a value that stands in the way of a new
    /// container: a text that is not empty (not blank, where white space
    /// is collapsed), a mapping or a sequence.
    pub open spec fn value_is_substantial(self) -> bool {
        match self.top().value() {
            Some(Tree::Text(s)) => if self.settings.collapse_object_start_whitespace {
                !is_blank(s)
            } else {
                s.len() > 0
            },
            Some(Tree::Void) => false,
            Some(_) => true,
            None => false,
        }
    }

    /// How many objects are open inside the root.
    pub open spec fn object_depth(self) -> nat {
        mapping_frames(self.stack, 1)
    }

    /// Opens a container under the current key: a mapping for an object
    /// delimiter, else a sequence. The key takes the empty container, and
    /// a new frame owns it.
    pub open spec fn open_container(self, kind: ASLANDelimiterType) -> ParserView {
        let top = self.top();
        let object = kind == ASLANDelimiterType::Object;
        let parent = FrameView {
            tree: top.tree.set(
                top.current_key,
                if object {
                    Tree::Mapping(Seq::empty())
                } else {
                    Tree::Sequence(Seq::empty())
                },
            ),
            ..top
        };
        let child = if object {
            FrameView::for_mapping(self.settings.default_field_name)
        } else {
            FrameView::for_sequence()
        };
        ParserView {
            current_value: Seq::empty(),
            stack: self.stack.update(self.stack.len() - 1, parent).push(child),
            ..self
        }.synced()
    }

    /// Closes the innermost container, where one is open: its key is
    /// reported as complete, the frames are written through, and the
    /// frame is dropped. At the root nothing happens.
    pub open spec fn close_container(self) -> ParserView {
        if self.stack.len() > 1 {
            let done = self.emit_end_events().emit_end_data_events().synced();
            ParserView { stack: done.stack.drop_last(), ..done }
        } else {
            self
        }
    }

    /// The object depth is limited and an object delimiter is read.
    pub open spec fn depth_limited(self, kind: ASLANDelimiterType) -> bool {
        kind == ASLANDelimiterType::Object && self.settings.max_object_depth is Some
    }

    /// Whether an object or array delimiter opens a container under the
    /// current key; where it does not, it closes the innermost one.
    ///
    /// With a limit on the object depth, an object delimiter closes at
    /// the limit, and below it opens wherever the key holds no container.
    /// Else, and for a key that holds a container: a key with a value
    /// that stands in the way, or not named by the delimiter just before,
    /// gets a container only where it holds one that a data delimiter
    /// named again, or where it was seen again; any other key gets one.
    pub open spec fn container_opens(self, kind: ASLANDelimiterType) -> bool {
        let after_data = self.previous_material() == Some(ASLANDelimiterType::Data);
        let held = holds_container(self.top().value());
        if self.depth_limited(kind) && self.object_depth() >= self.settings.max_object_depth->0 {
            false
        } else if self.depth_limited(kind) && !held {
            true
        } else if self.value_is_substantial() || !after_data {
            (held && after_data) || self.top().field().duplicate_seen
        } else {
            true
        }
    }

    /// Whether the container that an object or array delimiter opens
    /// takes the place of what a repeated key held: the mark that the key
    /// was seen again is then cleared.
    pub open spec fn container_replaces(self, kind: ASLANDelimiterType) -> bool {
        let after_data = self.previous_material() == Some(ASLANDelimiterType::Data);
        let held = holds_container(self.top().value());
        self.top().field().duplicate_seen && (if self.depth_limited(kind) && !held {
            true
        } else {
            !after_data || (self.value_is_substantial() && !held)
        })
    }

    /// An object or array delimiter was read: it opens a container under
    /// the current key or closes the innermost one.
    pub open spec fn container_delimiter(self, kind: ASLANDelimiterType) -> ParserView {
        let ready = ParserView {
            state: if kind == ASLANDelimiterType::Object {
                ASLANParserState::Object
            } else {
                ASLANParserState::Array
            },
            delimiter_buffer: Seq::empty(),
            ..self
        };
        let field = ready.top().field();
        if !ready.container_opens(kind) {
            ready.close_container()
        } else if ready.container_replaces(kind) {
            ready.with_field(FieldState { duplicate_seen: false, ..field }).open_container(kind)
        } else {
            ready.open_container(kind)
        }
    }

    /// A part delimiter was read: the value of the current key becomes a
    /// list of parts, or gets one more part, and the frame moves to its
    /// next key.
    pub open spec fn part_delimiter(self) -> ParserView {
        let field = self.top().field();
        let value = self.top().value();
        let parted = if field.locked {
            self
        } else {
            match value {
                Some(Tree::Sequence(parts)) => self.emit_end_events().put(
                    Tree::Sequence(parts.push(Tree::Text(Seq::empty()))),
                ),
                Some(Tree::Mapping(_)) => self,
                Some(Tree::Text(s)) => if s.len() > 0 {
                    self.with_field(FieldState { implicit_array: true, ..field }).put(
                        Tree::Sequence(seq![Tree::Text(s), Tree::Text(Seq::empty())]),
                    )
                } else {
                    self.with_field(FieldState { implicit_array: true, ..field }).put(
                        Tree::Sequence(seq![Tree::Text(Seq::empty())]),
                    )
                },
                _ => self.with_field(FieldState { implicit_array: true, ..field }).put(
                    Tree::Sequence(seq![Tree::Text(Seq::empty())]),
                ),
            }
        };
        ParserView {
            state: ASLANParserState::Data,
            delimiter_buffer: Seq::empty(),
            current_value: Seq::empty(),
            ..parted
        }.next_key()
    }

    /// A void delimiter was read: the current key is marked void and
    /// takes the void marker.
    pub open spec fn void_delimiter(self) -> ParserView {
        let field = self.top().field();
        ParserView {
            state: ASLANParserState::Data,
            delimiter_buffer: Seq::empty(),
            current_value: Seq::empty(),
            ..self
        }.with_field(FieldState { void: true, ..field }).put(Tree::Void)
    }

    /// How many characters the value of the current key holds, or its
    /// latest part where it has parts.
    pub open spec fn instruction_offset(self) -> usize {
        match self.top().value() {
            Some(Tree::Sequence(parts)) => self.latest_part_text().len() as usize,
            Some(Tree::Text(s)) => s.len() as usize,
            _ => 0,
        }
    }

    /// An instruction delimiter was read: the instruction is registered
    /// on the current key, unless the key was seen again under
    /// keep-first, and reported to the content listeners.
    pub open spec fn instruction_delimiter(self) -> ParserView {
        let top = self.top();
        let field = top.field();
        let ready = ParserView { state: ASLANParserState::Data, ..self };
        let registered = if field.duplicate_seen && field.policy == Some(
            ASLANDataInsertionType::KeepFirst,
        ) {
            ready
        } else {
            let noted = ready.with_top(
                FrameView {
                    instructions: top.instructions.push(
                        InstructionView {
                            key: top.key_text(),
                            name: self.delimiter.content_text(),
                            index: self.instruction_offset(),
                            args: self.delimiter.args,
                            part_index: match top.value() {
                                Some(Tree::Sequence(_)) => self.latest_part(),
                                _ => 0,
                            },
                        },
                    ),
                    ..top
                },
            );
            let first = if !holds_container(top.value()) {
                noted.emit_for_value(ASLANEventKind::Content)
            } else {
                noted
            };
            if field.implicit_array {
                first.emit_for_part(ASLANEventKind::Content)
            } else {
                first
            }
        };
        ParserView {
            delimiter_buffer: Seq::empty(),
            current_value: Seq::empty(),
            ..registered
        }
    }

    /// An escape delimiter with the tag `tag` was read: it opens a
    /// region where none is open, closes the region that has its tag,
    /// and is text inside a region with another tag.
    pub open spec fn escape_delimiter(self, tag: Seq<char>, ch: char) -> ParserView {
        match self.current_escape_delimiter {
            None => ParserView {
                state: ASLANParserState::Escape,
                delimiter_buffer: Seq::empty(),
                current_value: Seq::empty(),
                current_escape_delimiter: Some(tag),
                ..self
            },
            Some(open) => if open == tag {
                ParserView {
                    state: ASLANParserState::Data,
                    delimiter_buffer: Seq::empty(),
                    current_value: Seq::empty(),
                    current_escape_delimiter: None,
                    ..self
                }
            } else {
                self.exit_delimiter_into_data(ch)
            },
        }
    }
}

} // verus!
