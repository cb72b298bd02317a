//! The parser: its state, how it is made, and the operations that callers
//! use.

use crate::events::{deliveries_of, texts_of, ASLANDelivery, ASLANEventKind};
use crate::frame::{frames_of, ASLANParserStateStackFrame, FieldState};
use crate::grammar::{ASLANDelimiterType, ASLANParserState};
use crate::invariants::{lemma_close, lemma_feed, lemma_initial, lemma_reset};
use crate::machine::lookback;
use crate::model::{opener, without_text, DelimiterView, ListenersView, ParserView};
use crate::node::{copy_nodes, entry_view, lemma_view_sequence, trees_of, KeyView, Node};
use crate::recent_items::RecentItems;
use crate::settings::ASLANParserSettings;
use crate::text::push_char;
use crate::utils::{generate_random_idempotency_key, is_idempotency_key};
use vstd::std_specs::iter::IteratorSpec;
use vstd::prelude::*;
use vstd::string::*;

verus! {

/// Delimiter data being parsed.
#[derive(Debug)]
pub(crate) struct ASLANDelimiterData {
    pub(crate) content: Option<String>,
    pub(crate) args: Vec<String>,
}

impl ASLANDelimiterData {
    pub(crate) open spec fn view(&self) -> DelimiterView {
        DelimiterView {
            content: match self.content {
                Some(c) => Some(c@),
                None => None,
            },
            args: texts_of(self.args@),
        }
    }

    /// No delimiter is being read.
    pub(crate) fn none() -> (r: Self)
        ensures
            r@ == DelimiterView::none(),
    {
        let r = ASLANDelimiterData { content: None, args: Vec::new() };
        assert(texts_of(r.args@) =~= Seq::empty());
        r
    }
}

/// Event listeners: for each kind of event the keys of its listeners, in
/// the order of registration.
#[derive(Debug)]
pub(crate) struct ASLANEventListeners {
    pub(crate) content: Vec<String>,
    pub(crate) end: Vec<String>,
    pub(crate) end_data: Vec<String>,
}

impl ASLANEventListeners {
    /// No listener is registered.
    pub(crate) fn new() -> (r: Self)
        ensures
            texts_of(r.content@) == Seq::<Seq<char>>::empty(),
            texts_of(r.end@) == Seq::<Seq<char>>::empty(),
            texts_of(r.end_data@) == Seq::<Seq<char>>::empty(),
    {
        let r = Self { content: Vec::new(), end: Vec::new(), end_data: Vec::new() };
        assert(texts_of(r.content@) =~= Seq::empty());
        assert(texts_of(r.end@) =~= Seq::empty());
        assert(texts_of(r.end_data@) =~= Seq::empty());
        r
    }
}

/// The text of an optional string.
pub open spec fn optional_text(s: Option<String>) -> Option<Seq<char>> {
    match s {
        Some(t) => Some(t@),
        None => None,
    }
}

/// The ASLAN parser.
#[derive(Debug)]
pub struct ASLANParser {
    pub(crate) state: ASLANParserState,
    pub(crate) stack: Vec<ASLANParserStateStackFrame>,
    pub(crate) current_delimiter: ASLANDelimiterData,
    pub(crate) current_value: String,
    pub(crate) delimiter_buffer: String,
    pub(crate) delimiter_open_substring: String,
    pub(crate) recent_delimiters: RecentItems<ASLANDelimiterType>,
    pub(crate) current_escape_delimiter: Option<String>,
    pub(crate) parsing_locked: bool,
    pub(crate) parser_settings: ASLANParserSettings,
    pub(crate) multi_aslan_results: Vec<Node>,
    pub(crate) did_stop: bool,
    pub(crate) event_listeners: ASLANEventListeners,
    pub(crate) listener_idempotency_keys: Vec<String>,
    pub(crate) outbox: Vec<ASLANDelivery>,
}

impl ASLANParser {
    /// The state that the parser is in.
    pub open(crate) spec fn view(&self) -> ParserView {
        ParserView {
            state: self.state,
            stack: frames_of(self.stack@),
            delimiter: self.current_delimiter@,
            current_value: self.current_value@,
            delimiter_buffer: self.delimiter_buffer@,
            recent_delimiters: self.recent_delimiters@,
            current_escape_delimiter: optional_text(self.current_escape_delimiter),
            parsing_locked: self.parsing_locked,
            settings: self.parser_settings@,
            results: trees_of(self.multi_aslan_results@),
            did_stop: self.did_stop,
            listeners: ListenersView {
                known: texts_of(self.listener_idempotency_keys@).to_set(),
                content: texts_of(self.event_listeners.content@),
                end: texts_of(self.event_listeners.end@),
                end_data: texts_of(self.event_listeners.end_data@),
            },
            outbox: deliveries_of(self.outbox@),
        }
    }

    /// The parts of the parser fit together: it has a root frame, it
    /// holds the opening text of its prefix, and it looks back on five
    /// delimiter kinds.
    pub open(crate) spec fn sane(&self) -> bool {
        &&& self.stack@.len() >= 1
        &&& self.delimiter_open_substring@ == opener(self.parser_settings.prefix@)
        &&& self.recent_delimiters.well_formed()
        &&& self.recent_delimiters.spec_max_size() == lookback()
    }

    /// The parser is well formed: its parts fit together, and its state
    /// keeps the invariant of the state machine.
    pub open spec fn wf(&self) -> bool {
        self.sane() && self@.inv()
    }

    /// Create a new parser with default settings.
    pub fn new() -> (r: Self)
        ensures
            r.wf(),
            r@ == ParserView::initial(crate::settings::SettingsView::standard()),
    {
        Self::with_settings(ASLANParserSettings::default())
    }

    /// Create a new parser with custom settings.
    pub fn with_settings(settings: ASLANParserSettings) -> (r: Self)
        ensures
            r.wf(),
            r@ == ParserView::initial(settings@),
    {
        let mut delimiter_open_substring = String::new();
        push_char(&mut delimiter_open_substring, '[');
        delimiter_open_substring.append(settings.prefix.as_str());
        let strict_start = settings.strict_start;
        let initial_frame = ASLANParserStateStackFrame::root(&settings.default_field_name);
        let initial_result = initial_frame.inner_result.clone();
        let mut stack: Vec<ASLANParserStateStackFrame> = Vec::new();
        stack.push(initial_frame);
        let mut multi_aslan_results: Vec<Node> = Vec::new();
        multi_aslan_results.push(initial_result);
        let initial_state = if strict_start {
            ASLANParserState::Locked
        } else {
            ASLANParserState::Start
        };
        let parser = Self {
            state: initial_state,
            stack,
            current_delimiter: ASLANDelimiterData::none(),
            current_value: String::new(),
            delimiter_buffer: String::new(),
            delimiter_open_substring,
            recent_delimiters: RecentItems::new(5),
            current_escape_delimiter: None,
            parsing_locked: strict_start,
            parser_settings: settings,
            multi_aslan_results,
            did_stop: true,
            event_listeners: ASLANEventListeners::new(),
            listener_idempotency_keys: Vec::new(),
            outbox: Vec::new(),
        };
        proof {
            let expected = ParserView::initial(settings@);
            assert(parser@.stack =~= expected.stack);
            assert(parser@.results =~= expected.results);
            assert(parser@.outbox =~= expected.outbox);
            assert(texts_of(parser.listener_idempotency_keys@) =~= Seq::empty());
            assert(parser@.listeners.known =~= expected.listeners.known);
            assert(parser.delimiter_open_substring@ =~= opener(settings.prefix@));
            lemma_initial(settings@);
        }
        parser
    }

    /// The text of the current key.
    pub(crate) fn get_current_key_string(&self) -> (r: String)
        requires
            self.sane(),
        ensures
            r@ == self@.top().key_text(),
    {
        self.stack[self.stack.len() - 1].current_key.as_string()
    }

    /// The entry under the current key of the innermost frame.
    pub(crate) fn get_value_at_key(&self) -> (r: Option<&Node>)
        requires
            self.sane(),
        ensures
            entry_view(r) == self@.top().value(),
    {
        let top = &self.stack[self.stack.len() - 1];
        top.inner_result.get(&top.current_key)
    }

    /// What is known of the current key.
    pub(crate) fn current_field(&self) -> (r: FieldState)
        requires
            self.sane(),
        ensures
            r == self@.top().field(),
    {
        let key = self.get_current_key_string();
        self.stack[self.stack.len() - 1].fields.get(&key)
    }

    /// Records `state` as what is known of the current key.
    pub(crate) fn set_current_field(&mut self, state: FieldState)
        requires
            old(self).sane(),
        ensures
            final(self).sane(),
            final(self)@ == old(self)@.with_field(state),
    {
        let key = self.get_current_key_string();
        let last: usize = self.stack.len() - 1;
        self.stack[last].fields.set(&key, state);
        assert(self@.stack =~= old(self)@.with_field(state).stack);
    }
}

impl Default for ASLANParser {
    fn default() -> (r: Self)
        ensures
            r.wf(),
            r@ == ParserView::initial(crate::settings::SettingsView::standard()),
    {
        Self::new()
    }
}

/// The texts of `list` that are not `key`, in their order.
pub(crate) fn texts_without(list: &Vec<String>, key: &String) -> (r: Vec<String>)
    ensures
        texts_of(r@) == without_text(texts_of(list@), key@),
{
    let ghost all = texts_of(list@);
    let mut kept: Vec<String> = Vec::new();
    let mut i: usize = 0;
    proof {
        reveal(Seq::filter);
        assert(all.take(0) =~= Seq::empty());
        assert(texts_of(kept@) =~= Seq::empty());
    }
    while i < list.len()
        invariant
            i <= list.len(),
            all == texts_of(list@),
            texts_of(kept@) == without_text(all.take(i as int), key@),
        decreases list.len() - i,
    {
        proof {
            reveal(Seq::filter);
            assert(all.take(i + 1).drop_last() =~= all.take(i as int));
            assert(all.take(i + 1).last() == list@[i as int]@);
        }
        if list[i] != *key {
            let ghost before = texts_of(kept@);
            let copy = list[i].clone();
            kept.push(copy);
            assert(texts_of(kept@) =~= before.push(copy@));
        }
        i += 1;
    }
    assert(all.take(list.len() as int) =~= all);
    kept
}

/// Whether `list` holds the text of `key`.
pub(crate) fn texts_contain(list: &Vec<String>, key: &String) -> (r: bool)
    ensures
        r == texts_of(list@).to_set().contains(key@),
{
    let mut i: usize = 0;
    while i < list.len()
        invariant
            i <= list.len(),
            forall|j: int| 0 <= j < i ==> texts_of(list@)[j] != key@,
        decreases list.len() - i,
    {
        if list[i] == *key {
            assert(texts_of(list@)[i as int] == key@);
            return true;
        }
        i += 1;
    }
    false
}

impl ASLANParser {
    /// Parse input incrementally (streaming): the parser takes the
    /// characters of `input` one by one.
    pub fn parse_next(&mut self, input: &str)
        requires
            old(self).wf(),
        ensures
            final(self).wf(),
            final(self)@ == old(self)@.feed(input@),
    {
        let mut chars = input.chars();
        let ghost mut done: int = 0;
        proof {
            assert(input@.skip(0) =~= input@);
            assert(input@.take(0) =~= Seq::<char>::empty());
        }
        loop
            invariant
                self.sane(),
                0 <= done <= input@.len(),
                chars.obeys_prophetic_iter_laws(),
                chars.remaining() == input@.skip(done),
                self@ == old(self)@.feed(input@.take(done)),
            ensures
                self.sane(),
                self@ == old(self)@.feed(input@),
            decreases input@.len() - done,
        {
            match chars.next() {
                Some(ch) => {
                    self.handle_next_char(ch);
                    proof {
                        assert(input@.skip(done)[0] == input@[done]);
                        assert(input@.take(done + 1).drop_last() =~= input@.take(done));
                        assert(input@.skip(done).drop_first() =~= input@.skip(done + 1));
                        done = done + 1;
                    }
                },
                None => {
                    proof {
                        assert(input@.take(done) =~= input@);
                    }
                    break ;
                },
            }
        }
        proof {
            lemma_feed(old(self)@, input@);
        }
    }

    /// Close the parser and finalize results: the current key is
    /// reported as complete, the waiting text is stored, and every frame
    /// is written through to the root.
    pub fn close(&mut self)
        requires
            old(self).wf(),
        ensures
            final(self).wf(),
            final(self)@ == old(self)@.close(),
    {
        self.close_document();
        proof {
            lemma_close(old(self)@);
        }
    }

    /// Reset the parser state: a new root frame takes the place of the
    /// stack; everything else stays.
    pub fn reset(&mut self)
        requires
            old(self).wf(),
        ensures
            final(self).wf(),
            final(self)@ == old(self)@.reset(),
    {
        self.reset_stack();
        proof {
            lemma_reset(old(self)@);
        }
    }

    /// Parse a complete input string and return the result: the list of
    /// all documents where the settings ask for it, else the root of the
    /// last document.
    pub fn parse(&mut self, input: &str) -> (r: Node)
        requires
            old(self).wf(),
        ensures
            final(self).wf(),
            final(self)@ == old(self)@.feed(input@).close(),
            r@ == final(self)@.output(),
    {
        self.parse_next(input);
        self.close();
        if self.parser_settings.multi_aslan_output {
            let documents = copy_nodes(&self.multi_aslan_results);
            proof {
                lemma_view_sequence(documents);
            }
            Node::Sequence(documents)
        } else {
            self.stack[0].inner_result.clone()
        }
    }

    /// Get the current result: the tree of the root frame.
    pub fn get_result(&self) -> (r: Node)
        requires
            self.wf(),
        ensures
            r@ == self@.root_tree(),
            r@ is Mapping,
            r@.get(KeyView::Name(self@.settings.default_field_name)) is Some,
    {
        self.stack[0].inner_result.clone()
    }

    /// Get all documents of the stream, the current one last.
    pub fn get_results(&self) -> (r: Vec<Node>)
        ensures
            trees_of(r@) == self@.results,
            r@.len() == self@.results.len(),
            self.wf() ==> r@.len() >= 1,
    {
        copy_nodes(&self.multi_aslan_results)
    }

    /// Takes the deliveries made since they were last taken, oldest
    /// first: each names a listener and holds the event to hand to it.
    pub fn take_deliveries(&mut self) -> (r: Vec<ASLANDelivery>)
        requires
            old(self).wf(),
        ensures
            final(self).wf(),
            deliveries_of(r@) == old(self)@.outbox,
            final(self)@ == (ParserView { outbox: Seq::empty(), ..old(self)@ }),
    {
        let mut taken: Vec<ASLANDelivery> = Vec::new();
        core::mem::swap(&mut taken, &mut self.outbox);
        assert(self@.outbox =~= Seq::empty());
        taken
    }

    /// Whether a listener is registered under `key`.
    pub fn has_listener_key(&self, key: &str) -> (r: bool)
        ensures
            r == self@.listeners.known.contains(key@),
    {
        texts_contain(&self.listener_idempotency_keys, &String::from_str(key))
    }

    /// Registers a listener of `kind` under `key`, unless the key is in
    /// use.
    pub(crate) fn add_listener_with_key(&mut self, kind: ASLANEventKind, key: String)
        requires
            old(self).wf(),
        ensures
            final(self).wf(),
            final(self)@ == (ParserView {
                listeners: old(self)@.listeners.with_listener(kind, key@),
                ..old(self)@
            }),
    {
        if texts_contain(&self.listener_idempotency_keys, &key) {
            return ;
        }
        let ghost known = texts_of(self.listener_idempotency_keys@);
        self.listener_idempotency_keys.push(key.clone());
        proof {
            assert(texts_of(self.listener_idempotency_keys@) =~= known.push(key@));
            assert(known.push(key@).to_set() =~= known.to_set().insert(key@)) by {
                assert forall|k: Seq<char>| known.push(key@).contains(k) <==> (known.contains(k)
                    || k == key@) by {
                    if known.push(key@).contains(k) {
                        let i = choose|i: int|
                            0 <= i < known.push(key@).len() && known.push(key@)[i] == k;
                        if i < known.len() {
                            assert(known[i] == k);
                        }
                    }
                    if known.contains(k) {
                        let i = choose|i: int| 0 <= i < known.len() && known[i] == k;
                        assert(known.push(key@)[i] == k);
                    }
                    if k == key@ {
                        assert(known.push(key@)[known.len() as int] == k);
                    }
                }
            }
        }
        match kind {
            ASLANEventKind::Content => {
                let ghost before = texts_of(self.event_listeners.content@);
                self.event_listeners.content.push(key);
                assert(texts_of(self.event_listeners.content@) =~= before.push(key@));
            },
            ASLANEventKind::End => {
                let ghost before = texts_of(self.event_listeners.end@);
                self.event_listeners.end.push(key);
                assert(texts_of(self.event_listeners.end@) =~= before.push(key@));
            },
            ASLANEventKind::EndData => {
                let ghost before = texts_of(self.event_listeners.end_data@);
                self.event_listeners.end_data.push(key);
                assert(texts_of(self.event_listeners.end_data@) =~= before.push(key@));
            },
        }
    }

    /// Withdraws the listener of `kind` under `key`; the key is free
    /// again.
    pub(crate) fn remove_listener(&mut self, kind: ASLANEventKind, key: &str)
        requires
            old(self).wf(),
        ensures
            final(self).wf(),
            final(self)@ == (ParserView {
                listeners: old(self)@.listeners.without_listener(kind, key@),
                ..old(self)@
            }),
    {
        let key = String::from_str(key);
        let ghost known = texts_of(self.listener_idempotency_keys@);
        self.listener_idempotency_keys = texts_without(&self.listener_idempotency_keys, &key);
        proof {
            let pred = |k: Seq<char>| k != key@;
            assert(without_text(known, key@).to_set() =~= known.to_set().remove(key@)) by {
                assert forall|k: Seq<char>| without_text(known, key@).contains(k) <==> (
                known.contains(k) && k != key@) by {
                    if without_text(known, key@).contains(k) {
                        known.lemma_filter_contains_rev(pred, k);
                        let i = choose|i: int|
                            0 <= i < known.filter(pred).len() && known.filter(pred)[i] == k;
                        known.lemma_filter_pred(pred, i);
                    }
                    if known.contains(k) && k != key@ {
                        let i = choose|i: int| 0 <= i < known.len() && known[i] == k;
                        known.lemma_filter_contains(pred, i);
                    }
                }
            }
        }
        match kind {
            ASLANEventKind::Content => {
                self.event_listeners.content = texts_without(&self.event_listeners.content, &key);
            },
            ASLANEventKind::End => {
                self.event_listeners.end = texts_without(&self.event_listeners.end, &key);
            },
            ASLANEventKind::EndData => {
                self.event_listeners.end_data = texts_without(
                    &self.event_listeners.end_data,
                    &key,
                );
            },
        }
    }

    /// Add an event listener for content events, under a new random key;
    /// returns the key.
    pub fn add_content_listener(&mut self) -> (key: String)
        requires
            old(self).wf(),
        ensures
            final(self).wf(),
            is_idempotency_key(key@),
            final(self)@ == (ParserView {
                listeners: old(self)@.listeners.with_listener(ASLANEventKind::Content, key@),
                ..old(self)@
            }),
    {
        let key = generate_random_idempotency_key();
        self.add_listener_with_key(ASLANEventKind::Content, key.clone());
        key
    }

    /// Add an event listener for content events with a specific
    /// idempotency key. A key that is in use registers nothing.
    pub fn add_content_listener_with_key(&mut self, key: String)
        requires
            old(self).wf(),
        ensures
            final(self).wf(),
            final(self)@ == (ParserView {
                listeners: old(self)@.listeners.with_listener(ASLANEventKind::Content, key@),
                ..old(self)@
            }),
    {
        self.add_listener_with_key(ASLANEventKind::Content, key);
    }

    /// Add an event listener for end events, under a new random key;
    /// returns the key.
    pub fn add_end_listener(&mut self) -> (key: String)
        requires
            old(self).wf(),
        ensures
            final(self).wf(),
            is_idempotency_key(key@),
            final(self)@ == (ParserView {
                listeners: old(self)@.listeners.with_listener(ASLANEventKind::End, key@),
                ..old(self)@
            }),
    {
        let key = generate_random_idempotency_key();
        self.add_listener_with_key(ASLANEventKind::End, key.clone());
        key
    }

    /// Add an end event listener with a specific idempotency key. A key
    /// that is in use registers nothing.
    pub fn add_end_listener_with_key(&mut self, key: String)
        requires
            old(self).wf(),
        ensures
            final(self).wf(),
            final(self)@ == (ParserView {
                listeners: old(self)@.listeners.with_listener(ASLANEventKind::End, key@),
                ..old(self)@
            }),
    {
        self.add_listener_with_key(ASLANEventKind::End, key);
    }

    /// Add an event listener for end-data events, under a new random
    /// key; returns the key.
    pub fn add_end_data_listener(&mut self) -> (key: String)
        requires
            old(self).wf(),
        ensures
            final(self).wf(),
            is_idempotency_key(key@),
            final(self)@ == (ParserView {
                listeners: old(self)@.listeners.with_listener(ASLANEventKind::EndData, key@),
                ..old(self)@
            }),
    {
        let key = generate_random_idempotency_key();
        self.add_listener_with_key(ASLANEventKind::EndData, key.clone());
        key
    }

    /// Add an end-data event listener with a specific idempotency key. A
    /// key that is in use registers nothing.
    pub fn add_end_data_listener_with_key(&mut self, key: String)
        requires
            old(self).wf(),
        ensures
            final(self).wf(),
            final(self)@ == (ParserView {
                listeners: old(self)@.listeners.with_listener(ASLANEventKind::EndData, key@),
                ..old(self)@
            }),
    {
        self.add_listener_with_key(ASLANEventKind::EndData, key);
    }

    /// Remove a content event listener by key.
    pub fn remove_content_listener(&mut self, key: &str)
        requires
            old(self).wf(),
        ensures
            final(self).wf(),
            final(self)@ == (ParserView {
                listeners: old(self)@.listeners.without_listener(ASLANEventKind::Content, key@),
                ..old(self)@
            }),
    {
        self.remove_listener(ASLANEventKind::Content, key);
    }

    /// Remove an end event listener by key.
    pub fn remove_end_listener(&mut self, key: &str)
        requires
            old(self).wf(),
        ensures
            final(self).wf(),
            final(self)@ == (ParserView {
                listeners: old(self)@.listeners.without_listener(ASLANEventKind::End, key@),
                ..old(self)@
            }),
    {
        self.remove_listener(ASLANEventKind::End, key);
    }

    /// Remove an end-data event listener by key.
    pub fn remove_end_data_listener(&mut self, key: &str)
        requires
            old(self).wf(),
        ensures
            final(self).wf(),
            final(self)@ == (ParserView {
                listeners: old(self)@.listeners.without_listener(ASLANEventKind::EndData, key@),
                ..old(self)@
            }),
    {
        self.remove_listener(ASLANEventKind::EndData, key);
    }

    /// Clear all event listeners.
    pub fn clear_event_listeners(&mut self)
        requires
            old(self).wf(),
        ensures
            final(self).wf(),
            final(self)@ == (ParserView { listeners: ListenersView::none(), ..old(self)@ }),
    {
        self.listener_idempotency_keys = Vec::new();
        self.event_listeners = ASLANEventListeners::new();
        proof {
            assert(texts_of(self.listener_idempotency_keys@) =~= Seq::empty());
            assert(self@.listeners.known =~= Set::empty());
        }
    }
}

} // verus!
