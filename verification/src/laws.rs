//! What holds of the parser whatever it is fed.

use crate::events::{ASLANEventKind, InstructionView};
use crate::frame::{ASLANDataInsertionType, FrameView};
use crate::grammar::{ASLANDelimiterType, ASLANParserState};
use crate::invariants::{
    frame_sound, instructions_in_order, lemma_close, lemma_emit, lemma_feed, lemma_initial,
    lemma_step, same_but_tree, stack_synced, written_through,
};
use crate::model::{folded, without_key, without_text, ListenersView, ParserView};
use crate::node::{holds_container, KeyView, Tree};
use crate::settings::SettingsView;
use crate::tree_laws::{lemma_get_after_set, lemma_position_is, lemma_set_leaves_others};
use vstd::prelude::*;

verus! {

/// A stack whose frames are all written through is left as it is by
/// writing them through again.
pub proof fn lemma_folded_synced(stack: Seq<FrameView>, i: int)
    requires
        stack_synced(stack),
        0 <= i < stack.len(),
    ensures
        folded(stack, i) == stack,
    decreases i,
{
    if i > 0 {
        assert(written_through(stack, i));
        let parent = stack[i - 1];
        assert(stack.update(
            i - 1,
            FrameView { tree: parent.tree.set(parent.current_key, stack[i].tree), ..parent },
        ) =~= stack);
        lemma_folded_synced(stack, i - 1);
    }
}

/// A new parser keeps the invariant, and so does every state that it
/// reaches: whatever is fed, and whether or not the input is closed.
pub proof fn law_invariant_holds(settings: SettingsView, input: Seq<char>)
    ensures
        ParserView::initial(settings).inv(),
        ParserView::initial(settings).feed(input).inv(),
        ParserView::initial(settings).feed(input).close().inv(),
{
    lemma_initial(settings);
    lemma_feed(ParserView::initial(settings), input);
    lemma_close(ParserView::initial(settings).feed(input));
}

/// The root tree always holds the default field: in every state that
/// keeps the invariant, and so after every input, the root is a mapping
/// with an entry under the default field's name.
pub proof fn law_root_holds_default_field(m: ParserView, input: Seq<char>)
    requires
        m.inv(),
    ensures
        m.feed(input).root_tree() is Mapping,
        m.feed(input).root_tree().get(KeyView::Name(m.settings.default_field_name)) is Some,
        m.feed(input).close().root_tree() is Mapping,
        m.feed(input).close().root_tree().get(KeyView::Name(m.settings.default_field_name))
            is Some,
{
    lemma_feed(m, input);
    lemma_close(m.feed(input));
}

/// Before any input the default field holds the empty text.
pub proof fn law_default_field_starts_empty(settings: SettingsView)
    ensures
        ParserView::initial(settings).root_tree().get(
            KeyView::Name(settings.default_field_name),
        ) == Some(Tree::Text(Seq::empty())),
{
    let entries = seq![(settings.default_field_name, Tree::Text(Seq::<char>::empty()))];
    lemma_position_is(entries, settings.default_field_name, 0);
}

/// When a mapping moves to a named key, a default field that holds the
/// empty text becomes void, and one that holds anything else keeps it: a
/// text written before the first named key stays as a preamble.
pub proof fn law_default_field_demoted(
    frame: FrameView,
    name: Seq<char>,
    default_field_name: Seq<char>,
)
    requires
        frame.tree is Mapping,
    ensures
        frame.next_name(name, default_field_name).tree.get(KeyView::Name(default_field_name)) == (
        if frame.tree.get(KeyView::Name(default_field_name)) == Some(Tree::Text(Seq::empty())) {
            Some(Tree::Void)
        } else {
            frame.tree.get(KeyView::Name(default_field_name))
        }),
        forall|other: Seq<char>|
            other != default_field_name ==> frame.next_name(name, default_field_name).tree.get(
                KeyView::Name(other),
            ) == frame.tree.get(KeyView::Name(other)),
{
    let default_key = KeyView::Name(default_field_name);
    if frame.tree.get(default_key) == Some(Tree::Text(Seq::empty())) {
        lemma_get_after_set(frame.tree, default_key, Tree::Void);
        assert forall|other: Seq<char>| other != default_field_name implies frame.next_name(
            name,
            default_field_name,
        ).tree.get(KeyView::Name(other)) == frame.tree.get(KeyView::Name(other)) by {
            lemma_set_leaves_others(frame.tree, default_key, Tree::Void, other);
        }
    }
}

/// The stack never runs empty: after every input there is a root frame.
pub proof fn law_root_frame_stays(m: ParserView, input: Seq<char>)
    requires
        m.inv(),
    ensures
        m.feed(input).stack.len() >= 1,
        m.feed(input).close().stack.len() >= 1,
{
    lemma_feed(m, input);
    lemma_close(m.feed(input));
}

/// Closing a container never drops the root frame: with one frame on the
/// stack it changes nothing, with more it drops exactly the innermost.
pub proof fn law_root_frame_never_popped(m: ParserView)
    requires
        m.stack.len() >= 1,
    ensures
        m.stack.len() == 1 ==> m.close_container() == m,
        m.stack.len() > 1 ==> m.close_container().stack.len() == m.stack.len() - 1,
{
    if m.stack.len() > 1 {
        lemma_emit(m, ASLANEventKind::End);
        lemma_emit(m.emit_end_events(), ASLANEventKind::End);
        lemma_folded_top(m.stack, m.stack.len() - 1);
    }
}

/// Every key that is an index lies below the next free index of its
/// frame, after every input.
pub proof fn law_index_below_next_free(m: ParserView, input: Seq<char>, i: int)
    requires
        m.inv(),
        0 <= i < m.feed(input).stack.len(),
    ensures
        m.feed(input).stack[i].current_key matches KeyView::Index(k) ==> k < m.feed(
            input,
        ).stack[i].min_array_index,
{
    lemma_feed(m, input);
    assert(frame_sound(m.feed(input).stack[i]));
}

/// Moving to the next index never lowers the next free index.
pub proof fn law_next_free_index_grows(frame: FrameView, named: Option<i64>)
    ensures
        frame.next_index(named).min_array_index >= frame.min_array_index,
{
}

/// After every character the root tree is what writing the innermost
/// frame's tree up through the keys of its parents gives: writing the
/// frames through once more changes no frame.
pub proof fn law_root_is_written_through(m: ParserView, input: Seq<char>)
    requires
        m.inv(),
    ensures
        folded(m.feed(input).stack, m.feed(input).stack.len() - 1) == m.feed(input).stack,
        m.feed(input).synced().root_tree() == m.feed(input).root_tree(),
{
    lemma_feed(m, input);
    lemma_folded_synced(m.feed(input).stack, m.feed(input).stack.len() - 1);
}

/// Feeding a text in two pieces is feeding it whole.
pub proof fn law_feed_in_two(m: ParserView, first: Seq<char>, second: Seq<char>)
    ensures
        m.feed(first).feed(second) == m.feed(first + second),
    decreases second.len(),
{
    if second.len() == 0 {
        assert(first + second =~= first);
    } else {
        law_feed_in_two(m, first, second.drop_last());
        assert((first + second).drop_last() =~= first + second.drop_last());
        assert((first + second).last() == second.last());
    }
}

/// The chunks of `chunks` joined into one text.
pub open spec fn joined(chunks: Seq<Seq<char>>) -> Seq<char>
    decreases chunks.len(),
{
    if chunks.len() == 0 {
        Seq::empty()
    } else {
        joined(chunks.drop_last()) + chunks.last()
    }
}

/// The state after the chunks of `chunks` were fed one after another.
pub open spec fn fed_in_chunks(m: ParserView, chunks: Seq<Seq<char>>) -> ParserView
    decreases chunks.len(),
{
    if chunks.len() == 0 {
        m
    } else {
        fed_in_chunks(m, chunks.drop_last()).feed(chunks.last())
    }
}

/// However an input is split into chunks, feeding the chunks one after
/// another and closing gives the state, and so the result, that feeding
/// the whole input and closing gives.
pub proof fn law_chunking_invariance(m: ParserView, chunks: Seq<Seq<char>>)
    ensures
        fed_in_chunks(m, chunks) == m.feed(joined(chunks)),
        fed_in_chunks(m, chunks).close() == m.feed(joined(chunks)).close(),
        fed_in_chunks(m, chunks).close().output() == m.feed(joined(chunks)).close().output(),
    decreases chunks.len(),
{
    if chunks.len() > 0 {
        law_chunking_invariance(m, chunks.drop_last());
        law_feed_in_two(m, joined(chunks.drop_last()), chunks.last());
    }
}

/// A text without `[`.
pub open spec fn is_plain(text: Seq<char>) -> bool {
    forall|i: int| 0 <= i < text.len() ==> #[trigger] text[i] != '['
}

/// The root that holds nothing but `text` in the default field.
pub open spec fn plain_tree(settings: SettingsView, text: Seq<char>) -> Tree {
    Tree::Mapping(seq![(settings.default_field_name, Tree::Text(text))])
}

/// The state of a new, unlocked parser after the plain text `text`: the
/// first character waits, and from the second on all of it is stored.
pub open spec fn plain_state(settings: SettingsView, text: Seq<char>) -> ParserView {
    let start = ParserView::initial(settings);
    if text.len() == 0 {
        start
    } else if text.len() == 1 {
        ParserView { state: ASLANParserState::Data, current_value: text, ..start }
    } else {
        ParserView {
            state: ASLANParserState::Data,
            stack: seq![
                FrameView {
                    tree: plain_tree(settings, text),
                    ..FrameView::root(settings.default_field_name)
                },
            ],
            results: seq![plain_tree(settings, text)],
            ..start
        }
    }
}

/// Storing a text in a state that holds only the default field.
proof fn lemma_plain_store(settings: SettingsView, stored: Seq<char>, waiting: Seq<char>)
    requires
        waiting.len() > 0,
    ensures
        ({
            let m = ParserView {
                state: ASLANParserState::Data,
                stack: seq![
                    FrameView {
                        tree: plain_tree(settings, stored),
                        ..FrameView::root(settings.default_field_name)
                    },
                ],
                results: seq![plain_tree(settings, stored)],
                current_value: waiting,
                ..ParserView::initial(settings)
            };
            m.store_current_value() == (ParserView {
                stack: seq![
                    FrameView {
                        tree: plain_tree(settings, stored + waiting),
                        ..FrameView::root(settings.default_field_name)
                    },
                ],
                results: seq![plain_tree(settings, stored + waiting)],
                current_value: Seq::empty(),
                ..m
            })
        }),
{
    let name = settings.default_field_name;
    let root = FrameView { tree: plain_tree(settings, stored), ..FrameView::root(name) };
    let m = ParserView {
        state: ASLANParserState::Data,
        stack: seq![root],
        results: seq![plain_tree(settings, stored)],
        current_value: waiting,
        ..ParserView::initial(settings)
    };
    let entries = seq![(name, Tree::Text(stored))];
    lemma_position_is(entries, name, 0);
    assert(m.top() == root);
    assert(root.key_text() == name);
    assert(root.value() == Some(Tree::Text(stored)));
    let field = m.top().field();
    assert(!field.void && !field.locked && !field.implicit_array);
    let written = Tree::Text(stored + waiting);
    assert(entries.update(0, (name, written)) =~= seq![(name, written)]);
    assert(root.tree.set(root.current_key, written) == plain_tree(settings, stored + waiting));
    let grown = FrameView { tree: plain_tree(settings, stored + waiting), ..root };
    assert(m.with_top(FrameView { tree: root.tree.set(root.current_key, written), ..root }).stack
        =~= seq![grown]);
    let put = m.put(written);
    assert(put.stack =~= seq![grown]);
    assert(put.results =~= seq![plain_tree(settings, stored + waiting)]);
    assert(put.top().instructions.len() == 0);
    assert(put.emit_for_value(ASLANEventKind::Content) == put);
}

/// What a new, unlocked parser makes of a plain text.
proof fn lemma_plain_feed(settings: SettingsView, text: Seq<char>)
    requires
        !settings.strict_start,
        is_plain(text),
    ensures
        ParserView::initial(settings).feed(text) == plain_state(settings, text),
    decreases text.len(),
{
    if text.len() > 0 {
        let before = text.drop_last();
        let ch = text.last();
        assert(is_plain(before)) by {
            assert forall|i: int| 0 <= i < before.len() implies #[trigger] before[i] != '[' by {
                assert(text[i] != '[');
            }
        }
        assert(ch != '[') by {
            assert(text[text.len() - 1] != '[');
        }
        lemma_plain_feed(settings, before);
        let m = plain_state(settings, before);
        reveal(ParserView::step);
        reveal(ParserView::step_unlocked);
        reveal(ParserView::step_start);
        reveal(ParserView::step_data);
        if before.len() == 0 {
            assert(text =~= seq![ch]);
            assert(m.current_value.push(ch) =~= text);
        } else if before.len() == 1 {
            let name = settings.default_field_name;
            assert(m.appended(ch).current_value =~= text);
            lemma_plain_store(settings, Seq::empty(), text);
            assert(Seq::<char>::empty() + text =~= text);
            assert(m.appended(ch) == (ParserView {
                state: ASLANParserState::Data,
                stack: seq![
                    FrameView {
                        tree: plain_tree(settings, Seq::empty()),
                        ..FrameView::root(name)
                    },
                ],
                results: seq![plain_tree(settings, Seq::empty())],
                current_value: text,
                ..ParserView::initial(settings)
            })) by {
                assert(FrameView::root(name) == (FrameView {
                    tree: plain_tree(settings, Seq::empty()),
                    ..FrameView::root(name)
                }));
            }
        } else {
            lemma_plain_store(settings, before, seq![ch]);
            assert(before + seq![ch] =~= text);
            assert(m.appended(ch).current_value =~= seq![ch]);
        }
    }
}

/// Round trip: a new parser that is not locked, fed a text without `[`
/// and closed, holds that text in the default field and nothing else.
pub proof fn law_plain_text_round_trip(settings: SettingsView, text: Seq<char>)
    requires
        !settings.strict_start,
        is_plain(text),
    ensures
        ParserView::initial(settings).feed(text).close().root_tree() == plain_tree(
            settings,
            text,
        ),
        ParserView::initial(settings).feed(text).close().results == seq![
            plain_tree(settings, text),
        ],
        ParserView::initial(settings).feed(text).close().output() == (
        if settings.multi_aslan_output {
            Tree::Sequence(seq![plain_tree(settings, text)])
        } else {
            plain_tree(settings, text)
        }),
{
    lemma_plain_feed(settings, text);
    lemma_initial(settings);
    lemma_feed(ParserView::initial(settings), text);
    lemma_close(ParserView::initial(settings).feed(text));
    let name = settings.default_field_name;
    let m = plain_state(settings, text);
    let entries = seq![(name, Tree::Text(Seq::<char>::empty()))];
    lemma_position_is(entries, name, 0);
    if text.len() >= 2 {
        lemma_position_is(seq![(name, Tree::Text(text))], name, 0);
    }
    assert(m.top().instructions.len() == 0);
    assert(m.stack.len() == 1);
    let field = m.top().field();
    assert(!field.void && !field.locked && !field.implicit_array);
    lemma_emit(m, ASLANEventKind::End);
    let ended = m.emit_end_events();
    assert(ended == m);
    let reported = ended.emit_end_data_events();
    assert(reported.outbox =~= m.outbox);
    assert(reported == m);
    if text.len() == 1 {
        lemma_plain_store(settings, Seq::empty(), text);
        assert(Seq::<char>::empty() + text =~= text);
        assert(FrameView::root(name) == (FrameView {
            tree: plain_tree(settings, Seq::empty()),
            ..FrameView::root(name)
        }));
        assert(m == (ParserView {
            state: ASLANParserState::Data,
            stack: seq![
                FrameView { tree: plain_tree(settings, Seq::empty()), ..FrameView::root(name) },
            ],
            results: seq![plain_tree(settings, Seq::empty())],
            current_value: text,
            ..ParserView::initial(settings)
        }));
    } else if text.len() == 0 {
        assert(text =~= Seq::empty());
    }
    let stored = reported.store_current_value();
    assert(stored.stack.len() == 1);
    assert(stored.root_tree() == plain_tree(settings, text));
    assert(stored.results =~= seq![plain_tree(settings, text)]);
    assert(stored.synced().results =~= seq![plain_tree(settings, text)]);
}

/// `part` is `whole` with some instructions left out: what stays has
/// kept its order.
pub open spec fn is_selection(
    part: Seq<InstructionView>,
    whole: Seq<InstructionView>,
) -> bool
    decreases whole.len(),
{
    if part.len() == 0 {
        true
    } else if whole.len() == 0 {
        false
    } else {
        (part.last() == whole.last() && is_selection(part.drop_last(), whole.drop_last()))
            || is_selection(part, whole.drop_last())
    }
}

/// Dropping the instructions of one key leaves the others in their
/// order.
pub proof fn law_dropping_keeps_order(list: Seq<InstructionView>, key: Seq<char>)
    ensures
        is_selection(without_key(list, key), list),
    decreases list.len(),
{
    reveal(Seq::filter);
    if list.len() > 0 {
        law_dropping_keeps_order(list.drop_last(), key);
        let kept = without_key(list, key);
        if list.last().key != key {
            assert(kept.drop_last() =~= without_key(list.drop_last(), key));
        }
    }
}

/// A list is a selection of itself.
pub proof fn lemma_selection_of_itself(list: Seq<InstructionView>)
    ensures
        is_selection(list, list),
    decreases list.len(),
{
    if list.len() > 0 {
        lemma_selection_of_itself(list.drop_last());
    }
}

/// Registered instructions stay in the order in which they were seen:
/// one character leaves the instructions of a frame as they are, or
/// drops them all, or puts one more at their end, or drops those of one
/// key; it never moves one before another.
pub proof fn law_instructions_keep_order(m: ParserView, ch: char, i: int)
    requires
        m.inv(),
        0 <= i < m.stack.len(),
        i < m.step(ch).stack.len(),
    ensures
        instructions_in_order(
            m.stack[i].instructions,
            m.step(ch).stack[i].instructions,
        ),
        is_selection(m.step(ch).stack[i].instructions, m.stack[i].instructions) || is_selection(
            m.stack[i].instructions,
            m.step(ch).stack[i].instructions.drop_last(),
        ),
{
    lemma_step(m, ch);
    let before = m.stack[i].instructions;
    let after = m.step(ch).stack[i].instructions;
    assert(instructions_in_order(before, after));
    lemma_selection_of_itself(before);
    if after == before || after.len() == 0 {
    } else if exists|added: InstructionView| after == before.push(added) {
        let added = choose|added: InstructionView| after == before.push(added);
        assert(before.push(added).drop_last() =~= before);
    } else {
        let key = choose|key: Seq<char>| after == without_key(before, key);
        law_dropping_keeps_order(before, key);
    }
}

/// An instruction is registered behind those that the frame holds: an
/// instruction delimiter leaves the instructions of the innermost frame
/// as they are, where the key was seen again under keep-first, and else
/// puts the new one, with the delimiter's content as its name, last.
pub proof fn law_instruction_registered_last(m: ParserView)
    requires
        m.stack.len() >= 1,
    ensures
        ({
            let before = m.top().instructions;
            let after = m.instruction_delimiter().top().instructions;
            let field = m.top().field();
            if field.duplicate_seen && field.policy == Some(
                ASLANDataInsertionType::KeepFirst,
            ) {
                after == before
            } else {
                &&& after.len() == before.len() + 1
                &&& after.drop_last() == before
                &&& after.last().key == m.top().key_text()
                &&& after.last().name == m.delimiter.content_text()
                &&& after.last().args == m.delimiter.args
            }
        }),
{
    let before = m.top().instructions;
    let after = m.instruction_delimiter().top().instructions;
    let field = m.top().field();
    if !(field.duplicate_seen && field.policy == Some(
        ASLANDataInsertionType::KeepFirst,
    )) {
        assert(after.drop_last() =~= before);
    }
}

/// No step of `input` puts parts or a container under the default field
/// of the root.
pub open spec fn leaves_default_alone(m: ParserView, input: Seq<char>) -> bool
    decreases input.len(),
{
    input.len() == 0 || (leaves_default_alone(m, input.drop_last()) && !m.feed(
        input.drop_last(),
    ).reshapes_default(input.last()))
}

/// Before any input the default field holds a text, and no container is
/// open under it.
pub proof fn law_default_field_starts_scalar(settings: SettingsView)
    ensures
        ParserView::initial(settings).default_guarded(),
{
    law_default_field_starts_empty(settings);
}

/// One character leaves a text or the void marker in the default field,
/// unless it completes a delimiter that puts parts or a container there:
/// with the root frame the innermost and at the default field, a part
/// delimiter at a key that is not locked, or an object or array delimiter
/// that opens a container.
pub proof fn law_default_field_stays_scalar(m: ParserView, ch: char)
    requires
        m.inv(),
        m.default_guarded(),
        !m.reshapes_default(ch),
    ensures
        m.step(ch).default_guarded(),
        m.step(ch).default_is_scalar(),
{
    lemma_step(m, ch);
}

/// The default field holds a text or the void marker after every input
/// of which no step puts parts or a container there.
pub proof fn law_default_field_is_scalar(m: ParserView, input: Seq<char>)
    requires
        m.inv(),
        m.default_guarded(),
        leaves_default_alone(m, input),
    ensures
        m.feed(input).default_guarded(),
        m.feed(input).default_is_scalar(),
    decreases input.len(),
{
    if input.len() > 0 {
        law_default_field_is_scalar(m, input.drop_last());
        lemma_feed(m, input.drop_last());
        lemma_step(m.feed(input.drop_last()), input.last());
    }
}

/// The steps that are left out above are exactly those that put parts or
/// a container under the default field: after such a step the default
/// field holds neither a text nor the void marker.
pub proof fn law_reshaping_step_reshapes(m: ParserView, ch: char)
    requires
        m.inv(),
        m.default_guarded(),
        m.reshapes_default(ch),
    ensures
        !m.step(ch).default_is_scalar(),
        m.step(ch).root_tree().get(KeyView::Name(m.settings.default_field_name)) matches Some(
            value,
        ) && value.is_container(),
{
    reveal(ParserView::step);
    reveal(ParserView::step_unlocked);
    reveal(ParserView::step_part_delimiter);
    reveal(ParserView::step_object_delimiter);
    reveal(ParserView::step_array_delimiter);
    let name = m.settings.default_field_name;
    let default_key = KeyView::Name(name);
    let root = m.top();
    assert(root == m.stack[0]);
    crate::tree_laws::lemma_get_by_text(root.tree, root.current_key, default_key);
    if m.state == ASLANParserState::PartDelimiter {
        let field = root.field();
        let marked = m.with_field(
            crate::frame::FieldState { implicit_array: true, ..field },
        );
        crate::invariants::lemma_with_field(
            m,
            crate::frame::FieldState { implicit_array: true, ..field },
        );
        let parts = match root.value() {
            Some(Tree::Text(s)) => if s.len() > 0 {
                Tree::Sequence(seq![Tree::Text(s), Tree::Text(Seq::empty())])
            } else {
                Tree::Sequence(seq![Tree::Text(Seq::empty())])
            },
            _ => Tree::Sequence(seq![Tree::Text(Seq::empty())]),
        };
        crate::invariants::lemma_put(marked, parts);
        let parted = marked.put(parts);
        lemma_get_after_set(root.tree, root.current_key, parts);
        crate::tree_laws::lemma_get_by_text(
            root.tree.set(root.current_key, parts),
            root.current_key,
            default_key,
        );
        assert(parted.stack.len() == 1);
        assert(parted.root_tree().get(default_key) == Some(parts));
        let ready = ParserView {
            state: ASLANParserState::Data,
            delimiter_buffer: Seq::empty(),
            current_value: Seq::empty(),
            ..parted
        };
        lemma_folded_synced(ready.stack, 0);
        match ready.delimiter.content {
            Some(other) => {
                let moved = ready.with_top(ready.top().next_name(other, name));
                assert(moved.stack.len() == 1);
                assert(moved.stack[0].tree == ready.top().tree);
            },
            None => {},
        }
    } else {
        let kind = if m.state == ASLANParserState::ObjectDelimiter {
            ASLANDelimiterType::Object
        } else {
            ASLANDelimiterType::Array
        };
        let ready = ParserView {
            state: if kind == ASLANDelimiterType::Object {
                ASLANParserState::Object
            } else {
                ASLANParserState::Array
            },
            delimiter_buffer: Seq::empty(),
            ..m
        };
        assert(ready.container_opens(kind) == m.container_opens(kind));
        let field = ready.top().field();
        let from = if ready.container_replaces(kind) {
            ready.with_field(crate::frame::FieldState { duplicate_seen: false, ..field })
        } else {
            ready
        };
        let empty = if kind == ASLANDelimiterType::Object {
            Tree::Mapping(Seq::empty())
        } else {
            Tree::Sequence(Seq::empty())
        };
        let top = from.top();
        assert(top.tree == root.tree && top.current_key == root.current_key);
        let parent = FrameView { tree: top.tree.set(top.current_key, empty), ..top };
        let child = if kind == ASLANDelimiterType::Object {
            FrameView::for_mapping(name)
        } else {
            FrameView::for_sequence()
        };
        let opened = from.stack.update(from.stack.len() - 1, parent).push(child);
        assert(opened.len() == 2);
        assert(opened[0] == parent && opened[1] == child);
        crate::tree_laws::lemma_set_idempotent(top.tree, top.current_key, empty);
        lemma_get_after_set(top.tree, top.current_key, empty);
        crate::tree_laws::lemma_get_by_text(
            top.tree.set(top.current_key, empty),
            top.current_key,
            default_key,
        );
        assert(folded(opened, 1) =~= opened) by {
            assert(opened.update(
                0,
                FrameView { tree: parent.tree.set(parent.current_key, child.tree), ..parent },
            ) =~= opened);
            assert(folded(opened, 0) == opened);
        }
    }
}

/// There is always a current document: the list of documents is never
/// empty.
pub proof fn law_document_list_is_never_empty(m: ParserView, input: Seq<char>)
    requires
        m.inv(),
    ensures
        m.feed(input).results.len() >= 1,
        m.feed(input).close().results.len() >= 1,
{
    lemma_feed(m, input);
    lemma_close(m.feed(input));
}

/// Closing is idempotent in what it leaves of the trees: a second close
/// changes no frame and no document.
pub proof fn law_closing_twice(m: ParserView)
    requires
        m.inv(),
    ensures
        m.close().close().stack == m.close().stack,
        m.close().close().results == m.close().results,
        m.close().close().output() == m.close().output(),
{
    lemma_close(m);
    let once = m.close();
    lemma_emit(once, ASLANEventKind::End);
    lemma_emit(once.emit_end_events(), ASLANEventKind::End);
    let reported = once.emit_end_events().emit_end_data_events();
    assert(reported.stack == once.stack);
    assert(reported.current_value =~= Seq::<char>::empty());
    let top = once.top();
    assert(same_but_tree(once.stack[once.stack.len() - 1], m.stack[m.stack.len() - 1]));
    lemma_folded_synced(once.stack, once.stack.len() - 1);
    if top.field().void {
        crate::tree_laws::lemma_set_idempotent(m.top().tree, m.top().current_key, Tree::Void);
        let cleared = reported.with_value_cleared();
        assert(cleared.with_top(
            FrameView { tree: top.tree.set(top.current_key, Tree::Void), ..top },
        ).stack =~= once.stack);
        assert(cleared.put(Tree::Void).stack == once.stack);
        assert(cleared.put(Tree::Void).results =~= once.results) by {
            law_closed_document_is_the_root(m);
        }
    } else {
        crate::invariants::lemma_store_current_value(reported);
    }
    let stored = reported.store_current_value();
    assert(stored.stack == once.stack);
    assert(stored.results == once.results);
    assert(stored.synced().results =~= once.results) by {
        law_closed_document_is_the_root(m);
    }
}

/// After a close the current document is the root tree: the last of the
/// documents is what the root frame holds.
pub proof fn law_closed_document_is_the_root(m: ParserView)
    requires
        m.inv(),
    ensures
        m.close().results.len() >= 1,
        m.close().results.last() == m.close().root_tree(),
{
    lemma_close(m);
    lemma_emit(m, ASLANEventKind::End);
    lemma_emit(m.emit_end_events(), ASLANEventKind::End);
    let reported = m.emit_end_events().emit_end_data_events();
    crate::invariants::lemma_store_current_value(reported);
    crate::invariants::lemma_synced(reported.store_current_value());
}

/// Registering under a key that is in use is a no-op, whatever the kind
/// of event.
pub proof fn law_registration_is_idempotent(
    listeners: ListenersView,
    kind: ASLANEventKind,
    again: ASLANEventKind,
    key: Seq<char>,
)
    ensures
        listeners.with_listener(kind, key).with_listener(again, key) == listeners.with_listener(
            kind,
            key,
        ),
{
}

/// The key of a listener removes it: registering under a key that is not
/// in use and withdrawing it again leaves the listeners as they were.
pub proof fn law_removal_undoes_registration(
    listeners: ListenersView,
    kind: ASLANEventKind,
    key: Seq<char>,
)
    requires
        !listeners.known.contains(key),
        !listeners.of_kind(kind).contains(key),
    ensures
        listeners.with_listener(kind, key).without_listener(kind, key) == listeners,
{
    let list = listeners.of_kind(kind);
    lemma_without_absent_text(list, key);
    reveal(Seq::filter);
    assert(list.push(key).drop_last() =~= list);
    assert(without_text(list.push(key), key) == list);
    assert(listeners.known.insert(key).remove(key) =~= listeners.known);
}

/// Dropping a text from a list that does not hold it changes nothing.
pub proof fn lemma_without_absent_text(list: Seq<Seq<char>>, key: Seq<char>)
    requires
        !list.contains(key),
    ensures
        without_text(list, key) == list,
    decreases list.len(),
{
    reveal(Seq::filter);
    if list.len() > 0 {
        assert(list.last() == list[list.len() - 1]);
        assert forall|i: int| 0 <= i < list.drop_last().len() implies list.drop_last()[i]
            != key by {
            assert(list[i] == list.drop_last()[i]);
        }
        assert(!list.drop_last().contains(key));
        lemma_without_absent_text(list.drop_last(), key);
        assert(without_text(list, key) =~= list);
    }
}

/// A write policy is assigned once: a key that has one keeps it, whatever
/// a later data delimiter asks for.
pub proof fn law_policy_is_assigned_once(m: ParserView, policy: ASLANDataInsertionType)
    requires
        m.inv(),
        m.top().field().policy is Some,
    ensures
        m.set_data_insertion_type(policy).top().field().policy == m.top().field().policy,
{
    let top = m.top();
    if top.field().policy == Some(ASLANDataInsertionType::KeepLast) {
        let wiped = m.with_top(
            FrameView {
                tree: if top.tree is Mapping {
                    top.tree.set(top.current_key, Tree::Text(Seq::empty()))
                } else {
                    top.tree
                },
                instructions: without_key(top.instructions, top.key_text()),
                ..top
            },
        );
        lemma_folded_top(wiped.stack, wiped.stack.len() - 1);
    }
}

/// Writing frames through leaves the innermost frame as it is.
pub proof fn lemma_folded_top(stack: Seq<FrameView>, i: int)
    requires
        stack.len() >= 1,
        i < stack.len(),
    ensures
        folded(stack, i).len() == stack.len(),
        folded(stack, i).last() == stack.last(),
    decreases i,
{
    if 0 < i {
        let parent = stack[i - 1];
        lemma_folded_top(
            stack.update(
                i - 1,
                FrameView { tree: parent.tree.set(parent.current_key, stack[i].tree), ..parent },
            ),
            i - 1,
        );
    }
}

/// A void key takes no text: storing drops the waiting text, and a
/// mapping holds the void marker under the key.
pub proof fn law_void_key_takes_nothing(m: ParserView)
    requires
        m.inv(),
        m.top().field().void,
    ensures
        m.store_current_value().current_value.len() == 0,
        m.top().tree is Mapping ==> m.store_current_value().top().value() == Some(Tree::Void),
{
    let top = m.top();
    crate::invariants::lemma_put(m.with_value_cleared(), Tree::Void);
    if top.tree is Mapping {
        lemma_get_after_set(top.tree, top.current_key, Tree::Void);
        lemma_folded_top(
            m.with_value_cleared().with_top(
                FrameView { tree: top.tree.set(top.current_key, Tree::Void), ..top },
            ).stack,
            m.stack.len() - 1,
        );
    }
}

/// A locked key takes no text: storing drops the waiting text and leaves
/// every frame as it is.
pub proof fn law_locked_key_takes_nothing(m: ParserView)
    requires
        m.top().field().locked,
        !m.top().field().void,
    ensures
        m.store_current_value() == m.with_value_cleared(),
{
    if m.current_value.len() == 0 {
        assert(m.current_value =~= Seq::<char>::empty());
    }
}

/// With a limit on the object depth, an object delimiter at the limit
/// always closes: it opens nothing, and with more than the root frame on
/// the stack it drops the innermost frame.
pub proof fn law_object_closes_at_the_limit(m: ParserView)
    requires
        m.stack.len() >= 1,
        m.settings.max_object_depth is Some,
        m.object_depth() >= m.settings.max_object_depth->0,
    ensures
        !m.container_opens(ASLANDelimiterType::Object),
        m.container_delimiter(ASLANDelimiterType::Object).stack.len() == (if m.stack.len() > 1 {
            m.stack.len() - 1
        } else {
            m.stack.len() as int
        }),
{
    let ready = ParserView {
        state: ASLANParserState::Object,
        delimiter_buffer: Seq::empty(),
        ..m
    };
    assert(ready.container_opens(ASLANDelimiterType::Object) == m.container_opens(
        ASLANDelimiterType::Object,
    ));
    law_root_frame_never_popped(ready);
}

/// With a limit on the object depth, an object delimiter below the limit
/// always opens over a key that holds no container: the key takes an
/// empty mapping, and a new frame owns it.
pub proof fn law_object_opens_below_the_limit(m: ParserView)
    requires
        m.stack.len() >= 1,
        m.settings.max_object_depth is Some,
        m.object_depth() < m.settings.max_object_depth->0,
        !holds_container(m.top().value()),
    ensures
        m.container_opens(ASLANDelimiterType::Object),
        m.container_delimiter(ASLANDelimiterType::Object).stack.len() == m.stack.len() + 1,
        m.container_delimiter(ASLANDelimiterType::Object).top() == FrameView::for_mapping(
            m.settings.default_field_name,
        ),
{
    let kind = ASLANDelimiterType::Object;
    let ready = ParserView {
        state: ASLANParserState::Object,
        delimiter_buffer: Seq::empty(),
        ..m
    };
    assert(ready.container_opens(kind) == m.container_opens(kind));
    let field = ready.top().field();
    let from = if ready.container_replaces(kind) {
        ready.with_field(crate::frame::FieldState { duplicate_seen: false, ..field })
    } else {
        ready
    };
    let top = from.top();
    let parent = FrameView {
        tree: top.tree.set(top.current_key, Tree::Mapping(Seq::empty())),
        ..top
    };
    let opened = from.stack.update(from.stack.len() - 1, parent).push(
        FrameView::for_mapping(m.settings.default_field_name),
    );
    lemma_folded_top(opened, opened.len() - 1);
}

} // verus!
