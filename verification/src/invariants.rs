//! What holds of every state that the parser can reach, and the proof that
//! each part of a step keeps it.

use crate::events::{ASLANEventKind, InstructionView};
use crate::frame::{ASLANDataInsertionType, FieldState, FrameView};
use crate::grammar::{policy_of_arg, ASLANDelimiterType, ASLANParserState};
use crate::model::{folded, without_key, DelimiterView, ParserView};
use crate::node::{holds_container, items_of, text_of, KeyView, Tree};
use crate::settings::SettingsView;
use crate::text::parse_index;
use crate::tree_laws::{
    lemma_get_after_set, lemma_get_by_text, lemma_position_is, lemma_set_idempotent,
    lemma_set_keeps_kind, lemma_set_keeps_names, lemma_set_leaves_others,
};
use vstd::prelude::*;

verus! {

/// A frame is sound: it owns a mapping or a sequence, and an index that
/// is its key lies below the next free index.
pub open spec fn frame_sound(frame: FrameView) -> bool {
    &&& frame.tree.is_container()
    &&& frame.current_key matches KeyView::Index(k) ==> k < frame.min_array_index
}

/// The frame at `i` is written through: its parent holds its tree under
/// the parent's key, or has no place for it.
pub open spec fn written_through(stack: Seq<FrameView>, i: int) -> bool {
    stack[i - 1].tree.set(stack[i - 1].current_key, stack[i].tree) == stack[i - 1].tree
}

/// A stack is sound: it has a root frame, the root owns a mapping that
/// holds the default field, and every frame is sound.
pub open spec fn stack_sound(stack: Seq<FrameView>, default_field_name: Seq<char>) -> bool {
    &&& stack.len() >= 1
    &&& stack[0].tree is Mapping
    &&& stack[0].tree.get(KeyView::Name(default_field_name)) is Some
    &&& forall|i: int| 0 <= i < stack.len() ==> frame_sound(#[trigger] stack[i])
}

/// Every frame above the root is written through.
pub open spec fn stack_synced(stack: Seq<FrameView>) -> bool {
    forall|i: int| 1 <= i < stack.len() ==> #[trigger] written_through(stack, i)
}

/// Two frames differ in their trees at most.
pub open spec fn same_but_tree(a: FrameView, b: FrameView) -> bool {
    a == (FrameView { tree: a.tree, ..b })
}

/// Two stacks have the same frames but for their trees.
pub open spec fn same_frames_but_trees(a: Seq<FrameView>, b: Seq<FrameView>) -> bool {
    &&& a.len() == b.len()
    &&& forall|i: int| 0 <= i < a.len() ==> same_but_tree(#[trigger] a[i], b[i])
}

/// Two stacks have as many frames, with the same instructions on each.
pub open spec fn same_instructions(a: Seq<FrameView>, b: Seq<FrameView>) -> bool {
    &&& a.len() == b.len()
    &&& forall|i: int| 0 <= i < a.len() ==> (#[trigger] a[i]).instructions == b[i].instructions
}

/// What one step may make of the instructions of a frame: nothing, none
/// at all, the same with one more at the end, or the same without those
/// of one key. None of these changes the order of two instructions.
pub open spec fn instructions_in_order(
    before: Seq<InstructionView>,
    after: Seq<InstructionView>,
) -> bool {
    ||| after == before
    ||| after.len() == 0
    ||| exists|added: InstructionView| after == before.push(added)
    ||| exists|key: Seq<char>| after == without_key(before, key)
}

/// Every frame that two stacks share has its instructions in order.
pub open spec fn orderly(a: Seq<FrameView>, b: Seq<FrameView>) -> bool {
    forall|i: int|
        0 <= i < a.len() && i < b.len() ==> instructions_in_order(
            (#[trigger] a[i]).instructions,
            b[i].instructions,
        )
}

impl ParserView {
    /// The stack is sound, and there is a current document.
    pub open spec fn sound(self) -> bool {
        stack_sound(self.stack, self.settings.default_field_name) && self.results.len() >= 1
    }

    /// What holds of every state that a parser reaches: the stack is
    /// sound, the list of documents is not empty, and every frame is
    /// written through to the root.
    pub open spec fn inv(self) -> bool {
        self.sound() && stack_synced(self.stack)
    }

    /// The default field of the root holds a text or the void marker.
    pub open spec fn default_is_scalar(self) -> bool {
        match self.root_tree().get(KeyView::Name(self.settings.default_field_name)) {
            Some(Tree::Text(_)) => true,
            Some(Tree::Void) => true,
            _ => false,
        }
    }

    /// The key of the root frame is the default field.
    pub open spec fn root_at_default(self) -> bool {
        self.stack[0].key_text() == self.settings.default_field_name
    }

    /// The innermost frame is the root, at the default field.
    pub open spec fn writes_default(self) -> bool {
        self.stack.len() == 1 && self.root_at_default()
    }

    /// The step on `ch` puts parts or a container under the default field
    /// of the root: the parser is unlocked, and `ch` completes a delimiter
    /// that does so.
    pub open spec fn reshapes_default(self, ch: char) -> bool {
        !self.parsing_locked && self.completes_shaping(ch)
    }

    /// The character `ch` completes a delimiter that puts parts or a
    /// container under the default field of the root: the root frame is
    /// the innermost and at the default field, and the delimiter is a
    /// part delimiter at a key that is not locked, or an object or array
    /// delimiter that opens a container.
    pub open spec fn completes_shaping(self, ch: char) -> bool {
        &&& ch == ']'
        &&& self.writes_default()
        &&& match self.state {
            ASLANParserState::PartDelimiter => !self.top().field().locked,
            ASLANParserState::ObjectDelimiter => self.container_opens(ASLANDelimiterType::Object),
            ASLANParserState::ArrayDelimiter => self.container_opens(ASLANDelimiterType::Array),
            _ => false,
        }
    }

    /// The default field holds a text or the void marker, and no
    /// container is open under it.
    pub open spec fn default_guarded(self) -> bool {
        self.default_is_scalar() && (self.stack.len() > 1 ==> !self.root_at_default())
    }

    /// `other` is this state but for the trees of its frames, its
    /// documents, its outbox and its waiting text.
    pub open spec fn steady(self, other: ParserView) -> bool {
        &&& other == (ParserView {
            stack: other.stack,
            results: other.results,
            outbox: other.outbox,
            current_value: other.current_value,
            ..self
        })
        &&& same_frames_but_trees(other.stack, self.stack)
    }
}

/// Writing the frames from `i` down into their parents keeps a sound
/// stack sound, writes every frame through, and changes nothing but the
/// trees below `i`.
pub proof fn lemma_folded(stack: Seq<FrameView>, i: int, default_field_name: Seq<char>)
    requires
        stack_sound(stack, default_field_name),
        0 <= i < stack.len(),
        forall|j: int| i < j < stack.len() ==> #[trigger] written_through(stack, j),
    ensures
        stack_sound(folded(stack, i), default_field_name),
        stack_synced(folded(stack, i)),
        same_frames_but_trees(folded(stack, i), stack),
        forall|j: int| i <= j < stack.len() ==> folded(stack, i)[j] == stack[j],
        stack.len() == 1 ==> folded(stack, i) == stack,
        stack.len() > 1 && stack[0].key_text() != default_field_name ==> folded(
            stack,
            i,
        )[0].tree.get(KeyView::Name(default_field_name)) == stack[0].tree.get(
            KeyView::Name(default_field_name),
        ),
    decreases i,
{
    if i > 0 {
        let parent = stack[i - 1];
        let written = FrameView {
            tree: parent.tree.set(parent.current_key, stack[i].tree),
            ..parent
        };
        let next = stack.update(i - 1, written);
        lemma_set_keeps_kind(parent.tree, parent.current_key, stack[i].tree);
        lemma_set_idempotent(parent.tree, parent.current_key, stack[i].tree);
        if i == 1 {
            lemma_set_keeps_names(
                parent.tree,
                parent.current_key,
                stack[i].tree,
                default_field_name,
            );
        }
        assert(frame_sound(parent));
        assert forall|j: int| 0 <= j < next.len() implies frame_sound(#[trigger] next[j]) by {
            if j != i - 1 {
                assert(frame_sound(stack[j]));
            }
        }
        assert forall|j: int| i - 1 < j < next.len() implies #[trigger] written_through(
            next,
            j,
        ) by {
            if j > i {
                assert(written_through(stack, j));
            }
        }
        lemma_folded(next, i - 1, default_field_name);
        assert forall|j: int| 0 <= j < stack.len() implies same_but_tree(
            #[trigger] folded(stack, i)[j],
            stack[j],
        ) by {
            assert(same_but_tree(folded(next, i - 1)[j], next[j]));
        }
    }
}

/// Writing through makes a sound state one that keeps the invariant.
pub proof fn lemma_synced(m: ParserView)
    requires
        m.sound(),
    ensures
        m.synced().inv(),
        m.steady(m.synced()),
        m.synced().top() == m.top(),
        m.synced().outbox == m.outbox,
        m.synced().current_value == m.current_value,
        m.default_guarded() ==> m.synced().default_guarded(),
{
    lemma_folded(m.stack, m.stack.len() - 1, m.settings.default_field_name);
}

/// Writing a value under the current key keeps the invariant.
pub proof fn lemma_put(m: ParserView, value: Tree)
    requires
        m.sound(),
    ensures
        m.put(value).inv(),
        m.steady(m.put(value)),
        m.put(value).top().tree == m.top().tree.set(m.top().current_key, value),
        m.put(value).outbox == m.outbox,
        m.put(value).current_value == m.current_value,
        m.default_guarded() && (m.writes_default() ==> value is Text || value is Void) ==> m.put(
            value,
        ).default_guarded(),
{
    let top = m.top();
    let written = m.with_top(FrameView { tree: top.tree.set(top.current_key, value), ..top });
    lemma_set_keeps_kind(top.tree, top.current_key, value);
    if m.stack.len() == 1 {
        lemma_set_keeps_names(top.tree, top.current_key, value, m.settings.default_field_name);
        if top.key_text() == m.settings.default_field_name {
            lemma_get_after_set(top.tree, top.current_key, value);
            lemma_get_by_text(
                top.tree.set(top.current_key, value),
                top.current_key,
                KeyView::Name(m.settings.default_field_name),
            );
        } else {
            lemma_set_leaves_others(
                top.tree,
                top.current_key,
                value,
                m.settings.default_field_name,
            );
        }
    } else {
        assert(written.stack[0] == m.stack[0]);
    }
    assert(frame_sound(top));
    assert forall|j: int| 0 <= j < written.stack.len() implies frame_sound(
        #[trigger] written.stack[j],
    ) by {
        if j != m.stack.len() - 1 {
            assert(frame_sound(m.stack[j]));
        }
    }
    lemma_synced(written);
    assert forall|j: int| 0 <= j < m.stack.len() implies same_but_tree(
        #[trigger] m.put(value).stack[j],
        m.stack[j],
    ) by {
        assert(same_but_tree(written.synced().stack[j], written.stack[j]));
    }
}

/// Reporting changes the outbox and nothing else.
pub proof fn lemma_emit(m: ParserView, kind: ASLANEventKind)
    ensures
        m.emit_for_value(kind) == (ParserView { outbox: m.emit_for_value(kind).outbox, ..m }),
        m.emit_for_part(kind) == (ParserView { outbox: m.emit_for_part(kind).outbox, ..m }),
        m.emit_end_events() == (ParserView { outbox: m.emit_end_events().outbox, ..m }),
        m.emit_end_data_events() == (ParserView { outbox: m.emit_end_data_events().outbox, ..m }),
{
}

/// A state that differs from one that keeps the invariant in nothing
/// that the invariant speaks of keeps it too.
pub proof fn lemma_same_stack(m: ParserView, n: ParserView)
    requires
        n.stack == m.stack,
        n.settings == m.settings,
        (n.results.len() >= 1) == (m.results.len() >= 1),
    ensures
        m.sound() == n.sound(),
        m.inv() == n.inv(),
        m.default_guarded() == n.default_guarded(),
        m.writes_default() == n.writes_default(),
{
}

/// What is known of a key can change without harm to the invariant.
pub proof fn lemma_with_field(m: ParserView, state: FieldState)
    requires
        m.inv(),
    ensures
        m.with_field(state).inv(),
        m.with_field(state).top().tree == m.top().tree,
        m.with_field(state).top().current_key == m.top().current_key,
        same_instructions(m.with_field(state).stack, m.stack),
        m.default_guarded() ==> m.with_field(state).default_guarded(),
        m.with_field(state).writes_default() == m.writes_default(),
{
    let n = m.with_field(state);
    assert forall|j: int| 0 <= j < n.stack.len() implies frame_sound(#[trigger] n.stack[j]) by {
        assert(frame_sound(m.stack[j]));
    }
    assert forall|j: int| 1 <= j < n.stack.len() implies #[trigger] written_through(
        n.stack,
        j,
    ) by {
        assert(written_through(m.stack, j));
    }
}

/// Storing the waiting text keeps the invariant.
pub proof fn lemma_store_current_value(m: ParserView)
    requires
        m.inv(),
    ensures
        m.store_current_value().inv(),
        m.store_current_value().settings == m.settings,
        m.store_current_value().stack.len() == m.stack.len(),
        same_instructions(m.store_current_value().stack, m.stack),
        m.default_guarded() ==> m.store_current_value().default_guarded(),
        same_frames_but_trees(m.store_current_value().stack, m.stack),
        m.store_current_value().current_value.len() == 0,
        m.top().field().void ==> m.store_current_value().top().tree == m.top().tree.set(
            m.top().current_key,
            Tree::Void,
        ),
        !m.top().field().void && m.current_value.len() == 0 ==> m.store_current_value() == m,
{
    let field = m.top().field();
    if field.void {
        lemma_put(m.with_value_cleared(), Tree::Void);
    } else if m.current_value.len() > 0 {
        let text = m.current_value;
        let first = if !field.locked && !holds_container(m.top().value()) {
            let written = m.put(Tree::Text(text_of(m.top().value()) + text));
            lemma_put(m, Tree::Text(text_of(m.top().value()) + text));
            lemma_emit(written, ASLANEventKind::Content);
            lemma_same_stack(written, written.emit_for_value(ASLANEventKind::Content));
            written.emit_for_value(ASLANEventKind::Content)
        } else {
            m
        };
        assert(first.inv());
        if !field.locked && field.implicit_array {
            let parts = items_of(first.top().value());
            let grown = if parts.len() > 0 {
                let value = Tree::Sequence(
                    parts.update(
                        parts.len() - 1,
                        Tree::Text(text_of(Some(parts.last())) + text),
                    ),
                );
                lemma_put(first, value);
                first.put(value)
            } else {
                first
            };
            lemma_emit(grown, ASLANEventKind::Content);
            lemma_same_stack(grown, grown.emit_for_part(ASLANEventKind::Content));
        }
    }
}

/// Giving up a delimiter keeps the invariant.
pub proof fn lemma_exit_delimiter_into_data(m: ParserView, ch: char)
    requires
        m.inv(),
    ensures
        m.exit_delimiter_into_data(ch).inv(),
        m.exit_delimiter_into_data(ch).settings == m.settings,
        m.exit_delimiter_into_data(ch).stack.len() == m.stack.len(),
        same_instructions(m.exit_delimiter_into_data(ch).stack, m.stack),
        m.default_guarded() ==> m.exit_delimiter_into_data(ch).default_guarded(),
{
    let left = ParserView {
        current_value: m.current_value + m.delimiter_buffer + seq![ch],
        delimiter_buffer: Seq::empty(),
        delimiter: DelimiterView::none(),
        state: ASLANParserState::Data,
        ..m
    };
    lemma_same_stack(m, left);
    lemma_store_current_value(left);
}

/// Moving to the next key keeps the invariant.
pub proof fn lemma_next_key(m: ParserView)
    requires
        m.inv(),
    ensures
        m.next_key().inv(),
        m.next_key().settings == m.settings,
        m.next_key().stack.len() == m.stack.len(),
        same_instructions(m.next_key().stack, m.stack),
        m.default_guarded() ==> m.next_key().default_guarded(),
{
    let top = m.top();
    assert(frame_sound(top));
    if top.tree is Sequence {
        let named = match m.delimiter.content {
            Some(c) => parse_index(c),
            None => None,
        };
        let n = m.with_top(top.next_index(named));
        assert(m.stack.len() > 1);
        assert(n.stack[0] == m.stack[0]);
        assert forall|j: int| 0 <= j < n.stack.len() implies frame_sound(#[trigger] n.stack[j]) by {
            if j != m.stack.len() - 1 {
                assert(frame_sound(m.stack[j]));
            }
        }
        assert forall|j: int| 1 <= j < n.stack.len() implies #[trigger] written_through(
            n.stack,
            j,
        ) by {
            assert(written_through(m.stack, j));
        }
    } else {
        match m.delimiter.content {
            Some(name) => {
                let default_key = KeyView::Name(m.settings.default_field_name);
                let moved = top.next_name(name, m.settings.default_field_name);
                lemma_set_keeps_kind(top.tree, default_key, Tree::Void);
                if m.stack.len() == 1 {
                    lemma_set_keeps_names(
                        top.tree,
                        default_key,
                        Tree::Void,
                        m.settings.default_field_name,
                    );
                    lemma_get_after_set(top.tree, default_key, Tree::Void);
                }
                let n = m.with_top(moved);
                if m.stack.len() > 1 {
                    assert(n.stack[0] == m.stack[0]);
                }
                assert forall|j: int| 0 <= j < n.stack.len() implies frame_sound(
                    #[trigger] n.stack[j],
                ) by {
                    if j != m.stack.len() - 1 {
                        assert(frame_sound(m.stack[j]));
                    }
                }
                lemma_synced(n);
            },
            None => {},
        }
    }
}

/// Assigning a policy keeps the invariant.
pub proof fn lemma_set_data_insertion_type(
    m: ParserView,
    policy: ASLANDataInsertionType,
)
    requires
        m.inv(),
    ensures
        m.set_data_insertion_type(policy).inv(),
        m.set_data_insertion_type(policy).settings == m.settings,
        m.set_data_insertion_type(policy).stack.len() == m.stack.len(),
        orderly(m.stack, m.set_data_insertion_type(policy).stack),
        m.default_guarded() ==> m.set_data_insertion_type(policy).default_guarded(),
{
    let top = m.top();
    let field = top.field();
    assert(frame_sound(top));
    match field.policy {
        None => {
            lemma_with_field(m, FieldState { policy: Some(policy), ..field });
        },
        Some(ASLANDataInsertionType::KeepLast) => {
            let wiped = FrameView {
                tree: if top.tree is Mapping {
                    top.tree.set(top.current_key, Tree::Text(Seq::empty()))
                } else {
                    top.tree
                },
                instructions: without_key(top.instructions, top.key_text()),
                ..top
            };
            lemma_set_keeps_kind(top.tree, top.current_key, Tree::Text(Seq::empty()));
            if m.stack.len() == 1 {
                lemma_set_keeps_names(
                    top.tree,
                    top.current_key,
                    Tree::Text(Seq::empty()),
                    m.settings.default_field_name,
                );
                if top.key_text() == m.settings.default_field_name {
                    lemma_get_after_set(
                        top.tree,
                        top.current_key,
                        Tree::Text(Seq::empty()),
                    );
                    lemma_get_by_text(
                        top.tree.set(top.current_key, Tree::Text(Seq::empty())),
                        top.current_key,
                        KeyView::Name(m.settings.default_field_name),
                    );
                } else {
                    lemma_set_leaves_others(
                        top.tree,
                        top.current_key,
                        Tree::Text(Seq::empty()),
                        m.settings.default_field_name,
                    );
                }
            }
            let n = m.with_top(wiped);
            if m.stack.len() > 1 {
                assert(n.stack[0] == m.stack[0]);
            }
            assert forall|j: int| 0 <= j < n.stack.len() implies frame_sound(
                #[trigger] n.stack[j],
            ) by {
                if j != m.stack.len() - 1 {
                    assert(frame_sound(m.stack[j]));
                }
            }
            lemma_synced(n);
        },
        Some(ASLANDataInsertionType::KeepFirst) => {
            lemma_with_field(m, FieldState { locked: true, ..field });
        },
        Some(_) => {},
    }
}

/// Writing the separator keeps the invariant.
pub proof fn lemma_separate_repeated_key(m: ParserView)
    requires
        m.inv(),
    ensures
        m.separate_repeated_key().inv(),
        m.separate_repeated_key().settings == m.settings,
        m.separate_repeated_key().stack.len() == m.stack.len(),
        same_instructions(m.separate_repeated_key().stack, m.stack),
        m.default_guarded() ==> m.separate_repeated_key().default_guarded(),
{
    let given = ParserView { current_value: m.settings.append_separator, ..m };
    lemma_same_stack(m, given);
    lemma_store_current_value(given);
    lemma_same_stack(given.store_current_value(), given.store_current_value().with_value_cleared());
}

/// Reporting the end of a key keeps the invariant.
pub proof fn lemma_emit_ends(m: ParserView)
    requires
        m.inv(),
    ensures
        m.emit_end_events().emit_end_data_events().inv(),
        m.emit_end_events().emit_end_data_events().stack == m.stack,
        m.emit_end_events().emit_end_data_events().settings == m.settings,
        m.emit_end_events().emit_end_data_events().current_value == m.current_value,
        m.emit_end_events().emit_end_data_events().delimiter == m.delimiter,
{
    lemma_emit(m, ASLANEventKind::End);
    lemma_emit(m.emit_end_events(), ASLANEventKind::End);
}

/// Ending a document keeps the invariant.
pub proof fn lemma_close(m: ParserView)
    requires
        m.inv(),
    ensures
        m.close().inv(),
        m.close().settings == m.settings,
        m.close().stack.len() == m.stack.len(),
        same_instructions(m.close().stack, m.stack),
        m.default_guarded() ==> m.close().default_guarded(),
        same_frames_but_trees(m.close().stack, m.stack),
        m.close().current_value.len() == 0,
        m.top().field().void ==> m.close().top().tree == m.top().tree.set(
            m.top().current_key,
            Tree::Void,
        ),
{
    lemma_emit_ends(m);
    let reported = m.emit_end_events().emit_end_data_events();
    lemma_store_current_value(reported);
    lemma_synced(reported.store_current_value());
}

/// A new root frame keeps the invariant, whatever the state was.
pub proof fn lemma_reset(m: ParserView)
    requires
        m.results.len() >= 1,
    ensures
        m.reset().inv(),
        m.reset().settings == m.settings,
        m.reset().stack.len() == 1,
        m.reset().stack[0].instructions.len() == 0,
        m.reset().default_guarded(),
{
    let name = m.settings.default_field_name;
    let root = FrameView::root(name);
    let entries = seq![(name, Tree::Text(Seq::<char>::empty()))];
    lemma_position_is(entries, name, 0);
    assert(m.reset().stack[0] == root);
}

/// Starting the next document keeps the invariant.
pub proof fn lemma_next_document(m: ParserView)
    requires
        m.inv(),
    ensures
        m.next_document().inv(),
        m.next_document().settings == m.settings,
        m.next_document().stack.len() == 1,
        m.next_document().stack[0].instructions.len() == 0,
        m.default_guarded() ==> m.next_document().default_guarded(),
{
    lemma_close(m);
    lemma_reset(m.close());
    lemma_same_stack(m.close().reset(), m.next_document());
}

/// A go delimiter keeps the invariant.
pub proof fn lemma_go(m: ParserView)
    requires
        m.inv(),
    ensures
        m.go().inv(),
        m.go().settings == m.settings,
        orderly(m.stack, m.go().stack),
        m.default_guarded() ==> m.go().default_guarded(),
{
    let cleared = ParserView {
        state: ASLANParserState::Go,
        delimiter_buffer: Seq::empty(),
        current_value: Seq::empty(),
        parsing_locked: false,
        ..m
    };
    lemma_same_stack(m, cleared);
    if m.settings.strict_start && !m.did_stop {
        lemma_next_document(cleared);
    }
}

/// A stop delimiter keeps the invariant.
pub proof fn lemma_stop(m: ParserView)
    requires
        m.inv(),
    ensures
        m.stop().inv(),
        m.stop().settings == m.settings,
        orderly(m.stack, m.stop().stack),
        m.default_guarded() ==> m.stop().default_guarded(),
{
    let cleared = ParserView {
        state: ASLANParserState::Stop,
        delimiter_buffer: Seq::empty(),
        current_value: Seq::empty(),
        ..m
    };
    lemma_same_stack(m, cleared);
    if m.settings.strict_end {
        let locked = ParserView {
            parsing_locked: m.parsing_locked || m.settings.strict_start,
            ..cleared
        };
        lemma_same_stack(m, locked);
        lemma_next_document(locked);
    }
}

/// Opening a container keeps the invariant.
pub proof fn lemma_open_container(m: ParserView, kind: ASLANDelimiterType)
    requires
        m.inv(),
    ensures
        m.open_container(kind).inv(),
        m.open_container(kind).settings == m.settings,
        m.open_container(kind).stack.len() == m.stack.len() + 1,
        forall|i: int|
            0 <= i < m.stack.len() ==> (#[trigger] m.open_container(kind).stack[i]).instructions
                == m.stack[i].instructions,
        m.default_guarded() && !m.writes_default() ==> m.open_container(kind).default_guarded(),
{
    let top = m.top();
    let object = kind == ASLANDelimiterType::Object;
    let empty = if object {
        Tree::Mapping(Seq::empty())
    } else {
        Tree::Sequence(Seq::empty())
    };
    let parent = FrameView { tree: top.tree.set(top.current_key, empty), ..top };
    let child = if object {
        FrameView::for_mapping(m.settings.default_field_name)
    } else {
        FrameView::for_sequence()
    };
    let opened = ParserView {
        current_value: Seq::empty(),
        stack: m.stack.update(m.stack.len() - 1, parent).push(child),
        ..m
    };
    lemma_set_keeps_kind(top.tree, top.current_key, empty);
    if m.stack.len() == 1 {
        lemma_set_keeps_names(top.tree, top.current_key, empty, m.settings.default_field_name);
    }
    assert(frame_sound(top));
    assert forall|j: int| 0 <= j < opened.stack.len() implies frame_sound(
        #[trigger] opened.stack[j],
    ) by {
        if j < m.stack.len() - 1 {
            assert(frame_sound(m.stack[j]));
        }
    }
    lemma_synced(opened);
}

/// Closing a container keeps the invariant.
pub proof fn lemma_close_container(m: ParserView)
    requires
        m.inv(),
    ensures
        m.close_container().inv(),
        m.close_container().settings == m.settings,
        m.close_container().stack.len() >= 1,
        m.close_container().stack.len() <= m.stack.len(),
        forall|i: int|
            0 <= i < m.close_container().stack.len() ==> (#[trigger] m.close_container().stack[
                i
            ]).instructions == m.stack[i].instructions,
        m.default_guarded() ==> m.close_container().default_guarded(),
{
    if m.stack.len() > 1 {
        lemma_emit_ends(m);
        let reported = m.emit_end_events().emit_end_data_events();
        lemma_synced(reported);
        let done = reported.synced();
        let closed = ParserView { stack: done.stack.drop_last(), ..done };
        assert(closed.stack[0] == done.stack[0]);
        assert forall|j: int| 0 <= j < closed.stack.len() implies frame_sound(
            #[trigger] closed.stack[j],
        ) by {
            assert(frame_sound(done.stack[j]));
        }
        assert forall|j: int| 1 <= j < closed.stack.len() implies #[trigger] written_through(
            closed.stack,
            j,
        ) by {
            assert(written_through(done.stack, j));
        }
    }
}

/// An object or array delimiter keeps the invariant.
pub proof fn lemma_container_delimiter(m: ParserView, kind: ASLANDelimiterType)
    requires
        m.inv(),
    ensures
        m.container_delimiter(kind).inv(),
        m.container_delimiter(kind).settings == m.settings,
        orderly(m.stack, m.container_delimiter(kind).stack),
        m.default_guarded() && !(m.writes_default() && m.container_opens(kind))
            ==> m.container_delimiter(kind).default_guarded(),
{
    let ready = ParserView {
        state: if kind == ASLANDelimiterType::Object {
            ASLANParserState::Object
        } else {
            ASLANParserState::Array
        },
        delimiter_buffer: Seq::empty(),
        ..m
    };
    lemma_same_stack(m, ready);
    assert(ready.container_opens(kind) == m.container_opens(kind));
    let field = ready.top().field();
    let cleared = ready.with_field(FieldState { duplicate_seen: false, ..field });
    lemma_with_field(ready, FieldState { duplicate_seen: false, ..field });
    lemma_open_container(ready, kind);
    lemma_open_container(cleared, kind);
    lemma_close_container(ready);
}

/// A part delimiter keeps the invariant.
pub proof fn lemma_part_delimiter(m: ParserView)
    requires
        m.inv(),
    ensures
        m.part_delimiter().inv(),
        m.part_delimiter().settings == m.settings,
        same_instructions(m.part_delimiter().stack, m.stack),
        m.default_guarded() && !(m.writes_default() && !m.top().field().locked)
            ==> m.part_delimiter().default_guarded(),
{
    let field = m.top().field();
    let value = m.top().value();
    let marked = m.with_field(FieldState { implicit_array: true, ..field });
    lemma_with_field(m, FieldState { implicit_array: true, ..field });
    lemma_emit(m, ASLANEventKind::End);
    lemma_same_stack(m, m.emit_end_events());
    let parted = if field.locked {
        m
    } else {
        match value {
            Some(Tree::Sequence(parts)) => {
                lemma_put(
                    m.emit_end_events(),
                    Tree::Sequence(parts.push(Tree::Text(Seq::empty()))),
                );
                m.emit_end_events().put(Tree::Sequence(parts.push(Tree::Text(Seq::empty()))))
            },
            Some(Tree::Mapping(_)) => m,
            Some(Tree::Text(s)) => if s.len() > 0 {
                lemma_put(
                    marked,
                    Tree::Sequence(seq![Tree::Text(s), Tree::Text(Seq::empty())]),
                );
                marked.put(Tree::Sequence(seq![Tree::Text(s), Tree::Text(Seq::empty())]))
            } else {
                lemma_put(marked, Tree::Sequence(seq![Tree::Text(Seq::empty())]));
                marked.put(Tree::Sequence(seq![Tree::Text(Seq::empty())]))
            },
            _ => {
                lemma_put(marked, Tree::Sequence(seq![Tree::Text(Seq::empty())]));
                marked.put(Tree::Sequence(seq![Tree::Text(Seq::empty())]))
            },
        }
    };
    assert(parted.inv());
    assert(parted.settings == m.settings);
    let ready = ParserView {
        state: ASLANParserState::Data,
        delimiter_buffer: Seq::empty(),
        current_value: Seq::empty(),
        ..parted
    };
    lemma_same_stack(parted, ready);
    lemma_next_key(ready);
}

/// A void delimiter keeps the invariant.
pub proof fn lemma_void_delimiter(m: ParserView)
    requires
        m.inv(),
    ensures
        m.void_delimiter().inv(),
        m.void_delimiter().settings == m.settings,
        same_instructions(m.void_delimiter().stack, m.stack),
        m.default_guarded() ==> m.void_delimiter().default_guarded(),
{
    let field = m.top().field();
    let ready = ParserView {
        state: ASLANParserState::Data,
        delimiter_buffer: Seq::empty(),
        current_value: Seq::empty(),
        ..m
    };
    lemma_same_stack(m, ready);
    lemma_with_field(ready, FieldState { void: true, ..field });
    lemma_put(ready.with_field(FieldState { void: true, ..field }), Tree::Void);
}

/// An instruction delimiter keeps the invariant.
pub proof fn lemma_instruction_delimiter(m: ParserView)
    requires
        m.inv(),
    ensures
        m.instruction_delimiter().inv(),
        m.instruction_delimiter().settings == m.settings,
        m.instruction_delimiter().stack.len() == m.stack.len(),
        orderly(m.stack, m.instruction_delimiter().stack),
        m.default_guarded() ==> m.instruction_delimiter().default_guarded(),
{
    let n = m.instruction_delimiter();
    assert(n.settings == m.settings);
    assert(same_frames_but_instructions(n.stack, m.stack)) by {
        assert(n.stack =~= n.stack);
    }
    lemma_same_trees_and_keys(m, n);
}

/// Two stacks have the same frames but for the instructions registered
/// on them.
pub open spec fn same_frames_but_instructions(a: Seq<FrameView>, b: Seq<FrameView>) -> bool {
    &&& a.len() == b.len()
    &&& forall|i: int|
        0 <= i < a.len() ==> #[trigger] a[i] == (FrameView {
            instructions: a[i].instructions,
            ..b[i]
        })
}

/// The invariant does not depend on the instructions.
pub proof fn lemma_same_trees_and_keys(m: ParserView, n: ParserView)
    requires
        m.inv(),
        n.settings == m.settings,
        n.results.len() == m.results.len(),
        same_frames_but_instructions(n.stack, m.stack),
    ensures
        n.inv(),
{
    assert forall|j: int| 0 <= j < n.stack.len() implies frame_sound(#[trigger] n.stack[j]) by {
        assert(frame_sound(m.stack[j]));
    }
    assert forall|j: int| 1 <= j < n.stack.len() implies #[trigger] written_through(
        n.stack,
        j,
    ) by {
        assert(written_through(m.stack, j));
    }
}

/// An escape delimiter keeps the invariant.
pub proof fn lemma_escape_delimiter(m: ParserView, tag: Seq<char>, ch: char)
    requires
        m.inv(),
    ensures
        m.escape_delimiter(tag, ch).inv(),
        m.escape_delimiter(tag, ch).settings == m.settings,
        same_instructions(m.escape_delimiter(tag, ch).stack, m.stack),
        m.default_guarded() ==> m.escape_delimiter(tag, ch).default_guarded(),
{
    lemma_exit_delimiter_into_data(m, ch);
}

/// Reading `[` keeps the invariant.
pub proof fn lemma_step_bracket(m: ParserView)
    requires
        m.inv(),
    ensures
        m.step_bracket().inv(),
        m.step_bracket().settings == m.settings,
        m.step_bracket().stack == m.stack,
{
    reveal(ParserView::step_bracket);
    lemma_same_stack(m, m.step_bracket());
}

/// A step while the opening text is matched keeps the invariant.
pub proof fn lemma_step_maybe_delimiter(m: ParserView, ch: char)
    requires
        m.inv(),
    ensures
        m.step_maybe_delimiter(ch).inv(),
        m.step_maybe_delimiter(ch).settings == m.settings,
        orderly(m.stack, m.step_maybe_delimiter(ch).stack),
        m.default_guarded() ==> m.step_maybe_delimiter(ch).default_guarded(),
{
    reveal(ParserView::step_maybe_delimiter);
    lemma_exit_delimiter_into_data(m, ch);
    lemma_same_stack(m, m.matching(m.delimiter_buffer.push(ch)));
}

/// A step on the letter of a delimiter keeps the invariant.
pub proof fn lemma_step_delimiter(m: ParserView, ch: char)
    requires
        m.inv(),
    ensures
        m.step_delimiter(ch).inv(),
        m.step_delimiter(ch).settings == m.settings,
        orderly(m.stack, m.step_delimiter(ch).stack),
        m.default_guarded() ==> m.step_delimiter(ch).default_guarded(),
{
    reveal(ParserView::step_delimiter);
    let fresh = ParserView { delimiter: DelimiterView::none(), ..m };
    lemma_same_stack(m, fresh);
    lemma_exit_delimiter_into_data(fresh, ch);
    if m.step_delimiter(ch) != fresh.exit_delimiter_into_data(ch) {
        lemma_same_stack(m, m.step_delimiter(ch));
    }
}

/// A step after the letter of a data delimiter keeps the invariant.
pub proof fn lemma_step_data_delimiter(m: ParserView, ch: char)
    requires
        m.inv(),
    ensures
        m.step_data_delimiter(ch).inv(),
        m.step_data_delimiter(ch).settings == m.settings,
        orderly(m.stack, m.step_data_delimiter(ch).stack),
        m.default_guarded() ==> m.step_data_delimiter(ch).default_guarded(),
{
    reveal(ParserView::step_data_delimiter);
    lemma_exit_delimiter_into_data(m, ch);
    let done = m.delimiter_done(ASLANParserState::Data);
    lemma_same_stack(m, done);
    lemma_emit_ends(done);
    lemma_next_key(done.emit_end_events().emit_end_data_events());
    lemma_same_stack(m, m.content_opened(ASLANParserState::DataDelimiterName, ch));
}

/// Steps that keep the instructions, before and after one that keeps
/// their order, keep their order.
pub proof fn lemma_orderly_through(
    a: Seq<FrameView>,
    b: Seq<FrameView>,
    c: Seq<FrameView>,
    d: Seq<FrameView>,
)
    requires
        same_instructions(b, a),
        orderly(b, c),
        same_instructions(d, c),
    ensures
        orderly(a, d),
{
    assert forall|i: int| 0 <= i < a.len() && i < d.len() implies instructions_in_order(
        (#[trigger] a[i]).instructions,
        d[i].instructions,
    ) by {
        assert(b[i].instructions == a[i].instructions);
        assert(d[i].instructions == c[i].instructions);
        assert(instructions_in_order(b[i].instructions, c[i].instructions));
    }
}

/// A step in the name of a data delimiter keeps the invariant.
pub proof fn lemma_step_data_delimiter_name(m: ParserView, ch: char)
    requires
        m.inv(),
    ensures
        m.step_data_delimiter_name(ch).inv(),
        m.step_data_delimiter_name(ch).settings == m.settings,
        orderly(m.stack, m.step_data_delimiter_name(ch).stack),
        m.default_guarded() ==> m.step_data_delimiter_name(ch).default_guarded(),
{
    reveal(ParserView::step_data_delimiter_name);
    lemma_exit_delimiter_into_data(m, ch);
    let opened = m.args_opened(ASLANParserState::DataDelimiterArgs, ch);
    lemma_same_stack(m, opened);
    lemma_emit_ends(opened);
    lemma_next_key(opened.emit_end_events().emit_end_data_events());
    let named = ParserView { state: ASLANParserState::Data, ..m };
    lemma_same_stack(m, named);
    lemma_emit_ends(named);
    let moved = named.emit_end_events().emit_end_data_events().next_key();
    lemma_next_key(named.emit_end_events().emit_end_data_events());
    let emptied = ParserView { delimiter_buffer: Seq::empty(), ..moved };
    lemma_same_stack(moved, emptied);
    lemma_set_data_insertion_type(emptied, ASLANDataInsertionType::Default);
    let assigned = emptied.set_data_insertion_type(ASLANDataInsertionType::Default);
    lemma_separate_repeated_key(assigned);
    lemma_orderly_through(
        m.stack,
        emptied.stack,
        assigned.stack,
        assigned.separate_repeated_key().stack,
    );
    lemma_same_stack(m, m.content_grown(ch));
}

/// A step in the arguments of a data delimiter keeps the invariant.
pub proof fn lemma_step_data_delimiter_args(m: ParserView, ch: char)
    requires
        m.inv(),
    ensures
        m.step_data_delimiter_args(ch).inv(),
        m.step_data_delimiter_args(ch).settings == m.settings,
        orderly(m.stack, m.step_data_delimiter_args(ch).stack),
        m.default_guarded() ==> m.step_data_delimiter_args(ch).default_guarded(),
{
    reveal(ParserView::step_data_delimiter_args);
    let closed = ParserView {
        state: ASLANParserState::Data,
        delimiter_buffer: Seq::empty(),
        ..m
    };
    lemma_same_stack(m, closed);
    let policy = policy_of_arg(m.delimiter.first_arg());
    lemma_set_data_insertion_type(closed, policy);
    lemma_emit_ends(closed.set_data_insertion_type(policy));
    lemma_separate_repeated_key(
        closed.set_data_insertion_type(policy).emit_end_events().emit_end_data_events(),
    );
    lemma_same_stack(m, m.args_grown(ch));
}

/// A step after the letter of an instruction delimiter keeps the invariant.
pub proof fn lemma_step_instruction_delimiter(m: ParserView, ch: char)
    requires
        m.inv(),
    ensures
        m.step_instruction_delimiter(ch).inv(),
        m.step_instruction_delimiter(ch).settings == m.settings,
        orderly(m.stack, m.step_instruction_delimiter(ch).stack),
        m.default_guarded() ==> m.step_instruction_delimiter(ch).default_guarded(),
{
    reveal(ParserView::step_instruction_delimiter);
    lemma_exit_delimiter_into_data(m, ch);
    lemma_same_stack(m, m.content_opened(ASLANParserState::InstructionDelimiterName, ch));
}

/// A step after the letter of an escape delimiter keeps the invariant.
pub proof fn lemma_step_escape_delimiter(m: ParserView, ch: char)
    requires
        m.inv(),
    ensures
        m.step_escape_delimiter(ch).inv(),
        m.step_escape_delimiter(ch).settings == m.settings,
        orderly(m.stack, m.step_escape_delimiter(ch).stack),
        m.default_guarded() ==> m.step_escape_delimiter(ch).default_guarded(),
{
    reveal(ParserView::step_escape_delimiter);
    lemma_exit_delimiter_into_data(m, ch);
    lemma_same_stack(m, m.content_opened(ASLANParserState::EscapeDelimiterName, ch));
}

/// A step in the name of an instruction delimiter keeps the invariant.
pub proof fn lemma_step_instruction_delimiter_name(m: ParserView, ch: char)
    requires
        m.inv(),
    ensures
        m.step_instruction_delimiter_name(ch).inv(),
        m.step_instruction_delimiter_name(ch).settings == m.settings,
        orderly(m.stack, m.step_instruction_delimiter_name(ch).stack),
        m.default_guarded() ==> m.step_instruction_delimiter_name(ch).default_guarded(),
{
    reveal(ParserView::step_instruction_delimiter_name);
    lemma_exit_delimiter_into_data(m, ch);
    lemma_instruction_delimiter(m);
    lemma_same_stack(m, m.args_opened(ASLANParserState::InstructionDelimiterArgs, ch));
    lemma_same_stack(m, m.content_grown(ch));
}

/// A step in the arguments of an instruction delimiter keeps the invariant.
pub proof fn lemma_step_instruction_delimiter_args(m: ParserView, ch: char)
    requires
        m.inv(),
    ensures
        m.step_instruction_delimiter_args(ch).inv(),
        m.step_instruction_delimiter_args(ch).settings == m.settings,
        orderly(m.stack, m.step_instruction_delimiter_args(ch).stack),
        m.default_guarded() ==> m.step_instruction_delimiter_args(ch).default_guarded(),
{
    reveal(ParserView::step_instruction_delimiter_args);
    lemma_instruction_delimiter(m);
    lemma_same_stack(m, m.args_grown(ch));
}

/// A step in the name of an escape delimiter keeps the invariant.
pub proof fn lemma_step_escape_delimiter_name(m: ParserView, ch: char)
    requires
        m.inv(),
    ensures
        m.step_escape_delimiter_name(ch).inv(),
        m.step_escape_delimiter_name(ch).settings == m.settings,
        orderly(m.stack, m.step_escape_delimiter_name(ch).stack),
        m.default_guarded() ==> m.step_escape_delimiter_name(ch).default_guarded(),
{
    reveal(ParserView::step_escape_delimiter_name);
    lemma_exit_delimiter_into_data(m, ch);
    lemma_escape_delimiter(m, m.delimiter.content_text(), ch);
    lemma_same_stack(m, m.content_grown(ch));
}

/// A step after the letter of a reserved delimiter keeps the invariant.
pub proof fn lemma_step_reserved_delimiter(m: ParserView, ch: char)
    requires
        m.inv(),
    ensures
        m.step_reserved_delimiter(ch).inv(),
        m.step_reserved_delimiter(ch).settings == m.settings,
        orderly(m.stack, m.step_reserved_delimiter(ch).stack),
        m.default_guarded() ==> m.step_reserved_delimiter(ch).default_guarded(),
{
    reveal(ParserView::step_reserved_delimiter);
    lemma_exit_delimiter_into_data(m, ch);
    lemma_same_stack(m, m.delimiter_done(ASLANParserState::Data));
}

/// A step after the letter of an object delimiter keeps the invariant.
pub proof fn lemma_step_object_delimiter(m: ParserView, ch: char)
    requires
        m.inv(),
    ensures
        m.step_object_delimiter(ch).inv(),
        m.step_object_delimiter(ch).settings == m.settings,
        orderly(m.stack, m.step_object_delimiter(ch).stack),
        m.default_guarded() && !(m.writes_default() && ch == ']' && m.container_opens(
            ASLANDelimiterType::Object,
        )) ==> m.step_object_delimiter(ch).default_guarded(),
{
    reveal(ParserView::step_object_delimiter);
    lemma_exit_delimiter_into_data(m, ch);
    lemma_container_delimiter(m, ASLANDelimiterType::Object);
}

/// A step after the letter of an array delimiter keeps the invariant.
pub proof fn lemma_step_array_delimiter(m: ParserView, ch: char)
    requires
        m.inv(),
    ensures
        m.step_array_delimiter(ch).inv(),
        m.step_array_delimiter(ch).settings == m.settings,
        orderly(m.stack, m.step_array_delimiter(ch).stack),
        m.default_guarded() && !(m.writes_default() && ch == ']' && m.container_opens(
            ASLANDelimiterType::Array,
        )) ==> m.step_array_delimiter(ch).default_guarded(),
{
    reveal(ParserView::step_array_delimiter);
    lemma_exit_delimiter_into_data(m, ch);
    lemma_container_delimiter(m, ASLANDelimiterType::Array);
}

/// A step after the letter of a void delimiter keeps the invariant.
pub proof fn lemma_step_void_delimiter(m: ParserView, ch: char)
    requires
        m.inv(),
    ensures
        m.step_void_delimiter(ch).inv(),
        m.step_void_delimiter(ch).settings == m.settings,
        orderly(m.stack, m.step_void_delimiter(ch).stack),
        m.default_guarded() ==> m.step_void_delimiter(ch).default_guarded(),
{
    reveal(ParserView::step_void_delimiter);
    lemma_exit_delimiter_into_data(m, ch);
    lemma_void_delimiter(m);
}

/// A step after the letter of a part delimiter keeps the invariant.
pub proof fn lemma_step_part_delimiter(m: ParserView, ch: char)
    requires
        m.inv(),
    ensures
        m.step_part_delimiter(ch).inv(),
        m.step_part_delimiter(ch).settings == m.settings,
        orderly(m.stack, m.step_part_delimiter(ch).stack),
        m.default_guarded() && !(m.writes_default() && ch == ']' && !m.top().field().locked)
            ==> m.step_part_delimiter(ch).default_guarded(),
{
    reveal(ParserView::step_part_delimiter);
    lemma_exit_delimiter_into_data(m, ch);
    lemma_part_delimiter(m);
}

/// A step after the letter of a comment delimiter keeps the invariant.
pub proof fn lemma_step_comment_delimiter(m: ParserView, ch: char)
    requires
        m.inv(),
    ensures
        m.step_comment_delimiter(ch).inv(),
        m.step_comment_delimiter(ch).settings == m.settings,
        orderly(m.stack, m.step_comment_delimiter(ch).stack),
        m.default_guarded() ==> m.step_comment_delimiter(ch).default_guarded(),
{
    reveal(ParserView::step_comment_delimiter);
    lemma_exit_delimiter_into_data(m, ch);
    lemma_same_stack(m, m.delimiter_done(ASLANParserState::Comment));
}

/// A step after the letter of a go delimiter keeps the invariant.
pub proof fn lemma_step_go_delimiter(m: ParserView, ch: char)
    requires
        m.inv(),
    ensures
        m.step_go_delimiter(ch).inv(),
        m.step_go_delimiter(ch).settings == m.settings,
        orderly(m.stack, m.step_go_delimiter(ch).stack),
        m.default_guarded() ==> m.step_go_delimiter(ch).default_guarded(),
{
    reveal(ParserView::step_go_delimiter);
    lemma_exit_delimiter_into_data(m, ch);
    lemma_go(m);
}

/// A step after the letter of a stop delimiter keeps the invariant.
pub proof fn lemma_step_stop_delimiter(m: ParserView, ch: char)
    requires
        m.inv(),
    ensures
        m.step_stop_delimiter(ch).inv(),
        m.step_stop_delimiter(ch).settings == m.settings,
        orderly(m.stack, m.step_stop_delimiter(ch).stack),
        m.default_guarded() ==> m.step_stop_delimiter(ch).default_guarded(),
{
    reveal(ParserView::step_stop_delimiter);
    lemma_exit_delimiter_into_data(m, ch);
    lemma_stop(m);
}

/// A step at the start of the input keeps the invariant.
pub proof fn lemma_step_start(m: ParserView, ch: char)
    requires
        m.inv(),
    ensures
        m.step_start(ch).inv(),
        m.step_start(ch).settings == m.settings,
        orderly(m.stack, m.step_start(ch).stack),
        m.default_guarded() ==> m.step_start(ch).default_guarded(),
{
    reveal(ParserView::step_start);
    lemma_step_bracket(m);
    lemma_same_stack(m, ParserView { state: ASLANParserState::Data, ..m.appended(ch) });
}

/// A step after a go delimiter keeps the invariant.
pub proof fn lemma_step_go(m: ParserView, ch: char)
    requires
        m.inv(),
    ensures
        m.step_go(ch).inv(),
        m.step_go(ch).settings == m.settings,
        orderly(m.stack, m.step_go(ch).stack),
        m.default_guarded() ==> m.step_go(ch).default_guarded(),
{
    reveal(ParserView::step_go);
    lemma_step_bracket(m);
    lemma_exit_delimiter_into_data(m, ch);
}

/// A step in a state where text waits keeps the invariant.
pub proof fn lemma_step_waiting(m: ParserView, ch: char)
    requires
        m.inv(),
    ensures
        m.step_waiting(ch).inv(),
        m.step_waiting(ch).settings == m.settings,
        orderly(m.stack, m.step_waiting(ch).stack),
        m.default_guarded() ==> m.step_waiting(ch).default_guarded(),
{
    reveal(ParserView::step_waiting);
    lemma_step_bracket(m);
    lemma_same_stack(m, m.appended(ch));
}

/// A step in a comment keeps the invariant.
pub proof fn lemma_step_comment(m: ParserView, ch: char)
    requires
        m.inv(),
    ensures
        m.step_comment(ch).inv(),
        m.step_comment(ch).settings == m.settings,
        orderly(m.stack, m.step_comment(ch).stack),
        m.default_guarded() ==> m.step_comment(ch).default_guarded(),
{
    reveal(ParserView::step_comment);
    lemma_step_bracket(m);
}

/// A step in a text keeps the invariant.
pub proof fn lemma_step_data(m: ParserView, ch: char)
    requires
        m.inv(),
    ensures
        m.step_data(ch).inv(),
        m.step_data(ch).settings == m.settings,
        orderly(m.stack, m.step_data(ch).stack),
        m.default_guarded() ==> m.step_data(ch).default_guarded(),
{
    reveal(ParserView::step_data);
    lemma_step_bracket(m);
    lemma_same_stack(m, m.appended(ch));
    lemma_store_current_value(m.appended(ch));
}

/// A step right after the opening of an escape region keeps the invariant.
pub proof fn lemma_step_escape(m: ParserView, ch: char)
    requires
        m.inv(),
    ensures
        m.step_escape(ch).inv(),
        m.step_escape(ch).settings == m.settings,
        orderly(m.stack, m.step_escape(ch).stack),
        m.default_guarded() ==> m.step_escape(ch).default_guarded(),
{
    reveal(ParserView::step_escape);
    lemma_step_bracket(m);
    let taken = ParserView { state: ASLANParserState::Data, ..m.appended(ch) };
    lemma_same_stack(m, taken);
    lemma_store_current_value(taken);
}

/// A step of an unlocked parser keeps the invariant.
pub proof fn lemma_step_unlocked(m: ParserView, ch: char)
    requires
        m.inv(),
    ensures
        m.step_unlocked(ch).inv(),
        m.step_unlocked(ch).settings == m.settings,
        orderly(m.stack, m.step_unlocked(ch).stack),
        m.default_guarded() && !m.completes_shaping(ch) ==> m.step_unlocked(ch).default_guarded(),
{
    reveal(ParserView::step_unlocked);
    lemma_step_go_delimiter(m, ch);
    lemma_step_stop_delimiter(m, ch);
    lemma_step_go(m, ch);
    lemma_step_waiting(m, ch);
    lemma_step_start(m, ch);
    lemma_step_maybe_delimiter(m, ch);
    lemma_step_delimiter(m, ch);
    lemma_step_reserved_delimiter(m, ch);
    lemma_step_comment(m, ch);
    lemma_step_escape(m, ch);
    lemma_step_instruction_delimiter(m, ch);
    lemma_step_instruction_delimiter_name(m, ch);
    lemma_step_instruction_delimiter_args(m, ch);
    lemma_step_data_delimiter(m, ch);
    lemma_step_data_delimiter_name(m, ch);
    lemma_step_data_delimiter_args(m, ch);
    lemma_step_object_delimiter(m, ch);
    lemma_step_array_delimiter(m, ch);
    lemma_step_void_delimiter(m, ch);
    lemma_step_comment_delimiter(m, ch);
    lemma_step_escape_delimiter(m, ch);
    lemma_step_escape_delimiter_name(m, ch);
    lemma_step_part_delimiter(m, ch);
    lemma_step_data(m, ch);
}

/// A step of a locked parser keeps the invariant.
pub proof fn lemma_step_locked(m: ParserView, ch: char)
    requires
        m.inv(),
    ensures
        m.step_locked(ch).inv(),
        m.step_locked(ch).settings == m.settings,
        orderly(m.stack, m.step_locked(ch).stack),
        m.default_guarded() ==> m.step_locked(ch).default_guarded(),
{
    reveal(ParserView::step_locked);
    lemma_go(m);
    lemma_same_stack(m, m.relocked());
    lemma_step_bracket(m.relocked());
    lemma_same_stack(m, m.matching(m.delimiter_buffer.push(ch)));
    if !(m.state == ASLANParserState::GoDelimiter && ch == ']') && !(ch == '['
        && m.state != ASLANParserState::MaybeDelimiter && m.state != ASLANParserState::Delimiter
        && m.state != ASLANParserState::GoDelimiter) {
        lemma_same_stack(m, m.step_locked(ch));
    }
}

/// Every step keeps the invariant, and the settings.
pub proof fn lemma_step(m: ParserView, ch: char)
    requires
        m.inv(),
    ensures
        m.step(ch).inv(),
        m.step(ch).settings == m.settings,
        orderly(m.stack, m.step(ch).stack),
        m.default_guarded() && !m.reshapes_default(ch) ==> m.step(ch).default_guarded(),
{
    reveal(ParserView::step);
    lemma_step_unlocked(m, ch);
    lemma_step_locked(m, ch);
}

/// Every input keeps the invariant, and the settings.
pub proof fn lemma_feed(m: ParserView, input: Seq<char>)
    requires
        m.inv(),
    ensures
        m.feed(input).inv(),
        m.feed(input).settings == m.settings,
    decreases input.len(),
{
    if input.len() > 0 {
        lemma_feed(m, input.drop_last());
        lemma_step(m.feed(input.drop_last()), input.last());
    }
}

/// A new parser keeps the invariant.
pub proof fn lemma_initial(settings: SettingsView)
    ensures
        ParserView::initial(settings).inv(),
{
    let m = ParserView::initial(settings);
    lemma_reset(m);
    assert(m.reset().stack =~= m.stack);
}

} // verus!
