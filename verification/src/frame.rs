//! One frame of the parser's stack: the sub-tree it owns, the key of the
//! next write, what is known of each key, and the instructions registered
//! on it.

use crate::events::{instructions_of, ASLANRegisteredInstruction, InstructionView};
use crate::node::{ASLANKey, KeyView, Node, Tree};
use vstd::prelude::*;
use vstd::string::*;

verus! {

/// How repeated data delimiters for one key are treated.
#[derive(Debug, Clone, Copy, PartialEq, Eq, Structural)]
pub enum ASLANDataInsertionType {
    Default,
    Append,
    KeepFirst,
    KeepLast,
}

/// What a frame knows of one key.
#[derive(Debug, Clone, Copy)]
pub struct FieldState {
    /// The write policy, once one was assigned.
    pub policy: Option<ASLANDataInsertionType>,
    /// Writes to the key are dropped.
    pub locked: bool,
    /// The key was marked void.
    pub void: bool,
    /// The key was introduced again by a data delimiter.
    pub duplicate_seen: bool,
    /// A part delimiter has turned the key's value into a list of parts.
    pub implicit_array: bool,
}

impl FieldState {
    /// What is known of a key that was never touched.
    pub open spec fn initial() -> FieldState {
        FieldState {
            policy: None,
            locked: false,
            void: false,
            duplicate_seen: false,
            implicit_array: false,
        }
    }

    /// What is known of a key that was never touched.
    pub fn new() -> (r: FieldState)
        ensures
            r == FieldState::initial(),
    {
        FieldState {
            policy: None,
            locked: false,
            void: false,
            duplicate_seen: false,
            implicit_array: false,
        }
    }
}

/// The table in which nothing is known of any key.
pub open spec fn no_fields() -> Map<Seq<char>, FieldState> {
    Map::total(|key: Seq<char>| FieldState::initial())
}

/// The state under the first entry for `key` at or after `from`; the
/// initial state where there is none.
pub open spec fn state_at(entries: Seq<(String, FieldState)>, key: Seq<char>, from: int)
    -> FieldState
    decreases entries.len() - from,
{
    if from < 0 || from >= entries.len() {
        FieldState::initial()
    } else if entries[from].0@ == key {
        entries[from].1
    } else {
        state_at(entries, key, from + 1)
    }
}

proof fn lemma_state_after_update(
    entries: Seq<(String, FieldState)>,
    at: int,
    name: String,
    state: FieldState,
    key: Seq<char>,
    from: int,
)
    requires
        0 <= from,
        0 <= at < entries.len(),
        entries[at].0@ == name@,
        forall|j: int| 0 <= j < at ==> (#[trigger] entries[j]).0@ != name@,
    ensures
        state_at(entries.update(at, (name, state)), key, from) == (if key == name@ && from
            <= at {
            state
        } else {
            state_at(entries, key, from)
        }),
    decreases entries.len() - from,
{
    if from < entries.len() {
        lemma_state_after_update(entries, at, name, state, key, from + 1);
    }
}

proof fn lemma_state_after_push(
    entries: Seq<(String, FieldState)>,
    name: String,
    state: FieldState,
    key: Seq<char>,
    from: int,
)
    requires
        0 <= from,
        forall|j: int| 0 <= j < entries.len() ==> (#[trigger] entries[j]).0@ != name@,
    ensures
        state_at(entries.push((name, state)), key, from) == (if key == name@ && from
            <= entries.len() {
            state
        } else {
            state_at(entries, key, from)
        }),
    decreases entries.len() + 1 - from,
{
    if from < entries.len() + 1 {
        lemma_state_after_push(entries, name, state, key, from + 1);
    }
}

/// What a frame knows of its keys, by the text of the key.
#[derive(Debug)]
pub struct FieldTable {
    pub(crate) entries: Vec<(String, FieldState)>,
}

impl FieldTable {
    /// The state of each key; the initial state for a key never written.
    pub open(crate) spec fn view(&self) -> Map<Seq<char>, FieldState> {
        Map::total(|key: Seq<char>| state_at(self.entries@, key, 0))
    }

    /// A table in which nothing is known of any key.
    pub fn new() -> (r: FieldTable)
        ensures
            r@ == no_fields(),
    {
        let r = FieldTable { entries: Vec::new() };
        assert(r@ =~= no_fields());
        r
    }

    fn find(&self, key: &String) -> (r: Option<usize>)
        ensures
            match r {
                Some(i) => i < self.entries.len() && self.entries@[i as int].0@ == key@
                    && forall|j: int| 0 <= j < i ==> (#[trigger] self.entries@[j]).0@ != key@,
                None => forall|j: int|
                    0 <= j < self.entries.len() ==> (#[trigger] self.entries@[j]).0@ != key@,
            },
            match r {
                Some(i) => self@[key@] == self.entries@[i as int].1,
                None => self@[key@] == FieldState::initial(),
            },
    {
        let mut i: usize = 0;
        while i < self.entries.len()
            invariant
                i <= self.entries.len(),
                forall|j: int| 0 <= j < i ==> (#[trigger] self.entries@[j]).0@ != key@,
                state_at(self.entries@, key@, 0) == state_at(self.entries@, key@, i as int),
            decreases self.entries.len() - i,
        {
            if self.entries[i].0 == *key {
                return Some(i);
            }
            i += 1;
        }
        None
    }

    /// What is known of `key`.
    pub fn get(&self, key: &String) -> (r: FieldState)
        ensures
            r == self@[key@],
    {
        match self.find(key) {
            Some(i) => self.entries[i].1,
            None => FieldState::new(),
        }
    }

    /// Records `state` as what is known of `key`.
    pub fn set(&mut self, key: &String, state: FieldState)
        ensures
            final(self)@ == old(self)@.insert(key@, state),
    {
        let name = key.clone();
        let ghost before = self.entries@;
        match self.find(key) {
            Some(i) => {
                self.entries[i] = (name, state);
                proof {
                    assert forall|k: Seq<char>| #[trigger]
                        self@[k] == old(self)@.insert(key@, state)[k] by {
                        lemma_state_after_update(before, i as int, name, state, k, 0);
                    }
                    assert(self@ =~= old(self)@.insert(key@, state));
                }
            },
            None => {
                self.entries.push((name, state));
                proof {
                    assert forall|k: Seq<char>| #[trigger]
                        self@[k] == old(self)@.insert(key@, state)[k] by {
                        lemma_state_after_push(before, name, state, k, 0);
                    }
                    assert(self@ =~= old(self)@.insert(key@, state));
                }
            },
        }
    }
}

/// Parser stack frame.
#[derive(Debug)]
pub struct ASLANParserStateStackFrame {
    pub(crate) inner_result: Node,
    pub(crate) fields: FieldTable,
    pub(crate) current_key: ASLANKey,
    pub(crate) min_array_index: i64,
    pub(crate) registered_instructions: Vec<ASLANRegisteredInstruction>,
}

/// What a frame stands for.
pub struct FrameView {
    /// The sub-tree that the frame owns.
    pub tree: Tree,
    /// The key of the next write.
    pub current_key: KeyView,
    /// The next implicit index, where the sub-tree is a sequence.
    pub min_array_index: i64,
    /// What is known of each key.
    pub fields: Map<Seq<char>, FieldState>,
    /// The instructions registered on the frame, oldest first.
    pub instructions: Seq<InstructionView>,
}

impl ASLANParserStateStackFrame {
    pub open(crate) spec fn view(&self) -> FrameView {
        FrameView {
            tree: self.inner_result@,
            current_key: self.current_key@,
            min_array_index: self.min_array_index,
            fields: self.fields@,
            instructions: instructions_of(self.registered_instructions@),
        }
    }
}

impl FrameView {
    /// The frame that a new mapping starts with: nothing written, the
    /// default field as the key of the next write.
    pub open spec fn for_mapping(default_field_name: Seq<char>) -> FrameView {
        FrameView {
            tree: Tree::Mapping(Seq::empty()),
            current_key: KeyView::Name(default_field_name),
            min_array_index: 0,
            fields: no_fields(),
            instructions: Seq::empty(),
        }
    }

    /// The frame that a new sequence starts with: nothing written, and no
    /// index given out yet.
    pub open spec fn for_sequence() -> FrameView {
        FrameView {
            tree: Tree::Sequence(Seq::empty()),
            current_key: KeyView::Index(-1i64),
            min_array_index: 0,
            fields: no_fields(),
            instructions: Seq::empty(),
        }
    }

    /// The frame that a document starts with: a mapping that holds the
    /// default field with an empty text, the default policy assigned to
    /// that field.
    pub open spec fn root(default_field_name: Seq<char>) -> FrameView {
        FrameView {
            tree: Tree::Mapping(seq![(default_field_name, Tree::Text(Seq::empty()))]),
            current_key: KeyView::Name(default_field_name),
            min_array_index: 0,
            fields: no_fields().insert(
                default_field_name,
                FieldState {
                    policy: Some(ASLANDataInsertionType::Default),
                    ..FieldState::initial()
                },
            ),
            instructions: Seq::empty(),
        }
    }

    /// The text of the key of the next write.
    pub open spec fn key_text(self) -> Seq<char> {
        self.current_key.text()
    }

    /// The entry under the key of the next write.
    pub open spec fn value(self) -> Option<Tree> {
        self.tree.get(self.current_key)
    }

    /// What is known of the key of the next write.
    pub open spec fn field(self) -> FieldState {
        self.fields[self.key_text()]
    }
}

impl FrameView {
    /// The frame of a sequence at its next key: the index `named`, where
    /// the delimiter names one below the largest `i64`, else the next free
    /// index. Where no index is free any more, the frame stays at its
    /// key.
    pub open spec fn next_index(self, named: Option<i64>) -> FrameView {
        if named is Some && named->0 < i64::MAX {
            FrameView {
                current_key: KeyView::Index(named->0),
                min_array_index: if self.min_array_index > named->0 {
                    self.min_array_index
                } else {
                    (named->0 + 1) as i64
                },
                ..self
            }
        } else if self.min_array_index < i64::MAX {
            FrameView {
                current_key: KeyView::Index(self.min_array_index),
                min_array_index: (self.min_array_index + 1) as i64,
                ..self
            }
        } else {
            self
        }
    }

    /// The frame of a mapping at the key `name`: a default field that
    /// holds the empty text becomes void, and a name that the mapping
    /// holds already is marked as seen again.
    pub open spec fn next_name(self, name: Seq<char>, default_field_name: Seq<char>) -> FrameView {
        let default_key = KeyView::Name(default_field_name);
        let tree = if self.tree.get(default_key) == Some(Tree::Text(Seq::empty())) {
            self.tree.set(default_key, Tree::Void)
        } else {
            self.tree
        };
        let fields = if tree.get(KeyView::Name(name)) is Some {
            self.fields.insert(name, FieldState { duplicate_seen: true, ..self.fields[name] })
        } else {
            self.fields
        };
        FrameView { tree: tree, fields: fields, current_key: KeyView::Name(name), ..self }
    }
}

/// What a stack of frames stands for.
pub open spec fn frames_of(stack: Seq<ASLANParserStateStackFrame>) -> Seq<FrameView> {
    Seq::new(stack.len(), |i: int| stack[i]@)
}

impl ASLANParserStateStackFrame {
    /// The frame that a new mapping starts with.
    pub fn for_mapping(default_field_name: &String) -> (r: Self)
        ensures
            r@ == FrameView::for_mapping(default_field_name@),
    {
        let frame = ASLANParserStateStackFrame {
            inner_result: Node::empty_mapping(),
            fields: FieldTable::new(),
            current_key: ASLANKey::String(default_field_name.clone()),
            min_array_index: 0,
            registered_instructions: Vec::new(),
        };
        assert(instructions_of(frame.registered_instructions@) =~= Seq::empty());
        frame
    }

    /// The frame that a new sequence starts with.
    pub fn for_sequence() -> (r: Self)
        ensures
            r@ == FrameView::for_sequence(),
    {
        let frame = ASLANParserStateStackFrame {
            inner_result: Node::empty_sequence(),
            fields: FieldTable::new(),
            current_key: ASLANKey::Index(-1),
            min_array_index: 0,
            registered_instructions: Vec::new(),
        };
        assert(instructions_of(frame.registered_instructions@) =~= Seq::empty());
        frame
    }

    /// The frame that a document starts with.
    pub fn root(default_field_name: &String) -> (r: Self)
        ensures
            r@ == FrameView::root(default_field_name@),
    {
        let mut frame = Self::for_mapping(default_field_name);
        frame.inner_result.set(&frame.current_key, Node::Text(String::new()));
        let mut state = FieldState::new();
        state.policy = Some(ASLANDataInsertionType::Default);
        frame.fields.set(default_field_name, state);
        proof {
            let name = default_field_name@;
            let empty = Seq::<(Seq<char>, Tree)>::empty();
            assert(empty.push((name, Tree::Text(Seq::empty()))) =~= seq![
                (name, Tree::Text(Seq::empty())),
            ]);
        }
        frame
    }
}

impl ASLANParserStateStackFrame {
    /// Moves the frame of a sequence to its next key.
    pub(crate) fn advance_index(&mut self, named: Option<i64>)
        ensures
            final(self)@ == old(self)@.next_index(named),
    {
        let min: i64 = self.min_array_index;
        let explicit: Option<i64> = match named {
            Some(n) => if n < i64::MAX {
                Some(n)
            } else {
                None
            },
            None => None,
        };
        match explicit {
            Some(n) => {
                self.current_key = ASLANKey::Index(n);
                if min <= n {
                    self.min_array_index = n + 1;
                }
            },
            None => {
                if min < i64::MAX {
                    self.current_key = ASLANKey::Index(min);
                    self.min_array_index = min + 1;
                }
            },
        }
    }

    /// Moves the frame of a mapping to the key `name`.
    pub(crate) fn advance_name(&mut self, name: String, default_field_name: &String)
        ensures
            final(self)@ == old(self)@.next_name(name@, default_field_name@),
    {
        let default_key = ASLANKey::String(default_field_name.clone());
        let demote = match self.inner_result.get(&default_key) {
            Some(Node::Text(s)) => {
                assert(s@.len() == 0 ==> s@ =~= Seq::empty());
                s.as_str().is_empty()
            },
            _ => false,
        };
        if demote {
            self.inner_result.set(&default_key, Node::Void);
        }
        let name_key = ASLANKey::String(name.clone());
        let seen = self.inner_result.get(&name_key).is_some();
        if seen {
            let mut state = self.fields.get(&name);
            state.duplicate_seen = true;
            self.fields.set(&name, state);
        }
        self.current_key = name_key;
    }
}

} // verus!
