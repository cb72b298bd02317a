//! What the parser registers and reports: instructions, and the events
//! that carry content to listeners.

use crate::node::{Node, Tree};
use vstd::prelude::*;

verus! {

/// The texts of a list of strings.
pub open spec fn texts_of(strings: Seq<String>) -> Seq<Seq<char>> {
    Seq::new(strings.len(), |i: int| strings[i]@)
}

/// A copy of a list of strings.
pub fn copy_texts(strings: &Vec<String>) -> (r: Vec<String>)
    ensures
        texts_of(r@) == texts_of(strings@),
{
    let mut out: Vec<String> = Vec::new();
    let mut i: usize = 0;
    while i < strings.len()
        invariant
            i <= strings.len(),
            out.len() == i,
            forall|j: int| 0 <= j < i ==> (#[trigger] out@[j])@ == strings@[j]@,
        decreases strings.len() - i,
    {
        out.push(strings[i].clone());
        i += 1;
    }
    assert(texts_of(out@) =~= texts_of(strings@));
    out
}

/// An instruction registered on a frame.
#[derive(Debug)]
pub struct ASLANRegisteredInstruction {
    /// The text of the key that the instruction annotates.
    pub key: String,
    /// The name of the instruction.
    pub name: String,
    /// How many characters the key's value, or its latest part, held when
    /// the instruction was registered.
    pub index: usize,
    /// The arguments of the instruction.
    pub args: Vec<String>,
    /// The part that the instruction annotates; 0 where the key has no
    /// parts.
    pub part_index: usize,
}

/// What an [`ASLANRegisteredInstruction`] stands for.
pub struct InstructionView {
    pub key: Seq<char>,
    pub name: Seq<char>,
    pub index: usize,
    pub args: Seq<Seq<char>>,
    pub part_index: usize,
}

impl View for ASLANRegisteredInstruction {
    type V = InstructionView;

    open spec fn view(&self) -> InstructionView {
        InstructionView {
            key: self.key@,
            name: self.name@,
            index: self.index,
            args: texts_of(self.args@),
            part_index: self.part_index,
        }
    }
}

impl Clone for ASLANRegisteredInstruction {
    fn clone(&self) -> (r: Self)
        ensures
            r@ == self@,
    {
        ASLANRegisteredInstruction {
            key: self.key.clone(),
            name: self.name.clone(),
            index: self.index,
            args: copy_texts(&self.args),
            part_index: self.part_index,
        }
    }
}

/// What a list of registered instructions stands for.
pub open spec fn instructions_of(list: Seq<ASLANRegisteredInstruction>) -> Seq<InstructionView> {
    Seq::new(list.len(), |i: int| list[i]@)
}

/// The kind of an event.
#[derive(Debug, Clone, Copy, PartialEq, Eq, Structural)]
pub enum ASLANEventKind {
    /// Content was added under a key that carries an instruction.
    Content,
    /// The writes to a key that carries an instruction are complete.
    End,
    /// The writes to a key are complete; carries all its parts.
    EndData,
}

/// Instruction event data: the payload of a content event and of an end
/// event.
#[derive(Debug)]
pub struct ASLANInstruction {
    pub content: String,
    pub part_index: usize,
    pub field_name: String,
    pub path: Vec<String>,
    pub structure: Node,
    pub instruction: String,
    pub args: Vec<String>,
    pub index: usize,
    pub multi_aslan_index: usize,
    pub tag: String,
}

/// What an [`ASLANInstruction`] stands for.
pub struct InstructionEventView {
    pub content: Seq<char>,
    pub part_index: usize,
    pub field_name: Seq<char>,
    pub path: Seq<Seq<char>>,
    pub structure: Tree,
    pub instruction: Seq<char>,
    pub args: Seq<Seq<char>>,
    pub index: usize,
    pub multi_aslan_index: usize,
    pub tag: Seq<char>,
}

impl View for ASLANInstruction {
    type V = InstructionEventView;

    open spec fn view(&self) -> InstructionEventView {
        InstructionEventView {
            content: self.content@,
            part_index: self.part_index,
            field_name: self.field_name@,
            path: texts_of(self.path@),
            structure: self.structure@,
            instruction: self.instruction@,
            args: texts_of(self.args@),
            index: self.index,
            multi_aslan_index: self.multi_aslan_index,
            tag: self.tag@,
        }
    }
}

impl Clone for ASLANInstruction {
    fn clone(&self) -> (r: Self)
        ensures
            r@ == self@,
    {
        ASLANInstruction {
            content: self.content.clone(),
            part_index: self.part_index,
            field_name: self.field_name.clone(),
            path: copy_texts(&self.path),
            structure: self.structure.clone(),
            instruction: self.instruction.clone(),
            args: copy_texts(&self.args),
            index: self.index,
            multi_aslan_index: self.multi_aslan_index,
            tag: self.tag.clone(),
        }
    }
}

/// Instruction info for end-data events.
#[derive(Debug)]
pub struct ASLANInstructionInfo {
    pub name: String,
    pub args: Vec<String>,
    pub index: usize,
}

/// What an [`ASLANInstructionInfo`] stands for.
pub struct InstructionInfoView {
    pub name: Seq<char>,
    pub args: Seq<Seq<char>>,
    pub index: usize,
}

impl View for ASLANInstructionInfo {
    type V = InstructionInfoView;

    open spec fn view(&self) -> InstructionInfoView {
        InstructionInfoView { name: self.name@, args: texts_of(self.args@), index: self.index }
    }
}

impl Clone for ASLANInstructionInfo {
    fn clone(&self) -> (r: Self)
        ensures
            r@ == self@,
    {
        ASLANInstructionInfo {
            name: self.name.clone(),
            args: copy_texts(&self.args),
            index: self.index,
        }
    }
}

/// What a list of instruction infos stands for.
pub open spec fn infos_of(list: Seq<ASLANInstructionInfo>) -> Seq<InstructionInfoView> {
    Seq::new(list.len(), |i: int| list[i]@)
}

/// A copy of a list of instruction infos.
pub fn copy_infos(list: &Vec<ASLANInstructionInfo>) -> (r: Vec<ASLANInstructionInfo>)
    ensures
        infos_of(r@) == infos_of(list@),
{
    let mut out: Vec<ASLANInstructionInfo> = Vec::new();
    let mut i: usize = 0;
    while i < list.len()
        invariant
            i <= list.len(),
            out.len() == i,
            forall|j: int| 0 <= j < i ==> (#[trigger] out@[j])@ == list@[j]@,
        decreases list.len() - i,
    {
        out.push(list[i].clone());
        i += 1;
    }
    assert(infos_of(out@) =~= infos_of(list@));
    out
}

/// Content part with instructions.
#[derive(Debug)]
pub struct ASLANContentPart {
    pub value: String,
    pub part_index: usize,
    pub instructions: Vec<ASLANInstructionInfo>,
}

/// What an [`ASLANContentPart`] stands for.
pub struct ContentPartView {
    pub value: Seq<char>,
    pub part_index: usize,
    pub instructions: Seq<InstructionInfoView>,
}

impl View for ASLANContentPart {
    type V = ContentPartView;

    open spec fn view(&self) -> ContentPartView {
        ContentPartView {
            value: self.value@,
            part_index: self.part_index,
            instructions: infos_of(self.instructions@),
        }
    }
}

impl Clone for ASLANContentPart {
    fn clone(&self) -> (r: Self)
        ensures
            r@ == self@,
    {
        ASLANContentPart {
            value: self.value.clone(),
            part_index: self.part_index,
            instructions: copy_infos(&self.instructions),
        }
    }
}

/// What a list of content parts stands for.
pub open spec fn parts_of(list: Seq<ASLANContentPart>) -> Seq<ContentPartView> {
    Seq::new(list.len(), |i: int| list[i]@)
}

/// A copy of a list of content parts.
pub fn copy_parts(list: &Vec<ASLANContentPart>) -> (r: Vec<ASLANContentPart>)
    ensures
        parts_of(r@) == parts_of(list@),
{
    let mut out: Vec<ASLANContentPart> = Vec::new();
    let mut i: usize = 0;
    while i < list.len()
        invariant
            i <= list.len(),
            out.len() == i,
            forall|j: int| 0 <= j < i ==> (#[trigger] out@[j])@ == list@[j]@,
        decreases list.len() - i,
    {
        out.push(list[i].clone());
        i += 1;
    }
    assert(parts_of(out@) =~= parts_of(list@));
    out
}

/// End data instruction event.
#[derive(Debug)]
pub struct ASLANEndDataInstruction {
    pub content: Vec<ASLANContentPart>,
    pub field_name: String,
    pub path: Vec<String>,
    pub structure: Node,
    pub multi_aslan_index: usize,
    pub tag: String,
}

/// What an [`ASLANEndDataInstruction`] stands for.
pub struct EndDataEventView {
    pub content: Seq<ContentPartView>,
    pub field_name: Seq<char>,
    pub path: Seq<Seq<char>>,
    pub structure: Tree,
    pub multi_aslan_index: usize,
    pub tag: Seq<char>,
}

impl View for ASLANEndDataInstruction {
    type V = EndDataEventView;

    open spec fn view(&self) -> EndDataEventView {
        EndDataEventView {
            content: parts_of(self.content@),
            field_name: self.field_name@,
            path: texts_of(self.path@),
            structure: self.structure@,
            multi_aslan_index: self.multi_aslan_index,
            tag: self.tag@,
        }
    }
}

impl Clone for ASLANEndDataInstruction {
    fn clone(&self) -> (r: Self)
        ensures
            r@ == self@,
    {
        ASLANEndDataInstruction {
            content: copy_parts(&self.content),
            field_name: self.field_name.clone(),
            path: copy_texts(&self.path),
            structure: self.structure.clone(),
            multi_aslan_index: self.multi_aslan_index,
            tag: self.tag.clone(),
        }
    }
}

/// An event, by kind.
#[derive(Debug)]
pub enum ASLANEvent {
    Content(ASLANInstruction),
    End(ASLANInstruction),
    EndData(ASLANEndDataInstruction),
}

/// What an [`ASLANEvent`] stands for.
pub enum EventView {
    Content(InstructionEventView),
    End(InstructionEventView),
    EndData(EndDataEventView),
}

impl View for ASLANEvent {
    type V = EventView;

    open spec fn view(&self) -> EventView {
        match self {
            ASLANEvent::Content(e) => EventView::Content(e@),
            ASLANEvent::End(e) => EventView::End(e@),
            ASLANEvent::EndData(e) => EventView::EndData(e@),
        }
    }
}

impl Clone for ASLANEvent {
    fn clone(&self) -> (r: Self)
        ensures
            r@ == self@,
    {
        match self {
            ASLANEvent::Content(e) => ASLANEvent::Content(e.clone()),
            ASLANEvent::End(e) => ASLANEvent::End(e.clone()),
            ASLANEvent::EndData(e) => ASLANEvent::EndData(e.clone()),
        }
    }
}

/// One call of one listener: the listener's key and the event it is
/// handed.
#[derive(Debug)]
pub struct ASLANDelivery {
    pub listener: String,
    pub event: ASLANEvent,
}

/// What an [`ASLANDelivery`] stands for.
pub struct DeliveryView {
    pub listener: Seq<char>,
    pub event: EventView,
}

impl View for ASLANDelivery {
    type V = DeliveryView;

    open spec fn view(&self) -> DeliveryView {
        DeliveryView { listener: self.listener@, event: self.event@ }
    }
}

impl Clone for ASLANDelivery {
    fn clone(&self) -> (r: Self)
        ensures
            r@ == self@,
    {
        ASLANDelivery { listener: self.listener.clone(), event: self.event.clone() }
    }
}

/// What a list of deliveries stands for.
pub open spec fn deliveries_of(list: Seq<ASLANDelivery>) -> Seq<DeliveryView> {
    Seq::new(list.len(), |i: int| list[i]@)
}

} // verus!
