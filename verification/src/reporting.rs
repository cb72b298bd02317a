//! The executable pieces that work on parts of the parser's state: writing
//! frames through to the root, and making the deliveries of events.

use crate::events::{
    copy_texts, deliveries_of, infos_of, instructions_of, texts_of, ASLANDelivery, ASLANEvent,
    ASLANEventKind, ASLANInstruction, ASLANInstructionInfo, ASLANRegisteredInstruction,
    DeliveryView, InstructionView,
};
use crate::frame::{frames_of, ASLANParserStateStackFrame, FrameView};
use crate::model::{announced, delivered, event_for, folded, infos_for, mapping_frames, path_of};
use crate::node::{ASLANKey, Node};
use crate::text::decimal_string;
use vstd::prelude::*;

verus! {

/// Writes each frame into its parent, under the parent's key, from the
/// innermost up to the root.
pub(crate) fn fold_stack(stack: &mut Vec<ASLANParserStateStackFrame>)
    requires
        old(stack).len() >= 1,
    ensures
        final(stack).len() == old(stack).len(),
        frames_of(final(stack)@) == folded(frames_of(old(stack)@), old(stack).len() - 1),
{
    let ghost target = folded(frames_of(stack@), stack.len() - 1);
    let mut i: usize = stack.len() - 1;
    while i > 0
        invariant
            stack.len() == old(stack).len(),
            i < stack.len(),
            folded(frames_of(stack@), i as int) == target,
        decreases i,
    {
        let ghost before = frames_of(stack@);
        let child = stack[i].inner_result.clone();
        let key = stack[i - 1].current_key.clone();
        stack[i - 1].inner_result.set(&key, child);
        proof {
            let parent = before[i - 1];
            assert(frames_of(stack@) =~= before.update(
                i - 1,
                FrameView {
                    tree: parent.tree.set(parent.current_key, before[i as int].tree),
                    ..parent
                },
            ));
        }
        i -= 1;
    }
}

/// How many of the frames inside the root own a mapping.
pub(crate) fn count_object_frames(stack: &Vec<ASLANParserStateStackFrame>) -> (r: usize)
    ensures
        r == mapping_frames(frames_of(stack@), 1),
{
    let mut count: usize = 0;
    let mut i: usize = stack.len();
    while i > 1
        invariant
            i <= stack.len(),
            i >= 1 || stack.len() == 0,
            count <= stack.len() - i,
            count == mapping_frames(frames_of(stack@), i as int),
        decreases i,
    {
        i -= 1;
        match &stack[i].inner_result {
            Node::Mapping(_) => {
                count += 1;
            },
            _ => {},
        }
    }
    count
}

/// The keys from the root to the key of the next write, as texts, without
/// the default field.
pub(crate) fn current_path(
    stack: &Vec<ASLANParserStateStackFrame>,
    default_field_name: &String,
) -> (r: Vec<String>)
    ensures
        texts_of(r@) == path_of(frames_of(stack@), default_field_name@),
{
    let mut path: Vec<String> = Vec::new();
    let mut i: usize = 0;
    assert(frames_of(stack@).take(0) =~= Seq::empty());
    assert(texts_of(path@) =~= Seq::empty());
    while i < stack.len()
        invariant
            i <= stack.len(),
            texts_of(path@) == path_of(frames_of(stack@).take(i as int), default_field_name@),
        decreases stack.len() - i,
    {
        let ghost before = texts_of(path@);
        proof {
            assert(frames_of(stack@).take(i + 1).drop_last() =~= frames_of(stack@).take(i as int));
        }
        match &stack[i].current_key {
            ASLANKey::String(s) => {
                if *s != *default_field_name {
                    path.push(s.clone());
                    assert(texts_of(path@) =~= before.push(s@));
                }
            },
            ASLANKey::Index(index) => {
                let text = decimal_string(*index);
                path.push(text);
                assert(texts_of(path@) =~= before.push(text@));
            },
        }
        i += 1;
    }
    assert(frames_of(stack@).take(stack.len() as int) =~= frames_of(stack@));
    path
}

/// Hands `event` to each of `listeners`, in their order.
pub(crate) fn deliver(outbox: &mut Vec<ASLANDelivery>, listeners: &Vec<String>, event: &ASLANEvent)
    ensures
        deliveries_of(final(outbox)@) == delivered(
            deliveries_of(old(outbox)@),
            texts_of(listeners@),
            event@,
        ),
{
    let ghost start = deliveries_of(outbox@);
    let mut j: usize = 0;
    while j < listeners.len()
        invariant
            j <= listeners.len(),
            deliveries_of(outbox@).len() == start.len() + j,
            forall|k: int| 0 <= k < start.len() ==> deliveries_of(outbox@)[k] == start[k],
            forall|k: int|
                0 <= k < j ==> deliveries_of(outbox@)[start.len() + k] == (DeliveryView {
                    listener: listeners@[k]@,
                    event: event@,
                }),
        decreases listeners.len() - j,
    {
        let ghost before = deliveries_of(outbox@);
        let delivery = ASLANDelivery { listener: listeners[j].clone(), event: event.clone() };
        outbox.push(delivery);
        assert(deliveries_of(outbox@) =~= before.push(delivery@));
        j += 1;
    }
    assert(deliveries_of(outbox@) =~= delivered(start, texts_of(listeners@), event@));
}

/// Nobody listening, nothing is delivered.
pub proof fn lemma_announced_unheard(
    outbox: Seq<DeliveryView>,
    instructions: Seq<InstructionView>,
    template: crate::events::InstructionEventView,
    kind: ASLANEventKind,
)
    ensures
        announced(outbox, instructions, Seq::empty(), template, kind) == outbox,
    decreases instructions.len(),
{
    if instructions.len() > 0 {
        lemma_announced_unheard(outbox, instructions.drop_last(), template, kind);
        let last = instructions.last();
        assert(delivered(outbox, Seq::empty(), event_for(template, last, kind)) =~= outbox);
    }
}

/// Makes one event from `template` for each of `instructions` that
/// annotates the key and the part of `template`, and hands each to every
/// one of `listeners`.
pub(crate) fn announce(
    outbox: &mut Vec<ASLANDelivery>,
    instructions: &Vec<ASLANRegisteredInstruction>,
    listeners: &Vec<String>,
    template: &ASLANInstruction,
    kind: ASLANEventKind,
)
    ensures
        deliveries_of(final(outbox)@) == announced(
            deliveries_of(old(outbox)@),
            instructions_of(instructions@),
            texts_of(listeners@),
            template@,
            kind,
        ),
{
    let ghost start = deliveries_of(outbox@);
    let ghost all = instructions_of(instructions@);
    let mut i: usize = 0;
    assert(all.take(0) =~= Seq::empty());
    while i < instructions.len()
        invariant
            i <= instructions.len(),
            all == instructions_of(instructions@),
            deliveries_of(outbox@) == announced(
                start,
                all.take(i as int),
                texts_of(listeners@),
                template@,
                kind,
            ),
        decreases instructions.len() - i,
    {
        proof {
            assert(all.take(i + 1).drop_last() =~= all.take(i as int));
            assert(all.take(i + 1).last() == instructions@[i as int]@);
        }
        let instruction = &instructions[i];
        if instruction.key == template.field_name && instruction.part_index
            == template.part_index {
            let mut payload = template.clone();
            payload.instruction = instruction.name.clone();
            payload.args = copy_texts(&instruction.args);
            payload.index = instruction.index;
            let event = match kind {
                ASLANEventKind::Content => ASLANEvent::Content(payload),
                _ => ASLANEvent::End(payload),
            };
            assert(event@ == event_for(template@, instruction@, kind));
            deliver(outbox, listeners, &event);
        }
        i += 1;
    }
    assert(all.take(instructions.len() as int) =~= all);
}

/// What an end-data event tells of the instructions for `key`: all of
/// them, or those of one part, oldest first.
pub(crate) fn instruction_infos(
    instructions: &Vec<ASLANRegisteredInstruction>,
    key: &String,
    part: Option<usize>,
) -> (r: Vec<ASLANInstructionInfo>)
    ensures
        infos_of(r@) == infos_for(instructions_of(instructions@), key@, part),
{
    let ghost all = instructions_of(instructions@);
    let mut out: Vec<ASLANInstructionInfo> = Vec::new();
    let mut i: usize = 0;
    assert(all.take(0) =~= Seq::empty());
    assert(infos_of(out@) =~= Seq::empty());
    while i < instructions.len()
        invariant
            i <= instructions.len(),
            all == instructions_of(instructions@),
            infos_of(out@) == infos_for(all.take(i as int), key@, part),
        decreases instructions.len() - i,
    {
        proof {
            assert(all.take(i + 1).drop_last() =~= all.take(i as int));
            assert(all.take(i + 1).last() == instructions@[i as int]@);
        }
        let instruction = &instructions[i];
        let wanted = match part {
            Some(p) => instruction.part_index == p,
            None => true,
        };
        if instruction.key == *key && wanted {
            let ghost before = infos_of(out@);
            let info = ASLANInstructionInfo {
                name: instruction.name.clone(),
                args: copy_texts(&instruction.args),
                index: instruction.index,
            };
            out.push(info);
            assert(infos_of(out@) =~= before.push(info@));
        }
        i += 1;
    }
    assert(all.take(instructions.len() as int) =~= all);
    out
}

} // verus!
