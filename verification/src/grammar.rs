//! The kinds of delimiter, the letters that select them, and the states of
//! the parser.

use crate::frame::ASLANDataInsertionType;
use vstd::prelude::*;

verus! {

/// Delimiter types in ASLAN.
#[derive(Debug, Clone, Copy, PartialEq, Eq, Hash, Structural)]
pub enum ASLANDelimiterType {
    Data,
    Object,
    Instruction,
    Array,
    Comment,
    Escape,
    Part,
    Void,
    Go,
    Stop,
}

/// Duplicate key behavior.
#[derive(Debug, Clone, Copy, PartialEq, Eq, Structural)]
pub enum ASLANDuplicateKeyBehavior {
    Append,
    KeepFirst,
    KeepLast,
}

/// Parser states.
#[derive(Debug, Clone, Copy, PartialEq, Eq, Structural)]
pub enum ASLANParserState {
    GoDelimiter,
    StopDelimiter,
    Start,
    MaybeDelimiter,
    Delimiter,
    ReservedDelimiter,
    Object,
    Array,
    Comment,
    Escape,
    CommentDelimiter,
    EscapeDelimiter,
    EscapeDelimiterName,
    InstructionDelimiter,
    InstructionDelimiterName,
    InstructionDelimiterArgs,
    DataDelimiter,
    DataDelimiterName,
    DataDelimiterArgs,
    ObjectDelimiter,
    ArrayDelimiter,
    VoidDelimiter,
    PartDelimiter,
    Data,
    Go,
    Stop,
    Locked,
}

/// The kind of delimiter that a letter after the prefix selects.
pub open spec fn kind_of_letter(c: char) -> Option<ASLANDelimiterType> {
    if c == 'd' {
        Some(ASLANDelimiterType::Data)
    } else if c == 'o' {
        Some(ASLANDelimiterType::Object)
    } else if c == 'i' {
        Some(ASLANDelimiterType::Instruction)
    } else if c == 'a' {
        Some(ASLANDelimiterType::Array)
    } else if c == 'c' {
        Some(ASLANDelimiterType::Comment)
    } else if c == 'e' {
        Some(ASLANDelimiterType::Escape)
    } else if c == 'p' {
        Some(ASLANDelimiterType::Part)
    } else if c == 'v' {
        Some(ASLANDelimiterType::Void)
    } else if c == 'g' {
        Some(ASLANDelimiterType::Go)
    } else if c == 's' {
        Some(ASLANDelimiterType::Stop)
    } else {
        None
    }
}

/// The state in which the parser reads on after the letter of `kind`.
pub open spec fn state_after_letter(kind: ASLANDelimiterType) -> ASLANParserState {
    match kind {
        ASLANDelimiterType::Data => ASLANParserState::DataDelimiter,
        ASLANDelimiterType::Object => ASLANParserState::ObjectDelimiter,
        ASLANDelimiterType::Instruction => ASLANParserState::InstructionDelimiter,
        ASLANDelimiterType::Array => ASLANParserState::ArrayDelimiter,
        ASLANDelimiterType::Comment => ASLANParserState::CommentDelimiter,
        ASLANDelimiterType::Escape => ASLANParserState::EscapeDelimiter,
        ASLANDelimiterType::Part => ASLANParserState::PartDelimiter,
        ASLANDelimiterType::Void => ASLANParserState::VoidDelimiter,
        ASLANDelimiterType::Go => ASLANParserState::GoDelimiter,
        ASLANDelimiterType::Stop => ASLANParserState::StopDelimiter,
    }
}

/// The write policy that the first argument of a data delimiter selects.
pub open spec fn policy_of_arg(arg: Seq<char>) -> ASLANDataInsertionType {
    if arg == seq!['a'] {
        ASLANDataInsertionType::Append
    } else if arg == seq!['f'] {
        ASLANDataInsertionType::KeepFirst
    } else if arg == seq!['l'] {
        ASLANDataInsertionType::KeepLast
    } else {
        ASLANDataInsertionType::Default
    }
}

/// The kind of delimiter that a letter after the prefix selects.
pub fn delimiter_kind(c: char) -> (r: Option<ASLANDelimiterType>)
    ensures
        r == kind_of_letter(c),
{
    if c == 'd' {
        Some(ASLANDelimiterType::Data)
    } else if c == 'o' {
        Some(ASLANDelimiterType::Object)
    } else if c == 'i' {
        Some(ASLANDelimiterType::Instruction)
    } else if c == 'a' {
        Some(ASLANDelimiterType::Array)
    } else if c == 'c' {
        Some(ASLANDelimiterType::Comment)
    } else if c == 'e' {
        Some(ASLANDelimiterType::Escape)
    } else if c == 'p' {
        Some(ASLANDelimiterType::Part)
    } else if c == 'v' {
        Some(ASLANDelimiterType::Void)
    } else if c == 'g' {
        Some(ASLANDelimiterType::Go)
    } else if c == 's' {
        Some(ASLANDelimiterType::Stop)
    } else {
        None
    }
}

/// The state in which the parser reads on after the letter of `kind`.
pub fn state_for_kind(kind: ASLANDelimiterType) -> (r: ASLANParserState)
    ensures
        r == state_after_letter(kind),
{
    match kind {
        ASLANDelimiterType::Data => ASLANParserState::DataDelimiter,
        ASLANDelimiterType::Object => ASLANParserState::ObjectDelimiter,
        ASLANDelimiterType::Instruction => ASLANParserState::InstructionDelimiter,
        ASLANDelimiterType::Array => ASLANParserState::ArrayDelimiter,
        ASLANDelimiterType::Comment => ASLANParserState::CommentDelimiter,
        ASLANDelimiterType::Escape => ASLANParserState::EscapeDelimiter,
        ASLANDelimiterType::Part => ASLANParserState::PartDelimiter,
        ASLANDelimiterType::Void => ASLANParserState::VoidDelimiter,
        ASLANDelimiterType::Go => ASLANParserState::GoDelimiter,
        ASLANDelimiterType::Stop => ASLANParserState::StopDelimiter,
    }
}

} // verus!
