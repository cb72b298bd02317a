//! ASLAN: a streaming, bracket-delimited markup for structured data
//! interleaved with free text, with an incremental parser whose behaviour is
//! stated in contracts.
//!
//! The parser takes its input character by character and keeps a tree of
//! mappings, sequences, texts and void markers up to date. What a step does
//! is defined once, on mathematical values, in [`model`] and [`machine`];
//! the executable parser in [`aslan_parser`], [`handlers`], [`delimiters`],
//! [`moves`], [`actions`] and [`reporting`] is proved to do exactly that.
//! [`invariants`] and [`laws`] prove what holds of every state that the
//! parser reaches.
//!
//! Listeners are registered by key. The parser does not call them: it
//! records, for every event, one delivery for each listener of the event's
//! kind, in the order of registration, and hands the deliveries out through
//! [`ASLANParser::take_deliveries`].

pub mod actions;
pub mod aslan_parser;
pub mod delimiters;
pub mod events;
pub mod frame;
pub mod grammar;
pub mod handlers;
pub mod invariants;
pub mod laws;
pub mod machine;
pub mod model;
pub mod moves;
pub mod node;
pub mod recent_items;
pub mod reporting;
pub mod settings;
pub mod text;
pub mod tree_laws;
pub mod utils;

pub use aslan_parser::ASLANParser;
pub use events::{
    ASLANContentPart, ASLANDelivery, ASLANEndDataInstruction, ASLANEvent, ASLANEventKind,
    ASLANInstruction, ASLANInstructionInfo, ASLANRegisteredInstruction,
};
pub use grammar::{ASLANDelimiterType, ASLANDuplicateKeyBehavior};
pub use node::{ASLANKey, Node};
pub use recent_items::RecentItems;
pub use settings::{ASLANParserSettings, EmittableEvents};
pub use utils::{deep_copy, generate_random_idempotency_key};
