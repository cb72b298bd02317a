//! The settings that a parser is made with.

use vstd::prelude::*;
use vstd::string::*;

verus! {

/// Which kinds of event the parser reports.
#[derive(Debug, Clone, Copy)]
pub struct EmittableEvents {
    pub content: bool,
    pub end: bool,
    pub end_data: bool,
}

impl Default for EmittableEvents {
    /// Every kind of event is reported.
    fn default() -> (r: Self)
        ensures
            r == (EmittableEvents { content: true, end: true, end_data: true }),
    {
        Self { content: true, end: true, end_data: true }
    }
}

/// Parser settings.
#[derive(Debug)]
pub struct ASLANParserSettings {
    /// The text between `[` and the kind letter of every delimiter.
    pub prefix: String,
    /// The key that receives text written before the first named key.
    pub default_field_name: String,
    /// Ignore all input until a go delimiter.
    pub strict_start: bool,
    /// Let a stop delimiter end the document.
    pub strict_end: bool,
    pub emittable_events: EmittableEvents,
    /// Return every document of the stream, not only the last.
    pub multi_aslan_output: bool,
    /// Take a stored text of white space only for empty when an object
    /// or array delimiter asks whether the key has a value.
    pub collapse_object_start_whitespace: bool,
    /// The text written between two values appended under one key.
    pub append_separator: String,
    /// The number of objects that may be open inside one another. Where
    /// it is set, an object delimiter at this depth always closes the
    /// innermost container, and below it always opens an object where the
    /// current key holds no container.
    pub max_object_depth: Option<usize>,
}

/// What an [`ASLANParserSettings`] stands for.
pub struct SettingsView {
    pub prefix: Seq<char>,
    pub default_field_name: Seq<char>,
    pub strict_start: bool,
    pub strict_end: bool,
    pub emittable_events: EmittableEvents,
    pub multi_aslan_output: bool,
    pub collapse_object_start_whitespace: bool,
    pub append_separator: Seq<char>,
    pub max_object_depth: Option<usize>,
}

impl View for ASLANParserSettings {
    type V = SettingsView;

    open spec fn view(&self) -> SettingsView {
        SettingsView {
            prefix: self.prefix@,
            default_field_name: self.default_field_name@,
            strict_start: self.strict_start,
            strict_end: self.strict_end,
            emittable_events: self.emittable_events,
            multi_aslan_output: self.multi_aslan_output,
            collapse_object_start_whitespace: self.collapse_object_start_whitespace,
            append_separator: self.append_separator@,
            max_object_depth: self.max_object_depth,
        }
    }
}

impl SettingsView {
    /// The settings that a parser has where none are given.
    pub open spec fn standard() -> SettingsView {
        SettingsView {
            prefix: "aslan"@,
            default_field_name: "_default"@,
            strict_start: false,
            strict_end: false,
            emittable_events: EmittableEvents { content: true, end: true, end_data: true },
            multi_aslan_output: false,
            collapse_object_start_whitespace: true,
            append_separator: Seq::empty(),
            max_object_depth: None,
        }
    }
}

impl Default for ASLANParserSettings {
    fn default() -> (r: Self)
        ensures
            r@ == SettingsView::standard(),
    {
        Self {
            prefix: String::from_str("aslan"),
            default_field_name: String::from_str("_default"),
            strict_start: false,
            strict_end: false,
            emittable_events: EmittableEvents::default(),
            multi_aslan_output: false,
            collapse_object_start_whitespace: true,
            append_separator: String::new(),
            max_object_depth: None,
        }
    }
}

impl Clone for ASLANParserSettings {
    fn clone(&self) -> (r: Self)
        ensures
            r@ == self@,
    {
        Self {
            prefix: self.prefix.clone(),
            default_field_name: self.default_field_name.clone(),
            strict_start: self.strict_start,
            strict_end: self.strict_end,
            emittable_events: self.emittable_events,
            multi_aslan_output: self.multi_aslan_output,
            collapse_object_start_whitespace: self.collapse_object_start_whitespace,
            append_separator: self.append_separator.clone(),
            max_object_depth: self.max_object_depth,
        }
    }
}

} // verus!
