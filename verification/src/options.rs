//! Option sets for JSON and textproto rendering and parsing.

use vstd::prelude::*;

verus! {

/// Knobs for proto3 JSON output.
#[derive(Clone, Copy, Debug)]
pub struct SerializeOptions {
    pub(crate) stringify_64_bit_integers: bool,
    pub(crate) use_enum_numbers: bool,
    pub(crate) use_proto_field_name: bool,
    pub(crate) skip_default_fields: bool,
}

impl SerializeOptions {
    /// The `stringify_64_bit_integers` setting.
    pub closed spec fn stringify_64_bit_integers_flag(self) -> bool {
        self.stringify_64_bit_integers
    }

    /// The `use_enum_numbers` setting.
    pub closed spec fn use_enum_numbers_flag(self) -> bool {
        self.use_enum_numbers
    }

    /// The `use_proto_field_name` setting.
    pub closed spec fn use_proto_field_name_flag(self) -> bool {
        self.use_proto_field_name
    }

    /// The `skip_default_fields` setting.
    pub closed spec fn skip_default_fields_flag(self) -> bool {
        self.skip_default_fields
    }

    pub(crate) fn stringifies_64(&self) -> (r: bool)
        ensures
            r == self.stringify_64_bit_integers_flag(),
    {
        self.stringify_64_bit_integers
    }

    pub(crate) fn enum_numbers(&self) -> (r: bool)
        ensures
            r == self.use_enum_numbers_flag(),
    {
        self.use_enum_numbers
    }

    pub(crate) fn proto_names(&self) -> (r: bool)
        ensures
            r == self.use_proto_field_name_flag(),
    {
        self.use_proto_field_name
    }

    pub(crate) fn skips_defaults(&self) -> (r: bool)
        ensures
            r == self.skip_default_fields_flag(),
    {
        self.skip_default_fields
    }

    /// The default settings.
    pub fn new() -> (r: SerializeOptions)
        ensures
            r.stringify_64_bit_integers_flag() == true,
            r.use_enum_numbers_flag() == false,
            r.use_proto_field_name_flag() == false,
            r.skip_default_fields_flag() == true,
    {
        SerializeOptions { stringify_64_bit_integers: true, use_enum_numbers: false, use_proto_field_name: false, skip_default_fields: true }
    }

    /// Write 64-bit integers as JSON strings.
    pub fn stringify_64_bit_integers(self, yes: bool) -> (r: SerializeOptions)
        ensures
            r.stringify_64_bit_integers_flag() == yes,
            r.use_enum_numbers_flag() == self.use_enum_numbers_flag(),
            r.use_proto_field_name_flag() == self.use_proto_field_name_flag(),
            r.skip_default_fields_flag() == self.skip_default_fields_flag(),
    {
        SerializeOptions { stringify_64_bit_integers: yes, ..self }
    }

    /// Write enum values as numbers rather than names.
    pub fn use_enum_numbers(self, yes: bool) -> (r: SerializeOptions)
        ensures
            r.stringify_64_bit_integers_flag() == self.stringify_64_bit_integers_flag(),
            r.use_enum_numbers_flag() == yes,
            r.use_proto_field_name_flag() == self.use_proto_field_name_flag(),
            r.skip_default_fields_flag() == self.skip_default_fields_flag(),
    {
        SerializeOptions { use_enum_numbers: yes, ..self }
    }

    /// Key fields by proto name rather than JSON name.
    pub fn use_proto_field_name(self, yes: bool) -> (r: SerializeOptions)
        ensures
            r.stringify_64_bit_integers_flag() == self.stringify_64_bit_integers_flag(),
            r.use_enum_numbers_flag() == self.use_enum_numbers_flag(),
            r.use_proto_field_name_flag() == yes,
            r.skip_default_fields_flag() == self.skip_default_fields_flag(),
    {
        SerializeOptions { use_proto_field_name: yes, ..self }
    }

    /// Omit fields that hold their default value.
    pub fn skip_default_fields(self, yes: bool) -> (r: SerializeOptions)
        ensures
            r.stringify_64_bit_integers_flag() == self.stringify_64_bit_integers_flag(),
            r.use_enum_numbers_flag() == self.use_enum_numbers_flag(),
            r.use_proto_field_name_flag() == self.use_proto_field_name_flag(),
            r.skip_default_fields_flag() == yes,
    {
        SerializeOptions { skip_default_fields: yes, ..self }
    }

}

/// Knobs for proto3 JSON input.
#[derive(Clone, Copy, Debug)]
pub struct DeserializeOptions {
    pub(crate) deny_unknown_fields: bool,
}

impl DeserializeOptions {
    /// The `deny_unknown_fields` setting.
    pub closed spec fn deny_unknown_fields_flag(self) -> bool {
        self.deny_unknown_fields
    }

    pub(crate) fn denies_unknown(&self) -> (r: bool)
        ensures
            r == self.deny_unknown_fields_flag(),
    {
        self.deny_unknown_fields
    }

    /// The default settings.
    pub fn new() -> (r: DeserializeOptions)
        ensures
            r.deny_unknown_fields_flag() == false,
    {
        DeserializeOptions { deny_unknown_fields: false }
    }

    /// Reject object keys that name no field.
    pub fn deny_unknown_fields(self, yes: bool) -> (r: DeserializeOptions)
        ensures
            r.deny_unknown_fields_flag() == yes,
    {
        DeserializeOptions { deny_unknown_fields: yes, ..self }
    }

}

/// How many `Any` payloads, one inside another, the printer expands: a
/// bound on its recursion that no message in memory reaches.
pub const ANY_EXPANSION_DEPTH: u32 = 0xffff_ffff;

/// Knobs for textproto output.
#[derive(Clone, Copy, Debug)]
pub struct FormatOptions {
    pub(crate) pretty: bool,
    pub(crate) skip_unknown_fields: bool,
    pub(crate) expand_any: bool,
    pub(crate) skip_default_fields: bool,
    pub(crate) print_message_fields_in_index_order: bool,
    /// How many `Any` payloads, one inside another, are still expanded.
    pub(crate) any_depth: u32,
}

impl FormatOptions {
    /// How many nested `Any` payloads are still expanded.
    pub closed spec fn any_depth_flag(self) -> nat {
        self.any_depth as nat
    }

    pub(crate) fn expands_any(&self) -> (r: bool)
        ensures
            r == self.expand_any_flag(),
    {
        self.expand_any
    }

    pub(crate) fn any_depth_left(&self) -> (r: u32)
        ensures
            r == self.any_depth_flag(),
    {
        self.any_depth
    }

    /// The same settings, expanding `depth` more nested `Any` payloads.
    pub(crate) fn with_any_depth(&self, depth: u32) -> (r: FormatOptions)
        ensures
            r.pretty_flag() == self.pretty_flag(),
            r.skip_unknown_fields_flag() == self.skip_unknown_fields_flag(),
            r.expand_any_flag() == self.expand_any_flag(),
            r.skip_default_fields_flag() == self.skip_default_fields_flag(),
            r.print_message_fields_in_index_order_flag() == self.print_message_fields_in_index_order_flag(),
            r.any_depth_flag() == depth,
    {
        FormatOptions { any_depth: depth, ..*self }
    }

    /// The `pretty` setting.
    pub closed spec fn pretty_flag(self) -> bool {
        self.pretty
    }

    /// The `skip_unknown_fields` setting.
    pub closed spec fn skip_unknown_fields_flag(self) -> bool {
        self.skip_unknown_fields
    }

    /// The `expand_any` setting.
    pub closed spec fn expand_any_flag(self) -> bool {
        self.expand_any
    }

    /// The `skip_default_fields` setting.
    pub closed spec fn skip_default_fields_flag(self) -> bool {
        self.skip_default_fields
    }

    /// The `print_message_fields_in_index_order` setting.
    pub closed spec fn print_message_fields_in_index_order_flag(self) -> bool {
        self.print_message_fields_in_index_order
    }

    pub(crate) fn is_pretty(&self) -> (r: bool)
        ensures
            r == self.pretty_flag(),
    {
        self.pretty
    }

    pub(crate) fn skips_unknown(&self) -> (r: bool)
        ensures
            r == self.skip_unknown_fields_flag(),
    {
        self.skip_unknown_fields
    }

    pub(crate) fn skips_defaults(&self) -> (r: bool)
        ensures
            r == self.skip_default_fields_flag(),
    {
        self.skip_default_fields
    }

    pub(crate) fn in_index_order(&self) -> (r: bool)
        ensures
            r == self.print_message_fields_in_index_order_flag(),
    {
        self.print_message_fields_in_index_order
    }

    /// The default settings.
    pub fn new() -> (r: FormatOptions)
        ensures
            r.pretty_flag() == false,
            r.skip_unknown_fields_flag() == false,
            r.expand_any_flag() == true,
            r.skip_default_fields_flag() == false,
            r.print_message_fields_in_index_order_flag() == false,
            r.any_depth_flag() == ANY_EXPANSION_DEPTH,
    {
        FormatOptions {
            pretty: false,
            skip_unknown_fields: false,
            expand_any: true,
            skip_default_fields: false,
            print_message_fields_in_index_order: false,
            any_depth: ANY_EXPANSION_DEPTH,
        }
    }

    /// One field per line, indented, instead of a single line.
    pub fn pretty(self, yes: bool) -> (r: FormatOptions)
        ensures
            r.any_depth_flag() == self.any_depth_flag(),
            r.pretty_flag() == yes,
            r.skip_unknown_fields_flag() == self.skip_unknown_fields_flag(),
            r.expand_any_flag() == self.expand_any_flag(),
            r.skip_default_fields_flag() == self.skip_default_fields_flag(),
            r.print_message_fields_in_index_order_flag() == self.print_message_fields_in_index_order_flag(),
    {
        FormatOptions { pretty: yes, ..self }
    }

    /// Leave out unknown fields.
    pub fn skip_unknown_fields(self, yes: bool) -> (r: FormatOptions)
        ensures
            r.any_depth_flag() == self.any_depth_flag(),
            r.pretty_flag() == self.pretty_flag(),
            r.skip_unknown_fields_flag() == yes,
            r.expand_any_flag() == self.expand_any_flag(),
            r.skip_default_fields_flag() == self.skip_default_fields_flag(),
            r.print_message_fields_in_index_order_flag() == self.print_message_fields_in_index_order_flag(),
    {
        FormatOptions { skip_unknown_fields: yes, ..self }
    }

    /// Expand `google.protobuf.Any` payloads.
    pub fn expand_any(self, yes: bool) -> (r: FormatOptions)
        ensures
            r.any_depth_flag() == self.any_depth_flag(),
            r.pretty_flag() == self.pretty_flag(),
            r.skip_unknown_fields_flag() == self.skip_unknown_fields_flag(),
            r.expand_any_flag() == yes,
            r.skip_default_fields_flag() == self.skip_default_fields_flag(),
            r.print_message_fields_in_index_order_flag() == self.print_message_fields_in_index_order_flag(),
    {
        FormatOptions { expand_any: yes, ..self }
    }

    /// Leave out fields that hold their default value.
    pub fn skip_default_fields(self, yes: bool) -> (r: FormatOptions)
        ensures
            r.any_depth_flag() == self.any_depth_flag(),
            r.pretty_flag() == self.pretty_flag(),
            r.skip_unknown_fields_flag() == self.skip_unknown_fields_flag(),
            r.expand_any_flag() == self.expand_any_flag(),
            r.skip_default_fields_flag() == yes,
            r.print_message_fields_in_index_order_flag() == self.print_message_fields_in_index_order_flag(),
    {
        FormatOptions { skip_default_fields: yes, ..self }
    }

    /// Print fields in declaration order instead of number order.
    pub fn print_message_fields_in_index_order(self, yes: bool) -> (r: FormatOptions)
        ensures
            r.any_depth_flag() == self.any_depth_flag(),
            r.pretty_flag() == self.pretty_flag(),
            r.skip_unknown_fields_flag() == self.skip_unknown_fields_flag(),
            r.expand_any_flag() == self.expand_any_flag(),
            r.skip_default_fields_flag() == self.skip_default_fields_flag(),
            r.print_message_fields_in_index_order_flag() == yes,
    {
        FormatOptions { print_message_fields_in_index_order: yes, ..self }
    }

}

/// Limits for decoding wire bytes.
#[derive(Clone, Copy, Debug)]
pub struct DecodeOptions {
    recursion_limit: u32,
    max_message_size: usize,
}

impl DecodeOptions {
    pub closed spec fn recursion_limit_value(self) -> u32 {
        self.recursion_limit
    }

    pub closed spec fn max_message_size_value(self) -> usize {
        self.max_message_size
    }

    /// Nesting of 100 and messages of up to `0x7FFF_FFFF` bytes.
    pub fn new() -> (r: DecodeOptions)
        ensures
            r.recursion_limit_value() == 100,
            r.max_message_size_value() == 0x7FFF_FFFF,
    {
        DecodeOptions { recursion_limit: 100, max_message_size: 0x7FFF_FFFF }
    }

    /// Allow sub-messages and groups to nest `limit` deep.
    pub fn with_recursion_limit(self, limit: u32) -> (r: DecodeOptions)
        ensures
            r.recursion_limit_value() == limit,
            r.max_message_size_value() == self.max_message_size_value(),
    {
        DecodeOptions { recursion_limit: limit, ..self }
    }

    /// Refuse inputs longer than `max_bytes`.
    pub fn with_max_message_size(self, max_bytes: usize) -> (r: DecodeOptions)
        ensures
            r.max_message_size_value() == max_bytes,
            r.recursion_limit_value() == self.recursion_limit_value(),
    {
        DecodeOptions { max_message_size: max_bytes, ..self }
    }

    /// The nesting limit.
    pub fn recursion_limit(&self) -> (r: u32)
        ensures
            r == self.recursion_limit_value(),
    {
        self.recursion_limit
    }

    /// The size limit in bytes.
    pub fn max_message_size(&self) -> (r: usize)
        ensures
            r == self.max_message_size_value(),
    {
        self.max_message_size
    }
}

impl Default for DecodeOptions {
    /// The same limits as [`DecodeOptions::new`].
    fn default() -> (r: DecodeOptions)
        ensures
            r.recursion_limit_value() == 100,
            r.max_message_size_value() == 0x7FFF_FFFF,
    {
        DecodeOptions::new()
    }
}

impl Default for SerializeOptions {
    /// The same settings as [`SerializeOptions::new`].
    fn default() -> (r: SerializeOptions)
        ensures
            r.stringify_64_bit_integers_flag() == true,
            r.use_enum_numbers_flag() == false,
            r.use_proto_field_name_flag() == false,
            r.skip_default_fields_flag() == true,
    {
        SerializeOptions::new()
    }
}

impl Default for DeserializeOptions {
    /// The same settings as [`DeserializeOptions::new`].
    fn default() -> (r: DeserializeOptions)
        ensures
            r.deny_unknown_fields_flag() == false,
    {
        DeserializeOptions::new()
    }
}

impl Default for FormatOptions {
    /// The same settings as [`FormatOptions::new`].
    fn default() -> (r: FormatOptions)
        ensures
            r.pretty_flag() == false,
            r.skip_unknown_fields_flag() == false,
            r.expand_any_flag() == true,
            r.skip_default_fields_flag() == false,
            r.print_message_fields_in_index_order_flag() == false,
            r.any_depth_flag() == ANY_EXPANSION_DEPTH,
    {
        FormatOptions::new()
    }
}

} // verus!
