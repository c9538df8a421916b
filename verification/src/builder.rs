//! Build-script configuration for generating reflection-enabled code.
//!
//! [`Builder`] collects the configuration; [`Builder::check_bindings`]
//! decides whether it can be compiled; the descriptor tooling and file
//! system work live with the caller.

use vstd::prelude::*;

use crate::descriptor::{DescriptorProto, FileDescriptorSet};
use crate::text::{join, spec_join};
use vstd::utf8::encode_utf8;

verus! {

/// Where the file descriptor set comes from.
pub enum DescriptorSource {
    /// Run `protoc` (the default).
    Protoc,
    /// Run `buf build`.
    Buf,
    /// Copy a prebuilt descriptor set from this path.
    Precompiled(String),
}

/// Model of a descriptor source.
pub enum SourceModel {
    Protoc,
    Buf,
    Precompiled(Seq<char>),
}

impl DescriptorSource {
    pub open spec fn model(&self) -> SourceModel {
        match self {
            DescriptorSource::Protoc => SourceModel::Protoc,
            DescriptorSource::Buf => SourceModel::Buf,
            DescriptorSource::Precompiled(p) => SourceModel::Precompiled(p@),
        }
    }
}

/// Characters of each string.
pub open spec fn strings_model(s: Seq<String>) -> Seq<Seq<char>> {
    s.map_values(|x: String| x@)
}

/// Characters of each string pair.
pub open spec fn pairs_model(s: Seq<(String, String)>) -> Seq<(Seq<char>, Seq<char>)> {
    s.map_values(|x: (String, String)| (x.0@, x.1@))
}

/// Build-script configuration.
pub struct Builder {
    pub descriptor_source: DescriptorSource,
    pub files: Vec<String>,
    pub includes: Vec<String>,
    pub out_dir: Option<String>,
    pub file_descriptor_set_path: Option<String>,
    pub descriptor_pool_expr: Option<String>,
    pub file_descriptor_set_bytes_expr: Option<String>,
    pub include_file: Option<String>,
    pub type_attributes: Vec<(String, String)>,
    pub field_attributes: Vec<(String, String)>,
    pub message_attributes: Vec<(String, String)>,
    pub enum_attributes: Vec<(String, String)>,
    pub extern_paths: Vec<(String, String)>,
    pub bytes_paths: Vec<String>,
    pub generate_views: Option<bool>,
    pub generate_json: Option<bool>,
    pub generate_text: Option<bool>,
    pub generate_arbitrary: Option<bool>,
    pub preserve_unknown_fields: Option<bool>,
    pub strict_utf8_mapping: Option<bool>,
    pub allow_message_set: Option<bool>,
}

/// Model of a [`Builder`].
pub struct BuilderModel {
    pub descriptor_source: SourceModel,
    pub files: Seq<Seq<char>>,
    pub includes: Seq<Seq<char>>,
    pub out_dir: Option<Seq<char>>,
    pub file_descriptor_set_path: Option<Seq<char>>,
    pub descriptor_pool_expr: Option<Seq<char>>,
    pub file_descriptor_set_bytes_expr: Option<Seq<char>>,
    pub include_file: Option<Seq<char>>,
    pub type_attributes: Seq<(Seq<char>, Seq<char>)>,
    pub field_attributes: Seq<(Seq<char>, Seq<char>)>,
    pub message_attributes: Seq<(Seq<char>, Seq<char>)>,
    pub enum_attributes: Seq<(Seq<char>, Seq<char>)>,
    pub extern_paths: Seq<(Seq<char>, Seq<char>)>,
    pub bytes_paths: Seq<Seq<char>>,
    pub generate_views: Option<bool>,
    pub generate_json: Option<bool>,
    pub generate_text: Option<bool>,
    pub generate_arbitrary: Option<bool>,
    pub preserve_unknown_fields: Option<bool>,
    pub strict_utf8_mapping: Option<bool>,
    pub allow_message_set: Option<bool>,
}

/// Why a build configuration cannot be compiled.
pub enum Error {
    /// Neither `descriptor_pool` nor `file_descriptor_set_bytes` was set.
    MissingDescriptorBinding,
    /// Both bindings were set.
    ConflictingDescriptorBindings,
    /// No output directory was configured or given by the environment.
    MissingOutDir,
    /// The descriptor tool could not be started.
    DescriptorTool { tool: String, message: String },
    /// The descriptor tool failed.
    DescriptorToolFailed { tool: String, status: String, stderr: String },
    /// The descriptor set could not be decoded.
    DecodeFileDescriptorSet(String),
    /// `includes` cannot be combined with `use_buf`.
    BufWithIncludes,
    /// Code generation failed.
    BuffaBuild(String),
    /// A file-system operation failed.
    Io(String),
}

impl Builder {
    pub closed spec fn model(&self) -> BuilderModel {
        BuilderModel {
            descriptor_source: self.descriptor_source.model(),
            files: strings_model(self.files@),
            includes: strings_model(self.includes@),
            out_dir: match &self.out_dir { Some(s) => Some(s@), None => None },
            file_descriptor_set_path: match &self.file_descriptor_set_path { Some(s) => Some(s@), None => None },
            descriptor_pool_expr: match &self.descriptor_pool_expr { Some(s) => Some(s@), None => None },
            file_descriptor_set_bytes_expr: match &self.file_descriptor_set_bytes_expr { Some(s) => Some(s@), None => None },
            include_file: match &self.include_file { Some(s) => Some(s@), None => None },
            type_attributes: pairs_model(self.type_attributes@),
            field_attributes: pairs_model(self.field_attributes@),
            message_attributes: pairs_model(self.message_attributes@),
            enum_attributes: pairs_model(self.enum_attributes@),
            extern_paths: pairs_model(self.extern_paths@),
            bytes_paths: strings_model(self.bytes_paths@),
            generate_views: self.generate_views,
            generate_json: self.generate_json,
            generate_text: self.generate_text,
            generate_arbitrary: self.generate_arbitrary,
            preserve_unknown_fields: self.preserve_unknown_fields,
            strict_utf8_mapping: self.strict_utf8_mapping,
            allow_message_set: self.allow_message_set,
        }
    }

    /// An empty configuration.
    pub fn new() -> (r: Builder)
        ensures
            r.model() == (BuilderModel {
                descriptor_source: SourceModel::Protoc,
                files: seq![],
                includes: seq![],
                out_dir: None,
                file_descriptor_set_path: None,
                descriptor_pool_expr: None,
                file_descriptor_set_bytes_expr: None,
                include_file: None,
                type_attributes: seq![],
                field_attributes: seq![],
                message_attributes: seq![],
                enum_attributes: seq![],
                extern_paths: seq![],
                bytes_paths: seq![],
                generate_views: None,
                generate_json: None,
                generate_text: None,
                generate_arbitrary: None,
                preserve_unknown_fields: None,
                strict_utf8_mapping: None,
                allow_message_set: None,
            }),
    {
        let r = Builder {
            descriptor_source: DescriptorSource::Protoc,
            files: Vec::new(),
            includes: Vec::new(),
            out_dir: None,
            file_descriptor_set_path: None,
            descriptor_pool_expr: None,
            file_descriptor_set_bytes_expr: None,
            include_file: None,
            type_attributes: Vec::new(),
            field_attributes: Vec::new(),
            message_attributes: Vec::new(),
            enum_attributes: Vec::new(),
            extern_paths: Vec::new(),
            bytes_paths: Vec::new(),
            generate_views: None,
            generate_json: None,
            generate_text: None,
            generate_arbitrary: None,
            preserve_unknown_fields: None,
            strict_utf8_mapping: None,
            allow_message_set: None,
        };
        proof {
            assert(strings_model(r.files@) =~= seq![]);
            assert(strings_model(r.includes@) =~= seq![]);
            assert(strings_model(r.bytes_paths@) =~= seq![]);
            assert(pairs_model(r.type_attributes@) =~= seq![]);
            assert(pairs_model(r.field_attributes@) =~= seq![]);
            assert(pairs_model(r.message_attributes@) =~= seq![]);
            assert(pairs_model(r.enum_attributes@) =~= seq![]);
            assert(pairs_model(r.extern_paths@) =~= seq![]);
        }
        r
    }

    /// Bind generated code to a `DescriptorPool` expression.
    pub fn descriptor_pool(self, value: &str) -> (r: Builder)
        ensures
            r.model() == (BuilderModel { descriptor_pool_expr: Some(value@), ..self.model() }),
    {
        Builder { descriptor_pool_expr: Some(value.to_owned()), ..self }
    }

    /// Bind generated code to an expression yielding the encoded descriptor set.
    pub fn file_descriptor_set_bytes(self, value: &str) -> (r: Builder)
        ensures
            r.model() == (BuilderModel { file_descriptor_set_bytes_expr: Some(value@), ..self.model() }),
    {
        Builder { file_descriptor_set_bytes_expr: Some(value.to_owned()), ..self }
    }

    /// Where to write the descriptor set.
    pub fn file_descriptor_set_path(self, value: &str) -> (r: Builder)
        ensures
            r.model() == (BuilderModel { file_descriptor_set_path: Some(value@), ..self.model() }),
    {
        Builder { file_descriptor_set_path: Some(value.to_owned()), ..self }
    }

    /// The output directory.
    pub fn out_dir(self, value: &str) -> (r: Builder)
        ensures
            r.model() == (BuilderModel { out_dir: Some(value@), ..self.model() }),
    {
        Builder { out_dir: Some(value.to_owned()), ..self }
    }

    /// Name of the generated include file.
    pub fn include_file(self, value: &str) -> (r: Builder)
        ensures
            r.model() == (BuilderModel { include_file: Some(value@), ..self.model() }),
    {
        Builder { include_file: Some(value.to_owned()), ..self }
    }

    /// Add `.proto` files to compile.
    pub fn files(self, items: &[&str]) -> (r: Builder)
        ensures
            r.model() == (BuilderModel {
                files: self.model().files + items@.map_values(|x: &str| x@),
                ..self.model()
            }),
    {
        let mut b = self;
        let ghost start = b.files@;
        let mut i: usize = 0;
        while i < items.len()
            invariant
                i <= items@.len(),
                strings_model(b.files@) == strings_model(start) + items@.take(i as int).map_values(|x: &str| x@),
                b.model() == (BuilderModel { files: strings_model(b.files@), ..self.model() }),
                start == self.files@,
            decreases items@.len() - i,
        {
            let ghost before = b.files@;
            b.files.push(items[i].to_owned());
            i = i + 1;
            proof {
                assert(strings_model(b.files@) =~= strings_model(before).push(items@[i - 1]@));
                assert(items@.take(i as int).map_values(|x: &str| x@) =~= items@.take(i - 1).map_values(|x: &str| x@).push(items@[i - 1]@));
                assert(strings_model(b.files@) =~= strings_model(start) + items@.take(i as int).map_values(|x: &str| x@));
            }
        }
        assert(items@.take(items@.len() as int) =~= items@);
        b
    }

    /// Add import search directories.
    pub fn includes(self, items: &[&str]) -> (r: Builder)
        ensures
            r.model() == (BuilderModel {
                includes: self.model().includes + items@.map_values(|x: &str| x@),
                ..self.model()
            }),
    {
        let mut b = self;
        let ghost start = b.includes@;
        let mut i: usize = 0;
        while i < items.len()
            invariant
                i <= items@.len(),
                strings_model(b.includes@) == strings_model(start) + items@.take(i as int).map_values(|x: &str| x@),
                b.model() == (BuilderModel { includes: strings_model(b.includes@), ..self.model() }),
                start == self.includes@,
            decreases items@.len() - i,
        {
            let ghost before = b.includes@;
            b.includes.push(items[i].to_owned());
            i = i + 1;
            proof {
                assert(strings_model(b.includes@) =~= strings_model(before).push(items@[i - 1]@));
                assert(items@.take(i as int).map_values(|x: &str| x@) =~= items@.take(i - 1).map_values(|x: &str| x@).push(items@[i - 1]@));
                assert(strings_model(b.includes@) =~= strings_model(start) + items@.take(i as int).map_values(|x: &str| x@));
            }
        }
        assert(items@.take(items@.len() as int) =~= items@);
        b
    }

    /// Use the bytes type for the given proto paths.
    pub fn use_bytes_type_in(self, items: &[&str]) -> (r: Builder)
        ensures
            r.model() == (BuilderModel {
                bytes_paths: self.model().bytes_paths + items@.map_values(|x: &str| x@),
                ..self.model()
            }),
    {
        let mut b = self;
        let ghost start = b.bytes_paths@;
        let mut i: usize = 0;
        while i < items.len()
            invariant
                i <= items@.len(),
                strings_model(b.bytes_paths@) == strings_model(start) + items@.take(i as int).map_values(|x: &str| x@),
                b.model() == (BuilderModel { bytes_paths: strings_model(b.bytes_paths@), ..self.model() }),
                start == self.bytes_paths@,
            decreases items@.len() - i,
        {
            let ghost before = b.bytes_paths@;
            b.bytes_paths.push(items[i].to_owned());
            i = i + 1;
            proof {
                assert(strings_model(b.bytes_paths@) =~= strings_model(before).push(items@[i - 1]@));
                assert(items@.take(i as int).map_values(|x: &str| x@) =~= items@.take(i - 1).map_values(|x: &str| x@).push(items@[i - 1]@));
                assert(strings_model(b.bytes_paths@) =~= strings_model(start) + items@.take(i as int).map_values(|x: &str| x@));
            }
        }
        assert(items@.take(items@.len() as int) =~= items@);
        b
    }

    /// Take the descriptor set from `buf build`.
    pub fn use_buf(self) -> (r: Builder)
        ensures
            r.model() == (BuilderModel { descriptor_source: SourceModel::Buf, ..self.model() }),
    {
        Builder { descriptor_source: DescriptorSource::Buf, ..self }
    }

    /// Take a prebuilt descriptor set from `path`.
    pub fn descriptor_set(self, path: &str) -> (r: Builder)
        ensures
            r.model() == (BuilderModel {
                descriptor_source: SourceModel::Precompiled(path@),
                ..self.model()
            }),
    {
        Builder { descriptor_source: DescriptorSource::Precompiled(path.to_owned()), ..self }
    }

    /// Add an attribute to generated types matching `path`.
    pub fn type_attribute(self, path: &str, attr: &str) -> (r: Builder)
        ensures
            r.model() == (BuilderModel {
                type_attributes: self.model().type_attributes.push((path@, attr@)),
                ..self.model()
            }),
    {
        let mut b = self;
        let ghost before = b.type_attributes@;
        b.type_attributes.push((path.to_owned(), attr.to_owned()));
        proof {
            assert(pairs_model(b.type_attributes@) =~= pairs_model(before).push((path@, attr@)));
        }
        b
    }

    /// Add an attribute to generated fields matching `path`.
    pub fn field_attribute(self, path: &str, attr: &str) -> (r: Builder)
        ensures
            r.model() == (BuilderModel {
                field_attributes: self.model().field_attributes.push((path@, attr@)),
                ..self.model()
            }),
    {
        let mut b = self;
        let ghost before = b.field_attributes@;
        b.field_attributes.push((path.to_owned(), attr.to_owned()));
        proof {
            assert(pairs_model(b.field_attributes@) =~= pairs_model(before).push((path@, attr@)));
        }
        b
    }

    /// Add an attribute to generated messages matching `path`.
    pub fn message_attribute(self, path: &str, attr: &str) -> (r: Builder)
        ensures
            r.model() == (BuilderModel {
                message_attributes: self.model().message_attributes.push((path@, attr@)),
                ..self.model()
            }),
    {
        let mut b = self;
        let ghost before = b.message_attributes@;
        b.message_attributes.push((path.to_owned(), attr.to_owned()));
        proof {
            assert(pairs_model(b.message_attributes@) =~= pairs_model(before).push((path@, attr@)));
        }
        b
    }

    /// Add an attribute to generated enums matching `path`.
    pub fn enum_attribute(self, path: &str, attr: &str) -> (r: Builder)
        ensures
            r.model() == (BuilderModel {
                enum_attributes: self.model().enum_attributes.push((path@, attr@)),
                ..self.model()
            }),
    {
        let mut b = self;
        let ghost before = b.enum_attributes@;
        b.enum_attributes.push((path.to_owned(), attr.to_owned()));
        proof {
            assert(pairs_model(b.enum_attributes@) =~= pairs_model(before).push((path@, attr@)));
        }
        b
    }

    /// Map a proto path to an existing Rust path.
    pub fn extern_path(self, path: &str, attr: &str) -> (r: Builder)
        ensures
            r.model() == (BuilderModel {
                extern_paths: self.model().extern_paths.push((path@, attr@)),
                ..self.model()
            }),
    {
        let mut b = self;
        let ghost before = b.extern_paths@;
        b.extern_paths.push((path.to_owned(), attr.to_owned()));
        proof {
            assert(pairs_model(b.extern_paths@) =~= pairs_model(before).push((path@, attr@)));
        }
        b
    }

    /// Generate borrowed view types.
    pub fn generate_views(self, enabled: bool) -> (r: Builder)
        ensures
            r.model() == (BuilderModel { generate_views: Some(enabled), ..self.model() }),
    {
        Builder { generate_views: Some(enabled), ..self }
    }

    /// Generate JSON support.
    pub fn generate_json(self, enabled: bool) -> (r: Builder)
        ensures
            r.model() == (BuilderModel { generate_json: Some(enabled), ..self.model() }),
    {
        Builder { generate_json: Some(enabled), ..self }
    }

    /// Generate textproto support.
    pub fn generate_text(self, enabled: bool) -> (r: Builder)
        ensures
            r.model() == (BuilderModel { generate_text: Some(enabled), ..self.model() }),
    {
        Builder { generate_text: Some(enabled), ..self }
    }

    /// Generate `arbitrary` support.
    pub fn generate_arbitrary(self, enabled: bool) -> (r: Builder)
        ensures
            r.model() == (BuilderModel { generate_arbitrary: Some(enabled), ..self.model() }),
    {
        Builder { generate_arbitrary: Some(enabled), ..self }
    }

    /// Keep unknown fields in generated types.
    pub fn preserve_unknown_fields(self, enabled: bool) -> (r: Builder)
        ensures
            r.model() == (BuilderModel { preserve_unknown_fields: Some(enabled), ..self.model() }),
    {
        Builder { preserve_unknown_fields: Some(enabled), ..self }
    }

    /// Map proto `string` strictly to UTF-8 strings.
    pub fn strict_utf8_mapping(self, enabled: bool) -> (r: Builder)
        ensures
            r.model() == (BuilderModel { strict_utf8_mapping: Some(enabled), ..self.model() }),
    {
        Builder { strict_utf8_mapping: Some(enabled), ..self }
    }

    /// Allow the MessageSet wire format.
    pub fn allow_message_set(self, enabled: bool) -> (r: Builder)
        ensures
            r.model() == (BuilderModel { allow_message_set: Some(enabled), ..self.model() }),
    {
        Builder { allow_message_set: Some(enabled), ..self }
    }

    /// The configuration checks compilation makes before any tool runs:
    /// exactly one descriptor binding, and no include directories with
    /// `buf`.
    pub fn check_bindings(&self) -> (r: Result<(), Error>)
        ensures
            (self.model().descriptor_pool_expr is None && self.model().file_descriptor_set_bytes_expr
                is None) <==> (r matches Err(Error::MissingDescriptorBinding)),
            (self.model().descriptor_pool_expr is Some && self.model().file_descriptor_set_bytes_expr
                is Some) <==> (r matches Err(Error::ConflictingDescriptorBindings)),
            r matches Err(Error::BufWithIncludes) <==> ((self.model().descriptor_pool_expr is Some)
                != (self.model().file_descriptor_set_bytes_expr is Some)
                && self.model().descriptor_source == SourceModel::Buf
                && self.model().includes.len() > 0),
            r is Ok || r matches Err(Error::MissingDescriptorBinding) || r matches Err(
                Error::ConflictingDescriptorBindings,
            ) || r matches Err(Error::BufWithIncludes),
    {
        match (self.descriptor_pool_expr.is_some(), self.file_descriptor_set_bytes_expr.is_some()) {
            (false, false) => {
                return Err(Error::MissingDescriptorBinding);
            },
            (true, true) => {
                return Err(Error::ConflictingDescriptorBindings);
            },
            _ => {},
        }
        let is_buf = match self.descriptor_source {
            DescriptorSource::Buf => true,
            _ => false,
        };
        if is_buf && self.includes.len() > 0 {
            return Err(Error::BufWithIncludes);
        }
        Ok(())
    }
}


// ── message names ───────────────────────────────────────────────────────

/// Full names of a message and its nested messages, depth first; a
/// message without a name contributes nothing, nor do its children.
pub open spec fn message_names(m: DescriptorProto, scope: Seq<char>) -> Seq<Seq<char>>
    decreases m, 1int,
{
    match m.name {
        None => seq![],
        Some(n) => {
            let full = spec_join(scope, n@);
            seq![full] + nested_names(m.nested_type@, full)
        },
    }
}

/// Full names of a sequence of sibling messages declared in `scope`.
pub open spec fn nested_names(ms: Seq<DescriptorProto>, scope: Seq<char>) -> Seq<Seq<char>>
    decreases ms, 0int,
{
    if ms.len() == 0 {
        seq![]
    } else {
        message_names(ms[0], scope) + nested_names(ms.subrange(1, ms.len() as int), scope)
    }
}

/// Full names of every message of every file, in declaration order.
pub open spec fn set_names(files: Seq<crate::descriptor::FileDescriptorProto>) -> Seq<Seq<char>>
    decreases files.len(),
{
    if files.len() == 0 {
        seq![]
    } else {
        let pkg = match files[0].package {
            Some(p) => p@,
            None => seq![],
        };
        nested_names(files[0].message_type@, pkg) + set_names(files.subrange(1, files.len() as int))
    }
}

fn push_message_names(m: &DescriptorProto, scope: &str, out: &mut Vec<String>)
    ensures
        strings_model(final(out)@) == strings_model(old(out)@) + message_names(*m, scope@),
    decreases m, 1int,
{
    match &m.name {
        None => {
            assert(strings_model(final(out)@) =~= strings_model(old(out)@) + message_names(*m, scope@));
        },
        Some(n) => {
            let full = join(scope, n.as_str());
            let ghost before = out@;
            out.push(full.clone());
            proof {
                assert(strings_model(out@) =~= strings_model(before).push(full@));
                assert(decreases_to!(*m => m.nested_type));
            }
            push_nested_names(&m.nested_type, 0, full.as_str(), out);
            proof {
                assert(m.nested_type@.subrange(0, m.nested_type@.len() as int) =~= m.nested_type@);
                assert(strings_model(final(out)@) =~= strings_model(old(out)@) + message_names(
                    *m,
                    scope@,
                ));
            }
        },
    }
}

fn push_nested_names(ms: &Vec<DescriptorProto>, i: usize, scope: &str, out: &mut Vec<String>)
    requires
        i <= ms@.len(),
    ensures
        strings_model(final(out)@) == strings_model(old(out)@) + nested_names(
            ms@.subrange(i as int, ms@.len() as int),
            scope@,
        ),
    decreases ms, ms@.len() - i,
{
    let ghost t = ms@.subrange(i as int, ms@.len() as int);
    if i == ms.len() {
        assert(t.len() == 0);
        assert(strings_model(final(out)@) =~= strings_model(old(out)@) + nested_names(t, scope@));
        return;
    }
    proof {
        assert(decreases_to!(*ms => ms@));
        assert(decreases_to!(ms@ => ms@[i as int]));
        assert(t[0] == ms@[i as int]);
        assert(t.subrange(1, t.len() as int) =~= ms@.subrange(i + 1, ms@.len() as int));
    }
    push_message_names(&ms[i], scope, out);
    push_nested_names(ms, i + 1, scope, out);
    assert(strings_model(final(out)@) =~= strings_model(old(out)@) + nested_names(t, scope@));
}

/// The full name of every message declared in `fds`, nested ones
/// included, depth first in declaration order.
pub fn collect_message_full_names(fds: &FileDescriptorSet) -> (r: Vec<String>)
    ensures
        strings_model(r@) == set_names(fds.file@),
{
    let mut out: Vec<String> = Vec::new();
    let mut i: usize = 0;
    proof {
        assert(strings_model(out@) =~= seq![]);
        assert(fds.file@.subrange(0, fds.file@.len() as int) =~= fds.file@);
        assert(seq![] + set_names(fds.file@) =~= set_names(fds.file@));
    }
    while i < fds.file.len()
        invariant
            i <= fds.file@.len(),
            set_names(fds.file@) == strings_model(out@) + set_names(
                fds.file@.subrange(i as int, fds.file@.len() as int),
            ),
        decreases fds.file@.len() - i,
    {
        proof {
            let t = fds.file@.subrange(i as int, fds.file@.len() as int);
            assert(t.subrange(1, t.len() as int) =~= fds.file@.subrange(i + 1, fds.file@.len() as int));
            assert(t[0] == fds.file@[i as int]);
        }
        let file = &fds.file[i];
        let pkg = match &file.package {
            Some(p) => p.clone(),
            None => String::new(),
        };
        let ghost before = out@;
        push_nested_names(&file.message_type, 0, pkg.as_str(), &mut out);
        proof {
            assert(file.message_type@.subrange(0, file.message_type@.len() as int)
                =~= file.message_type@);
        }
        i = i + 1;
    }
    proof {
        assert(fds.file@.subrange(fds.file@.len() as int, fds.file@.len() as int) =~= seq![]);
        assert(strings_model(out@) + seq![] =~= strings_model(out@));
    }
    out
}


// ── what compilation hands the code generator ───────────────────────────

/// The attribute that binds generated messages to their descriptors.
pub open spec fn binding_attr(m: BuilderModel) -> Option<Seq<char>> {
    match m.descriptor_pool_expr {
        Some(e) => Some("#[buffa_reflect(descriptor_pool = \""@ + e + "\")]"@),
        None => match m.file_descriptor_set_bytes_expr {
            Some(e) => Some("#[buffa_reflect(file_descriptor_set_bytes = \""@ + e + "\")]"@),
            None => None,
        },
    }
}

/// The per-message attributes for messages named `names`.
pub open spec fn name_attrs(names: Seq<Seq<char>>) -> Seq<(Seq<char>, Seq<char>)> {
    Seq::new(
        names.len(),
        |i: int| (seq!['.'] + names[i], "#[buffa_reflect(message_name = \""@ + names[i] + "\")]"@),
    )
}

impl Builder {
    /// The message attributes compilation adds: the reflection derive and
    /// the descriptor binding on every message (path `.`), then one
    /// attribute per message in `full_names` naming it; `None` when no
    /// binding is configured.
    pub fn reflection_attributes(&self, full_names: &Vec<String>) -> (r: Option<Vec<(String, String)>>)
        ensures
            binding_attr(self.model()) is None <==> r is None,
            r matches Some(v) ==> pairs_model(v@) == seq![
                (seq!['.'], "#[derive(::buffa_reflect::ReflectMessage)]"@),
                (seq!['.'], binding_attr(self.model())->0),
            ] + name_attrs(strings_model(full_names@)),
    {
        proof {
            reveal_strlit(".");
        }
        let binding = match &self.descriptor_pool_expr {
            Some(e) => {
                let mut a = "#[buffa_reflect(descriptor_pool = \"".to_owned();
                a.push_str(e.as_str());
                a.push_str("\")]");
                a
            },
            None => match &self.file_descriptor_set_bytes_expr {
                Some(e) => {
                    let mut a = "#[buffa_reflect(file_descriptor_set_bytes = \"".to_owned();
                    a.push_str(e.as_str());
                    a.push_str("\")]");
                    a
                },
                None => {
                    return None;
                },
            },
        };
        assert(binding@ == binding_attr(self.model())->0);
        let dot = ".".to_owned();
        assert(dot@ == seq!['.']);
        let derive = "#[derive(::buffa_reflect::ReflectMessage)]".to_owned();
        assert(derive@ == "#[derive(::buffa_reflect::ReflectMessage)]"@);
        let mut out: Vec<(String, String)> = Vec::new();
        out.push((dot, derive));
        out.push((".".to_owned(), binding));
        let ghost head = pairs_model(out@);
        assert(head =~= seq![
            (seq!['.'], "#[derive(::buffa_reflect::ReflectMessage)]"@),
            (seq!['.'], binding_attr(self.model())->0),
        ]);
        let mut i: usize = 0;
        while i < full_names.len()
            invariant
                i <= full_names@.len(),
                out@.len() == 2 + i,
                pairs_model(out@) == head + name_attrs(strings_model(full_names@)).take(i as int),
                head.len() == 2,
            decreases full_names@.len() - i,
        {
            proof {
                reveal_strlit(".");
            }
            let mut path = ".".to_owned();
            path.push_str(full_names[i].as_str());
            assert(strings_model(full_names@)[i as int] == full_names@[i as int]@);
            let mut attr = "#[buffa_reflect(message_name = \"".to_owned();
            attr.push_str(full_names[i].as_str());
            attr.push_str("\")]");
            let ghost before = pairs_model(out@);
            out.push((path, attr));
            proof {
                assert(pairs_model(out@) =~= before.push((path@, attr@)));
                assert(path@ =~= seq!['.'] + full_names@[i as int]@);
                assert(name_attrs(strings_model(full_names@))[i as int] == (path@, attr@));
                assert(name_attrs(strings_model(full_names@)).take(i + 1) =~= name_attrs(
                    strings_model(full_names@),
                ).take(i as int).push((path@, attr@)));
            }
            i = i + 1;
        }
        proof {
            assert(name_attrs(strings_model(full_names@)).take(full_names@.len() as int) =~= name_attrs(
                strings_model(full_names@),
            ));
        }
        Some(out)
    }
}

/// What `Path::strip_prefix` leaves of path `file` after the leading
/// components that make up `prefix` (`None` when they do not).
pub uninterp spec fn path_strip_prefix(file: Seq<char>, prefix: Seq<char>) -> Option<Seq<char>>;

/// `Path::new(file).strip_prefix(prefix)`, as a string.
#[verifier::external_body]
fn strip_path_prefix(file: &str, prefix: &str) -> (r: Option<String>)
    ensures
        match r {
            Some(s) => path_strip_prefix(file@, prefix@) == Some(s@),
            None => path_strip_prefix(file@, prefix@) is None,
        },
{
    std::path::Path::new(file).strip_prefix(prefix).ok().map(|p| p.to_string_lossy().into_owned())
}

/// Among `includes[0..k]`, the remainder of `file` under the include that
/// leaves the shortest one (the first such), if any include is a prefix.
pub open spec fn best_relative(file: Seq<char>, includes: Seq<Seq<char>>, k: nat) -> Option<Seq<char>>
    decreases k,
{
    if k == 0 || k > includes.len() {
        None
    } else {
        let prev = best_relative(file, includes, (k - 1) as nat);
        match path_strip_prefix(file, includes[k - 1]) {
            Some(rel) => match prev {
                Some(p) => if encode_utf8(p).len() <= encode_utf8(rel).len() {
                    prev
                } else {
                    Some(rel)
                },
                None => Some(rel),
            },
            None => prev,
        }
    }
}

/// `file` relative to the include directory that leaves the shortest path,
/// or `file` itself when no include is a prefix of it.
pub fn proto_relative_name(file: &str, includes: &Vec<String>) -> (r: String)
    ensures
        r@ == match best_relative(file@, strings_model(includes@), includes@.len()) {
            Some(rel) => rel,
            None => file@,
        },
{
    let mut best: Option<String> = None;
    let mut i: usize = 0;
    while i < includes.len()
        invariant
            i <= includes@.len(),
            match best {
                Some(b) => best_relative(file@, strings_model(includes@), i as nat) == Some(b@),
                None => best_relative(file@, strings_model(includes@), i as nat) is None,
            },
        decreases includes@.len() - i,
    {
        match strip_path_prefix(file, includes[i].as_str()) {
            Some(rel) => {
                let keep = match &best {
                    Some(prev) => prev.as_str().as_bytes().len() <= rel.as_str().as_bytes().len(),
                    None => false,
                };
                if !keep {
                    best = Some(rel);
                }
            },
            None => {},
        }
        i = i + 1;
    }
    match best {
        Some(b) => b,
        None => file.to_owned(),
    }
}

/// File names that the code generator is to compile, as the descriptor set
/// names them: with `protoc`, each configured file relative to its
/// include directory (empty results dropped); otherwise the configured
/// files, or, when none are, every named file of `fds`.
pub open spec fn relative_files(m: BuilderModel, fds_names: Seq<Seq<char>>) -> Seq<Seq<char>> {
    match m.descriptor_source {
        SourceModel::Protoc => relative_names(m.files, m.includes),
        _ => if m.files.len() == 0 {
            fds_names
        } else {
            m.files
        },
    }
}

/// The names of the files of `fds` that have one, in order.
pub open spec fn named_files(files: Seq<crate::descriptor::FileDescriptorProto>) -> Seq<Seq<char>>
    decreases files.len(),
{
    if files.len() == 0 {
        seq![]
    } else {
        named_files(files.drop_last()) + match files.last().name {
            Some(n) => seq![n@],
            None => seq![],
        }
    }
}


/// Each of `files` relative to its best include directory, empty results
/// dropped.
pub open spec fn relative_names(files: Seq<Seq<char>>, includes: Seq<Seq<char>>) -> Seq<Seq<char>>
    decreases files.len(),
{
    if files.len() == 0 {
        seq![]
    } else {
        let rel = match best_relative(files.last(), includes, includes.len()) {
            Some(r) => r,
            None => files.last(),
        };
        relative_names(files.drop_last(), includes) + if rel.len() > 0 {
            seq![rel]
        } else {
            seq![]
        }
    }
}

impl Builder {
    /// The files the code generator is to compile (see [`relative_files`]).
    pub fn proto_relative_files(&self, fds: &FileDescriptorSet) -> (r: Vec<String>)
        ensures
            strings_model(r@) == relative_files(self.model(), named_files(fds.file@)),
    {
        let mut out: Vec<String> = Vec::new();
        let protoc = match self.descriptor_source {
            DescriptorSource::Protoc => true,
            _ => false,
        };
        if protoc {
            let mut i: usize = 0;
            while i < self.files.len()
                invariant
                    i <= self.files@.len(),
                    strings_model(out@) == relative_names(strings_model(self.files@).take(i as int), strings_model(self.includes@)),
                decreases self.files@.len() - i,
            {
                let name = proto_relative_name(self.files[i].as_str(), &self.includes);
                let ghost before = out@;
                let cs = crate::text::chars_of(name.as_str());
                if cs.len() > 0 {
                    out.push(name);
                }
                proof {
                    let fs = strings_model(self.files@);
                    assert(fs.take(i + 1).drop_last() =~= fs.take(i as int));
                    assert(fs.take(i + 1).last() == self.files@[i as int]@);
                    assert(strings_model(self.includes@).len() == self.includes@.len());
                    assert(strings_model(out@) =~= relative_names(fs.take(i + 1), strings_model(self.includes@)));
                }
                i = i + 1;
            }
            proof {
                assert(strings_model(self.files@).take(self.files@.len() as int) =~= strings_model(self.files@));
            }
            return out;
        }
        if self.files.len() == 0 {
            let mut i: usize = 0;
            while i < fds.file.len()
                invariant
                    i <= fds.file@.len(),
                    strings_model(out@) == named_files(fds.file@.take(i as int)),
                decreases fds.file@.len() - i,
            {
                let ghost before = out@;
                match &fds.file[i].name {
                    Some(n) => {
                        out.push(n.clone());
                    },
                    None => {},
                }
                proof {
                    assert(fds.file@.take(i + 1).drop_last() =~= fds.file@.take(i as int));
                    assert(strings_model(out@) =~= named_files(fds.file@.take(i + 1)));
                }
                i = i + 1;
            }
            assert(fds.file@.take(fds.file@.len() as int) =~= fds.file@);
            return out;
        }
        let mut i: usize = 0;
        while i < self.files.len()
            invariant
                i <= self.files@.len(),
                strings_model(out@) == strings_model(self.files@).take(i as int),
            decreases self.files@.len() - i,
        {
            let ghost before = out@;
            let f = self.files[i].as_str().to_owned();
            assert(f@ == self.files@[i as int]@);
            out.push(f);
            assert(strings_model(out@) =~= strings_model(before).push(self.files@[i as int]@));
            assert(strings_model(self.files@).take(i + 1) =~= strings_model(self.files@).take(i as int).push(self.files@[i as int]@));
            i = i + 1;
        }
        assert(strings_model(self.files@).take(self.files@.len() as int) =~= strings_model(self.files@));
        out
    }
}

impl Default for Builder {
    /// The same settings as [`Builder::new`].
    fn default() -> (r: Builder)
        ensures
            r.model() == (BuilderModel {
                descriptor_source: SourceModel::Protoc,
                files: seq![],
                includes: seq![],
                out_dir: None,
                file_descriptor_set_path: None,
                descriptor_pool_expr: None,
                file_descriptor_set_bytes_expr: None,
                include_file: None,
                type_attributes: seq![],
                field_attributes: seq![],
                message_attributes: seq![],
                enum_attributes: seq![],
                extern_paths: seq![],
                bytes_paths: seq![],
                generate_views: None,
                generate_json: None,
                generate_text: None,
                generate_arbitrary: None,
                preserve_unknown_fields: None,
                strict_utf8_mapping: None,
                allow_message_set: None,
            }),
    {
        Builder::new()
    }
}

} // verus!
