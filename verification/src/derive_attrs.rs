//! The settings of `#[derive(ReflectMessage)]`: which message a type
//! reflects and how its descriptor pool is reached, read from the
//! `#[buffa_reflect(key = "value")]` attributes of the type, in order.

use vstd::prelude::*;
use vstd::utf8::encode_utf8;

verus! {

/// How a derived type reaches its descriptor pool; each holds the Rust
/// expression written in the attribute.
pub enum ReflectBinding {
    /// `descriptor_pool = "..."`: an expression yielding `&DescriptorPool`.
    DescriptorPool(String),
    /// `file_descriptor_set_bytes = "..."`: an expression yielding the
    /// bytes of an encoded `FileDescriptorSet`.
    FileDescriptorSetBytes(String),
}

/// Why the attributes of a derived type are refused.
pub enum DeriveAttrError {
    /// A key other than `message_name`, `descriptor_pool` and
    /// `file_descriptor_set_bytes`.
    UnknownKey(String),
    /// `descriptor_pool` or `file_descriptor_set_bytes` given twice.
    DuplicateKey(String),
    /// No `message_name`.
    MissingMessageName,
    /// Neither binding.
    MissingBinding,
    /// Both bindings.
    ConflictingBindings,
}

/// Model of a binding.
pub enum BindingModel {
    Pool(Seq<char>),
    Bytes(Seq<char>),
}

/// Model of a refusal.
pub enum AttrFault {
    UnknownKey(Seq<char>),
    DuplicateKey(Seq<char>),
    MissingMessageName,
    MissingBinding,
    ConflictingBindings,
}

impl ReflectBinding {
    pub open spec fn model(&self) -> BindingModel {
        match self {
            ReflectBinding::DescriptorPool(e) => BindingModel::Pool(e@),
            ReflectBinding::FileDescriptorSetBytes(e) => BindingModel::Bytes(e@),
        }
    }
}

impl DeriveAttrError {
    pub open spec fn model(&self) -> AttrFault {
        match self {
            DeriveAttrError::UnknownKey(k) => AttrFault::UnknownKey(k@),
            DeriveAttrError::DuplicateKey(k) => AttrFault::DuplicateKey(k@),
            DeriveAttrError::MissingMessageName => AttrFault::MissingMessageName,
            DeriveAttrError::MissingBinding => AttrFault::MissingBinding,
            DeriveAttrError::ConflictingBindings => AttrFault::ConflictingBindings,
        }
    }

    /// The diagnostic reported for the refusal.
    pub fn message(&self) -> (r: String)
        ensures
            r@ == match self.model() {
                AttrFault::UnknownKey(k) => "unknown `buffa_reflect` key `"@ + k
                    + "` (expected `message_name`, `descriptor_pool`, or `file_descriptor_set_bytes`)"@,
                AttrFault::DuplicateKey(k) => "duplicate `"@ + k + "` in `#[buffa_reflect(...)]`"@,
                AttrFault::MissingMessageName => "missing `#[buffa_reflect(message_name = \"...\")]` attribute"@,
                AttrFault::MissingBinding => "missing `#[buffa_reflect(...)]` binding: provide either `descriptor_pool = \"...\"` or `file_descriptor_set_bytes = \"...\"`"@,
                AttrFault::ConflictingBindings => "conflicting `#[buffa_reflect(...)]` bindings: provide exactly one of `descriptor_pool` / `file_descriptor_set_bytes`"@,
            },
    {
        match self {
            DeriveAttrError::UnknownKey(k) => {
                let mut s = "unknown `buffa_reflect` key `".to_owned();
                s.push_str(k.as_str());
                s.push_str(
                    "` (expected `message_name`, `descriptor_pool`, or `file_descriptor_set_bytes`)",
                );
                s
            },
            DeriveAttrError::DuplicateKey(k) => {
                let mut s = "duplicate `".to_owned();
                s.push_str(k.as_str());
                s.push_str("` in `#[buffa_reflect(...)]`");
                s
            },
            DeriveAttrError::MissingMessageName => {
                "missing `#[buffa_reflect(message_name = \"...\")]` attribute".to_owned()
            },
            DeriveAttrError::MissingBinding => {
                "missing `#[buffa_reflect(...)]` binding: provide either `descriptor_pool = \"...\"` or `file_descriptor_set_bytes = \"...\"`".to_owned()
            },
            DeriveAttrError::ConflictingBindings => {
                "conflicting `#[buffa_reflect(...)]` bindings: provide exactly one of `descriptor_pool` / `file_descriptor_set_bytes`".to_owned()
            },
        }
    }
}

/// The attribute pairs as character sequences.
pub open spec fn pairs_model(s: Seq<(String, String)>) -> Seq<(Seq<char>, Seq<char>)> {
    s.map_values(|p: (String, String)| (p.0@, p.1@))
}

pub open spec fn opt_view(o: Option<String>) -> Option<Seq<char>> {
    match o {
        Some(s) => Some(s@),
        None => None,
    }
}

/// Length in UTF-8 bytes.
pub open spec fn name_bytes(s: Seq<char>) -> nat {
    encode_utf8(s).len()
}

/// Reading the pairs from the `i`-th on with the message name, pool and
/// bytes values found so far: every `message_name` is kept when it is at
/// least as long (in bytes) as the one kept before, so the last of the
/// longest stays; a second `descriptor_pool` or
/// `file_descriptor_set_bytes`, or any other key, is refused where it
/// stands.
pub open spec fn scan_attrs(
    pairs: Seq<(Seq<char>, Seq<char>)>,
    i: int,
    name: Option<Seq<char>>,
    pool: Option<Seq<char>>,
    bytes: Option<Seq<char>>,
) -> Result<(Option<Seq<char>>, Option<Seq<char>>, Option<Seq<char>>), AttrFault>
    decreases pairs.len() - i,
{
    if i < 0 || i >= pairs.len() {
        Ok((name, pool, bytes))
    } else {
        let k = pairs[i].0;
        let v = pairs[i].1;
        if k == "message_name"@ {
            let kept = match name {
                Some(b) => if name_bytes(b) <= name_bytes(v) {
                    v
                } else {
                    b
                },
                None => v,
            };
            scan_attrs(pairs, i + 1, Some(kept), pool, bytes)
        } else if k == "descriptor_pool"@ {
            if pool is Some {
                Err(AttrFault::DuplicateKey(k))
            } else {
                scan_attrs(pairs, i + 1, name, Some(v), bytes)
            }
        } else if k == "file_descriptor_set_bytes"@ {
            if bytes is Some {
                Err(AttrFault::DuplicateKey(k))
            } else {
                scan_attrs(pairs, i + 1, name, pool, Some(v))
            }
        } else {
            Err(AttrFault::UnknownKey(k))
        }
    }
}

/// The settings the attribute pairs give: the longest message name and the
/// one binding, or why they are refused (a refusal while reading first,
/// then a missing name, then a missing or a second binding).
pub open spec fn spec_derive_settings(pairs: Seq<(Seq<char>, Seq<char>)>) -> Result<
    (Seq<char>, BindingModel),
    AttrFault,
> {
    match scan_attrs(pairs, 0, None, None, None) {
        Err(f) => Err(f),
        Ok((name, pool, bytes)) => match name {
            None => Err(AttrFault::MissingMessageName),
            Some(n) => match (pool, bytes) {
                (None, None) => Err(AttrFault::MissingBinding),
                (Some(_), Some(_)) => Err(AttrFault::ConflictingBindings),
                (Some(p), None) => Ok((n, BindingModel::Pool(p))),
                (None, Some(b)) => Ok((n, BindingModel::Bytes(b))),
            },
        },
    }
}

/// Model of the result of [`derive_settings`].
pub open spec fn settings_model(r: Result<(String, ReflectBinding), DeriveAttrError>) -> Result<
    (Seq<char>, BindingModel),
    AttrFault,
> {
    match r {
        Ok((n, b)) => Ok((n@, b.model())),
        Err(e) => Err(e.model()),
    }
}

/// The settings of a derived type from its `(key, value)` attribute pairs,
/// in the order written.
pub fn derive_settings(attrs: &Vec<(String, String)>) -> (r: Result<
    (String, ReflectBinding),
    DeriveAttrError,
>)
    ensures
        settings_model(r) == spec_derive_settings(pairs_model(attrs@)),
{
    let ghost pairs = pairs_model(attrs@);
    proof {
        reveal_strlit("message_name");
        reveal_strlit("descriptor_pool");
        reveal_strlit("file_descriptor_set_bytes");
    }
    let mut name: Option<String> = None;
    let mut pool: Option<String> = None;
    let mut bytes: Option<String> = None;
    let mut i: usize = 0;
    while i < attrs.len()
        invariant
            i <= attrs@.len(),
            pairs == pairs_model(attrs@),
            scan_attrs(pairs, 0, None, None, None) == scan_attrs(
                pairs,
                i as int,
                opt_view(name),
                opt_view(pool),
                opt_view(bytes),
            ),
        decreases attrs@.len() - i,
    {
        let k = &attrs[i].0;
        let v = &attrs[i].1;
        assert(pairs[i as int] == (k@, v@));
        if *k == "message_name".to_owned() {
            let ghost old_name = opt_view(name);
            let replace = match &name {
                Some(b) => b.as_str().as_bytes().len() <= v.as_str().as_bytes().len(),
                None => true,
            };
            assert(replace == (match old_name {
                Some(b) => name_bytes(b) <= name_bytes(v@),
                None => true,
            }));
            if replace {
                name = Some(v.clone());
            }

        } else if *k == "descriptor_pool".to_owned() {
            if pool.is_some() {
                return Err(DeriveAttrError::DuplicateKey(k.clone()));
            }
            pool = Some(v.clone());
        } else if *k == "file_descriptor_set_bytes".to_owned() {
            if bytes.is_some() {
                return Err(DeriveAttrError::DuplicateKey(k.clone()));
            }
            bytes = Some(v.clone());
        } else {
            return Err(DeriveAttrError::UnknownKey(k.clone()));
        }
        i = i + 1;
    }
    match name {
        None => Err(DeriveAttrError::MissingMessageName),
        Some(n) => match (pool, bytes) {
            (None, None) => Err(DeriveAttrError::MissingBinding),
            (Some(_), Some(_)) => Err(DeriveAttrError::ConflictingBindings),
            (Some(p), None) => Ok((n, ReflectBinding::DescriptorPool(p))),
            (None, Some(b)) => Ok((n, ReflectBinding::FileDescriptorSetBytes(b))),
        },
    }
}

} // verus!
