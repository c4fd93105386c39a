//! The optional leading configuration of a document, and its defaults.
//!
//! A document may open with a configuration block. Reading that block's
//! syntax is outside the library; what is verified here is the shape of the
//! configuration and how omitted fields fall back to their defaults.

use vstd::prelude::*;
use vstd::string::StringExecFns;

verus! {

/// Configuration carried by a document's leading block.
#[derive(Debug, PartialEq)]
pub struct FrontMatter {
    /// Whether an identifier field is added to every object.
    pub id_field: bool,
    /// Prefix bindings, if the block declares any.
    pub prefixes: Option<Vec<(String, String)>>,
    /// Namespace bindings, if the block declares any.
    pub nsmap: Option<Vec<(String, String)>>,
    /// The repository base address.
    pub repo: String,
    /// The default prefix.
    pub prefix: String,
}

pub ghost struct FrontMatterV {
    pub id_field: bool,
    pub prefixes: Option<Seq<(Seq<char>, Seq<char>)>>,
    pub nsmap: Option<Seq<(Seq<char>, Seq<char>)>>,
    pub repo: Seq<char>,
    pub prefix: Seq<char>,
}

impl DeepView for FrontMatter {
    type V = FrontMatterV;

    open spec fn deep_view(&self) -> FrontMatterV {
        FrontMatterV {
            id_field: self.id_field,
            prefixes: self.prefixes.deep_view(),
            nsmap: self.nsmap.deep_view(),
            repo: self.repo@,
            prefix: self.prefix@,
        }
    }
}

/// A configuration as read from a block: every field may be omitted.
pub struct RawFrontMatter {
    pub id_field: Option<bool>,
    pub prefixes: Option<Vec<(String, String)>>,
    pub nsmap: Option<Vec<(String, String)>>,
    pub repo: Option<String>,
    pub prefix: Option<String>,
}

/// Default for `id_field`.
pub fn default_id_field() -> (b: bool)
    ensures
        b == true,
{
    true
}

/// Default for `prefix`.
pub fn default_prefix() -> (s: String)
    ensures
        s@ == "md"@,
{
    String::from_str("md")
}

/// Default for `repo`.
pub fn default_repo() -> (s: String)
    ensures
        s@ == "http://mdmodel.net/"@,
{
    String::from_str("http://mdmodel.net/")
}

/// The configuration that a document without a block gets.
pub open spec fn default_front_matter() -> FrontMatterV {
    FrontMatterV {
        id_field: true,
        prefixes: None,
        nsmap: None,
        repo: "http://mdmodel.net/"@,
        prefix: "md"@,
    }
}

impl Default for FrontMatter {
    fn default() -> (fm: Self)
        ensures
            fm.deep_view() == default_front_matter(),
    {
        FrontMatter {
            id_field: default_id_field(),
            prefixes: None,
            nsmap: None,
            repo: default_repo(),
            prefix: default_prefix(),
        }
    }
}

/// Fills every omitted field of a raw configuration with its default:
/// `id_field` with `true`, `repo` and `prefix` with their fixed defaults,
/// while the optional binding maps pass through unchanged.
pub fn resolve_front_matter(raw: RawFrontMatter) -> (fm: FrontMatter)
    ensures
        fm.id_field == (match raw.id_field {
            Some(b) => b,
            None => true,
        }),
        fm.prefixes.deep_view() == raw.prefixes.deep_view(),
        fm.nsmap.deep_view() == raw.nsmap.deep_view(),
        fm.repo@ == (match raw.repo {
            Some(r) => r@,
            None => "http://mdmodel.net/"@,
        }),
        fm.prefix@ == (match raw.prefix {
            Some(p) => p@,
            None => "md"@,
        }),
{
    let id_field = match raw.id_field {
        Some(b) => b,
        None => default_id_field(),
    };
    let repo = match raw.repo {
        Some(r) => r,
        None => default_repo(),
    };
    let prefix = match raw.prefix {
        Some(p) => p,
        None => default_prefix(),
    };
    FrontMatter { id_field, prefixes: raw.prefixes, nsmap: raw.nsmap, repo, prefix }
}

/// Clones a list of string pairs.
pub fn clone_pairs(v: &Vec<(String, String)>) -> (r: Vec<(String, String)>)
    ensures
        r.deep_view() == v.deep_view(),
{
    let mut out: Vec<(String, String)> = Vec::new();
    let mut i: usize = 0;
    while i < v.len()
        invariant
            0 <= i <= v.len(),
            out@.len() == i,
            forall|j: int| 0 <= j < i ==> out.deep_view()[j] == v.deep_view()[j],
        decreases v.len() - i,
    {
        let p = &v[i];
        out.push((p.0.clone(), p.1.clone()));
        i = i + 1;
    }
    proof {
        assert(out.deep_view() =~= v.deep_view());
    }
    out
}

impl FrontMatter {
    /// Whether an identifier field is added to every object.
    pub fn id_field(&self) -> (b: bool)
        ensures
            b == self.id_field,
    {
        self.id_field
    }

    /// The prefix bindings, as an optional list of key/value pairs.
    pub fn prefixes(&self) -> (r: Option<Vec<(String, String)>>)
        ensures
            r.deep_view() == self.prefixes.deep_view(),
    {
        match &self.prefixes {
            None => None,
            Some(v) => Some(clone_pairs(v)),
        }
    }

    /// The namespace bindings.
    pub fn nsmap(&self) -> (r: &Option<Vec<(String, String)>>)
        ensures
            r.deep_view() == self.nsmap.deep_view(),
    {
        &self.nsmap
    }
}

} // verus!
