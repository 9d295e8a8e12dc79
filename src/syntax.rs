//! What the parser reports of a file's top-level module declarations.
use vstd::prelude::*;
use proc_macro2::LineColumn;
use syn::{Item, Lit, Meta, MetaNameValue};

verus! {

/// A position as the parser reports it: `line` counts from 1, `column`
/// counts characters from 0.
#[verifier::external_type_specification]
pub struct ExLineColumn(LineColumn);

/// A top-level `mod` item.
pub struct ModItem {
    /// The module's name.
    pub name: String,
    /// One entry per attribute: `Some((key, value))` for `#[key = "value"]`
    /// with a single-identifier key and a string literal value, else `None`.
    pub attrs: Vec<Option<(String, String)>>,
    /// Where the terminating `;` starts and ends: an out-of-line declaration
    /// (`mod x;`) has one, a declaration with a body in braces has none.
    pub semi: Option<(LineColumn, LineColumn)>,
}

/// The top-level items of `text` as the parser reads them (`None` for an item
/// that is not a `mod`), or the parser's message when `text` does not parse.
pub uninterp spec fn file_items(text: Seq<char>) -> Result<Seq<Option<ModItem>>, Seq<char>>;

/// Relies on `syn::parse_file` (syn 1, with span locations from proc-macro2):
/// parses `text` as a source file; each top-level item is kept, a `mod` with
/// its name, attributes read by `Attribute::parse_meta`, and `;` span. The
/// result depends on `text` alone.
#[verifier::external_body]
pub(crate) fn parse_items(text: &str) -> (r: Result<Vec<Option<ModItem>>, String>)
    ensures
        r is Ok <==> file_items(text@) is Ok,
        r matches Ok(items) ==> file_items(text@)->Ok_0 == items@,
        r matches Err(e) ==> file_items(text@)->Err_0 == e@,
{
    syn::parse_file(text).map(|file| file.items.into_iter().map(|item| match item {
        Item::Mod(m) => Some(ModItem {
            name: m.ident.to_string(),
            attrs: m.attrs.iter().map(|a| match a.parse_meta() {
                Ok(Meta::NameValue(MetaNameValue { path, lit: Lit::Str(s), .. })) =>
                    Some((path.get_ident()?.to_string(), s.value())),
                _ => None,
            }).collect(),
            semi: m.semi.map(|s| (s.spans[0].start(), s.spans[0].end())),
        }),
        _ => None,
    }).collect()).map_err(|e| e.to_string())
}

/// The value of the first `path = "..."` attribute among `attrs`, if any.
pub open spec fn path_override(attrs: Seq<Option<(String, String)>>) -> Option<Seq<char>>
    decreases attrs.len(),
{
    if attrs.len() == 0 {
        None
    } else if attrs[0] is Some && attrs[0]->Some_0.0@ == "path"@ {
        Some(attrs[0]->Some_0.1@)
    } else {
        path_override(attrs.drop_first())
    }
}

/// Finds the value of the first `path = "..."` attribute among `attrs`.
pub fn find_path_override(attrs: &Vec<Option<(String, String)>>) -> (r: Option<String>)
    ensures
        r is None <==> path_override(attrs@) is None,
        r matches Some(v) ==> path_override(attrs@) == Some(v@),
{
    let path_key = String::from_str("path");
    let mut k: usize = 0;
    assert(attrs@.subrange(0, attrs@.len() as int) =~= attrs@);
    while k < attrs.len()
        invariant
            k <= attrs@.len(),
            path_key@ == "path"@,
            path_override(attrs@.subrange(k as int, attrs@.len() as int)) == path_override(attrs@),
        decreases attrs@.len() - k,
    {
        let rest = Ghost(attrs@.subrange(k as int, attrs@.len() as int));
        assert(rest@.drop_first() =~= attrs@.subrange(k + 1, attrs@.len() as int));
        assert(rest@[0] == attrs@[k as int]);
        if let Some((key, value)) = &attrs[k] {
            if key.eq(&path_key) {
                return Some(value.clone());
            }
        }
        k = k + 1;
    }
    None
}

} // verus!
