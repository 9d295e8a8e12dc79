//! Where a module declaration's file may be.
use vstd::prelude::*;
use camino::Utf8Path;
use crate::text::opt_view;

verus! {

/// `path` with its last component replaced by `name`, as camino builds it.
pub uninterp spec fn with_file_name_of(path: Seq<char>, name: Seq<char>) -> Seq<char>;

/// `path` with its extension replaced by `ext`, as camino builds it.
pub uninterp spec fn with_extension_of(path: Seq<char>, ext: Seq<char>) -> Seq<char>;

/// `rest` appended to `base` as a path, as camino builds it.
pub uninterp spec fn joined(base: Seq<char>, rest: Seq<char>) -> Seq<char>;

/// The components of `path`, in order, as camino reads them.
pub uninterp spec fn components_of(path: Seq<char>) -> Seq<Seq<char>>;

/// The last component of `path`, as camino reads it.
pub uninterp spec fn file_name_of(path: Seq<char>) -> Option<Seq<char>>;

/// Relies on `camino::Utf8Path::with_file_name`: the result depends on the
/// arguments alone.
#[verifier::external_body]
fn with_file_name(path: &str, name: &str) -> (r: String)
    ensures
        r@ == with_file_name_of(path@, name@),
{
    Utf8Path::new(path).with_file_name(name).into_string()
}

/// Relies on `camino::Utf8Path::with_extension`: the result depends on the
/// arguments alone. It panics on an extension that holds a path separator,
/// so `ext` holds none.
#[verifier::external_body]
fn with_extension(path: &str, ext: &str) -> (r: String)
    requires
        forall|i: int| 0 <= i < ext@.len() ==> ext@[i] != '/',
    ensures
        r@ == with_extension_of(path@, ext@),
{
    Utf8Path::new(path).with_extension(ext).into_string()
}

/// Relies on `camino::Utf8Path::join`: the result depends on the arguments
/// alone.
#[verifier::external_body]
fn join(base: &str, rest: &str) -> (r: String)
    ensures
        r@ == joined(base@, rest@),
{
    Utf8Path::new(base).join(rest).into_string()
}

/// Relies on `camino::Utf8Path::file_name`: the result depends on `path` alone.
#[verifier::external_body]
fn file_name(path: &str) -> (r: Option<String>)
    ensures
        r is None <==> file_name_of(path@) is None,
        r matches Some(n) ==> file_name_of(path@) == Some(n@),
{
    Utf8Path::new(path).file_name().map(|n| n.to_string())
}

/// Relies on `camino::Utf8Path::iter`: the components of `path`, each as a
/// string; the result depends on `path` alone.
#[verifier::external_body]
pub(crate) fn path_components(path: &str) -> (r: Vec<String>)
    ensures
        views(r@) == components_of(path@),
{
    Utf8Path::new(path).iter().map(|c| c.to_string()).collect()
}

/// The directory under which the file at `path`, reached at `depth`, keeps
/// the files of its child module `name`: beside it for the root file and for
/// a `mod.rs`, else in a directory named after it.
pub open spec fn module_base(path: Seq<char>, depth: nat, name: Seq<char>) -> Seq<char> {
    if depth == 0 || file_name_of(path) == Some("mod.rs"@) {
        with_file_name_of(path, name)
    } else {
        joined(with_extension_of(path, ""@), name)
    }
}

/// The files, in order of preference, that may hold module `name` declared
/// in the file at `path`, reached at `depth`; `over` is the value of its
/// `path` attribute, if it has one.
pub open spec fn candidates(path: Seq<char>, depth: nat, name: Seq<char>, over: Option<Seq<char>>) -> Seq<
    Seq<char>,
> {
    match over {
        Some(p) => seq![joined(with_file_name_of(path, ""@), p)],
        None => {
            let base = module_base(path, depth, name);
            seq![with_extension_of(base, "rs"@), joined(base, "mod.rs"@)]
        },
    }
}

/// The views of a sequence of strings.
pub open spec fn views(s: Seq<String>) -> Seq<Seq<char>> {
    s.map_values(|x: String| x@)
}

/// Lists the files that may hold module `name`, declared in the file at
/// `path` reached at `depth`, with `over` the value of its `path` attribute.
pub fn module_candidates(path: &String, depth: usize, name: &String, over: &Option<String>) -> (r: Vec<String>)
    ensures
        views(r@) == candidates(path@, depth as nat, name@, opt_view(*over)),
        1 <= r@.len() <= 2,
{
    match over {
        Some(p) => {
            let dir = with_file_name(path.as_str(), "");
            let c = join(dir.as_str(), p.as_str());
            let r = vec![c];
            assert(views(r@) =~= candidates(path@, depth as nat, name@, opt_view(*over)));
            r
        },
        None => {
            let in_root = if depth == 0 {
                true
            } else {
                match file_name(path.as_str()) {
                    Some(n) => n.eq(&String::from_str("mod.rs")),
                    None => false,
                }
            };
            let base = if in_root {
                with_file_name(path.as_str(), name.as_str())
            } else {
                proof {
                    reveal_strlit("");
                }
                let stem = with_extension(path.as_str(), "");
                join(stem.as_str(), name.as_str())
            };
            proof {
                reveal_strlit("rs");
            }
            let first = with_extension(base.as_str(), "rs");
            let second = join(base.as_str(), "mod.rs");
            let r = vec![first, second];
            assert(views(r@) =~= candidates(path@, depth as nat, name@, opt_view(*over)));
            r
        },
    }
}

} // verus!
