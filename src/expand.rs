//! Expanding a file's out-of-line module declarations, recursively.
//!
//! The expansion reads no files itself: it works on a [`SourceTree`] of the
//! paths probed so far, and answers [`Expansion::Needs`] with the first path
//! it has to know about. Probing that path and expanding again, until the
//! answer is `Done` or `Failed`, gives the expansion of the files on disk.
use vstd::prelude::*;
use crate::indent::{
    indent_code, indented, lemma_indent_twice, lemma_prefixed_append, normalized, prefixed, safe_to_indent,
    spaces, starts_after,
};
use crate::paths::{candidates, joined, module_candidates, views, with_file_name_of};
use crate::splice::{edit_views, edits_fit, lemma_replacement_kept, splice, spliced, Edit, EditView};
use crate::syntax::{file_items, find_path_override, parse_items, path_override, ModItem};
use crate::text::{
    chars_of, lemma_occurs_around, lemma_occurs_self, lemma_occurs_trans, occurs_in, offset_at, offset_of,
    opt_view, push_all, string_of,
};

verus! {

/// A file found at a probed path.
pub struct SourceFile {
    /// What identifies the file however its path is spelt (its canonical path).
    pub key: String,
    /// Its text, or why it could not be read.
    pub text: Result<String, String>,
}

/// What is known of one path.
pub struct Probe {
    pub path: String,
    /// The file at `path`, or `None` when there is none.
    pub file: Option<SourceFile>,
}

/// The paths probed so far, in the order they were probed.
pub struct SourceTree {
    pub probes: Vec<Probe>,
}

/// Why an expansion failed.
pub enum ExpandError {
    /// The file at `path` could not be read.
    Read { path: String, message: String },
    /// The text of the file at `path` does not parse.
    Parse { path: String, message: String },
    /// None of `candidates`, for a module declared in `file`, is a file.
    Unresolved { file: String, candidates: Vec<String> },
    /// The file at `path` is reached again from inside its own expansion.
    Cycle { path: String },
    /// A module declaration's span, as the parser gave it, does not fit the text of `file`.
    Span { file: String },
}

/// The view of an [`ExpandError`].
pub enum Failure {
    Read(Seq<char>, Seq<char>),
    Parse(Seq<char>, Seq<char>),
    Unresolved(Seq<char>, Seq<Seq<char>>),
    Cycle(Seq<char>),
    Span(Seq<char>),
}

impl View for ExpandError {
    type V = Failure;

    open spec fn view(&self) -> Failure {
        match self {
            ExpandError::Read { path, message } => Failure::Read(path@, message@),
            ExpandError::Parse { path, message } => Failure::Parse(path@, message@),
            ExpandError::Unresolved { file, candidates } => Failure::Unresolved(
                file@,
                views(candidates@),
            ),
            ExpandError::Cycle { path } => Failure::Cycle(path@),
            ExpandError::Span { file } => Failure::Span(file@),
        }
    }
}

/// How far an expansion got.
pub enum Expansion {
    /// The flattened text.
    Done(String),
    /// The expansion fails.
    Failed(ExpandError),
    /// Whether there is a file at this path, and what it holds, has to be known first.
    Needs(String),
}

/// The view of an [`Expansion`].
pub enum Expanded {
    Text(Seq<char>),
    Failed(Failure),
    Needs(Seq<char>),
}

impl View for Expansion {
    type V = Expanded;

    open spec fn view(&self) -> Expanded {
        match self {
            Expansion::Done(s) => Expanded::Text(s@),
            Expansion::Failed(e) => Expanded::Failed(e@),
            Expansion::Needs(p) => Expanded::Needs(p@),
        }
    }
}

/// The message of a read error for a path where there is no file.
pub open spec fn no_file_message() -> Seq<char> {
    "no such file"@
}

/// The index of the first probe of `path`, from index `from` on.
pub open spec fn find_probe(probes: Seq<Probe>, path: Seq<char>, from: int) -> Option<int>
    decreases probes.len() - from,
{
    if from < 0 || from >= probes.len() {
        None
    } else if probes[from].path@ == path {
        Some(from)
    } else {
        find_probe(probes, path, from + 1)
    }
}

/// Which of a list of candidate paths holds the module.
pub enum Resolved {
    /// The probe of the first candidate that is a file.
    Found(int),
    /// No candidate is a file.
    Absent,
    /// This candidate, which comes before any that is known to be a file, was not probed.
    Unknown(Seq<char>),
}

/// The first of `cands` that is a file, as far as `probes` tell.
pub open spec fn resolved(probes: Seq<Probe>, cands: Seq<Seq<char>>) -> Resolved
    decreases cands.len(),
{
    if cands.len() == 0 {
        Resolved::Absent
    } else {
        match find_probe(probes, cands[0], 0) {
            None => Resolved::Unknown(cands[0]),
            Some(i) => if probes[i].file is Some {
                Resolved::Found(i)
            } else {
                resolved(probes, cands.drop_first())
            },
        }
    }
}

/// The replacement for a declaration's `;`: the child's text, indented one
/// level where that is safe, in braces, the closing one on a line of its own.
pub open spec fn wrapped(child: Seq<char>) -> Seq<char> {
    let body = normalized(child, 1);
    let close = if body.len() == 0 || body.last() == '\n' {
        seq!['}']
    } else {
        seq!['\n', '}']
    };
    seq![' ', '{', '\n'] + body + close
}

/// Whether `item` is an out-of-line module declaration (`mod x;`).
pub open spec fn out_of_line(item: Option<ModItem>) -> bool {
    item is Some && item->Some_0.semi is Some
}

/// Where the last of `edits` ends, or 0 when there is none.
pub open spec fn last_end(edits: Seq<EditView>) -> int {
    if edits.len() == 0 {
        0
    } else {
        edits.last().1
    }
}

/// The expansion of the file at `path`, reached through the files whose
/// keys are `open` (outermost first); the file is at depth `open.len()`.
pub open spec fn expansion(probes: Seq<Probe>, path: Seq<char>, open: Seq<Seq<char>>) -> Expanded
    decreases probes.len() - open.len(), 1int, 0int,
{
    match find_probe(probes, path, 0) {
        None => Expanded::Needs(path),
        Some(i) => match probes[i].file {
            None => Expanded::Failed(Failure::Read(path, no_file_message())),
            Some(f) => if open.contains(f.key@) {
                Expanded::Failed(Failure::Cycle(path))
            } else {
                match f.text {
                    Err(m) => Expanded::Failed(Failure::Read(path, m@)),
                    Ok(text) => match file_items(text@) {
                        Err(m) => Expanded::Failed(Failure::Parse(path, m)),
                        Ok(items) => expanded_items(
                            probes,
                            path,
                            open.push(f.key@),
                            text@,
                            items,
                            0,
                            seq![],
                        ),
                    },
                }
            },
        },
    }
}

/// The expansion of the file at `path`, whose `text` holds the top-level
/// `items`, after the items before `k` gave `edits`; `open` ends with the
/// file's own key.
///
/// Where the chain of open files is as long as the list of probes, each
/// probe is open, so the child is one of them: that is reported as a cycle.
pub open spec fn expanded_items(
    probes: Seq<Probe>,
    path: Seq<char>,
    open: Seq<Seq<char>>,
    text: Seq<char>,
    items: Seq<Option<ModItem>>,
    k: nat,
    edits: Seq<EditView>,
) -> Expanded
    decreases probes.len() - open.len() + 1, 0int, items.len() - k,
{
    if k >= items.len() {
        Expanded::Text(spliced(text, edits, 0))
    } else if !out_of_line(items[k as int]) {
        expanded_items(probes, path, open, text, items, k + 1, edits)
    } else {
        let m = items[k as int]->Some_0;
        let (s, e) = m.semi->Some_0;
        let start = offset_at(text, s.line as nat, s.column as nat);
        let end = offset_at(text, e.line as nat, e.column as nat);
        if start is None || end is None || start->Some_0 < last_end(edits) || end->Some_0
            < start->Some_0 {
            Expanded::Failed(Failure::Span(path))
        } else {
            let cands = candidates(path, (open.len() - 1) as nat, m.name@, path_override(m.attrs@));
            match resolved(probes, cands) {
                Resolved::Unknown(p) => Expanded::Needs(p),
                Resolved::Absent => Expanded::Failed(Failure::Unresolved(path, cands)),
                Resolved::Found(c) => if open.len() >= probes.len() {
                    Expanded::Failed(Failure::Cycle(probes[c].path@))
                } else {
                    match expansion(probes, probes[c].path@, open) {
                        Expanded::Text(child) => expanded_items(
                            probes,
                            path,
                            open,
                            text,
                            items,
                            k + 1,
                            edits.push((start->Some_0, end->Some_0, wrapped(child))),
                        ),
                        other => other,
                    }
                },
            }
        }
    }
}

/// The index of the first probe of `path` in `tree`.
fn probe_index(tree: &SourceTree, path: &String) -> (r: Option<usize>)
    ensures
        r is None <==> find_probe(tree.probes@, path@, 0) is None,
        r matches Some(i) ==> find_probe(tree.probes@, path@, 0) == Some(i as int) && i
            < tree.probes@.len(),
{
    let mut i: usize = 0;
    while i < tree.probes.len()
        invariant
            i <= tree.probes@.len(),
            find_probe(tree.probes@, path@, i as int) == find_probe(tree.probes@, path@, 0),
        decreases tree.probes@.len() - i,
    {
        if tree.probes[i].path.eq(path) {
            return Some(i);
        }
        i = i + 1;
    }
    None
}

/// Which of a list of candidates holds a module, as [`Resolved`] says, with
/// indices in place of paths.
enum Resolution {
    Found(usize),
    Absent,
    Unknown(usize),
}

/// Finds the first of `cands` that is a file, as far as `tree` tells.
fn resolve(tree: &SourceTree, cands: &Vec<String>) -> (r: Resolution)
    ensures
        r matches Resolution::Found(i) ==> i < tree.probes@.len() && resolved(
            tree.probes@,
            views(cands@),
        ) == Resolved::Found(i as int),
        r is Absent ==> resolved(tree.probes@, views(cands@)) == Resolved::Absent,
        r matches Resolution::Unknown(j) ==> j < cands@.len() && resolved(
            tree.probes@,
            views(cands@),
        ) == Resolved::Unknown(cands@[j as int]@),
{
    let mut j: usize = 0;
    assert(views(cands@).subrange(0, cands@.len() as int) =~= views(cands@));
    while j < cands.len()
        invariant
            j <= cands@.len(),
            resolved(tree.probes@, views(cands@).subrange(j as int, cands@.len() as int))
                == resolved(tree.probes@, views(cands@)),
        decreases cands@.len() - j,
    {
        let ghost rest = views(cands@).subrange(j as int, cands@.len() as int);
        assert(rest.drop_first() =~= views(cands@).subrange(j + 1, cands@.len() as int));
        assert(rest[0] == cands@[j as int]@);
        match probe_index(tree, &cands[j]) {
            None => {
                return Resolution::Unknown(j);
            },
            Some(i) => {
                if tree.probes[i].file.is_some() {
                    return Resolution::Found(i);
                }
            },
        }
        j = j + 1;
    }
    Resolution::Absent
}

/// Builds the replacement for a declaration's `;` from the child's text.
fn wrap(child: &Vec<char>) -> (r: Vec<char>)
    ensures
        r@ == wrapped(child@),
{
    let body = indent_code(child, 1);
    let mut r: Vec<char> = Vec::new();
    r.push(' ');
    r.push('{');
    r.push('\n');
    push_all(&mut r, &body);
    if body.len() != 0 && body[body.len() - 1] != '\n' {
        r.push('\n');
    }
    r.push('}');
    assert(r@ =~= wrapped(child@));
    r
}

/// Whether `key` is among `open`.
fn is_open(open: &Vec<String>, key: &String) -> (r: bool)
    ensures
        r == views(open@).contains(key@),
{
    let mut i: usize = 0;
    while i < open.len()
        invariant
            i <= open@.len(),
            forall|j: int| 0 <= j < i ==> views(open@)[j] != key@,
        decreases open@.len() - i,
    {
        if open[i].eq(key) {
            assert(views(open@)[i as int] == key@);
            return true;
        }
        i = i + 1;
    }
    false
}

/// `open` with `key` added at the end.
fn opened(open: &Vec<String>, key: &String) -> (r: Vec<String>)
    ensures
        views(r@) == views(open@).push(key@),
{
    let mut r: Vec<String> = Vec::new();
    let mut i: usize = 0;
    while i < open.len()
        invariant
            i <= open@.len(),
            r@.len() == i,
            forall|j: int| 0 <= j < i ==> (#[trigger] r@[j])@ == open@[j]@,
        decreases open@.len() - i,
    {
        let c = open[i].clone();
        assert(c@ == open@[i as int]@);
        r.push(c);
        i = i + 1;
    }
    let c = key.clone();
    assert(c@ == key@);
    r.push(c);
    assert(views(r@) =~= views(open@).push(key@));
    r
}

/// The view of an expansion that is still under way: `Ok` holds the text.
pub open spec fn step_view(r: Result<Vec<char>, Expansion>) -> Expanded {
    match r {
        Ok(t) => Expanded::Text(t@),
        Err(x) => x@,
    }
}

/// Expands the file at `path`, reached through the files whose keys are `open`.
fn expand_file(tree: &SourceTree, path: &String, open: &Vec<String>) -> (r: Result<Vec<char>, Expansion>)
    requires
        open@.len() <= tree.probes@.len(),
    ensures
        step_view(r) == expansion(tree.probes@, path@, views(open@)),
        r matches Err(x) ==> !(x is Done),
    decreases tree.probes@.len() - open@.len(),
{
    let ghost probes = tree.probes@;
    let i = match probe_index(tree, path) {
        None => {
            return Err(Expansion::Needs(path.clone()));
        },
        Some(i) => i,
    };
    let file = match &tree.probes[i].file {
        None => {
            let message = String::from_str("no such file");
            return Err(Expansion::Failed(ExpandError::Read { path: path.clone(), message }));
        },
        Some(f) => f,
    };
    if is_open(open, &file.key) {
        return Err(Expansion::Failed(ExpandError::Cycle { path: path.clone() }));
    }
    let text = match &file.text {
        Err(m) => {
            return Err(Expansion::Failed(ExpandError::Read { path: path.clone(), message: m.clone() }));
        },
        Ok(t) => t,
    };
    let items = match parse_items(text.as_str()) {
        Err(message) => {
            return Err(Expansion::Failed(ExpandError::Parse { path: path.clone(), message }));
        },
        Ok(items) => items,
    };
    let inner = opened(open, &file.key);
    let chars = chars_of(text.as_str());
    let ghost o = views(inner@);
    let ghost whole = expanded_items(probes, path@, o, chars@, items@, 0, seq![]);
    assert(whole == expansion(probes, path@, views(open@)));
    let mut edits: Vec<Edit> = Vec::new();
    let mut k: usize = 0;
    assert(edit_views(edits@) =~= seq![]);
    while k < items.len()
        invariant
            k <= items@.len(),
            probes == tree.probes@,
            whole == expansion(probes, path@, views(open@)),
            open@.len() <= probes.len(),
            o == views(inner@),
            o.len() == open@.len() + 1,
            expanded_items(probes, path@, o, chars@, items@, k as nat, edit_views(edits@))
                == whole,
            edits_fit(chars@.len(), edit_views(edits@)),
        decreases items@.len() - k,
    {
        let ghost before = edit_views(edits@);
        if let Some(m) = &items[k] {
            if let Some((s, e)) = &m.semi {
                let last: usize = if edits.len() == 0 {
                    0
                } else {
                    edits[edits.len() - 1].end
                };
                assert(last as int == last_end(before));
                let start = offset_of(&chars, s.line, s.column);
                let end = offset_of(&chars, e.line, e.column);
                let (a, b) = match (start, end) {
                    (Some(a), Some(b)) => (a, b),
                    _ => {
                        return Err(Expansion::Failed(ExpandError::Span { file: path.clone() }));
                    },
                };
                if a < last || b < a {
                    return Err(Expansion::Failed(ExpandError::Span { file: path.clone() }));
                }
                let over = find_path_override(&m.attrs);
                assert(opt_view(over) == path_override(m.attrs@));
                let cands = module_candidates(path, open.len(), &m.name, &over);
                match resolve(tree, &cands) {
                    Resolution::Unknown(j) => {
                        return Err(Expansion::Needs(cands[j].clone()));
                    },
                    Resolution::Absent => {
                        return Err(
                            Expansion::Failed(ExpandError::Unresolved { file: path.clone(), candidates: cands }),
                        );
                    },
                    Resolution::Found(c) => {
                        if inner.len() >= tree.probes.len() {
                            return Err(
                                Expansion::Failed(ExpandError::Cycle { path: tree.probes[c].path.clone() }),
                            );
                        }
                        match expand_file(tree, &tree.probes[c].path, &inner) {
                            Err(x) => {
                                return Err(x);
                            },
                            Ok(child) => {
                                let w = wrap(&child);
                                edits.push(Edit { start: a, end: b, text: w });
                                assert(edit_views(edits@) =~= before.push((a as int, b as int, wrapped(child@))));
                            },
                        }
                    },
                }
            }
        }
        k = k + 1;
    }
    let r = splice(&chars, &edits);
    Ok(r)
}

/// Expands the file at `root`, as far as `tree` tells: the flattened text,
/// the error that stops it, or the first path that has to be probed.
pub fn expand(tree: &SourceTree, root: &String) -> (r: Expansion)
    ensures
        r@ == expansion(tree.probes@, root@, seq![]),
        r matches Expansion::Needs(p) ==> find_probe(tree.probes@, p@, 0) is None,
{
    proof {
        lemma_needs_unprobed(tree.probes@, root@, seq![]);
    }
    let open: Vec<String> = Vec::new();
    assert(views(open@) =~= seq![]);
    match expand_file(tree, root, &open) {
        Ok(t) => Expansion::Done(string_of(&t)),
        Err(x) => x,
    }
}

impl SourceTree {
    /// A tree in which nothing is probed yet.
    pub fn new() -> (r: SourceTree)
        ensures
            r.probes@ == Seq::<Probe>::empty(),
    {
        SourceTree { probes: Vec::new() }
    }

    /// Records that there is a file at `path`, identified by `key`, whose
    /// reading gave `text`.
    pub fn add_file(&mut self, path: String, key: String, text: Result<String, String>)
        ensures
            final(self).probes@ == old(self).probes@.push(
                (Probe { path, file: Some(SourceFile { key, text }) }),
            ),
    {
        self.probes.push(Probe { path, file: Some(SourceFile { key, text }) });
    }

    /// Records that there is no file at `path`.
    pub fn add_missing(&mut self, path: String)
        ensures
            final(self).probes@ == old(self).probes@.push((Probe { path, file: None })),
    {
        self.probes.push(Probe { path, file: None });
    }
}

/// `x` in double quotes.
pub open spec fn quoted(x: Seq<char>) -> Seq<char> {
    seq!['"'] + x + seq!['"']
}

/// Each of `items` in double quotes, separated by `, `.
pub open spec fn quoted_list(items: Seq<Seq<char>>) -> Seq<char>
    decreases items.len(),
{
    if items.len() == 0 {
        seq![]
    } else if items.len() == 1 {
        quoted(items[0])
    } else {
        quoted(items[0]) + ", "@ + quoted_list(items.drop_first())
    }
}

/// `r` followed by the rest of a list, `rest`, after a `, `.
pub open spec fn list_tail(r: Seq<char>, rest: Seq<Seq<char>>) -> Seq<char> {
    if rest.len() == 0 {
        r
    } else {
        r + ", "@ + quoted_list(rest)
    }
}

/// The message that reports a failure.
pub open spec fn failure_message(f: Failure) -> Seq<char> {
    match f {
        Failure::Read(p, m) => "could not read `"@ + p + "`: "@ + m,
        Failure::Parse(p, m) => "could not parse `"@ + p + "`: "@ + m,
        Failure::Unresolved(file, c) => "one of ["@ + quoted_list(c) + "] does not exist (module declared in `"@
            + file + "`)"@,
        Failure::Cycle(p) => "`"@ + p + "` is reached again from inside its own expansion"@,
        Failure::Span(file) => "a module declaration's span does not fit the text of `"@ + file + "`"@,
    }
}

/// Appends `x` in double quotes to `out`.
fn append_quoted(out: &mut String, x: &String)
    ensures
        final(out)@ == old(out)@ + quoted(x@),
{
    proof {
        reveal_strlit("\"");
    }
    out.append("\"");
    out.append(x.as_str());
    out.append("\"");
    assert(final(out)@ =~= old(out)@ + quoted(x@));
}

impl ExpandError {
    /// The message that reports this error.
    pub fn message(&self) -> (r: String)
        ensures
            r@ == failure_message(self@),
    {
        match self {
            ExpandError::Read { path, message } => {
                let mut r = String::from_str("could not read `");
                r.append(path.as_str());
                r.append("`: ");
                r.append(message.as_str());
                r
            },
            ExpandError::Parse { path, message } => {
                let mut r = String::from_str("could not parse `");
                r.append(path.as_str());
                r.append("`: ");
                r.append(message.as_str());
                r
            },
            ExpandError::Unresolved { file, candidates } => {
                let mut r = String::from_str("one of [");
                let ghost head = r@;
                let mut j: usize = 0;
                while j < candidates.len()
                    invariant
                        j <= candidates@.len(),
                        j == 0 ==> r@ == head,
                        j > 0 ==> list_tail(
                            r@,
                            views(candidates@).subrange(j as int, candidates@.len() as int),
                        ) == head + quoted_list(views(candidates@)),
                    decreases candidates@.len() - j,
                {
                    proof {
                        let rest = views(candidates@).subrange(j as int, candidates@.len() as int);
                        assert(rest.drop_first() =~= views(candidates@).subrange(j + 1, candidates@.len() as int));
                        assert(rest[0] == candidates@[j as int]@);
                        if j == 0 {
                            assert(rest =~= views(candidates@));
                        }
                    }
                    let ghost before = r@;
                    if j > 0 {
                        r.append(", ");
                    }
                    append_quoted(&mut r, &candidates[j]);
                    proof {
                        let rest = views(candidates@).subrange(j as int, candidates@.len() as int);
                        let next = views(candidates@).subrange(j + 1, candidates@.len() as int);
                        if j > 0 {
                            assert(r@ =~= before + ", "@ + quoted(rest[0]));
                        }
                        if next.len() > 0 {
                            assert(list_tail(r@, next) =~= r@ + ", "@ + quoted_list(next));
                        }
                        if j > 0 && next.len() > 0 {
                            assert(before + ", "@ + quoted_list(rest) =~= r@ + ", "@ + quoted_list(next));
                        }
                    }
                    j = j + 1;
                }
                r.append("] does not exist (module declared in `");
                r.append(file.as_str());
                r.append("`)");
                r
            },
            ExpandError::Cycle { path } => {
                let mut r = String::from_str("`");
                r.append(path.as_str());
                r.append("` is reached again from inside its own expansion");
                r
            },
            ExpandError::Span { file } => {
                let mut r = String::from_str("a module declaration's span does not fit the text of `");
                r.append(file.as_str());
                r.append("`");
                r
            },
        }
    }
}

/// The key and the text of the readable file probed at `path`, if there is one.
pub open spec fn readable(probes: Seq<Probe>, path: Seq<char>) -> Option<(Seq<char>, Seq<char>)> {
    match find_probe(probes, path, 0) {
        Some(i) => match probes[i].file {
            Some(f) => match f.text {
                Ok(t) => Some((f.key@, t@)),
                Err(_) => None,
            },
            None => None,
        },
        None => None,
    }
}

/// `path` was probed and there is no file there.
pub open spec fn probed_missing(probes: Seq<Probe>, path: Seq<char>) -> bool {
    find_probe(probes, path, 0) is Some && probes[find_probe(probes, path, 0)->Some_0].file is None
}

/// The top-level items of the readable file at `path`.
pub open spec fn items_at(probes: Seq<Probe>, path: Seq<char>) -> Seq<Option<ModItem>> {
    file_items(readable(probes, path)->Some_0.1)->Ok_0
}

/// The readable file at `path` parses, and declares no out-of-line module.
pub open spec fn without_declarations(probes: Seq<Probe>, path: Seq<char>) -> bool {
    &&& readable(probes, path) is Some
    &&& file_items(readable(probes, path)->Some_0.1) is Ok
    &&& forall|k: int| 0 <= k < items_at(probes, path).len() ==> !out_of_line(
        #[trigger] items_at(probes, path)[k],
    )
}

/// The probe that `find_probe` gives is one of `path`.
pub proof fn lemma_find_probe(probes: Seq<Probe>, path: Seq<char>, from: int)
    ensures
        find_probe(probes, path, from) matches Some(i) ==> from <= i < probes.len()
            && probes[i].path@ == path,
    decreases probes.len() - from,
{
    if 0 <= from < probes.len() && probes[from].path@ != path {
        lemma_find_probe(probes, path, from + 1);
    }
}

/// Items that are no out-of-line declarations leave the expansion as it is.
pub proof fn lemma_skip(
    probes: Seq<Probe>,
    path: Seq<char>,
    open: Seq<Seq<char>>,
    text: Seq<char>,
    items: Seq<Option<ModItem>>,
    k: nat,
    j: nat,
    edits: Seq<EditView>,
)
    requires
        k <= j <= items.len(),
        forall|m: int| k <= m < j ==> !out_of_line(#[trigger] items[m]),
    ensures
        expanded_items(probes, path, open, text, items, k, edits) == expanded_items(
            probes,
            path,
            open,
            text,
            items,
            j,
            edits,
        ),
    decreases j - k,
{
    if k < j {
        lemma_skip(probes, path, open, text, items, k + 1, j, edits);
    }
}

/// A file that declares no out-of-line module, and is not open already,
/// expands to its own text.
pub proof fn lemma_no_declarations(probes: Seq<Probe>, path: Seq<char>, open: Seq<Seq<char>>)
    requires
        without_declarations(probes, path),
        !open.contains(readable(probes, path)->Some_0.0),
    ensures
        expansion(probes, path, open) == Expanded::Text(readable(probes, path)->Some_0.1),
{
    let (key, text) = readable(probes, path)->Some_0;
    let items = items_at(probes, path);
    lemma_skip(probes, path, open.push(key), text, items, 0, items.len(), seq![]);
    assert(text.subrange(0, text.len() as int) =~= text);
}

/// A file with no out-of-line module declaration expands to its text,
/// unchanged.
pub proof fn lemma_identity(probes: Seq<Probe>, path: Seq<char>)
    requires
        without_declarations(probes, path),
    ensures
        expansion(probes, path, seq![]) == Expanded::Text(readable(probes, path)->Some_0.1),
{
    lemma_no_declarations(probes, path, seq![]);
}

/// The offsets in `text` where the `;` of declaration `m` starts and ends,
/// when `m` has one and both positions are in `text`, in order.
pub open spec fn semi_offsets(text: Seq<char>, m: ModItem) -> Option<(int, int)> {
    let (s, e) = m.semi->Some_0;
    let start = offset_at(text, s.line as nat, s.column as nat);
    let end = offset_at(text, e.line as nat, e.column as nat);
    if m.semi is Some && start is Some && end is Some && start->Some_0 <= end->Some_0 {
        Some((start->Some_0, end->Some_0))
    } else {
        None
    }
}

/// The first file that a declaration `m` without a `path` attribute may
/// name, in the root file at `path`.
pub open spec fn first_candidate(path: Seq<char>, m: ModItem) -> Seq<char> {
    candidates(path, 0, m.name@, None)[0]
}

/// `text` with the `;` of declaration `m` replaced by `child` wrapped in braces.
pub open spec fn inlined(text: Seq<char>, m: ModItem, child: Seq<char>) -> Seq<char> {
    let (s, e) = semi_offsets(text, m)->Some_0;
    text.subrange(0, s) + wrapped(child) + text.subrange(e, text.len() as int)
}

/// Single-level inlining: where the root file at `path` declares one
/// out-of-line module, item `k`, without a `path` attribute, and the first
/// conventional file for it is another readable file that declares no module
/// itself, the expansion is the root's text with that declaration's `;`
/// replaced by the child's text, indented, in braces.
pub proof fn lemma_single_level(probes: Seq<Probe>, path: Seq<char>, k: nat)
    requires
        readable(probes, path) is Some,
        file_items(readable(probes, path)->Some_0.1) is Ok,
        k < items_at(probes, path).len(),
        out_of_line(items_at(probes, path)[k as int]),
        forall|j: int|
            0 <= j < items_at(probes, path).len() && j != k ==> !out_of_line(
                #[trigger] items_at(probes, path)[j],
            ),
        path_override(items_at(probes, path)[k as int]->Some_0.attrs@) is None,
        semi_offsets(readable(probes, path)->Some_0.1, items_at(probes, path)[k as int]->Some_0) is Some,
        without_declarations(probes, first_candidate(path, items_at(probes, path)[k as int]->Some_0)),
        readable(probes, first_candidate(path, items_at(probes, path)[k as int]->Some_0))->Some_0.0
            != readable(probes, path)->Some_0.0,
    ensures
        expansion(probes, path, seq![]) == Expanded::Text(
            inlined(
                readable(probes, path)->Some_0.1,
                items_at(probes, path)[k as int]->Some_0,
                readable(probes, first_candidate(path, items_at(probes, path)[k as int]->Some_0))->Some_0.1,
            ),
        ),
{
    let (key, text) = readable(probes, path)->Some_0;
    let items = items_at(probes, path);
    let open = seq![key];
    assert(Seq::<Seq<char>>::empty().push(key) =~= open);
    lemma_skip(probes, path, open, text, items, 0, k, seq![]);
    let m = items[k as int]->Some_0;
    let cands = candidates(path, 0, m.name@, path_override(m.attrs@));
    let child = cands[0];
    assert(child == first_candidate(path, m));
    let (ckey, ctext) = readable(probes, child)->Some_0;
    lemma_find_probe(probes, child, 0);
    lemma_find_probe(probes, path, 0);
    let c = find_probe(probes, child, 0)->Some_0;
    let i = find_probe(probes, path, 0)->Some_0;
    assert(c != i);
    assert(resolved(probes, cands) == Resolved::Found(c));
    assert(!open.contains(ckey)) by {
        if open.contains(ckey) {
            let j = choose|j: int| 0 <= j < open.len() && open[j] == ckey;
            assert(open[j] == key);
        }
    }
    lemma_no_declarations(probes, child, open);
    let (s, e) = semi_offsets(text, m)->Some_0;
    let edit = (s, e, wrapped(ctext));
    lemma_skip(probes, path, open, text, items, k + 1, items.len(), seq![edit]);
    assert(Seq::<EditView>::empty().push(edit) =~= seq![edit]);
    assert(seq![edit].drop_first() =~= Seq::<EditView>::empty());
    assert(expansion(probes, path, seq![]) == expanded_items(probes, path, open, text, items, 0, seq![]));
    assert(expansion(probes, child, open) == Expanded::Text(ctext));
    assert(probes[c].path@ == child);
    assert(expanded_items(probes, path, open, text, items, k, seq![]) == expanded_items(
        probes,
        path,
        open,
        text,
        items,
        k + 1,
        seq![edit],
    ));
    assert(spliced(text, Seq::<EditView>::empty(), e) == text.subrange(e, text.len() as int));
    assert(spliced(text, seq![edit], 0) == text.subrange(0, s) + wrapped(ctext) + spliced(
        text,
        Seq::<EditView>::empty(),
        e,
    ));
    assert(spliced(text, seq![edit], 0) == inlined(text, m, ctext));
}

/// A declaration's `path` attribute decides alone where the module is: the
/// one candidate is the value joined to the declaring file's directory,
/// whatever the depth, and where that is a probed file it is the one chosen,
/// whatever files follow the usual naming.
pub proof fn lemma_path_attribute(probes: Seq<Probe>, path: Seq<char>, depth: nat, name: Seq<char>, value: Seq<char>)
    ensures
        candidates(path, depth, name, Some(value)) == seq![joined(with_file_name_of(path, ""@), value)],
        find_probe(probes, joined(with_file_name_of(path, ""@), value), 0) is Some
            && probes[find_probe(probes, joined(with_file_name_of(path, ""@), value), 0)->Some_0].file is Some
            ==> resolved(probes, candidates(path, depth, name, Some(value))) == Resolved::Found(
            find_probe(probes, joined(with_file_name_of(path, ""@), value), 0)->Some_0,
        ),
{
    let cands = candidates(path, depth, name, Some(value));
    assert(cands.drop_first() =~= Seq::<Seq<char>>::empty());
}

/// Where neither conventional file for a declaration without a `path`
/// attribute exists, the expansion of the declaring file fails and names
/// both candidates and the file.
pub proof fn lemma_unresolved(probes: Seq<Probe>, path: Seq<char>, open: Seq<Seq<char>>, text: Seq<char>, items: Seq<Option<ModItem>>, k: nat, edits: Seq<EditView>)
    requires
        k < items.len(),
        out_of_line(items[k as int]),
        path_override(items[k as int]->Some_0.attrs@) is None,
        semi_offsets(text, items[k as int]->Some_0) matches Some(span) && last_end(edits) <= span.0,
        open.len() >= 1,
        probed_missing(probes, candidates(path, (open.len() - 1) as nat, items[k as int]->Some_0.name@, None)[0]),
        probed_missing(probes, candidates(path, (open.len() - 1) as nat, items[k as int]->Some_0.name@, None)[1]),
    ensures
        expanded_items(probes, path, open, text, items, k, edits) == Expanded::Failed(
            Failure::Unresolved(path, candidates(path, (open.len() - 1) as nat, items[k as int]->Some_0.name@, None)),
        ),
        candidates(path, (open.len() - 1) as nat, items[k as int]->Some_0.name@, None).len() == 2,
{
    let cands = candidates(path, (open.len() - 1) as nat, items[k as int]->Some_0.name@, None);
    assert(cands.drop_first().drop_first() =~= Seq::<Seq<char>>::empty());
    assert(cands.drop_first()[0] == cands[1]);
    assert(resolved(probes, cands.drop_first().drop_first()) == Resolved::Absent);
    assert(resolved(probes, cands.drop_first()) == Resolved::Absent);
    assert(resolved(probes, cands) == Resolved::Absent);
}

/// A file that is reached again from inside its own expansion fails with a
/// cycle error instead of being expanded without end.
pub proof fn lemma_cycle(probes: Seq<Probe>, path: Seq<char>, open: Seq<Seq<char>>)
    requires
        find_probe(probes, path, 0) matches Some(i) && probes[i].file matches Some(f) && open.contains(f.key@),
    ensures
        expansion(probes, path, open) == Expanded::Failed(Failure::Cycle(path)),
{
}

/// A child that is not re-indented stands unchanged in its replacement.
proof fn lemma_wrapped_keeps(child: Seq<char>)
    requires
        !safe_to_indent(child),
    ensures
        occurs_in(child, wrapped(child)),
{
    assert(normalized(child, 1) == child);
    let w = wrapped(child);
    let i: int = 3;
    assert(w.subrange(i, i + child.len()) =~= child);
}

/// A child whose text holds a literal that spans lines goes in unchanged:
/// where an edit's replacement wraps such a child, the child's text stands,
/// byte for byte, in the spliced output.
pub proof fn lemma_multiline_literal_kept(t: Seq<char>, edits: Seq<EditView>, k: int, child: Seq<char>)
    requires
        0 <= k < edits.len(),
        edits[k].2 == wrapped(child),
        !safe_to_indent(child),
    ensures
        occurs_in(child, spliced(t, edits, 0)),
{
    lemma_wrapped_keeps(child);
    lemma_replacement_kept(t, edits, 0, k);
    lemma_occurs_trans(child, wrapped(child), spliced(t, edits, 0));
}

/// `needle` stands in `quoted_list(items)` for each of `items`.
pub proof fn lemma_listed(items: Seq<Seq<char>>, j: int)
    requires
        0 <= j < items.len(),
    ensures
        occurs_in(items[j], quoted_list(items)),
    decreases items.len(),
{
    let rest = items.drop_first();
    if j == 0 {
        lemma_occurs_self(items[0]);
        lemma_occurs_around(items[0], seq!['"'], items[0], seq!['"']);
        if items.len() > 1 {
            lemma_occurs_around(items[0], seq![], quoted(items[0]), ", "@ + quoted_list(rest));
            assert(seq![] + quoted(items[0]) + (", "@ + quoted_list(rest)) =~= quoted_list(items));
        }
    } else {
        lemma_listed(rest, j - 1);
        lemma_occurs_around(items[j], quoted(items[0]) + ", "@, quoted_list(rest), seq![]);
        assert(quoted(items[0]) + ", "@ + quoted_list(rest) + seq![] =~= quoted_list(items));
    }
}

/// The message of an unresolved module names every candidate path and the
/// declaring file.
pub proof fn lemma_unresolved_message(file: Seq<char>, cands: Seq<Seq<char>>)
    ensures
        forall|j: int| 0 <= j < cands.len() ==> occurs_in(
            #[trigger] cands[j],
            failure_message(Failure::Unresolved(file, cands)),
        ),
        occurs_in(file, failure_message(Failure::Unresolved(file, cands))),
{
    let head = "one of ["@;
    let middle = "] does not exist (module declared in `"@;
    let tail = "`)"@;
    let msg = failure_message(Failure::Unresolved(file, cands));
    assert forall|j: int| 0 <= j < cands.len() implies occurs_in(#[trigger] cands[j], msg) by {
        lemma_listed(cands, j);
        lemma_occurs_around(cands[j], head, quoted_list(cands), middle + file + tail);
        assert(head + quoted_list(cands) + (middle + file + tail) =~= msg);
    }
    lemma_occurs_self(file);
    lemma_occurs_around(file, head + quoted_list(cands) + middle, file, tail);
}

/// Resolution asks only about a candidate that has not been probed.
pub proof fn lemma_unknown_unprobed(probes: Seq<Probe>, cands: Seq<Seq<char>>)
    ensures
        resolved(probes, cands) matches Resolved::Unknown(p) ==> find_probe(probes, p, 0) is None,
    decreases cands.len(),
{
    if cands.len() > 0 {
        lemma_unknown_unprobed(probes, cands.drop_first());
    }
}

/// An expansion asks only for a path that has not been probed yet: each
/// probe it asks for adds to what is known.
pub proof fn lemma_needs_unprobed(probes: Seq<Probe>, path: Seq<char>, open: Seq<Seq<char>>)
    ensures
        expansion(probes, path, open) matches Expanded::Needs(p) ==> find_probe(probes, p, 0) is None,
    decreases probes.len() - open.len(), 1int, 0int,
{
    if let Some(i) = find_probe(probes, path, 0) {
        if let Some(f) = probes[i].file {
            if !open.contains(f.key@) {
                if let Ok(text) = f.text {
                    if let Ok(items) = file_items(text@) {
                        lemma_needs_unprobed_items(probes, path, open.push(f.key@), text@, items, 0, seq![]);
                    }
                }
            }
        }
    }
}

/// An expansion of a file's items asks only for a path that has not been
/// probed yet.
pub proof fn lemma_needs_unprobed_items(
    probes: Seq<Probe>,
    path: Seq<char>,
    open: Seq<Seq<char>>,
    text: Seq<char>,
    items: Seq<Option<ModItem>>,
    k: nat,
    edits: Seq<EditView>,
)
    ensures
        expanded_items(probes, path, open, text, items, k, edits) matches Expanded::Needs(p)
            ==> find_probe(probes, p, 0) is None,
    decreases probes.len() - open.len() + 1, 0int, items.len() - k,
{
    if k < items.len() {
        if !out_of_line(items[k as int]) {
            lemma_needs_unprobed_items(probes, path, open, text, items, k + 1, edits);
        } else {
            let m = items[k as int]->Some_0;
            let (s, e) = m.semi->Some_0;
            let start = offset_at(text, s.line as nat, s.column as nat);
            let end = offset_at(text, e.line as nat, e.column as nat);
            if !(start is None || end is None || start->Some_0 < last_end(edits) || end->Some_0
                < start->Some_0) {
                let cands = candidates(path, (open.len() - 1) as nat, m.name@, path_override(m.attrs@));
                lemma_unknown_unprobed(probes, cands);
                if let Resolved::Found(c) = resolved(probes, cands) {
                    if open.len() < probes.len() {
                        lemma_needs_unprobed(probes, probes[c].path@, open);
                        if let Expanded::Text(child) = expansion(probes, probes[c].path@, open) {
                            lemma_needs_unprobed_items(
                                probes,
                                path,
                                open,
                                text,
                                items,
                                k + 1,
                                edits.push((start->Some_0, end->Some_0, wrapped(child))),
                            );
                        }
                    }
                }
            }
        }
    }
}

/// Where the expansion of a file's items succeeds, every replacement made
/// on the way, one of `edits` or a later one, stands unchanged in the result.
pub proof fn lemma_expansion_keeps_edits(
    probes: Seq<Probe>,
    path: Seq<char>,
    open: Seq<Seq<char>>,
    text: Seq<char>,
    items: Seq<Option<ModItem>>,
    k: nat,
    edits: Seq<EditView>,
    m: int,
)
    requires
        0 <= m < edits.len(),
    ensures
        expanded_items(probes, path, open, text, items, k, edits) matches Expanded::Text(out)
            ==> occurs_in(edits[m].2, out),
    decreases items.len() - k,
{
    if k >= items.len() {
        lemma_replacement_kept(text, edits, 0, m);
    } else if !out_of_line(items[k as int]) {
        lemma_expansion_keeps_edits(probes, path, open, text, items, k + 1, edits, m);
    } else {
        let it = items[k as int]->Some_0;
        let (s, e) = it.semi->Some_0;
        let start = offset_at(text, s.line as nat, s.column as nat);
        let end = offset_at(text, e.line as nat, e.column as nat);
        if !(start is None || end is None || start->Some_0 < last_end(edits) || end->Some_0
            < start->Some_0) {
            let cands = candidates(path, (open.len() - 1) as nat, it.name@, path_override(it.attrs@));
            if let Resolved::Found(c) = resolved(probes, cands) {
                if open.len() < probes.len() {
                    if let Expanded::Text(child) = expansion(probes, probes[c].path@, open) {
                        let pushed = edits.push((start->Some_0, end->Some_0, wrapped(child)));
                        assert(pushed[m] == edits[m]);
                        lemma_expansion_keeps_edits(probes, path, open, text, items, k + 1, pushed, m);
                    }
                }
            }
        }
    }
}

/// A child whose text holds a literal that spans lines stands unchanged,
/// byte for byte, in the successful expansion of the file that includes it.
pub proof fn lemma_multiline_child_in_expansion(
    probes: Seq<Probe>,
    path: Seq<char>,
    open: Seq<Seq<char>>,
    text: Seq<char>,
    items: Seq<Option<ModItem>>,
    k: nat,
    edits: Seq<EditView>,
    m: int,
    child: Seq<char>,
)
    requires
        0 <= m < edits.len(),
        edits[m].2 == wrapped(child),
        !safe_to_indent(child),
    ensures
        expanded_items(probes, path, open, text, items, k, edits) matches Expanded::Text(out)
            ==> occurs_in(child, out),
{
    lemma_wrapped_keeps(child);
    lemma_expansion_keeps_edits(probes, path, open, text, items, k, edits, m);
    if let Expanded::Text(out) = expanded_items(probes, path, open, text, items, k, edits) {
        lemma_occurs_trans(child, wrapped(child), out);
    }
}

/// The key of the readable file at `path`.
pub open spec fn key_of(probes: Seq<Probe>, path: Seq<char>) -> Seq<char> {
    readable(probes, path)->Some_0.0
}

/// The text of the readable file at `path`.
pub open spec fn text_of(probes: Seq<Probe>, path: Seq<char>) -> Seq<char> {
    readable(probes, path)->Some_0.1
}

/// The `k`-th top-level item of the readable file at `path`, as a `mod` item.
pub open spec fn decl_at(probes: Seq<Probe>, path: Seq<char>, k: nat) -> ModItem {
    items_at(probes, path)[k as int]->Some_0
}

/// The readable file at `path` parses, and its one out-of-line module
/// declaration is item `k`, whose `;` span fits its text.
pub open spec fn declares_one(probes: Seq<Probe>, path: Seq<char>, k: nat) -> bool {
    &&& readable(probes, path) is Some
    &&& file_items(text_of(probes, path)) is Ok
    &&& k < items_at(probes, path).len()
    &&& out_of_line(items_at(probes, path)[k as int])
    &&& forall|j: int|
        0 <= j < items_at(probes, path).len() && j != k ==> !out_of_line(
            #[trigger] items_at(probes, path)[j],
        )
    &&& semi_offsets(text_of(probes, path), decl_at(probes, path, k)) is Some
}

/// The probe that the one declaration of the file at `path`, reached
/// through `open`, resolves to.
pub open spec fn resolves_to(probes: Seq<Probe>, path: Seq<char>, open: Seq<Seq<char>>, k: nat, c: int) -> bool {
    resolved(
        probes,
        candidates(path, open.len(), decl_at(probes, path, k).name@, path_override(decl_at(probes, path, k).attrs@)),
    ) == Resolved::Found(c)
}

/// Where the file at `path`, reached through `open`, declares one
/// out-of-line module that resolves to probe `c`, and `c` expands to
/// `child`, the file expands to its text with that declaration's `;`
/// replaced by `child` in braces.
pub proof fn lemma_inline_one(probes: Seq<Probe>, path: Seq<char>, open: Seq<Seq<char>>, k: nat, c: int, child: Seq<char>)
    requires
        0 <= c < probes.len(),
        declares_one(probes, path, k),
        !open.contains(key_of(probes, path)),
        open.len() + 1 < probes.len(),
        resolves_to(probes, path, open, k, c),
        expansion(probes, probes[c].path@, open.push(key_of(probes, path))) == Expanded::Text(child),
    ensures
        expansion(probes, path, open) == Expanded::Text(
            inlined(text_of(probes, path), decl_at(probes, path, k), child),
        ),
{
    let key = key_of(probes, path);
    let text = text_of(probes, path);
    let items = items_at(probes, path);
    let inner = open.push(key);
    lemma_skip(probes, path, inner, text, items, 0, k, seq![]);
    let m = decl_at(probes, path, k);
    let (s, e) = semi_offsets(text, m)->Some_0;
    let edit = (s, e, wrapped(child));
    lemma_skip(probes, path, inner, text, items, k + 1, items.len(), seq![edit]);
    assert(Seq::<EditView>::empty().push(edit) =~= seq![edit]);
    assert(seq![edit].drop_first() =~= Seq::<EditView>::empty());
    assert(expansion(probes, path, open) == expanded_items(probes, path, inner, text, items, 0, seq![]));
    assert(expanded_items(probes, path, inner, text, items, k, seq![]) == expanded_items(
        probes,
        path,
        inner,
        text,
        items,
        k + 1,
        seq![edit],
    ));
    assert(spliced(text, Seq::<EditView>::empty(), e) == text.subrange(e, text.len() as int));
    assert(spliced(text, seq![edit], 0) == text.subrange(0, s) + wrapped(child) + spliced(
        text,
        Seq::<EditView>::empty(),
        e,
    ));
}

/// The probe that resolution finds is the first probe of its own path.
pub proof fn lemma_found_is_first(probes: Seq<Probe>, cands: Seq<Seq<char>>)
    ensures
        resolved(probes, cands) matches Resolved::Found(i) ==> 0 <= i < probes.len() && find_probe(
            probes,
            probes[i].path@,
            0,
        ) == Some(i) && probes[i].file is Some,
    decreases cands.len(),
{
    if cands.len() > 0 {
        lemma_find_probe(probes, cands[0], 0);
        lemma_found_is_first(probes, cands.drop_first());
    }
}

/// Three distinct indices below `n` need `n` to be at least three.
proof fn lemma_three(i: int, j: int, c: int, n: int)
    requires
        0 <= i < n,
        0 <= j < n,
        0 <= c < n,
        i != j,
        j != c,
        i != c,
    ensures
        n >= 3,
{
}

/// A path attribute decides the file of a root's one declaration: where
/// `alt`, the value joined to the root's directory, is a readable file that
/// declares no module, the root expands to its text with the declaration's
/// `;` replaced by the text of `alt` in braces, whatever other files exist.
pub proof fn lemma_path_attribute_expansion(probes: Seq<Probe>, path: Seq<char>, k: nat, alt: Seq<char>)
    requires
        declares_one(probes, path, k),
        path_override(decl_at(probes, path, k).attrs@) is Some,
        alt == joined(with_file_name_of(path, ""@), path_override(decl_at(probes, path, k).attrs@)->Some_0),
        without_declarations(probes, alt),
        key_of(probes, alt) != key_of(probes, path),
    ensures
        expansion(probes, path, seq![]) == Expanded::Text(
            inlined(text_of(probes, path), decl_at(probes, path, k), text_of(probes, alt)),
        ),
{
    let m = decl_at(probes, path, k);
    let v = path_override(m.attrs@)->Some_0;
    lemma_path_attribute(probes, path, 0, m.name@, v);
    lemma_find_probe(probes, alt, 0);
    lemma_find_probe(probes, path, 0);
    let c = find_probe(probes, alt, 0)->Some_0;
    assert(c != find_probe(probes, path, 0)->Some_0);
    let open = seq![key_of(probes, path)];
    assert(Seq::<Seq<char>>::empty().push(key_of(probes, path)) =~= open);
    assert(!open.contains(key_of(probes, alt))) by {
        if open.contains(key_of(probes, alt)) {
            let j = choose|j: int| 0 <= j < open.len() && open[j] == key_of(probes, alt);
            assert(open[j] == key_of(probes, path));
        }
    }
    lemma_no_declarations(probes, alt, open);
    lemma_inline_one(probes, path, seq![], k, c, text_of(probes, alt));
}

/// A child whose expansion holds a literal that spans lines is inlined
/// unchanged: the root's expansion holds the child's expansion byte for byte.
pub proof fn lemma_literal_kept_in_root(probes: Seq<Probe>, path: Seq<char>, k: nat, c: int, child: Seq<char>)
    requires
        0 <= c < probes.len(),
        declares_one(probes, path, k),
        probes.len() > 1,
        resolves_to(probes, path, seq![], k, c),
        expansion(probes, probes[c].path@, seq![key_of(probes, path)]) == Expanded::Text(child),
        !safe_to_indent(child),
    ensures
        expansion(probes, path, seq![]) matches Expanded::Text(out) && occurs_in(child, out),
{
    assert(Seq::<Seq<char>>::empty().push(key_of(probes, path)) =~= seq![key_of(probes, path)]);
    lemma_inline_one(probes, path, seq![], k, c, child);
    let text = text_of(probes, path);
    let (s, e) = semi_offsets(text, decl_at(probes, path, k))->Some_0;
    lemma_wrapped_keeps(child);
    lemma_occurs_self(wrapped(child));
    lemma_occurs_around(wrapped(child), text.subrange(0, s), wrapped(child), text.subrange(e, text.len() as int));
    lemma_occurs_trans(child, wrapped(child), inlined(text, decl_at(probes, path, k), child));
}

/// Where the root file's first out-of-line declaration, item `k`, has no
/// `path` attribute and neither conventional file for it exists, the root's
/// expansion fails, and its message names both candidates and the root.
pub proof fn lemma_unresolved_expansion(probes: Seq<Probe>, path: Seq<char>, k: nat)
    requires
        readable(probes, path) is Some,
        file_items(text_of(probes, path)) is Ok,
        k < items_at(probes, path).len(),
        out_of_line(items_at(probes, path)[k as int]),
        forall|j: int| 0 <= j < k ==> !out_of_line(#[trigger] items_at(probes, path)[j]),
        path_override(decl_at(probes, path, k).attrs@) is None,
        semi_offsets(text_of(probes, path), decl_at(probes, path, k)) is Some,
        probed_missing(probes, candidates(path, 0, decl_at(probes, path, k).name@, None)[0]),
        probed_missing(probes, candidates(path, 0, decl_at(probes, path, k).name@, None)[1]),
    ensures
        expansion(probes, path, seq![]) == Expanded::Failed(
            Failure::Unresolved(path, candidates(path, 0, decl_at(probes, path, k).name@, None)),
        ),
        occurs_in(
            candidates(path, 0, decl_at(probes, path, k).name@, None)[0],
            failure_message(Failure::Unresolved(path, candidates(path, 0, decl_at(probes, path, k).name@, None))),
        ),
        occurs_in(
            candidates(path, 0, decl_at(probes, path, k).name@, None)[1],
            failure_message(Failure::Unresolved(path, candidates(path, 0, decl_at(probes, path, k).name@, None))),
        ),
        occurs_in(
            path,
            failure_message(Failure::Unresolved(path, candidates(path, 0, decl_at(probes, path, k).name@, None))),
        ),
{
    let inner = seq![key_of(probes, path)];
    assert(Seq::<Seq<char>>::empty().push(key_of(probes, path)) =~= inner);
    let text = text_of(probes, path);
    let items = items_at(probes, path);
    lemma_skip(probes, path, inner, text, items, 0, k, seq![]);
    lemma_unresolved(probes, path, inner, text, items, k, seq![]);
    let cands = candidates(path, 0, decl_at(probes, path, k).name@, None);
    lemma_unresolved_message(path, cands);
    assert(occurs_in(cands[0], failure_message(Failure::Unresolved(path, cands))));
    assert(occurs_in(cands[1], failure_message(Failure::Unresolved(path, cands))));
}

/// A root whose one declaration leads to a file whose one declaration
/// resolves back to a file with the root's key fails with a cycle error,
/// instead of expanding without end.
pub proof fn lemma_cycle_expansion(probes: Seq<Probe>, path: Seq<char>, ka: nat, ib: int, kb: nat, ic: int)
    requires
        0 <= ib < probes.len(),
        0 <= ic < probes.len(),
        declares_one(probes, path, ka),
        resolves_to(probes, path, seq![], ka, ib),
        declares_one(probes, probes[ib].path@, kb),
        key_of(probes, probes[ib].path@) != key_of(probes, path),
        resolves_to(probes, probes[ib].path@, seq![key_of(probes, path)], kb, ic),
        probes[ic].file->Some_0.key@ == key_of(probes, path),
    ensures
        expansion(probes, path, seq![]) == Expanded::Failed(Failure::Cycle(probes[ic].path@)),
{
    let b = probes[ib].path@;
    let ka_key = key_of(probes, path);
    let kb_key = key_of(probes, b);
    lemma_found_is_first(
        probes,
        candidates(path, 0, decl_at(probes, path, ka).name@, path_override(decl_at(probes, path, ka).attrs@)),
    );
    lemma_found_is_first(
        probes,
        candidates(b, 1, decl_at(probes, b, kb).name@, path_override(decl_at(probes, b, kb).attrs@)),
    );
    lemma_find_probe(probes, path, 0);
    assert(find_probe(probes, path, 0)->Some_0 != ib);
    let open_a = seq![ka_key];
    assert(Seq::<Seq<char>>::empty().push(ka_key) =~= open_a);
    let open_b = open_a.push(kb_key);
    assert(!open_a.contains(kb_key)) by {
        if open_a.contains(kb_key) {
            let j = choose|j: int| 0 <= j < open_a.len() && open_a[j] == kb_key;
            assert(open_a[j] == ka_key);
        }
    }
    assert(open_b[0] == ka_key);
    let failed = Expanded::Failed(Failure::Cycle(probes[ic].path@));
    let (ta, tb) = (text_of(probes, path), text_of(probes, b));
    let (ia, ib_items) = (items_at(probes, path), items_at(probes, b));
    lemma_skip(probes, b, open_b, tb, ib_items, 0, kb, seq![]);
    if open_b.len() < probes.len() {
        assert(expansion(probes, probes[ic].path@, open_b) == failed);
    }
    assert(expanded_items(probes, b, open_b, tb, ib_items, kb, seq![]) == failed);
    assert(expansion(probes, b, open_a) == failed);
    lemma_skip(probes, path, open_a, ta, ia, 0, ka, seq![]);
    assert(expanded_items(probes, path, open_a, ta, ia, ka, seq![]) == failed);
}

/// Indenting text re-indents each part of it that starts a line as if on its own.
pub proof fn lemma_indent_inner(x: Seq<char>, y: Seq<char>, z: Seq<char>, levels: nat)
    requires
        x.len() > 0,
        x.last() == '\n',
    ensures
        occurs_in(indented(y, levels), indented(x + y + z, levels)),
{
    let p = spaces(levels);
    assert(x + y + z =~= x + (y + z));
    lemma_prefixed_append(x, y + z, p, true);
    lemma_prefixed_append(y, z, p, true);
    let a = prefixed(x, p, true);
    let c = prefixed(z, p, starts_after(y, true));
    assert(starts_after(x, true));
    assert(indented(x + y + z, levels) == a + (indented(y, levels) + c));
    assert(a + (indented(y, levels) + c) =~= a + indented(y, levels) + c);
    lemma_occurs_self(indented(y, levels));
    lemma_occurs_around(indented(y, levels), a, indented(y, levels), c);
}

/// Transitive inlining: where the root declares one module, resolving to a
/// file `b` that declares one module, resolving to a file `c` that declares
/// none, the three being distinct and safe to re-indent, the root expands to
/// its text with `b`'s expansion inlined, which holds `c`'s text inlined; and
/// `c`'s text stands there indented by two levels (eight spaces).
pub proof fn lemma_transitive(probes: Seq<Probe>, path: Seq<char>, ka: nat, ib: int, kb: nat, ic: int)
    requires
        0 <= ib < probes.len(),
        0 <= ic < probes.len(),
        declares_one(probes, path, ka),
        resolves_to(probes, path, seq![], ka, ib),
        declares_one(probes, probes[ib].path@, kb),
        resolves_to(probes, probes[ib].path@, seq![key_of(probes, path)], kb, ic),
        without_declarations(probes, probes[ic].path@),
        key_of(probes, probes[ib].path@) != key_of(probes, path),
        key_of(probes, probes[ic].path@) != key_of(probes, path),
        key_of(probes, probes[ic].path@) != key_of(probes, probes[ib].path@),
        safe_to_indent(text_of(probes, probes[ic].path@)),
        safe_to_indent(
            inlined(
                text_of(probes, probes[ib].path@),
                decl_at(probes, probes[ib].path@, kb),
                text_of(probes, probes[ic].path@),
            ),
        ),
    ensures
        expansion(probes, path, seq![]) == Expanded::Text(
            inlined(
                text_of(probes, path),
                decl_at(probes, path, ka),
                inlined(
                    text_of(probes, probes[ib].path@),
                    decl_at(probes, probes[ib].path@, kb),
                    text_of(probes, probes[ic].path@),
                ),
            ),
        ),
        occurs_in(
            indented(text_of(probes, probes[ic].path@), 2),
            inlined(
                text_of(probes, path),
                decl_at(probes, path, ka),
                inlined(
                    text_of(probes, probes[ib].path@),
                    decl_at(probes, probes[ib].path@, kb),
                    text_of(probes, probes[ic].path@),
                ),
            ),
        ),
{
    let b = probes[ib].path@;
    let c = probes[ic].path@;
    let (ka_key, kb_key, kc_key) = (key_of(probes, path), key_of(probes, b), key_of(probes, c));
    lemma_found_is_first(
        probes,
        candidates(path, 0, decl_at(probes, path, ka).name@, path_override(decl_at(probes, path, ka).attrs@)),
    );
    lemma_found_is_first(
        probes,
        candidates(b, 1, decl_at(probes, b, kb).name@, path_override(decl_at(probes, b, kb).attrs@)),
    );
    lemma_find_probe(probes, path, 0);
    let ia = find_probe(probes, path, 0)->Some_0;
    assert(ia != ib && ia != ic && ib != ic);
    lemma_three(ia, ib, ic, probes.len() as int);
    let open_a = seq![ka_key];
    assert(Seq::<Seq<char>>::empty().push(ka_key) =~= open_a);
    let open_b = open_a.push(kb_key);
    assert(!open_a.contains(kb_key)) by {
        if open_a.contains(kb_key) {
            let j = choose|j: int| 0 <= j < open_a.len() && open_a[j] == kb_key;
            assert(open_a[j] == ka_key);
        }
    }
    assert(!open_b.contains(kc_key)) by {
        if open_b.contains(kc_key) {
            let j = choose|j: int| 0 <= j < open_b.len() && open_b[j] == kc_key;
            assert(open_b[j] == ka_key || open_b[j] == kb_key);
        }
    }
    let tc = text_of(probes, c);
    lemma_no_declarations(probes, c, open_b);
    lemma_inline_one(probes, b, open_a, kb, ic, tc);
    let bexp = inlined(text_of(probes, b), decl_at(probes, b, kb), tc);
    lemma_inline_one(probes, path, seq![], ka, ib, bexp);
    let out = inlined(text_of(probes, path), decl_at(probes, path, ka), bexp);
    // Where `c`'s text stands in `b`'s expansion, and then in the root's.
    let tb = text_of(probes, b);
    let (sb, eb) = semi_offsets(tb, decl_at(probes, b, kb))->Some_0;
    let close_c = if indented(tc, 1).len() == 0 || indented(tc, 1).last() == '\n' {
        seq!['}']
    } else {
        seq!['\n', '}']
    };
    let x = tb.subrange(0, sb) + seq![' ', '{', '\n'];
    let z = close_c + tb.subrange(eb, tb.len() as int);
    assert(bexp =~= x + indented(tc, 1) + z);
    lemma_indent_inner(x, indented(tc, 1), z, 1);
    lemma_indent_twice(tc, 1, 1);
    let ta = text_of(probes, path);
    let (sa, ea) = semi_offsets(ta, decl_at(probes, path, ka))->Some_0;
    let close_b = if indented(bexp, 1).len() == 0 || indented(bexp, 1).last() == '\n' {
        seq!['}']
    } else {
        seq!['\n', '}']
    };
    lemma_occurs_self(indented(bexp, 1));
    lemma_occurs_around(indented(bexp, 1), seq![' ', '{', '\n'], indented(bexp, 1), close_b);
    lemma_occurs_trans(indented(tc, 2), indented(bexp, 1), wrapped(bexp));
    lemma_occurs_self(wrapped(bexp));
    lemma_occurs_around(wrapped(bexp), ta.subrange(0, sa), wrapped(bexp), ta.subrange(ea, ta.len() as int));
    lemma_occurs_trans(indented(tc, 2), wrapped(bexp), out);
}

} // verus!
