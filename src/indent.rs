//! Re-indenting expanded text, unless that would change a literal.
use vstd::prelude::*;
use crate::text::{push_all, string_of};
use proc_macro2::TokenStream;
use std::str::FromStr;
use proc_macro2::TokenTree::{Group, Literal};

verus! {

/// `t` with `prefix` put before each character that starts a line and is not
/// itself a `'\n'`; `at_start` says whether `t[0]` starts a line.
pub open spec fn prefixed(t: Seq<char>, prefix: Seq<char>, at_start: bool) -> Seq<char>
    decreases t.len(),
{
    if t.len() == 0 {
        seq![]
    } else {
        let c = t[0];
        let head = if at_start && c != '\n' {
            prefix.push(c)
        } else {
            seq![c]
        };
        head + prefixed(t.drop_first(), prefix, c == '\n')
    }
}

/// The indentation of `levels` nesting levels: four spaces each.
pub open spec fn spaces(levels: nat) -> Seq<char> {
    Seq::new(4 * levels, |i: int| ' ')
}

/// Every non-empty line of `t` indented by `levels` levels; empty lines stay empty.
pub open spec fn indented(t: Seq<char>, levels: nat) -> Seq<char> {
    prefixed(t, spaces(levels), true)
}

/// A token as the tokenizer reports it, with what indentation depends on.
pub enum TokenShape {
    /// A delimited group, with the tokens inside it.
    Group(Vec<TokenShape>),
    /// A literal, with the lines on which it starts and ends.
    Literal(usize, usize),
    /// An identifier or a punctuation mark.
    Other,
}

/// The tokens of `code`, as one group holding the top-level tokens; `None`
/// when `code` does not tokenize.
pub uninterp spec fn token_tree(code: Seq<char>) -> Option<TokenShape>;

/// Relies on proc-macro2's tokenizer (`TokenStream: FromStr`, with span
/// locations on): each token tree of `code` becomes one `TokenShape`, a group
/// with the shapes of the trees inside it, a literal with the start and end
/// line of its span. The result depends on `code` alone.
#[verifier::external_body]
fn tokenize(code: &str) -> (r: Option<TokenShape>)
    ensures
        r is None <==> token_tree(code@) is None,
        r matches Some(t) ==> token_tree(code@) == Some(t),
{
    let mut open = vec![(TokenStream::from_str(code).ok()?.into_iter(), vec![])];
    loop {
        let (trees, shapes) = open.last_mut()?;
        match trees.next() {
            Some(Group(g)) => open.push((g.stream().into_iter(), vec![])),
            Some(Literal(l)) => shapes.push(TokenShape::Literal(l.span().start().line, l.span().end().line)),
            Some(_) => shapes.push(TokenShape::Other),
            None => match (TokenShape::Group(open.pop()?.1), open.last_mut()) {
                (done, Some(up)) => up.1.push(done),
                (done, None) => return Some(done),
            },
        }
    }
}

/// The number of tokens directly inside `t`, when it is a group.
pub open spec fn group_len(t: TokenShape) -> nat {
    match t {
        TokenShape::Group(v) => v@.len(),
        _ => 0,
    }
}

/// No literal in `t`, at any depth, spans more than one line.
pub open spec fn shape_safe(t: TokenShape) -> bool
    decreases t, group_len(t) + 1,
{
    match t {
        TokenShape::Group(_) => items_safe(t, 0),
        TokenShape::Literal(first, last) => first == last,
        TokenShape::Other => true,
    }
}

/// The tokens of group `t` from the `k`-th on are `shape_safe`.
pub open spec fn items_safe(t: TokenShape, k: int) -> bool
    decreases t, group_len(t) - k,
{
    match t {
        TokenShape::Group(v) => if k < 0 || k >= v@.len() {
            true
        } else {
            shape_safe(v@[k]) && items_safe(t, k + 1)
        },
        _ => true,
    }
}

/// `code` tokenizes, and no literal in it, at any depth, spans more than one line.
pub open spec fn safe_to_indent(code: Seq<char>) -> bool {
    token_tree(code) matches Some(t) && shape_safe(t)
}

/// Decides `shape_safe` by walking `t`.
fn shape_is_safe(t: &TokenShape) -> (r: bool)
    ensures
        r == shape_safe(*t),
    decreases t,
{
    match t {
        TokenShape::Group(v) => {
            let mut k: usize = 0;
            while k < v.len()
                invariant
                    k <= v@.len(),
                    *t == TokenShape::Group(*v),
                    items_safe(*t, k as int) == items_safe(*t, 0),
                decreases v@.len() - k,
            {
                if !shape_is_safe(&v[k]) {
                    return false;
                }
                k = k + 1;
            }
            true
        },
        TokenShape::Literal(first, last) => *first == *last,
        TokenShape::Other => true,
    }
}

/// Decides `safe_to_indent` by tokenizing `code`.
pub fn is_safe_to_indent(code: &Vec<char>) -> (r: bool)
    ensures
        r == safe_to_indent(code@),
{
    let s = string_of(code);
    match tokenize(s.as_str()) {
        None => false,
        Some(t) => shape_is_safe(&t),
    }
}

/// Indents every non-empty line of `t` by `levels` levels (four spaces each).
pub fn indent(t: &Vec<char>, levels: usize) -> (r: Vec<char>)
    requires
        levels <= usize::MAX / 4,
    ensures
        r@ == indented(t@, levels as nat),
{
    let mut prefix: Vec<char> = Vec::new();
    let width: usize = 4 * levels;
    while prefix.len() < width
        invariant
            prefix@.len() <= width,
            width == 4 * levels,
            forall|j: int| 0 <= j < prefix@.len() ==> prefix@[j] == ' ',
        decreases width - prefix@.len(),
    {
        prefix.push(' ');
    }
    assert(prefix@ =~= spaces(levels as nat));
    let mut out: Vec<char> = Vec::new();
    let mut i: usize = 0;
    let mut at_start = true;
    assert(t@.subrange(0, t@.len() as int) =~= t@);
    while i < t.len()
        invariant
            i <= t@.len(),
            prefix@ == spaces(levels as nat),
            at_start == (i == 0 || t@[i - 1] == '\n'),
            out@ + prefixed(t@.subrange(i as int, t@.len() as int), prefix@, at_start)
                == indented(t@, levels as nat),
        decreases t@.len() - i,
    {
        let c = t[i];
        proof {
            let rest = t@.subrange(i as int, t@.len() as int);
            assert(rest.drop_first() =~= t@.subrange(i + 1, t@.len() as int));
            assert(rest[0] == c);
        }
        if at_start && c != '\n' {
            push_all(&mut out, &prefix);
        }
        out.push(c);
        at_start = c == '\n';
        i = i + 1;
    }
    proof {
        assert(t@.subrange(t@.len() as int, t@.len() as int) =~= Seq::<char>::empty());
        assert(out@ =~= indented(t@, levels as nat));
    }
    out
}

/// `code` re-indented by `levels` levels where that is safe, else unchanged.
pub open spec fn normalized(code: Seq<char>, levels: nat) -> Seq<char> {
    if safe_to_indent(code) {
        indented(code, levels)
    } else {
        code
    }
}

/// Indents `code` by `levels` levels, unless it fails to tokenize or holds a
/// literal that spans lines: then it is returned unchanged.
pub fn indent_code(code: &Vec<char>, levels: usize) -> (r: Vec<char>)
    requires
        levels <= usize::MAX / 4,
    ensures
        r@ == normalized(code@, levels as nat),
        !safe_to_indent(code@) ==> r@ == code@,
{
    if is_safe_to_indent(code) {
        indent(code, levels)
    } else {
        code.clone()
    }
}

/// Whether the character after `x` starts a line, given `at_start` for `x[0]`.
pub open spec fn starts_after(x: Seq<char>, at_start: bool) -> bool {
    if x.len() == 0 {
        at_start
    } else {
        x.last() == '\n'
    }
}

/// Prefixing lines works piece by piece.
pub proof fn lemma_prefixed_append(x: Seq<char>, y: Seq<char>, prefix: Seq<char>, at_start: bool)
    ensures
        prefixed(x + y, prefix, at_start) == prefixed(x, prefix, at_start) + prefixed(
            y,
            prefix,
            starts_after(x, at_start),
        ),
    decreases x.len(),
{
    if x.len() == 0 {
        assert(x + y =~= y);
    } else {
        assert((x + y).drop_first() =~= x.drop_first() + y);
        lemma_prefixed_append(x.drop_first(), y, prefix, x[0] == '\n');
        if x.len() > 1 {
            assert(x.drop_first().last() == x.last());
        }
    }
}

/// Text in which no line starts after the first character is left as it is.
pub proof fn lemma_prefixed_inside_line(x: Seq<char>, prefix: Seq<char>)
    requires
        forall|i: int| 0 <= i < x.len() - 1 ==> x[i] != '\n',
    ensures
        prefixed(x, prefix, false) == x,
    decreases x.len(),
{
    if x.len() > 0 {
        let rest = x.drop_first();
        if x.len() > 1 {
            assert(x[0] != '\n');
            lemma_prefixed_inside_line(rest, prefix);
        } else {
            assert(prefixed(rest, prefix, x[0] == '\n') =~= seq![]);
        }
        assert(seq![x[0]] + rest =~= x);
    }
}

/// An empty prefix leaves text as it is.
pub proof fn lemma_prefixed_empty(t: Seq<char>, at_start: bool)
    ensures
        prefixed(t, seq![], at_start) == t,
    decreases t.len(),
{
    if t.len() > 0 {
        lemma_prefixed_empty(t.drop_first(), t[0] == '\n');
        assert(seq![t[0]] + t.drop_first() =~= t);
        assert(Seq::<char>::empty().push(t[0]) =~= seq![t[0]]);
    }
}

/// Prefixing the lines of already prefixed text adds the second prefix
/// before the first, where the first is a non-empty run without newlines.
pub proof fn lemma_prefixed_twice(t: Seq<char>, p: Seq<char>, q: Seq<char>, at_start: bool)
    requires
        p.len() > 0,
        forall|i: int| 0 <= i < p.len() ==> p[i] != '\n',
    ensures
        prefixed(prefixed(t, p, at_start), q, at_start) == prefixed(t, q + p, at_start),
    decreases t.len(),
{
    if t.len() > 0 {
        let c = t[0];
        let head = if at_start && c != '\n' {
            p.push(c)
        } else {
            seq![c]
        };
        lemma_prefixed_append(head, prefixed(t.drop_first(), p, c == '\n'), q, at_start);
        assert(head.last() == c);
        lemma_prefixed_twice(t.drop_first(), p, q, c == '\n');
        if at_start && c != '\n' {
            assert(head.drop_first() =~= p.drop_first().push(c));
            lemma_prefixed_inside_line(head.drop_first(), q);
            assert(prefixed(head, q, true) =~= (q + p).push(c));
        } else {
            assert(head.drop_first() =~= seq![]);
            assert(prefixed(head.drop_first(), q, c == '\n') =~= seq![]);
            assert(prefixed(head, q, at_start) =~= seq![c]);
        }
    }
}

/// Indenting by `a` levels and then by `b` levels indents by `a + b` levels:
/// text two modules down ends up eight spaces in.
pub proof fn lemma_indent_twice(t: Seq<char>, a: nat, b: nat)
    ensures
        indented(indented(t, a), b) == indented(t, a + b),
{
    assert(spaces(b) + spaces(a) =~= spaces(a + b));
    if a == 0 {
        assert(spaces(0) =~= seq![]);
        lemma_prefixed_empty(t, true);
    } else {
        lemma_prefixed_twice(t, spaces(a), spaces(b), true);
    }
}

} // verus!
