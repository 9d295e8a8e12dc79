//! A table of contents of the crates of a repository, grouped by directory.
use vstd::prelude::*;
use crate::indent::spaces;
use crate::paths::{components_of, path_components, views};
use crate::text::chars_of;

verus! {

/// Crates by name, with whether each is verified, and the categories (the
/// directories above the crates) below this one, each kept in order of name.
pub struct TableOfContents {
    pub crates: Vec<(String, bool)>,
    pub children: Vec<(String, TableOfContents)>,
}

/// The badge of a crate that is verified.
pub open spec fn check_mark() -> Seq<char> {
    "<img src=\"https://github.githubassets.com/images/icons/emoji/unicode/2714.png\" alt=\"\u{2714}\" title=\"\u{2714}\" width=\"20\" height=\"20\">"@
}

/// The badge of a crate that is not verified.
pub open spec fn warning() -> Seq<char> {
    "<img src=\"https://github.githubassets.com/images/icons/emoji/unicode/26a0.png\" alt=\"\u{26a0}\" title=\"\u{26a0}\" width=\"20\" height=\"20\">"@
}

/// The list item of crate `name` at `depth`.
pub open spec fn crate_item(name: Seq<char>, verified: bool, depth: nat) -> Seq<char> {
    spaces(depth) + "- "@ + (if verified {
        check_mark()
    } else {
        warning()
    }) + " ["@ + name + "](../"@ + name + "/index.html)\n"@
}

/// The list item of category `name` at `depth`.
pub open spec fn category_item(name: Seq<char>, depth: nat) -> Seq<char> {
    spaces(depth) + "- \u{1f4c1} "@ + name + "\n"@
}

/// The list items of `crates`, from the `k`-th on.
pub open spec fn crates_md(crates: Seq<(String, bool)>, k: int, depth: nat) -> Seq<char>
    decreases crates.len() - k,
{
    if k < 0 || k >= crates.len() {
        seq![]
    } else {
        crate_item(crates[k].0@, crates[k].1, depth) + crates_md(crates, k + 1, depth)
    }
}

/// The Markdown list of `toc` at `depth`: its crates, then each category
/// followed by its own list one level deeper.
pub open spec fn md(toc: TableOfContents, depth: nat) -> Seq<char>
    decreases toc, toc.children@.len() + 1,
{
    crates_md(toc.crates@, 0, depth) + children_md(toc, 0, depth)
}

/// The lists of the categories of `toc`, from the `k`-th on.
pub open spec fn children_md(toc: TableOfContents, k: int, depth: nat) -> Seq<char>
    decreases toc, toc.children@.len() - k,
{
    if k < 0 || k >= toc.children@.len() {
        seq![]
    } else {
        category_item(toc.children@[k].0@, depth) + md(toc.children@[k].1, depth + 1)
            + children_md(toc, k + 1, depth)
    }
}

/// Appends the Markdown list of `toc` at `depth` to `out`; `indent` is the
/// indentation of that depth.
fn write_md(toc: &TableOfContents, indent: &String, Ghost(depth): Ghost<nat>, out: &mut String)
    requires
        indent@ == spaces(depth),
    ensures
        final(out)@ == old(out)@ + md(*toc, depth),
    decreases toc,
{
    let ghost start = out@;
    let mut k: usize = 0;
    while k < toc.crates.len()
        invariant
            k <= toc.crates@.len(),
            indent@ == spaces(depth),
            out@ + crates_md(toc.crates@, k as int, depth) == start + crates_md(toc.crates@, 0, depth),
        decreases toc.crates@.len() - k,
    {
        let ghost before = out@;
        let (name, verified) = &toc.crates[k];
        out.append(indent.as_str());
        out.append("- ");
        if *verified {
            out.append("<img src=\"https://github.githubassets.com/images/icons/emoji/unicode/2714.png\" alt=\"\u{2714}\" title=\"\u{2714}\" width=\"20\" height=\"20\">");
        } else {
            out.append("<img src=\"https://github.githubassets.com/images/icons/emoji/unicode/26a0.png\" alt=\"\u{26a0}\" title=\"\u{26a0}\" width=\"20\" height=\"20\">");
        }
        out.append(" [");
        out.append(name.as_str());
        out.append("](../");
        out.append(name.as_str());
        out.append("/index.html)\n");
        assert(out@ =~= before + crate_item(name@, *verified, depth));
        k = k + 1;
    }
    let ghost mid = out@;
    let mut deeper = indent.clone();
    proof {
        reveal_strlit("    ");
    }
    deeper.append("    ");
    assert(deeper@ =~= spaces(depth + 1));
    let mut j: usize = 0;
    while j < toc.children.len()
        invariant
            j <= toc.children@.len(),
            indent@ == spaces(depth),
            deeper@ == spaces(depth + 1),
            out@ + children_md(*toc, j as int, depth) == mid + children_md(*toc, 0, depth),
        decreases toc.children@.len() - j,
    {
        let ghost before = out@;
        let (name, child) = &toc.children[j];
        out.append(indent.as_str());
        out.append("- \u{1f4c1} ");
        out.append(name.as_str());
        out.append("\n");
        assert(out@ =~= before + category_item(name@, depth));
        write_md(child, &deeper, Ghost(depth + 1), out);
        j = j + 1;
    }
    assert(out@ =~= start + md(*toc, depth));
}

impl TableOfContents {
    /// The table as a nested Markdown list: at each level the crates in order
    /// of name, then each category in order of name with its own list
    /// indented four spaces deeper.
    pub fn to_md(&self) -> (r: String)
        ensures
            r@ == md(*self, 0),
    {
        let mut out = String::new();
        let indent = String::new();
        assert(indent@ =~= spaces(0));
        write_md(self, &indent, Ghost(0), &mut out);
        assert(out@ =~= md(*self, 0));
        out
    }
}

/// `a` comes before `b` in the order of strings: character by character,
/// a proper prefix first.
pub open spec fn lex_lt(a: Seq<char>, b: Seq<char>) -> bool
    decreases a.len(),
{
    if b.len() == 0 {
        false
    } else if a.len() == 0 {
        true
    } else if a[0] != b[0] {
        a[0] < b[0]
    } else {
        lex_lt(a.drop_first(), b.drop_first())
    }
}

/// Two strings that agree on their first character and on the rest are equal.
proof fn lemma_same_head_tail(a: Seq<char>, b: Seq<char>)
    requires
        a.len() > 0,
        b.len() > 0,
        a[0] == b[0],
        a.drop_first() == b.drop_first(),
    ensures
        a == b,
{
    assert(a.len() == a.drop_first().len() + 1);
    assert(b.len() == b.drop_first().len() + 1);
    assert forall|i: int| 0 <= i < a.len() implies a[i] == b[i] by {
        if i > 0 {
            assert(a[i] == a.drop_first()[i - 1]);
            assert(b[i] == b.drop_first()[i - 1]);
        }
    }
    assert(a =~= b);
}

/// No string comes before itself, and of two different strings one comes
/// before the other, but not both ways.
pub proof fn lemma_lex_total(a: Seq<char>, b: Seq<char>)
    ensures
        !lex_lt(a, a),
        a != b ==> lex_lt(a, b) || lex_lt(b, a),
        lex_lt(a, b) ==> !lex_lt(b, a),
    decreases a.len(),
{
    if a.len() > 0 && b.len() > 0 {
        lemma_lex_total(a.drop_first(), b.drop_first());
        lemma_lex_total(a.drop_first(), a.drop_first());
        if a[0] == b[0] && a.drop_first() == b.drop_first() {
            lemma_same_head_tail(a, b);
        }
    } else if a.len() > 0 {
        lemma_lex_total(a.drop_first(), a.drop_first());
    } else if b.len() == 0 {
        assert(a =~= b);
    }
}

/// The order of strings is transitive.
pub proof fn lemma_lex_trans(a: Seq<char>, b: Seq<char>, c: Seq<char>)
    requires
        lex_lt(a, b),
        lex_lt(b, c),
    ensures
        lex_lt(a, c),
    decreases a.len(),
{
    if a.len() > 0 && a[0] == b[0] && b[0] == c[0] {
        lemma_lex_trans(a.drop_first(), b.drop_first(), c.drop_first());
    }
}

/// Whether `a` comes before `b` in the order of strings.
fn less_than(a: &String, b: &String) -> (r: bool)
    ensures
        r == lex_lt(a@, b@),
{
    let x = chars_of(a.as_str());
    let y = chars_of(b.as_str());
    let mut i: usize = 0;
    assert(x@.subrange(0, x@.len() as int) =~= x@);
    assert(y@.subrange(0, y@.len() as int) =~= y@);
    while i < x.len() && i < y.len() && x[i] == y[i]
        invariant
            i <= x@.len(),
            i <= y@.len(),
            x@ == a@,
            y@ == b@,
            lex_lt(x@.subrange(i as int, x@.len() as int), y@.subrange(i as int, y@.len() as int))
                == lex_lt(a@, b@),
        decreases x@.len() - i,
    {
        proof {
            let xs = x@.subrange(i as int, x@.len() as int);
            let ys = y@.subrange(i as int, y@.len() as int);
            assert(xs.drop_first() =~= x@.subrange(i + 1, x@.len() as int));
            assert(ys.drop_first() =~= y@.subrange(i + 1, y@.len() as int));
        }
        i = i + 1;
    }
    if i == y.len() {
        false
    } else if i == x.len() {
        true
    } else {
        x[i] < y[i]
    }
}

/// The names of `s` are in strictly increasing order.
pub open spec fn sorted_keys<V>(s: Seq<(String, V)>) -> bool {
    forall|i: int, j: int| #![trigger s[i], s[j]] 0 <= i < j < s.len() ==> lex_lt(s[i].0@, s[j].0@)
}

/// At every level, crates and categories are in strictly increasing order of name.
pub open spec fn wf(toc: TableOfContents) -> bool
    decreases toc,
{
    &&& sorted_keys(toc.crates@)
    &&& sorted_keys(toc.children@)
    &&& forall|i: int| 0 <= i < toc.children@.len() ==> wf(#[trigger] toc.children@[i].1)
}

/// Under the categories `cats`, `toc` lists crate `name` as `verified`.
pub open spec fn holds(toc: TableOfContents, cats: Seq<Seq<char>>, name: Seq<char>, verified: bool) -> bool
    decreases cats.len(),
{
    if cats.len() == 0 {
        exists|i: int|
            0 <= i < toc.crates@.len() && (#[trigger] toc.crates@[i]).0@ == name && toc.crates@[i].1
                == verified
    } else {
        exists|i: int|
            0 <= i < toc.children@.len() && (#[trigger] toc.children@[i]).0@ == cats[0] && holds(
                toc.children@[i].1,
                cats.drop_first(),
                name,
                verified,
            )
    }
}

/// `toc` has the category path `cats` (the empty path is `toc` itself).
pub open spec fn has_category(toc: TableOfContents, cats: Seq<Seq<char>>) -> bool
    decreases cats.len(),
{
    cats.len() == 0 || exists|i: int|
        0 <= i < toc.children@.len() && (#[trigger] toc.children@[i]).0@ == cats[0] && has_category(
            toc.children@[i].1,
            cats.drop_first(),
        )
}

/// `c` is a prefix of `cats`.
pub open spec fn is_prefix(c: Seq<Seq<char>>, cats: Seq<Seq<char>>) -> bool {
    c.len() <= cats.len() && c == cats.subrange(0, c.len() as int)
}

/// In sorted `s`, a name stands at one index at most.
proof fn lemma_unique_key<V>(s: Seq<(String, V)>, i: int, j: int)
    requires
        sorted_keys(s),
        0 <= i < s.len(),
        0 <= j < s.len(),
        s[i].0@ == s[j].0@,
    ensures
        i == j,
{
    lemma_lex_total(s[i].0@, s[j].0@);
}

/// Where `s` is sorted, and `x` comes after the names before `p` and before
/// those from `p` on, `s` with `x` inserted at `p` is sorted.
proof fn lemma_sorted_insert<V>(s: Seq<(String, V)>, p: int, x: (String, V))
    requires
        sorted_keys(s),
        0 <= p <= s.len(),
        forall|i: int| 0 <= i < p ==> lex_lt((#[trigger] s[i]).0@, x.0@),
        forall|i: int| p <= i < s.len() ==> lex_lt(x.0@, (#[trigger] s[i]).0@),
    ensures
        sorted_keys(s.insert(p, x)),
{
    let t = s.insert(p, x);
    assert forall|i: int, j: int| 0 <= i < j < t.len() implies lex_lt(t[i].0@, t[j].0@) by {
        if i < p && j > p {
            assert(t[j] == s[j - 1]);
        } else if i > p {
            assert(t[i] == s[i - 1] && t[j] == s[j - 1]);
        } else if j < p {
            assert(t[i] == s[i] && t[j] == s[j]);
        }
    }
}

/// Replacing an entry of sorted `s` by one of the same name keeps `s` sorted.
proof fn lemma_sorted_update<V>(s: Seq<(String, V)>, p: int, x: (String, V))
    requires
        sorted_keys(s),
        0 <= p < s.len(),
        s[p].0@ == x.0@,
    ensures
        sorted_keys(s.update(p, x)),
{
    let t = s.update(p, x);
    assert forall|i: int, j: int| 0 <= i < j < t.len() implies lex_lt(t[i].0@, t[j].0@) by {
        assert(lex_lt(s[i].0@, s[j].0@));
    }
}

/// Where `key` would go in sorted `s`, and whether it is there already.
fn position<V>(s: &Vec<(String, V)>, key: &String) -> (r: (usize, bool))
    requires
        sorted_keys(s@),
    ensures
        r.0 <= s@.len(),
        forall|i: int| 0 <= i < r.0 ==> lex_lt((#[trigger] s@[i]).0@, key@),
        r.1 == (r.0 < s@.len() && s@[r.0 as int].0@ == key@),
        !r.1 ==> forall|i: int| r.0 <= i < s@.len() ==> lex_lt(key@, (#[trigger] s@[i]).0@),
{
    let mut p: usize = 0;
    while p < s.len() && less_than(&s[p].0, key)
        invariant
            p <= s@.len(),
            sorted_keys(s@),
            forall|i: int| 0 <= i < p ==> lex_lt((#[trigger] s@[i]).0@, key@),
        decreases s@.len() - p,
    {
        p = p + 1;
    }
    let found = p < s.len() && s[p].0.eq(key);
    proof {
        if !found && p < s@.len() {
            lemma_lex_total(s@[p as int].0@, key@);
            assert forall|i: int| p <= i < s@.len() implies lex_lt(key@, (#[trigger] s@[i]).0@) by {
                if i > p {
                    assert(lex_lt(s@[p as int].0@, s@[i].0@));
                    lemma_lex_trans(key@, s@[p as int].0@, s@[i].0@);
                }
            }
        }
    }
    (p, found)
}

/// Lists crate `name` as `verified` directly in `toc`, in order of name.
fn put_crate(toc: &mut TableOfContents, name: &String, verified: bool)
    requires
        wf(*old(toc)),
    ensures
        wf(*final(toc)),
        final(toc).children@ == old(toc).children@,
        forall|n: Seq<char>, w: bool|
            #[trigger] holds(*final(toc), seq![], n, w) == if n == name@ {
                w == verified
            } else {
                holds(*old(toc), seq![], n, w)
            },
{
    let ghost s = toc.crates@;
    let (p, found) = position(&toc.crates, name);
    let x = (name.clone(), verified);
    assert(x.0@ == name@);
    if found {
        toc.crates.remove(p);
        toc.crates.insert(p, x);
        assert(toc.crates@ =~= s.update(p as int, x));
        proof {
            lemma_sorted_update(s, p as int, x);
        }
    } else {
        toc.crates.insert(p, x);
        proof {
            lemma_sorted_insert(s, p as int, x);
        }
    }
    let ghost t = toc.crates@;
    assert(t[p as int] == x);
    assert forall|n: Seq<char>, w: bool|
        #[trigger] holds(*toc, seq![], n, w) == if n == name@ {
            w == verified
        } else {
            holds(*old(toc), seq![], n, w)
        } by {
        if n == name@ {
            if holds(*toc, seq![], n, w) {
                let j = choose|j: int| 0 <= j < t.len() && (#[trigger] t[j]).0@ == n && t[j].1 == w;
                lemma_unique_key(t, j, p as int);
            }
            if w == verified {
                assert(t[p as int].0@ == n && t[p as int].1 == w);
            }
        } else {
            if holds(*toc, seq![], n, w) {
                let j = choose|j: int| 0 <= j < t.len() && (#[trigger] t[j]).0@ == n && t[j].1 == w;
                if found {
                    assert(s[j] == t[j]);
                } else if j < p {
                    assert(s[j] == t[j]);
                } else {
                    assert(s[j - 1] == t[j]);
                }
            }
            if holds(*old(toc), seq![], n, w) {
                let i = choose|i: int| 0 <= i < s.len() && (#[trigger] s[i]).0@ == n && s[i].1 == w;
                if found {
                    assert(s[i] == t[i]);
                } else if i < p {
                    assert(s[i] == t[i]);
                } else {
                    assert(s[i] == t[i + 1]);
                }
            }
        }
    }
}

/// A table with nothing in it.
pub open spec fn empty_toc(toc: TableOfContents) -> bool {
    toc.crates@.len() == 0 && toc.children@.len() == 0
}

/// An empty table lists nothing and has no category.
proof fn lemma_empty(toc: TableOfContents, c: Seq<Seq<char>>, n: Seq<char>, w: bool)
    requires
        empty_toc(toc),
    ensures
        !holds(toc, c, n, w),
        has_category(toc, c) == (c.len() == 0),
{
}

/// Comparing paths that start alike comes down to comparing the rest.
proof fn lemma_path_step(c: Seq<Seq<char>>, rest: Seq<Seq<char>>)
    requires
        c.len() > 0,
        rest.len() > 0,
        c[0] == rest[0],
    ensures
        (c == rest) == (c.drop_first() == rest.drop_first()),
        is_prefix(c, rest) == is_prefix(c.drop_first(), rest.drop_first()),
{
    if c.drop_first() == rest.drop_first() {
        assert(c =~= seq![c[0]] + c.drop_first());
        assert(rest =~= seq![rest[0]] + rest.drop_first());
    }
    if c.len() <= rest.len() {
        let r = rest.subrange(0, c.len() as int);
        if c == r {
            assert(c.drop_first() =~= rest.drop_first().subrange(0, c.drop_first().len() as int));
        }
        if c.drop_first() == rest.drop_first().subrange(0, c.drop_first().len() as int) {
            assert forall|i: int| 0 <= i < c.len() implies c[i] == r[i] by {
                if i > 0 {
                    assert(c[i] == c.drop_first()[i - 1]);
                    assert(r[i] == rest.drop_first()[i - 1]);
                }
            }
            assert(c =~= r);
        }
    }
}

/// Lists crate `name` as `verified` under the categories `cats[k..]`,
/// adding the categories that are missing.
fn insert_at(toc: &mut TableOfContents, cats: &Vec<String>, k: usize, name: &String, verified: bool)
    requires
        k <= cats@.len(),
        wf(*old(toc)),
    ensures
        wf(*final(toc)),
        forall|c: Seq<Seq<char>>, n: Seq<char>, w: bool|
            #[trigger] holds(*final(toc), c, n, w) == if c == views(cats@).subrange(
                k as int,
                cats@.len() as int,
            ) && n == name@ {
                w == verified
            } else {
                holds(*old(toc), c, n, w)
            },
        forall|c: Seq<Seq<char>>|
            #[trigger] has_category(*final(toc), c) == (has_category(*old(toc), c) || is_prefix(
                c,
                views(cats@).subrange(k as int, cats@.len() as int),
            )),
    decreases cats@.len() - k,
{
    let ghost rest = views(cats@).subrange(k as int, cats@.len() as int);
    if k == cats.len() {
        put_crate(toc, name, verified);
        assert forall|c: Seq<Seq<char>>, n: Seq<char>, w: bool|
            #[trigger] holds(*toc, c, n, w) == if c == rest && n == name@ {
                w == verified
            } else {
                holds(*old(toc), c, n, w)
            } by {
            if c.len() == 0 {
                assert(c =~= seq![]);
                assert(rest =~= seq![]);
                assert(holds(*toc, seq![], n, w) == if n == name@ {
                    w == verified
                } else {
                    holds(*old(toc), seq![], n, w)
                });
            }
        }
        assert forall|c: Seq<Seq<char>>|
            #[trigger] has_category(*toc, c) == (has_category(*old(toc), c) || is_prefix(c, rest)) by {
            if c.len() == 0 {
                assert(c =~= rest.subrange(0, 0));
            }
        }
    } else {
        let ghost s = toc.children@;
        let (p, found) = position(&toc.children, &cats[k]);
        let (key, mut child) = if found {
            toc.children.remove(p)
        } else {
            (cats[k].clone(), TableOfContents { crates: Vec::new(), children: Vec::new() })
        };
        let ghost old_child = child;
        assert(key@ == rest[0]);
        assert(found ==> s[p as int] == (key, old_child));
        assert(!found ==> empty_toc(old_child));
        assert(wf(old_child));
        insert_at(&mut child, cats, k + 1, name, verified);
        assert(rest.drop_first() =~= views(cats@).subrange(k + 1, cats@.len() as int));
        let ghost new_child = child;
        let x = (key, child);
        toc.children.insert(p, x);
        let ghost t = toc.children@;
        proof {
            if found {
                assert(t =~= s.update(p as int, x));
                lemma_sorted_update(s, p as int, x);
            } else {
                lemma_sorted_insert(s, p as int, x);
            }
            assert(t[p as int] == x);
            assert forall|i: int| 0 <= i < t.len() implies wf(#[trigger] t[i].1) by {
                if i < p || (found && i > p) {
                    assert(t[i] == s[i]);
                } else if i > p {
                    assert(t[i] == s[i - 1]);
                }
            }
        }
        assert forall|c: Seq<Seq<char>>, n: Seq<char>, w: bool|
            #[trigger] holds(*toc, c, n, w) == if c == rest && n == name@ {
                w == verified
            } else {
                holds(*old(toc), c, n, w)
            } by {
            assert(toc.crates@ == old(toc).crates@);
            if c.len() > 0 {
                let c1 = c.drop_first();
                if c[0] == key@ {
                    lemma_path_step(c, rest);
                    assert(holds(new_child, c1, n, w) == if c1 == rest.drop_first() && n == name@ {
                        w == verified
                    } else {
                        holds(old_child, c1, n, w)
                    });
                    if holds(*toc, c, n, w) {
                        let j = choose|j: int|
                            0 <= j < t.len() && (#[trigger] t[j]).0@ == c[0] && holds(t[j].1, c1, n, w);
                        lemma_unique_key(t, j, p as int);
                    }
                    if holds(new_child, c1, n, w) {
                        assert(t[p as int].0@ == c[0] && holds(t[p as int].1, c1, n, w));
                    }
                    if holds(*old(toc), c, n, w) {
                        let i = choose|i: int|
                            0 <= i < s.len() && (#[trigger] s[i]).0@ == c[0] && holds(s[i].1, c1, n, w);
                        if found {
                            lemma_unique_key(s, i, p as int);
                        } else {
                            assert(lex_lt(key@, s[i].0@));
                            lemma_lex_total(key@, key@);
                        }
                    }
                    if found && holds(old_child, c1, n, w) {
                        assert(s[p as int].0@ == c[0] && holds(s[p as int].1, c1, n, w));
                    }
                    if !found {
                        lemma_empty(old_child, c1, n, w);
                    }
                } else {
                    assert(c != rest);
                    if holds(*toc, c, n, w) {
                        let j = choose|j: int|
                            0 <= j < t.len() && (#[trigger] t[j]).0@ == c[0] && holds(t[j].1, c1, n, w);
                        if j < p || (found && j > p) {
                            assert(t[j] == s[j]);
                        } else {
                            assert(t[j] == s[j - 1]);
                        }
                    }
                    if holds(*old(toc), c, n, w) {
                        let i = choose|i: int|
                            0 <= i < s.len() && (#[trigger] s[i]).0@ == c[0] && holds(s[i].1, c1, n, w);
                        if i < p || (found && i > p) {
                            assert(t[i] == s[i]);
                        } else {
                            assert(t[i + 1] == s[i]);
                        }
                    }
                }
            }
        }
        assert forall|c: Seq<Seq<char>>|
            #[trigger] has_category(*toc, c) == (has_category(*old(toc), c) || is_prefix(c, rest)) by {
            if c.len() > 0 {
                let c1 = c.drop_first();
                if c[0] == key@ {
                    lemma_path_step(c, rest);
                    if has_category(*toc, c) {
                        let j = choose|j: int|
                            0 <= j < t.len() && (#[trigger] t[j]).0@ == c[0] && has_category(t[j].1, c1);
                        lemma_unique_key(t, j, p as int);
                    }
                    if has_category(new_child, c1) {
                        assert(t[p as int].0@ == c[0] && has_category(t[p as int].1, c1));
                    }
                    if has_category(*old(toc), c) {
                        let i = choose|i: int|
                            0 <= i < s.len() && (#[trigger] s[i]).0@ == c[0] && has_category(s[i].1, c1);
                        if found {
                            lemma_unique_key(s, i, p as int);
                        } else {
                            assert(lex_lt(key@, s[i].0@));
                            lemma_lex_total(key@, key@);
                        }
                    }
                    if found && has_category(old_child, c1) {
                        assert(s[p as int].0@ == c[0] && has_category(s[p as int].1, c1));
                    }
                    if !found {
                        lemma_empty(old_child, c1, name@, verified);
                        assert(Seq::<Seq<char>>::empty() =~= rest.drop_first().subrange(0, 0));
                        if c1.len() == 0 {
                            assert(c1 =~= rest.drop_first().subrange(0, 0));
                        }
                    }
                } else {
                    if c.len() <= rest.len() && c == rest.subrange(0, c.len() as int) {
                        assert(c[0] == rest[0]);
                    }
                    if has_category(*toc, c) {
                        let j = choose|j: int|
                            0 <= j < t.len() && (#[trigger] t[j]).0@ == c[0] && has_category(t[j].1, c1);
                        if j < p || (found && j > p) {
                            assert(t[j] == s[j]);
                        } else {
                            assert(t[j] == s[j - 1]);
                        }
                    }
                    if has_category(*old(toc), c) {
                        let i = choose|i: int|
                            0 <= i < s.len() && (#[trigger] s[i]).0@ == c[0] && has_category(s[i].1, c1);
                        if i < p || (found && i > p) {
                            assert(t[i] == s[i]);
                        } else {
                            assert(t[i + 1] == s[i]);
                        }
                    }
                }
            } else {
                assert(c =~= rest.subrange(0, 0));
            }
        }
    }
}

/// The categories of the crate whose manifest is at `path`: the directories
/// above the crate's own, that is every component of `path` but the last two.
pub open spec fn categories_of(path: Seq<char>) -> Seq<Seq<char>> {
    let c = components_of(path);
    if c.len() >= 2 {
        c.subrange(0, c.len() - 2)
    } else {
        seq![]
    }
}

impl Default for TableOfContents {
    /// An empty table.
    fn default() -> (r: TableOfContents)
        ensures
            wf(r),
            empty_toc(r),
    {
        TableOfContents { crates: Vec::new(), children: Vec::new() }
    }
}

impl TableOfContents {
    /// Lists crate `crate_name`, whose manifest is at `relative_manifest_path`,
    /// as verified or not, under the directories above the crate's own,
    /// adding the categories that are missing; an entry of the same name
    /// under the same categories is replaced.
    pub fn insert(&mut self, relative_manifest_path: &str, crate_name: &str, is_verified: bool)
        requires
            wf(*old(self)),
        ensures
            wf(*final(self)),
            forall|c: Seq<Seq<char>>, n: Seq<char>, w: bool|
                #[trigger] holds(*final(self), c, n, w) == if c == categories_of(
                    relative_manifest_path@,
                ) && n == crate_name@ {
                    w == is_verified
                } else {
                    holds(*old(self), c, n, w)
                },
            forall|c: Seq<Seq<char>>|
                #[trigger] has_category(*final(self), c) == (has_category(*old(self), c)
                    || is_prefix(c, categories_of(relative_manifest_path@))),
    {
        let components = path_components(relative_manifest_path);
        let keep: usize = if components.len() >= 2 {
            components.len() - 2
        } else {
            0
        };
        let mut cats: Vec<String> = Vec::new();
        let mut i: usize = 0;
        while i < keep
            invariant
                keep <= components@.len(),
                i <= keep,
                cats@.len() == i,
                forall|j: int| 0 <= j < i ==> (#[trigger] cats@[j])@ == components@[j]@,
            decreases keep - i,
        {
            let c = components[i].clone();
            assert(c@ == components@[i as int]@);
            cats.push(c);
            i = i + 1;
        }
        assert(views(cats@).subrange(0, cats@.len() as int) =~= categories_of(relative_manifest_path@));
        let name = String::from_str(crate_name);
        insert_at(self, &cats, 0, &name, is_verified);
    }
}

} // verus!
