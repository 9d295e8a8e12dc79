//! Conversions between strings and character vectors, and positions in text.
use vstd::prelude::*;

verus! {

/// Relies on `str::chars` (collected into a `Vec`): the characters of `s`, in order.
#[verifier::external_body]
pub fn chars_of(s: &str) -> (r: Vec<char>)
    ensures
        r@ == s@,
{
    s.chars().collect()
}

/// Relies on `String: FromIterator<char>`: the string made of the characters of `v`.
#[verifier::external_body]
pub fn string_of(v: &Vec<char>) -> (r: String)
    ensures
        r@ == v@,
{
    v.iter().collect()
}

/// The view of an optional string.
pub open spec fn opt_view(o: Option<String>) -> Option<Seq<char>> {
    match o {
        Some(s) => Some(s@),
        None => None,
    }
}

/// Appends every character of `s` to `out`.
pub fn push_all(out: &mut Vec<char>, s: &Vec<char>)
    ensures
        final(out)@ == old(out)@ + s@,
{
    let mut i: usize = 0;
    while i < s.len()
        invariant
            i <= s@.len(),
            out@ == old(out)@ + s@.subrange(0, i as int),
        decreases s@.len() - i,
    {
        out.push(s[i]);
        i = i + 1;
        proof {
            assert(s@.subrange(0, i as int) =~= s@.subrange(0, i - 1) + seq![s@[i - 1]]);
        }
    }
    proof {
        assert(s@.subrange(0, s@.len() as int) =~= s@);
    }
}

/// The (line, column) position of offset `o` in `t`: lines count from 1 and
/// are separated by `'\n'`; columns count characters from 0.
pub open spec fn pos_at(t: Seq<char>, o: int) -> (nat, nat)
    decreases o,
{
    if o <= 0 {
        (1, 0)
    } else {
        let (line, column) = pos_at(t, o - 1);
        if t[o - 1] == '\n' {
            (line + 1, 0)
        } else {
            (line, column + 1)
        }
    }
}

/// Position `a` comes before position `b`.
pub open spec fn before(a: (nat, nat), b: (nat, nat)) -> bool {
    a.0 < b.0 || (a.0 == b.0 && a.1 < b.1)
}

/// Later offsets have later positions.
pub proof fn lemma_pos_increasing(t: Seq<char>, o: int, p: int)
    requires
        0 <= o < p <= t.len(),
    ensures
        before(pos_at(t, o), pos_at(t, p)),
        t[o] == '\n' ==> pos_at(t, p).0 > pos_at(t, o).0,
    decreases p - o,
{
    if p > o + 1 {
        lemma_pos_increasing(t, o, p - 1);
        lemma_pos_increasing(t, p - 1, p);
    }
}

/// The offset in `t` at (`line`, `column`), if there is one.
pub open spec fn offset_at(t: Seq<char>, line: nat, column: nat) -> Option<int> {
    if exists|o: int| 0 <= o <= t.len() && pos_at(t, o) == (line, column) {
        Some(choose|o: int| 0 <= o <= t.len() && pos_at(t, o) == (line, column))
    } else {
        None
    }
}

/// Finds the offset in `t` whose position is (`line`, `column`).
pub fn offset_of(t: &Vec<char>, line: usize, column: usize) -> (r: Option<usize>)
    ensures
        r is None <==> offset_at(t@, line as nat, column as nat) is None,
        r matches Some(o) ==> offset_at(t@, line as nat, column as nat) == Some(o as int),
{
    let mut o: usize = 0;
    let mut l: usize = 1;
    let mut c: usize = 0;
    let ghost target = (line as nat, column as nat);
    loop
        invariant
            o <= t@.len(),
            pos_at(t@, o as int) == (l as nat, c as nat),
            c <= o,
            target == (line as nat, column as nat),
            forall|p: int| 0 <= p < o ==> pos_at(t@, p) != target,
        decreases t@.len() - o,
    {
        if l == line && c == column {
            proof {
                assert(pos_at(t@, o as int) == target);
                assert forall|p: int| 0 <= p <= t@.len() && pos_at(t@, p) == target implies p == o by {
                    if p > o {
                        lemma_pos_increasing(t@, o as int, p);
                    }
                }
            }
            return Some(o);
        }
        assert(pos_at(t@, o as int) != target);
        if o == t.len() {
            return None;
        }
        if t[o] == '\n' {
            if l == usize::MAX {
                proof {
                    assert forall|p: int| 0 <= p <= t@.len() implies pos_at(t@, p) != target by {
                        if p > o {
                            lemma_pos_increasing(t@, o as int, p);
                        }
                    }
                }
                return None;
            }
            l = l + 1;
            c = 0;
        } else {
            c = c + 1;
        }
        o = o + 1;
    }
}

/// `needle` stands, unchanged, somewhere in `hay`.
pub open spec fn occurs_in(needle: Seq<char>, hay: Seq<char>) -> bool {
    exists|i: int|
        0 <= i && i + needle.len() <= hay.len() && #[trigger] hay.subrange(i, i + needle.len())
            == needle
}

/// What stands in `b` stands in any text made around it.
pub proof fn lemma_occurs_around(needle: Seq<char>, a: Seq<char>, b: Seq<char>, c: Seq<char>)
    requires
        occurs_in(needle, b),
    ensures
        occurs_in(needle, a + b + c),
{
    let i = choose|i: int|
        0 <= i && i + needle.len() <= b.len() && #[trigger] b.subrange(i, i + needle.len())
            == needle;
    let j = a.len() + i;
    assert((a + b + c).subrange(j, j + needle.len()) =~= b.subrange(i, i + needle.len()));
}

/// A text stands in itself.
pub proof fn lemma_occurs_self(x: Seq<char>)
    ensures
        occurs_in(x, x),
{
    let i: int = 0;
    assert(x.subrange(i, i + x.len()) =~= x);
}

/// What stands in a text that stands in another stands in that other.
pub proof fn lemma_occurs_trans(x: Seq<char>, y: Seq<char>, z: Seq<char>)
    requires
        occurs_in(x, y),
        occurs_in(y, z),
    ensures
        occurs_in(x, z),
{
    let i = choose|i: int| 0 <= i && i + x.len() <= y.len() && #[trigger] y.subrange(i, i + x.len()) == x;
    let j = choose|j: int| 0 <= j && j + y.len() <= z.len() && #[trigger] z.subrange(j, j + y.len()) == y;
    assert(z.subrange(j + i, j + i + x.len()) =~= y.subrange(i, i + x.len()));
}

} // verus!
