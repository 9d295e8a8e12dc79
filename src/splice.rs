//! Replacing ordered, non-overlapping ranges of a text.
use vstd::prelude::*;
use crate::text::{lemma_occurs_around, lemma_occurs_self, occurs_in, push_all};

verus! {

/// Replace the characters in `start..end` with `text`; with `start == end`
/// the text is inserted before the character at `start`.
pub struct Edit {
    pub start: usize,
    pub end: usize,
    pub text: Vec<char>,
}

/// An edit as (start, end, replacement).
pub type EditView = (int, int, Seq<char>);

/// The views of a sequence of edits.
pub open spec fn edit_views(edits: Seq<Edit>) -> Seq<EditView> {
    edits.map_values(|e: Edit| (e.start as int, e.end as int, e.text@))
}

/// Each edit lies inside a text of length `len`, and the edits are ordered
/// by position without overlapping.
pub open spec fn edits_fit(len: nat, edits: Seq<EditView>) -> bool {
    &&& forall|k: int| 0 <= k < edits.len() ==> 0 <= #[trigger] edits[k].0 <= edits[k].1 <= len
    &&& forall|k: int| 0 <= k < edits.len() - 1 ==> #[trigger] edits[k].1 <= edits[k + 1].0
}

/// `t` from offset `from` on, with `edits` applied.
pub open spec fn spliced(t: Seq<char>, edits: Seq<EditView>, from: int) -> Seq<char>
    decreases edits.len(),
{
    if edits.len() == 0 {
        t.subrange(from, t.len() as int)
    } else {
        t.subrange(from, edits[0].0) + edits[0].2 + spliced(t, edits.drop_first(), edits[0].1)
    }
}

/// Appends `t[from..to]` to `out`.
fn push_range(out: &mut Vec<char>, t: &Vec<char>, from: usize, to: usize)
    requires
        from <= to <= t@.len(),
    ensures
        final(out)@ == old(out)@ + t@.subrange(from as int, to as int),
{
    let mut i: usize = from;
    while i < to
        invariant
            from <= i <= to <= t@.len(),
            out@ == old(out)@ + t@.subrange(from as int, i as int),
        decreases to - i,
    {
        out.push(t[i]);
        i = i + 1;
        proof {
            assert(t@.subrange(from as int, i as int) =~= t@.subrange(from as int, i - 1) + seq![
                t@[i - 1],
            ]);
        }
    }
}

/// The text `t` with every edit applied: the parts of `t` that no edit
/// covers are kept as they are, in order.
pub fn splice(t: &Vec<char>, edits: &Vec<Edit>) -> (r: Vec<char>)
    requires
        edits_fit(t@.len(), edit_views(edits@)),
    ensures
        r@ == spliced(t@, edit_views(edits@), 0),
{
    let mut out: Vec<char> = Vec::new();
    let mut cursor: usize = 0;
    let mut k: usize = 0;
    assert(edit_views(edits@).subrange(0, edits@.len() as int) =~= edit_views(edits@));
    while k < edits.len()
        invariant
            k <= edits@.len(),
            edits_fit(t@.len(), edit_views(edits@)),
            cursor <= t@.len(),
            k < edits@.len() ==> cursor <= edits@[k as int].start,
            out@ + spliced(t@, edit_views(edits@).subrange(k as int, edits@.len() as int), cursor as int)
                == spliced(t@, edit_views(edits@), 0),
        decreases edits@.len() - k,
    {
        let e = &edits[k];
        push_range(&mut out, t, cursor, e.start);
        push_all(&mut out, &e.text);
        proof {
            let rest = edit_views(edits@).subrange(k as int, edits@.len() as int);
            assert(rest.drop_first() =~= edit_views(edits@).subrange(k + 1, edits@.len() as int));
            assert(rest[0] == edit_views(edits@)[k as int]);
            assert(edit_views(edits@)[k as int].0 == e.start);
        }
        cursor = e.end;
        k = k + 1;
    }
    push_range(&mut out, t, cursor, t.len());
    proof {
        assert(out@ =~= spliced(t@, edit_views(edits@), 0));
    }
    out
}

/// Each edit's replacement stands, unchanged, in the spliced text.
pub proof fn lemma_replacement_kept(t: Seq<char>, edits: Seq<EditView>, from: int, k: int)
    requires
        0 <= k < edits.len(),
    ensures
        occurs_in(edits[k].2, spliced(t, edits, from)),
    decreases k,
{
    let head = t.subrange(from, edits[0].0);
    let tail = spliced(t, edits.drop_first(), edits[0].1);
    if k == 0 {
        lemma_occurs_self(edits[0].2);
        lemma_occurs_around(edits[0].2, head, edits[0].2, tail);
    } else {
        lemma_replacement_kept(t, edits.drop_first(), edits[0].1, k - 1);
        lemma_occurs_around(edits[k].2, head + edits[0].2, tail, seq![]);
        assert(head + edits[0].2 + tail + seq![] =~= spliced(t, edits, from));
    }
}

} // verus!
