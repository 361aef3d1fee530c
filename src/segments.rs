//! Splitting text at `/` and joining segments with `/`.
use vstd::prelude::*;

verus! {

/// The segments joined with `/` between them.
pub open spec fn join(segs: Seq<Seq<char>>) -> Seq<char>
    decreases segs.len(),
{
    if segs.len() == 0 {
        Seq::empty()
    } else if segs.len() == 1 {
        segs[0]
    } else {
        join(segs.drop_last()) + seq!['/'] + segs.last()
    }
}

/// The pieces of `s` between separators, read from left to right.
pub open spec fn split(s: Seq<char>) -> Seq<Seq<char>>
    decreases s.len(),
{
    if s.len() == 0 {
        seq![Seq::empty()]
    } else {
        let p = split(s.drop_last());
        if s.last() == '/' {
            p.push(Seq::empty())
        } else {
            p.update(p.len() - 1, p.last().push(s.last()))
        }
    }
}

pub open spec fn no_separator(segs: Seq<Seq<char>>) -> bool {
    forall|i: int| 0 <= i < segs.len() ==> !(#[trigger] segs[i]).contains('/')
}

pub proof fn lemma_split_nonempty(s: Seq<char>)
    ensures
        split(s).len() >= 1,
    decreases s.len(),
{
    if s.len() > 0 {
        lemma_split_nonempty(s.drop_last());
    }
}

/// Appending text without a separator extends the last piece.
proof fn lemma_split_append(x: Seq<char>, t: Seq<char>)
    requires
        !t.contains('/'),
    ensures
        split(x + t) == split(x).update(split(x).len() - 1, split(x).last() + t),
    decreases t.len(),
{
    lemma_split_nonempty(x);
    if t.len() == 0 {
        assert(x + t =~= x);
        assert(split(x).last() + t =~= split(x).last());
        assert(split(x).update(split(x).len() - 1, split(x).last()) =~= split(x));
    } else {
        let t0 = t.drop_last();
        assert(!t0.contains('/')) by {
            if t0.contains('/') {
                let j = choose|j: int| 0 <= j < t0.len() && t0[j] == '/';
                assert(t[j] == '/');
            }
        }
        lemma_split_append(x, t0);
        let xt = x + t;
        assert(xt.drop_last() =~= x + t0);
        assert(xt.last() == t.last());
        assert(t.last() != '/') by {
            assert(t[t.len() - 1] == t.last());
        }
        lemma_split_nonempty(x + t0);
        let p = split(x + t0);
        assert(p.last() == split(x).last() + t0);
        assert(split(x).last() + t0 + seq![t.last()] =~= split(x).last() + t);
        assert(p.last().push(t.last()) =~= split(x).last() + t);
        assert(split(xt) =~= split(x).update(split(x).len() - 1, split(x).last() + t));
    }
}

/// Splitting undoes joining when no segment holds the separator.
pub proof fn lemma_split_join(segs: Seq<Seq<char>>)
    requires
        segs.len() >= 1,
        no_separator(segs),
    ensures
        split(join(segs)) == segs,
    decreases segs.len(),
{
    if segs.len() == 1 {
        let t = segs[0];
        assert(!t.contains('/'));
        lemma_split_append(Seq::empty(), t);
        assert(Seq::<char>::empty() + t =~= t);
        assert(split(Seq::<char>::empty()) =~= seq![Seq::<char>::empty()]);
        assert(Seq::<char>::empty() + t =~= t);
        assert(split(join(segs)) =~= segs);
    } else {
        let init = segs.drop_last();
        assert(no_separator(init)) by {
            assert forall|i: int| 0 <= i < init.len() implies !(#[trigger] init[i]).contains('/') by {
                assert(init[i] == segs[i]);
            }
        }
        lemma_split_join(init);
        let x = join(init) + seq!['/'];
        assert(x.drop_last() =~= join(init));
        assert(split(x) =~= init.push(Seq::empty()));
        let t = segs.last();
        assert(!t.contains('/')) by {
            assert(segs[segs.len() - 1] == t);
        }
        lemma_split_append(x, t);
        assert(Seq::<char>::empty() + t =~= t);
        assert(init.push(Seq::empty()).update(init.len() as int, t) =~= segs);
        assert(join(segs) == x + t);
    }
}

/// Joining the pieces gives back the text.
pub proof fn lemma_join_split(s: Seq<char>)
    ensures
        join(split(s)) == s,
    decreases s.len(),
{
    if s.len() == 0 {
        assert(join(split(s)) =~= s);
    } else {
        let s0 = s.drop_last();
        let c = s.last();
        lemma_join_split(s0);
        lemma_split_nonempty(s0);
        let p = split(s0);
        if c == '/' {
            assert(p.push(Seq::empty()).drop_last() =~= p);
            assert(join(p) + seq!['/'] + Seq::<char>::empty() =~= s);
        } else {
            let q = p.update(p.len() - 1, p.last().push(c));
            if p.len() == 1 {
                assert(q[0] =~= s);
            } else {
                assert(q.drop_last() =~= p.drop_last());
                assert(join(p.drop_last()) + seq!['/'] + p.last().push(c) =~= (join(p.drop_last())
                    + seq!['/'] + p.last()).push(c));
                assert(s0.push(c) =~= s);
            }
        }
    }
}

pub open spec fn seg_views(v: Seq<String>) -> Seq<Seq<char>> {
    v.map_values(|x: String| x@)
}

/// The pieces of `s` between separators.
pub fn split_text(s: &str) -> (r: Vec<String>)
    ensures
        seg_views(r@) == split(s@),
{
    let len = s.unicode_len();
    let mut segs: Vec<String> = Vec::new();
    let mut start: usize = 0;
    let mut i: usize = 0;
    assert(s@.subrange(0, 0) =~= Seq::<char>::empty());
    assert(seg_views(segs@) + seq![s@.subrange(0, 0)] =~= split(s@.subrange(0, 0)));
    while i < len
        invariant
            len == s@.len(),
            start <= i <= len,
            seg_views(segs@) + seq![s@.subrange(start as int, i as int)] == split(
                s@.subrange(0, i as int),
            ),
        decreases len - i,
    {
        let c = s.get_char(i);
        let ghost t = s@.subrange(0, i + 1);
        let ghost old_segs = seg_views(segs@);
        let ghost cur = s@.subrange(start as int, i as int);
        assert(t.drop_last() =~= s@.subrange(0, i as int));
        assert(t.last() == c);
        if c == '/' {
            let piece = String::from_str(s.substring_char(start, i));
            segs.push(piece);
            start = i + 1;
            assert(seg_views(segs@) =~= old_segs.push(cur));
            assert(s@.subrange(start as int, i + 1) =~= Seq::<char>::empty());
            assert(seg_views(segs@) + seq![s@.subrange(start as int, i + 1)] =~= (old_segs + seq![
                cur,
            ]).push(Seq::empty()));
        } else {
            assert(s@.subrange(start as int, i + 1) =~= cur.push(c));
            assert(seg_views(segs@) + seq![s@.subrange(start as int, i + 1)] =~= (old_segs + seq![
                cur,
            ]).update(old_segs.len() as int, cur.push(c)));
        }
        i = i + 1;
    }
    let last = String::from_str(s.substring_char(start, len));
    let ghost before = seg_views(segs@);
    segs.push(last);
    assert(seg_views(segs@) =~= before + seq![s@.subrange(start as int, len as int)]);
    assert(s@.subrange(0, len as int) =~= s@);
    segs
}

/// Whether two texts are equal.
pub fn text_eq(a: &str, b: &str) -> (r: bool)
    ensures
        r == (a@ == b@),
{
    let n = a.unicode_len();
    if n != b.unicode_len() {
        return false;
    }
    let mut i: usize = 0;
    while i < n
        invariant
            n == a@.len(),
            n == b@.len(),
            i <= n,
            forall|j: int| 0 <= j < i ==> a@[j] == b@[j],
        decreases n - i,
    {
        if a.get_char(i) != b.get_char(i) {
            return false;
        }
        i = i + 1;
    }
    assert(a@ =~= b@);
    true
}

} // verus!
