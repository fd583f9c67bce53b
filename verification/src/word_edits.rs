//! Word-level edit distance.
use vstd::prelude::*;
use crate::text;
use crate::text::same_text;

verus! {

/// Zero for equal words, one for different ones.
pub open spec fn mismatch(a: Seq<char>, b: Seq<char>) -> nat {
    if a == b {
        0
    } else {
        1
    }
}

/// The lesser of two numbers.
pub open spec fn least(a: nat, b: nat) -> nat {
    if a <= b {
        a
    } else {
        b
    }
}

/// The least number of inserted, deleted or replaced words that turn `a` into
/// `b`: the last words are matched or replaced, or the last word of either
/// side is dropped.
pub open spec fn edits(a: Seq<Seq<char>>, b: Seq<Seq<char>>) -> nat
    decreases a.len() + b.len(),
{
    if a.len() == 0 {
        b.len()
    } else if b.len() == 0 {
        a.len()
    } else {
        least(
            edits(a.drop_last(), b.drop_last()) + mismatch(a.last(), b.last()),
            least(edits(a.drop_last(), b) + 1, edits(a, b.drop_last()) + 1),
        )
    }
}

/// The contents of borrowed words.
pub open spec fn str_views(v: Seq<&str>) -> Seq<Seq<char>> {
    Seq::new(v.len(), |i: int| v[i]@)
}

/// Turning one text into another takes at least as many edits as their
/// numbers of words differ, and never more than the longer one has words.
pub proof fn law_edits_bounds(a: Seq<Seq<char>>, b: Seq<Seq<char>>)
    ensures
        a.len() <= b.len() + edits(a, b),
        b.len() <= a.len() + edits(a, b),
        edits(a, b) <= a.len() || edits(a, b) <= b.len(),
    decreases a.len() + b.len(),
{
    if a.len() > 0 && b.len() > 0 {
        law_edits_bounds(a.drop_last(), b.drop_last());
        law_edits_bounds(a.drop_last(), b);
        law_edits_bounds(a, b.drop_last());
    }
}

/// Equal texts are zero edits apart, and only those.
pub proof fn law_edits_zero(a: Seq<Seq<char>>, b: Seq<Seq<char>>)
    ensures
        edits(a, b) == 0 <==> a == b,
    decreases a.len() + b.len(),
{
    if a.len() > 0 && b.len() > 0 {
        law_edits_zero(a.drop_last(), b.drop_last());
        if edits(a, b) == 0 {
            assert(a =~= a.drop_last().push(a.last()));
            assert(b =~= b.drop_last().push(b.last()));
        }
    } else if edits(a, b) == 0 {
        assert(a =~= b);
    }
}

/// It takes as many edits back as forth.
pub proof fn law_edits_symmetric(a: Seq<Seq<char>>, b: Seq<Seq<char>>)
    ensures
        edits(a, b) == edits(b, a),
    decreases a.len() + b.len(),
{
    if a.len() > 0 && b.len() > 0 {
        law_edits_symmetric(a.drop_last(), b.drop_last());
        law_edits_symmetric(a.drop_last(), b);
        law_edits_symmetric(a, b.drop_last());
    }
}

/// Going over a text in between never takes fewer edits.
pub proof fn law_edits_triangle(a: Seq<Seq<char>>, b: Seq<Seq<char>>, c: Seq<Seq<char>>)
    ensures
        edits(a, c) <= edits(a, b) + edits(b, c),
    decreases a.len() + b.len() + c.len(),
{
    law_edits_bounds(a, b);
    law_edits_bounds(b, c);
    law_edits_bounds(a, c);
    if a.len() > 0 && b.len() > 0 && c.len() > 0 {
        let (x, y, z) = (a.drop_last(), b.drop_last(), c.drop_last());
        law_edits_triangle(x, y, z);
        law_edits_triangle(x, b, c);
        law_edits_triangle(x, y, c);
        law_edits_triangle(a, b, z);
        law_edits_triangle(a, y, z);
        law_edits_triangle(a, y, c);
        law_edits_triangle(x, b, z);
    }
}

/// One word is inserted, deleted or replaced.
pub open spec fn one_edit(a: Seq<Seq<char>>, b: Seq<Seq<char>>) -> bool {
    exists|i: int| #[trigger] edited_at(a, b, i)
}

/// The word at `i` is inserted, deleted or replaced.
pub open spec fn edited_at(a: Seq<Seq<char>>, b: Seq<Seq<char>>, i: int) -> bool {
    ||| 0 <= i < b.len() && a == b.remove(i)
    ||| 0 <= i < a.len() && b == a.remove(i)
    ||| 0 <= i < a.len() == b.len() && b == a.update(i, b[i])
}

/// A common end takes no edits.
proof fn lemma_common_end(a: Seq<Seq<char>>, b: Seq<Seq<char>>, end: Seq<Seq<char>>)
    ensures
        edits(a + end, b + end) <= edits(a, b),
    decreases end.len(),
{
    if end.len() == 0 {
        assert(a + end =~= a && b + end =~= b);
    } else {
        lemma_common_end(a, b, end.drop_last());
        assert((a + end).drop_last() =~= a + end.drop_last());
        assert((b + end).drop_last() =~= b + end.drop_last());
    }
}

/// One edit is one edit.
proof fn lemma_one_edit(a: Seq<Seq<char>>, b: Seq<Seq<char>>, i: int)
    requires
        edited_at(a, b, i),
    ensures
        edits(a, b) <= 1,
{
    if 0 <= i < b.len() && a == b.remove(i) {
        let (head, end) = (b.take(i), b.skip(i + 1));
        law_edits_zero(head, head);
        lemma_common_end(head, head.push(b[i]), end);
        assert(head.push(b[i]).drop_last() =~= head);
        assert(a =~= head + end);
        assert(b =~= head.push(b[i]) + end);
        if head.len() > 0 {
            assert(edits(head, head.push(b[i])) <= edits(head, head.push(b[i]).drop_last()) + 1);
        }
    } else if 0 <= i < a.len() && b == a.remove(i) {
        let (head, end) = (a.take(i), a.skip(i + 1));
        law_edits_zero(head, head);
        lemma_common_end(head.push(a[i]), head, end);
        assert(head.push(a[i]).drop_last() =~= head);
        assert(b =~= head + end);
        assert(a =~= head.push(a[i]) + end);
        if head.len() > 0 {
            assert(edits(head.push(a[i]), head) <= edits(head.push(a[i]).drop_last(), head) + 1);
        }
    } else {
        let (head, end) = (a.take(i), a.skip(i + 1));
        law_edits_zero(head, head);
        lemma_common_end(head.push(a[i]), head.push(b[i]), end);
        assert(head.push(a[i]).drop_last() =~= head);
        assert(head.push(b[i]).drop_last() =~= head);
        assert(a =~= head.push(a[i]) + end);
        assert(b =~= head.push(b[i]) + end);
        assert(edits(head.push(a[i]), head.push(b[i])) <= edits(head, head) + 1);
    }
}

/// The number of edits is what single edits add up to: one edit counts at most
/// one, and of texts that are apart there is a text one edit before the end that
/// is one edit nearer. So it is the least number of single edits.
pub proof fn law_edits_are_single_edits(a: Seq<Seq<char>>, b: Seq<Seq<char>>)
    ensures
        one_edit(a, b) ==> edits(a, b) <= 1,
        edits(a, b) > 0 ==> exists|c: Seq<Seq<char>>| #[trigger]
            one_edit(c, b) && edits(a, c) == edits(a, b) - 1,
    decreases a.len() + b.len(),
{
    if one_edit(a, b) {
        let i = choose|i: int| #[trigger] edited_at(a, b, i);
        lemma_one_edit(a, b, i);
    }
    if edits(a, b) > 0 {
        let c = lemma_last_edit(a, b);
        assert(one_edit(c, b));
    }
}

/// The text before the last edit.
proof fn lemma_last_edit(a: Seq<Seq<char>>, b: Seq<Seq<char>>) -> (c: Seq<Seq<char>>)
    requires
        edits(a, b) > 0,
    ensures
        one_edit(c, b),
        edits(a, c) == edits(a, b) - 1,
    decreases a.len() + b.len(),
{
    let k = edits(a, b);
    let (x, y) = (a.drop_last(), b.drop_last());
    if a.len() == 0 {
        assert(y =~= b.remove(b.len() - 1));
        assert(edited_at(y, b, b.len() - 1));
        y
    } else if b.len() > 0 && edits(a, y) + 1 == k {
        assert(y =~= b.remove(b.len() - 1));
        assert(edited_at(y, b, b.len() - 1));
        y
    } else if b.len() > 0 && edits(x, y) + mismatch(a.last(), b.last()) == k {
        if a.last() == b.last() {
            let d = lemma_last_edit(x, y);
            let c = d.push(b.last());
            let i = choose|i: int| #[trigger] edited_at(d, y, i);
            assert(edited_at(c, b, i)) by {
                assert(b =~= y.push(b.last()));
                if 0 <= i < y.len() && d == y.remove(i) {
                    assert(c =~= b.remove(i));
                } else if 0 <= i < d.len() && y == d.remove(i) {
                    assert(b =~= c.remove(i));
                } else {
                    assert(b =~= c.update(i, b[i]));
                }
            }
            assert(c.drop_last() =~= d);
            lemma_one_edit(c, b, i);
            law_edits_triangle(a, c, b);
            assert(edits(a, c) <= edits(x, d) + mismatch(a.last(), c.last()));
            c
        } else {
            let c = y.push(a.last());
            assert(c.drop_last() =~= y);
            assert(b =~= c.update(b.len() - 1, b[b.len() - 1]));
            assert(edited_at(c, b, b.len() - 1));
            lemma_one_edit(c, b, b.len() - 1);
            law_edits_triangle(a, c, b);
            assert(edits(a, c) <= edits(x, y) + mismatch(a.last(), c.last()));
            c
        }
    } else {
        let c = b.push(a.last());
        assert(c.drop_last() =~= b);
        assert(b =~= c.remove(b.len() as int));
        assert(edited_at(c, b, b.len() as int));
        lemma_one_edit(c, b, b.len() as int);
        law_edits_triangle(a, c, b);
        assert(edits(a, c) <= edits(x, b) + mismatch(a.last(), c.last()));
        if b.len() == 0 {
            assert(edits(x, b) == x.len());
        }
        c
    }
}

/// Word-level Levenshtein distance: the number of insert, delete and
/// substitute operations between the two word sequences.
pub fn word_edit_ops(a: &[&str], b: &[&str]) -> (r: usize)
    ensures
        r == edits(str_views(a@), str_views(b@)),
{
    let n: usize = a.len();
    let m: usize = b.len();
    let ghost x = str_views(a@);
    let ghost y = str_views(b@);
    let mut prev: Vec<usize> = Vec::new();
    prev.push(0);
    let mut k: usize = 0;
    while k < m
        invariant
            k <= m == y.len(),
            prev@.len() == k + 1,
            forall|j: int| 0 <= j <= k ==> #[trigger] prev@[j] == j,
        decreases m - k,
    {
        prev.push(k + 1);
        k += 1;
    }
    assert forall|j: int| 0 <= j <= m implies #[trigger] prev@[j] == edits(x.take(0), y.take(j)) by {
        assert(y.take(j).len() == j);
    }
    let mut i: usize = 0;
    while i < n
        invariant
            i <= n,
            n == a@.len(),
            m == b@.len(),
            x == str_views(a@),
            y == str_views(b@),
            prev@.len() == m + 1,
            forall|j: int|
                0 <= j <= m ==> #[trigger] prev@[j] == edits(x.take(i as int), y.take(j)),
        decreases n - i,
    {
        let ghost xi = x.take(i + 1);
        let mut cur: Vec<usize> = Vec::new();
        cur.push(i + 1);
        let mut j: usize = 0;
        proof {
            assert(xi.drop_last() =~= x.take(i as int));
            assert(y.take(0).len() == 0);
        }
        while j < m
            invariant
                i < n,
                j <= m,
                n == a@.len(),
                m == b@.len(),
                x == str_views(a@),
                y == str_views(b@),
                xi == x.take(i + 1),
                xi.drop_last() == x.take(i as int),
                prev@.len() == m + 1,
                forall|l: int|
                    0 <= l <= m ==> #[trigger] prev@[l] == edits(x.take(i as int), y.take(l)),
                cur@.len() == j + 1,
                forall|l: int| 0 <= l <= j ==> #[trigger] cur@[l] == edits(xi, y.take(l)),
            decreases m - j,
        {
            let ghost yj = y.take(j + 1);
            proof {
                assert(yj.drop_last() =~= y.take(j as int));
                assert(xi.last() == a@[i as int]@);
                assert(yj.last() == b@[j as int]@);
                law_edits_bounds(x.take(i as int), y.take(j as int));
                assert(prev@[j as int] == edits(x.take(i as int), y.take(j as int)));
                assert(prev@[j + 1] == edits(x.take(i as int), yj));
                assert(cur@[j as int] == edits(xi, y.take(j as int)));
            }
            let mut best: usize = prev[j];
            if !same_text(a[i], b[j]) {
                best = best + 1;
            }
            if prev[j + 1] < best {
                best = prev[j + 1] + 1;
            }
            if cur[j] < best {
                best = cur[j] + 1;
            }
            cur.push(best);
            assert(best == edits(xi, yj));
            j += 1;
        }
        prev = cur;
        i += 1;
    }
    proof {
        assert(x.take(n as int) =~= x);
        assert(y.take(m as int) =~= y);
        assert(prev@[m as int] == edits(x.take(n as int), y.take(m as int)));
    }
    prev[m]
}

/// The contents of a list of words are those of each, in order.
pub proof fn law_str_views(v: Seq<&str>, i: int)
    requires
        0 <= i < v.len(),
    ensures
        str_views(v).len() == v.len(),
        str_views(v)[i] == v[i]@,
{
}

} // verus!
