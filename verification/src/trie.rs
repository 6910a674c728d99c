//! What the built tree means.
//!
//! For lines that are grouped by their prefixes the tree that the builder
//! grows is the prefix tree of the frame paths: there is one node for every
//! path that some record starts with, it carries the counts of all those
//! records, and its children stand in the order in which their labels were
//! first seen. This module states that tree directly and proves that the
//! builder's single pass arrives at it.

use crate::builder::{chain, graft, grow, trail};
use crate::record::Record;
use crate::tree::Tree;
use vstd::prelude::*;

verus! {

/// Whether a frame path begins with the labels of `p`.
pub open spec fn starts_with(frames: Seq<Seq<char>>, p: Seq<Seq<char>>) -> bool {
    &&& p.len() <= frames.len()
    &&& forall|i: int| 0 <= i < p.len() ==> frames[i] == p[i]
}

/// The sum of all counts.
pub open spec fn total(records: Seq<Record>) -> nat
    decreases records.len(),
{
    if records.len() == 0 {
        0
    } else {
        total(records.drop_last()) + records.last().count
    }
}

/// The sum of the counts of the records whose path begins with `p`.
pub open spec fn total_under(records: Seq<Record>, p: Seq<Seq<char>>) -> nat
    decreases records.len(),
{
    if records.len() == 0 {
        0
    } else {
        total_under(records.drop_last(), p) + if starts_with(records.last().frames, p) {
            records.last().count
        } else {
            0
        }
    }
}

/// The labels that follow `p` in some record, each once, in the order in
/// which the records first show them.
pub open spec fn first_seen(records: Seq<Record>, p: Seq<Seq<char>>) -> Seq<Seq<char>>
    decreases records.len(),
{
    if records.len() == 0 {
        Seq::empty()
    } else {
        let earlier = first_seen(records.drop_last(), p);
        let r = records.last();
        if starts_with(r.frames, p) && p.len() < r.frames.len() && !earlier.contains(
            r.frames[p.len() as int],
        ) {
            earlier.push(r.frames[p.len() as int])
        } else {
            earlier
        }
    }
}

/// The records are grouped by their prefixes: where two records begin with
/// the same labels, so does every record between them.
pub open spec fn grouped(records: Seq<Record>) -> bool {
    forall|i: int, j: int, k: int, p: Seq<Seq<char>>|
        #![trigger starts_with(records[i].frames, p), starts_with(records[j].frames, p), starts_with(records[k].frames, p)]
        0 <= i < j < k < records.len() && starts_with(records[i].frames, p) && starts_with(
            records[k].frames,
            p,
        ) ==> starts_with(records[j].frames, p)
}

/// The length of the longest frame path.
pub open spec fn depth(records: Seq<Record>) -> nat
    decreases records.len(),
{
    if records.len() == 0 {
        0
    } else if depth(records.drop_last()) >= records.last().frames.len() {
        depth(records.drop_last())
    } else {
        records.last().frames.len()
    }
}

/// The prefix tree of the records below the path `p`: the node for `p`
/// carries the counts of all records that begin with `p`, and has one child
/// for each label that follows `p`, in order of first sight.
pub open spec fn trie(records: Seq<Record>, p: Seq<Seq<char>>) -> Tree
    decreases depth(records) - p.len(),
{
    let names = first_seen(records, p);
    Tree {
        name: if p.len() == 0 {
            Seq::empty()
        } else {
            p.last()
        },
        value: total_under(records, p),
        children: Seq::new(
            names.len(),
            |i: int|
                if p.len() < depth(records) && 0 <= i < names.len() {
                    trie(records, p.push(names[i]))
                } else {
                    arbitrary()
                },
        ),
    }
}

pub proof fn lemma_starts_with_push(frames: Seq<Seq<char>>, p: Seq<Seq<char>>, n: Seq<char>)
    ensures
        starts_with(frames, p.push(n)) <==> starts_with(frames, p) && p.len() < frames.len()
            && frames[p.len() as int] == n,
{
    let q = p.push(n);
    if starts_with(frames, q) {
        assert forall|i: int| 0 <= i < p.len() implies frames[i] == p[i] by {
            assert(q[i] == p[i]);
        }
        assert(q[p.len() as int] == n);
    }
    if starts_with(frames, p) && p.len() < frames.len() && frames[p.len() as int] == n {
        assert forall|i: int| 0 <= i < q.len() implies frames[i] == q[i] by {
            if i < p.len() {
                assert(q[i] == p[i]);
            }
        }
    }
}

/// A path begins with each of its own prefixes.
pub proof fn lemma_starts_with_take(frames: Seq<Seq<char>>, d: int)
    requires
        0 <= d <= frames.len(),
    ensures
        starts_with(frames, frames.take(d)),
{
}

/// What is grouped stays grouped without its last record.
pub proof fn lemma_grouped_drop_last(records: Seq<Record>)
    requires
        grouped(records),
        records.len() > 0,
    ensures
        grouped(records.drop_last()),
{
    let before = records.drop_last();
    assert forall|i: int, j: int, k: int, p: Seq<Seq<char>>|
        #![trigger starts_with(before[i].frames, p), starts_with(before[j].frames, p), starts_with(before[k].frames, p)]
        0 <= i < j < k < before.len() && starts_with(before[i].frames, p) && starts_with(
            before[k].frames,
            p,
        ) implies starts_with(before[j].frames, p) by {
        assert(before[i] == records[i] && before[j] == records[j] && before[k] == records[k]);
        assert(starts_with(records[i].frames, p) && starts_with(records[k].frames, p));
        assert(starts_with(records[j].frames, p));
    }
}

pub proof fn lemma_depth_bounds(records: Seq<Record>, i: int)
    requires
        0 <= i < records.len(),
    ensures
        records[i].frames.len() <= depth(records),
    decreases records.len(),
{
    if i < records.len() - 1 {
        lemma_depth_bounds(records.drop_last(), i);
    }
}

/// The labels seen before the last record are still there after it, at the
/// same places.
pub proof fn lemma_seen_extends(records: Seq<Record>, p: Seq<Seq<char>>)
    requires
        records.len() > 0,
    ensures
        first_seen(records.drop_last(), p).len() <= first_seen(records, p).len(),
        forall|a: int|
            0 <= a < first_seen(records.drop_last(), p).len() ==> first_seen(records, p)[a]
                == first_seen(records.drop_last(), p)[a],
{
}

/// Whoever shows a label after `p` has that label among those seen.
pub proof fn lemma_shown_is_seen(records: Seq<Record>, p: Seq<Seq<char>>, i: int)
    requires
        0 <= i < records.len(),
        starts_with(records[i].frames, p),
        p.len() < records[i].frames.len(),
    ensures
        first_seen(records, p).contains(records[i].frames[p.len() as int]),
    decreases records.len(),
{
    let earlier = first_seen(records.drop_last(), p);
    let seen = first_seen(records, p);
    if i < records.len() - 1 {
        lemma_shown_is_seen(records.drop_last(), p, i);
        let n = records[i].frames[p.len() as int];
        let a = choose|a: int| 0 <= a < earlier.len() && earlier[a] == n;
        lemma_seen_extends(records, p);
        assert(seen[a] == n);
    } else {
        let n = records.last().frames[p.len() as int];
        if earlier.contains(n) {
        } else {
            assert(seen[earlier.len() as int] == n);
        }
    }
}

/// Each label seen is shown by some record; the lemma returns one.
pub proof fn lemma_seen_is_shown(records: Seq<Record>, p: Seq<Seq<char>>, a: int) -> (i: int)
    requires
        0 <= a < first_seen(records, p).len(),
    ensures
        0 <= i < records.len(),
        starts_with(records[i].frames, p),
        p.len() < records[i].frames.len(),
        records[i].frames[p.len() as int] == first_seen(records, p)[a],
    decreases records.len(),
{
    let earlier = first_seen(records.drop_last(), p);
    if a < earlier.len() {
        lemma_seen_extends(records, p);
        lemma_seen_is_shown(records.drop_last(), p, a)
    } else {
        records.len() - 1
    }
}

/// No label is seen twice.
pub proof fn lemma_seen_distinct(records: Seq<Record>, p: Seq<Seq<char>>, a: int, b: int)
    requires
        0 <= a < b < first_seen(records, p).len(),
    ensures
        first_seen(records, p)[a] != first_seen(records, p)[b],
    decreases records.len(),
{
    let earlier = first_seen(records.drop_last(), p);
    lemma_seen_extends(records, p);
    if b < earlier.len() {
        lemma_seen_distinct(records.drop_last(), p, a, b);
    } else {
        assert(earlier[a] == first_seen(records, p)[a]);
    }
}

/// Of two labels seen, the earlier one is shown by an earlier record.
pub proof fn lemma_seen_in_order(records: Seq<Record>, p: Seq<Seq<char>>, a: int, b: int) -> (at: (
    int,
    int,
))
    requires
        0 <= a < b < first_seen(records, p).len(),
    ensures
        0 <= at.0 < at.1 < records.len(),
        starts_with(records[at.0].frames, p.push(first_seen(records, p)[a])),
        starts_with(records[at.1].frames, p.push(first_seen(records, p)[b])),
    decreases records.len(),
{
    let earlier = first_seen(records.drop_last(), p);
    lemma_seen_extends(records, p);
    if b < earlier.len() {
        let at = lemma_seen_in_order(records.drop_last(), p, a, b);
        at
    } else {
        let i = lemma_seen_is_shown(records.drop_last(), p, a);
        let j = records.len() - 1;
        lemma_starts_with_push(records[i].frames, p, first_seen(records, p)[a]);
        lemma_starts_with_push(records[j].frames, p, first_seen(records, p)[b]);
        (i, j)
    }
}

/// Where labels follow `p`, some path is longer than `p`.
pub proof fn lemma_seen_needs_depth(records: Seq<Record>, p: Seq<Seq<char>>)
    requires
        first_seen(records, p).len() > 0,
    ensures
        p.len() < depth(records),
{
    let i = lemma_seen_is_shown(records, p, 0);
    lemma_depth_bounds(records, i);
}

/// The children of a node of the prefix tree: one for each label seen, each
/// the prefix tree below the longer path.
pub proof fn lemma_trie_children(records: Seq<Record>, p: Seq<Seq<char>>)
    ensures
        trie(records, p).children.len() == first_seen(records, p).len(),
        forall|i: int|
            0 <= i < first_seen(records, p).len() ==> #[trigger] trie(records, p).children[i]
                == trie(records, p.push(first_seen(records, p)[i])),
        forall|i: int|
            0 <= i < first_seen(records, p).len() ==> (#[trigger] trie(
                records,
                p,
            ).children[i]).name == first_seen(records, p)[i],
{
    if first_seen(records, p).len() > 0 {
        lemma_seen_needs_depth(records, p);
    }
    assert forall|i: int| 0 <= i < first_seen(records, p).len() implies (#[trigger] trie(
        records,
        p,
    ).children[i]).name == first_seen(records, p)[i] by {
        let q = p.push(first_seen(records, p)[i]);
        assert(q.last() == first_seen(records, p)[i]);
        assert(trie(records, q).name == q.last());
        assert(trie(records, p).children[i] == trie(records, q));
    }
}

/// No record begins with `p`.
pub open spec fn unseen(records: Seq<Record>, p: Seq<Seq<char>>) -> bool {
    forall|i: int| 0 <= i < records.len() ==> !starts_with((#[trigger] records[i]).frames, p)
}

/// A path that no record begins with has no count and no label after it.
pub proof fn lemma_unseen(records: Seq<Record>, p: Seq<Seq<char>>)
    requires
        unseen(records, p),
    ensures
        total_under(records, p) == 0,
        first_seen(records, p).len() == 0,
    decreases records.len(),
{
    if records.len() > 0 {
        let before = records.drop_last();
        assert forall|i: int| 0 <= i < before.len() implies !starts_with(
            (#[trigger] before[i]).frames,
            p,
        ) by {
            assert(before[i] == records[i]);
        }
        lemma_unseen(before, p);
        assert(records.last() == records[records.len() - 1]);
    }
}

/// A record that does not begin with `q` leaves the prefix tree below `q`
/// as it was.
pub proof fn lemma_same(records: Seq<Record>, q: Seq<Seq<char>>)
    requires
        records.len() > 0,
        !starts_with(records.last().frames, q),
    ensures
        trie(records, q) == trie(records.drop_last(), q),
    decreases depth(records) - q.len(),
{
    let before = records.drop_last();
    let names = first_seen(records, q);
    assert(names == first_seen(before, q));
    lemma_trie_children(records, q);
    lemma_trie_children(before, q);
    assert forall|i: int| 0 <= i < names.len() implies trie(records, q).children[i] == trie(
        before,
        q,
    ).children[i] by {
        lemma_seen_needs_depth(records, q);
        lemma_starts_with_push(records.last().frames, q, names[i]);
        lemma_same(records, q.push(names[i]));
    }
    assert(trie(records, q).children =~= trie(before, q).children);
}

/// Below a path that only the last record begins with hangs that record's
/// chain.
pub proof fn lemma_fresh(records: Seq<Record>, e: int)
    requires
        records.len() > 0,
        1 <= e <= records.last().frames.len(),
        unseen(records.drop_last(), records.last().frames.take(e)),
    ensures
        trie(records, records.last().frames.take(e)) == chain(
            records.last().frames.skip(e - 1),
            records.last().count,
        ),
    decreases records.last().frames.len() - e,
{
    let before = records.drop_last();
    let r = records.last();
    let q = r.frames.take(e);
    let links = r.frames.skip(e - 1);
    let u = trie(records, q);
    lemma_starts_with_take(r.frames, e);
    lemma_unseen(before, q);
    lemma_trie_children(records, q);
    assert(u.value == r.count);
    assert(u.name == links[0]);
    if e < r.frames.len() {
        let longer = r.frames.take(e + 1);
        assert(q.push(r.frames[e]) =~= longer);
        assert(first_seen(records, q) =~= seq![r.frames[e]]);
        assert forall|i: int| 0 <= i < before.len() implies !starts_with(
            (#[trigger] before[i]).frames,
            longer,
        ) by {
            lemma_starts_with_push(before[i].frames, q, r.frames[e]);
        }
        lemma_fresh(records, e + 1);
        assert(links.skip(1) =~= r.frames.skip(e));
        assert(u.children[0] == trie(records, longer));
        assert(u.children =~= chain(links, r.count).children);
    } else {
        assert(first_seen(records, q).len() == 0);
        assert(u.children =~= chain(links, r.count).children);
    }
}

/// In grouped records the label that the last record shows after `p` is the
/// one seen last.
pub proof fn lemma_last_seen(records: Seq<Record>, p: Seq<Seq<char>>)
    requires
        grouped(records),
        records.len() > 0,
        starts_with(records.last().frames, p),
        p.len() < records.last().frames.len(),
    ensures
        first_seen(records, p).len() > 0,
        first_seen(records, p).last() == records.last().frames[p.len() as int],
{
    let seen = first_seen(records, p);
    let k = records.len() - 1;
    let n = records[k].frames[p.len() as int];
    lemma_shown_is_seen(records, p, k);
    let a = choose|a: int| 0 <= a < seen.len() && seen[a] == n;
    let b = seen.len() - 1;
    if a < b {
        let at = lemma_seen_in_order(records, p, a, b);
        let i = at.0;
        let j = at.1;
        lemma_seen_distinct(records, p, a, b);
        lemma_starts_with_push(records[j].frames, p, seen[b]);
        lemma_starts_with_push(records[j].frames, p, n);
        lemma_starts_with_push(records[k].frames, p, n);
        assert(j < k);
        assert(starts_with(records[i].frames, p.push(n)));
        assert(starts_with(records[k].frames, p.push(n)));
        assert(starts_with(records[j].frames, p.push(n)));
    }
}

/// One step of the builder is one step of the prefix tree: adding the last
/// record below the node for a prefix that it shares with the record before
/// it gives the node that the prefix has once the last record is counted.
pub proof fn lemma_step(records: Seq<Record>, d: int)
    requires
        grouped(records),
        records.len() > 0,
        0 <= d <= records.last().frames.len(),
        records.len() == 1 ==> d == 0,
        records.len() > 1 ==> starts_with(
            records[records.len() - 2].frames,
            records.last().frames.take(d),
        ),
    ensures
        graft(
            trie(records.drop_last(), records.last().frames.take(d)),
            (trail(records.drop_last()) - d) as nat,
            records.last().frames.skip(d),
            records.last().count,
        ) == trie(records, records.last().frames.take(d)),
    decreases records.last().frames.len() - d,
{
    let before = records.drop_last();
    let r = records.last();
    let k = records.len() - 1;
    let p = r.frames.take(d);
    let rest = r.frames.skip(d);
    let live = (trail(before) - d) as nat;
    let t = trie(before, p);
    let g = graft(t, live, rest, r.count);
    let u = trie(records, p);
    let seen = first_seen(before, p);
    lemma_starts_with_take(r.frames, d);
    lemma_trie_children(before, p);
    lemma_trie_children(records, p);
    lemma_seen_extends(records, p);
    lemma_grouped_drop_last(records);
    assert(g.name == u.name);
    assert(g.value == u.value);
    if d == r.frames.len() {
        assert(first_seen(records, p) == seen);
        assert forall|i: int| 0 <= i < seen.len() implies u.children[i] == t.children[i] by {
            lemma_starts_with_push(r.frames, p, seen[i]);
            lemma_same(records, p.push(seen[i]));
        }
        assert(g.children =~= u.children);
    } else {
        let n = r.frames[d];
        let longer = r.frames.take(d + 1);
        assert(rest[0] == n);
        assert(p.push(n) =~= longer);
        assert(rest.skip(1) =~= r.frames.skip(d + 1));
        lemma_starts_with_push(r.frames, p, n);
        if live > 0 && t.children.len() > 0 && t.children.last().name == n {
            let prev = before.last();
            assert(prev == records[k - 1]);
            lemma_last_seen(before, p);
            assert(t.children.last() == t.children[seen.len() - 1]);
            assert(seen.last() == n);
            lemma_starts_with_push(prev.frames, p, n);
            lemma_step(records, d + 1);
            assert(seen.contains(n));
            assert(first_seen(records, p) == seen);
            assert(trail(before) - (d + 1) == live - 1);
            assert forall|i: int| 0 <= i < seen.len() implies g.children[i] == u.children[i] by {
                if i < seen.len() - 1 {
                    lemma_seen_distinct(before, p, i, seen.len() - 1);
                    lemma_starts_with_push(r.frames, p, seen[i]);
                    lemma_same(records, p.push(seen[i]));
                } else {
                    assert(t.children[i] == trie(before, longer));
                    assert(u.children[i] == trie(records, longer));
                }
            }
            assert(g.children =~= u.children);
        } else {
            if seen.contains(n) {
                let a = choose|a: int| 0 <= a < seen.len() && seen[a] == n;
                let i = lemma_seen_is_shown(before, p, a);
                let prev = before.last();
                assert(prev == records[k - 1]);
                assert(before[i] == records[i]);
                lemma_starts_with_push(records[i].frames, p, n);
                lemma_starts_with_push(prev.frames, p, n);
                if i < k - 1 {
                    assert(starts_with(records[i].frames, p.push(n)));
                    assert(starts_with(records[k].frames, p.push(n)));
                    assert(starts_with(records[k - 1].frames, p.push(n)));
                }
                lemma_last_seen(before, p);
                assert(t.children.last() == t.children[seen.len() - 1]);
                assert(false);
            }
            assert(first_seen(records, p) =~= seen.push(n));
            assert forall|i: int| 0 <= i < before.len() implies !starts_with(
                (#[trigger] before[i]).frames,
                longer,
            ) by {
                if starts_with(before[i].frames, longer) {
                    lemma_starts_with_push(before[i].frames, p, n);
                    lemma_shown_is_seen(before, p, i);
                }
            }
            lemma_fresh(records, d + 1);
            assert forall|i: int| 0 <= i <= seen.len() implies g.children[i] == u.children[i] by {
                if i < seen.len() {
                    lemma_starts_with_push(r.frames, p, seen[i]);
                    lemma_same(records, p.push(seen[i]));
                } else {
                    assert(u.children[i] == trie(records, longer));
                }
            }
            assert(g.children =~= u.children);
        }
    }
}

/// The builder arrives at the prefix tree: for grouped records the tree
/// that they grow is the prefix tree of their paths.
pub proof fn lemma_grow_is_trie(records: Seq<Record>)
    requires
        grouped(records),
    ensures
        grow(records) == trie(records, Seq::empty()),
    decreases records.len(),
{
    let top = Seq::<Seq<char>>::empty();
    if records.len() == 0 {
        assert(trie(records, top).children =~= Seq::empty());
    } else {
        let before = records.drop_last();
        let r = records.last();
        lemma_grouped_drop_last(records);
        lemma_grow_is_trie(before);
        assert(r.frames.take(0) =~= top);
        assert(r.frames.skip(0) =~= r.frames);
        lemma_step(records, 0);
    }
}

} // verus!
