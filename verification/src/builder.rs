//! Building the call tree in one forward pass.
//!
//! The builder keeps no index of the nodes. Between two lines it remembers
//! only how deep the previous line reached: the nodes of that line are the
//! last child of the root, the last child of that node, and so on. A new line
//! walks down this spine while its labels agree with it, and hangs a fresh
//! chain of nodes below the point where they part. Lines that share a prefix
//! must therefore follow one another; a prefix that comes back later gets a
//! second subtree.

use crate::record::{labels, parse_line, record_of, Record, StackLine};
use crate::tree::{capped, leaf, lemma_capped_grows, Stack, Tree};
use vstd::prelude::*;
use vstd::string::StringSliceAdditionalSpecFns;
use vstd::utf8::*;

verus! {

/// A single path of nodes, one per label, each carrying `count`.
pub open spec fn chain(frames: Seq<Seq<char>>, count: nat) -> Tree
    recommends
        frames.len() > 0,
    decreases frames.len(),
{
    Tree {
        name: frames[0],
        value: count,
        children: if frames.len() > 1 {
            seq![chain(frames.skip(1), count)]
        } else {
            Seq::empty()
        },
    }
}

/// Adds one sample below `t`. The count goes to `t` itself. Of the labels,
/// the first is matched against the last child of `t` as long as the previous
/// line reached that deep (`live > 0`); where it matches, the rest is added
/// below that child, and where it does not, the labels become a new last
/// child of `t`.
pub open spec fn graft(t: Tree, live: nat, frames: Seq<Seq<char>>, count: nat) -> Tree
    decreases frames.len(),
{
    Tree {
        name: t.name,
        value: t.value + count,
        children: if frames.len() == 0 {
            t.children
        } else if live > 0 && t.children.len() > 0 && t.children.last().name == frames[0] {
            t.children.update(
                t.children.len() - 1,
                graft(t.children.last(), (live - 1) as nat, frames.skip(1), count),
            )
        } else {
            t.children.push(chain(frames, count))
        },
    }
}

/// How deep the last of the records reached; 0 where there is none.
pub open spec fn trail(records: Seq<Record>) -> nat {
    if records.len() == 0 {
        0
    } else {
        records.last().frames.len()
    }
}

/// The tree that the records build, taken in order.
pub open spec fn grow(records: Seq<Record>) -> Tree
    decreases records.len(),
{
    if records.len() == 0 {
        leaf(Seq::empty(), 0)
    } else {
        let before = records.drop_last();
        graft(grow(before), trail(before), records.last().frames, records.last().count)
    }
}

/// What a list of lines says, line by line.
pub open spec fn records(lines: Seq<&str>) -> Seq<Record> {
    Seq::new(lines.len(), |i: int| record_of(lines[i].spec_bytes()))
}

pub proof fn lemma_chain_capped(frames: Seq<Seq<char>>, count: nat)
    requires
        frames.len() > 0,
    ensures
        capped(chain(frames, count), count),
    decreases frames.len(),
{
    if frames.len() > 1 {
        lemma_chain_capped(frames.skip(1), count);
    }
}

/// Adding a sample raises no count by more than the sample's own.
pub proof fn lemma_graft_capped(
    t: Tree,
    live: nat,
    frames: Seq<Seq<char>>,
    count: nat,
    bound: nat,
)
    requires
        capped(t, bound),
    ensures
        capped(graft(t, live, frames, count), bound + count),
    decreases frames.len(),
{
    let g = graft(t, live, frames, count);
    assert forall|i: int| 0 <= i < g.children.len() implies capped(
        #[trigger] g.children[i],
        bound + count,
    ) by {
        if frames.len() == 0 {
            lemma_capped_grows(t.children[i], bound, bound + count);
        } else if live > 0 && t.children.len() > 0 && t.children.last().name == frames[0] {
            if i == t.children.len() - 1 {
                lemma_graft_capped(
                    t.children.last(),
                    (live - 1) as nat,
                    frames.skip(1),
                    count,
                    bound,
                );
            } else {
                lemma_capped_grows(t.children[i], bound, bound + count);
            }
        } else {
            if i == t.children.len() {
                lemma_chain_capped(frames, count);
                lemma_capped_grows(chain(frames, count), count, bound + count);
            } else {
                lemma_capped_grows(t.children[i], bound, bound + count);
            }
        }
    }
}

/// Whether two string slices hold the same text.
pub fn same_text(a: &str, b: &str) -> (same: bool)
    ensures
        same == (a@ == b@),
{
    let x = a.as_bytes();
    let y = b.as_bytes();
    proof {
        encode_utf8_decode_utf8(a@);
        encode_utf8_decode_utf8(b@);
    }
    if x.len() != y.len() {
        return false;
    }
    let n: usize = x.len();
    let mut i: usize = 0;
    while i < n
        invariant
            n == x@.len(),
            n == y@.len(),
            0 <= i <= n,
            x@ == a.spec_bytes(),
            y@ == b.spec_bytes(),
            forall|j: int| 0 <= j < i ==> x@[j] == y@[j],
        decreases n - i,
    {
        if x[i] != y[i] {
            return false;
        }
        i += 1;
    }
    assert(x@ =~= y@);
    true
}

/// The chain of nodes for the labels from index `from` on.
fn chain_of<'a>(frames: &Vec<&'a str>, from: usize, count: usize) -> (node: Stack<'a>)
    requires
        from < frames.len(),
    ensures
        node@ == chain(labels(frames@).skip(from as int), count as nat),
{
    let n: usize = frames.len();
    let ghost all = labels(frames@);
    let mut node = Stack { name: frames[n - 1], value: count as u128, children: Vec::new() };
    let mut i: usize = n - 1;
    assert(node@.children =~= Seq::empty());
    while i > from
        invariant
            n == frames.len(),
            all == labels(frames@),
            from <= i < n,
            node@ == chain(all.skip(i as int), count as nat),
        decreases i,
    {
        i -= 1;
        let ghost below = node@;
        let mut kids: Vec<Stack<'a>> = Vec::new();
        kids.push(node);
        node = Stack { name: frames[i], value: count as u128, children: kids };
        proof {
            assert(all.skip(i as int).skip(1) =~= all.skip(i + 1));
            assert(node@.children =~= seq![below]);
        }
    }
    node
}

impl<'a> Stack<'a> {
    /// Adds one sample below this node: the labels of `frames` from index
    /// `from` on, with `live` telling how many levels of the previous line
    /// are still open below this node.
    pub fn graft(&mut self, live: usize, frames: &Vec<&'a str>, from: usize, count: usize)
        requires
            from <= frames.len(),
            capped(old(self)@, (u128::MAX - count) as nat),
        ensures
            final(self)@ == graft(
                old(self)@,
                live as nat,
                labels(frames@).skip(from as int),
                count as nat,
            ),
        decreases frames.len() - from,
    {
        let ghost before = self@;
        let ghost rest = labels(frames@).skip(from as int);
        self.value = self.value + count as u128;
        if from < frames.len() {
            let n: usize = self.children.len();
            assert(rest[0] == frames@[from as int]@);
            assert(rest.skip(1) =~= labels(frames@).skip(from + 1));
            if live > 0 && n > 0 && same_text(self.children[n - 1].name, frames[from]) {
                assert(before.children[n - 1] == self.children[n - 1]@);
                let last = &mut self.children[n - 1];
                last.graft(live - 1, frames, from + 1, count);
                assert(self@.children =~= graft(before, live as nat, rest, count as nat).children);
            } else {
                let fresh = chain_of(frames, from, count);
                self.children.push(fresh);
                assert(self@.children =~= graft(before, live as nat, rest, count as nat).children);
            }
        } else {
            assert(self@.children =~= before.children);
        }
    }
}

/// Builds the call tree of the lines, read in order.
pub fn build_tree<'a>(lines: &[&'a str]) -> (root: Stack<'a>)
    ensures
        root@ == grow(records(lines@)),
{
    let ghost all = records(lines@);
    let mut root = Stack::new("");
    let mut live: usize = 0;
    let n: usize = lines.len();
    let mut i: usize = 0;
    proof {
        reveal_strlit("");
        assert(root@.name =~= Seq::empty());
        assert(all.take(0) =~= Seq::<Record>::empty());
    }
    while i < n
        invariant
            n == lines@.len(),
            all == records(lines@),
            0 <= i <= n,
            root@ == grow(all.take(i as int)),
            live == trail(all.take(i as int)),
            capped(root@, (i * usize::MAX) as nat),
        decreases n - i,
    {
        let rec: StackLine<'a> = parse_line(lines[i]);
        proof {
            assert(rec@ == all[i as int]);
            assert(all.take(i + 1).drop_last() =~= all.take(i as int));
            assert(all.take(i + 1).last() == all[i as int]);
            assert(labels(rec.frames@).skip(0) =~= labels(rec.frames@));
            assert(i * usize::MAX + rec.count <= u128::MAX) by (nonlinear_arith)
                requires
                    i < n,
                    n <= usize::MAX,
                    rec.count <= usize::MAX,
                    usize::MAX <= 0xffff_ffff_ffff_ffff,
            ;
            lemma_capped_grows(root@, (i * usize::MAX) as nat, (u128::MAX - rec.count) as nat);
            lemma_graft_capped(
                root@,
                live as nat,
                rec@.frames,
                rec@.count,
                (i * usize::MAX) as nat,
            );
            assert((i + 1) * usize::MAX == i * usize::MAX + usize::MAX) by (nonlinear_arith);
            lemma_capped_grows(
                graft(root@, live as nat, rec@.frames, rec@.count),
                (i * usize::MAX + rec.count) as nat,
                ((i + 1) * usize::MAX) as nat,
            );
        }
        root.graft(live, &rec.frames, 0, rec.count);
        live = rec.frames.len();
        i += 1;
    }
    assert(all.take(n as int) =~= all);
    root
}

} // verus!

