//! The call tree and its mathematical model.

use vstd::prelude::*;

verus! {

/// The mathematical value of a call tree node: the frame's label, the
/// aggregated count and the children in stored order.
pub struct Tree {
    pub name: Seq<char>,
    pub value: nat,
    pub children: Seq<Tree>,
}

/// A node without children.
pub open spec fn leaf(name: Seq<char>, value: nat) -> Tree {
    Tree { name, value, children: Seq::empty() }
}

/// No count anywhere in `t` exceeds `bound`.
pub open spec fn capped(t: Tree, bound: nat) -> bool
    decreases t,
{
    &&& t.value <= bound
    &&& forall|i: int| 0 <= i < t.children.len() ==> capped(#[trigger] t.children[i], bound)
}

/// A bound that holds of a tree holds of every larger bound too.
pub proof fn lemma_capped_grows(t: Tree, small: nat, large: nat)
    requires
        capped(t, small),
        small <= large,
    ensures
        capped(t, large),
    decreases t,
{
    assert forall|i: int| 0 <= i < t.children.len() implies capped(
        #[trigger] t.children[i],
        large,
    ) by {
        lemma_capped_grows(t.children[i], small, large);
    }
}

/// One frame of the aggregated call tree. A node owns its children; the
/// label borrows from the line it was read from.
#[derive(Debug)]
pub struct Stack<'a> {
    pub name: &'a str,
    pub value: u128,
    pub children: Vec<Stack<'a>>,
}

impl<'a> Stack<'a> {
    /// The mathematical value of the node and of all that hangs below it.
    pub open spec fn model(self) -> Tree
        decreases self,
    {
        Tree {
            name: self.name@,
            value: self.value as nat,
            children: Seq::new(
                self.children.len() as nat,
                |i: int|
                    if 0 <= i < self.children.len() {
                        self.children[i].model()
                    } else {
                        arbitrary()
                    },
            ),
        }
    }
}

impl<'a> View for Stack<'a> {
    type V = Tree;

    open spec fn view(&self) -> Tree {
        self.model()
    }
}

impl<'a> Stack<'a> {
    /// A fresh node with the given label, no count and no children.
    pub fn new(name: &'a str) -> (node: Self)
        ensures
            node@ == leaf(name@, 0),
    {
        let node = Stack { name, value: 0, children: Vec::new() };
        assert(node@.children =~= Seq::empty());
        node
    }
}

impl<'a> Default for Stack<'a> {
    /// The node with the empty label, no count and no children.
    fn default() -> (node: Self)
        ensures
            node@ == leaf(Seq::empty(), 0),
    {
        let node = Stack { name: "", value: 0, children: Vec::new() };
        proof {
            reveal_strlit("");
            assert(node@.name =~= Seq::empty());
            assert(node@.children =~= Seq::empty());
        }
        node
    }
}

} // verus!
