//! Going through the children of a node without scanning its empty slots.

use vstd::prelude::*;
use crate::wordlist::trie::node::{next_present, TrieNode};

verus! {

/// The children in the slots from `slot` on, in the order of their slots.
pub open spec fn present_from(children: Seq<Option<usize>>, slot: int) -> Seq<usize>
    decreases children.len() - slot,
{
    if slot >= children.len() || slot < 0 {
        Seq::empty()
    } else if children[slot] is Some {
        seq![children[slot]->0] + present_from(children, slot + 1)
    } else {
        present_from(children, slot + 1)
    }
}

/// The table of a node names, for each slot, the next greater slot that has
/// a child.
pub open spec fn table_ok(node: TrieNode) -> bool {
    forall|slot: int|
        0 <= slot < 27 ==> #[trigger] node.next_child[slot] == next_present(node.children@, slot)
}

/// What `next_present` names: the smallest slot above `slot` that has an
/// entry, or `None` where no slot above `slot` has one.
pub proof fn lemma_next_present(children: Seq<Option<usize>>, slot: int)
    requires
        -1 <= slot < children.len() <= usize::MAX,
    ensures
        match next_present(children, slot) {
            Some(next) => {
                &&& slot < next < children.len()
                &&& children[next as int] is Some
                &&& forall|between: int| slot < between < next ==> children[between] is None
            },
            None => forall|above: int| slot < above < children.len() ==> children[above] is None,
        },
    decreases children.len() - slot,
{
    if slot + 1 < children.len() && children[slot + 1] is None {
        lemma_next_present(children, slot + 1);
    }
}

/// The children after `slot` are those from the next slot that has one.
pub proof fn lemma_present_after(children: Seq<Option<usize>>, slot: int)
    requires
        -1 <= slot < children.len() <= usize::MAX,
    ensures
        present_from(children, slot + 1) == match next_present(children, slot) {
            Some(next) => present_from(children, next as int),
            None => Seq::<usize>::empty(),
        },
    decreases children.len() - slot,
{
    if slot + 1 < children.len() && children[slot + 1] is None {
        lemma_present_after(children, slot + 1);
    }
}

/// Every child is among the children from its slot, or an earlier one, on.
pub proof fn lemma_present_has(children: Seq<Option<usize>>, from: int, slot: int)
    requires
        0 <= from <= slot < children.len(),
        children[slot] is Some,
    ensures
        present_from(children, from).contains(children[slot]->0),
    decreases slot - from,
{
    if from == slot {
        assert(present_from(children, from)[0] == children[slot]->0);
    } else {
        lemma_present_has(children, from + 1, slot);
        let rest = present_from(children, from + 1);
        let k = choose|k: int| 0 <= k < rest.len() && rest[k] == children[slot]->0;
        if children[from] is Some {
            assert(present_from(children, from)[k + 1] == rest[k]);
        }
    }
}

/// Each of the children from a slot on sits in a slot at or after it.
pub proof fn lemma_present_slot(children: Seq<Option<usize>>, from: int, k: int) -> (slot: int)
    requires
        0 <= from,
        0 <= k < present_from(children, from).len(),
    ensures
        from <= slot < children.len(),
        children[slot] == Some(present_from(children, from)[k]),
    decreases children.len() - from,
{
    if children[from] is Some {
        if k == 0 {
            from
        } else {
            lemma_present_slot(children, from + 1, k - 1)
        }
    } else {
        lemma_present_slot(children, from + 1, k)
    }
}

/// The slot of the child that is number `k` among the children from `from`
/// on.
pub open spec fn present_slot(children: Seq<Option<usize>>, from: int, k: int) -> int
    decreases children.len() - from,
{
    if from >= children.len() || from < 0 {
        from
    } else if children[from] is Some {
        if k == 0 {
            from
        } else {
            present_slot(children, from + 1, k - 1)
        }
    } else {
        present_slot(children, from + 1, k)
    }
}

/// The children from a slot on are exactly the children in those slots, in
/// ascending order of their slots: each is the child of its slot, and the
/// slots rise from each to the next.
pub proof fn lemma_present_order(children: Seq<Option<usize>>, from: int, a: int, b: int)
    requires
        0 <= from,
        0 <= a <= b < present_from(children, from).len(),
    ensures
        from <= present_slot(children, from, a) < children.len(),
        children[present_slot(children, from, a)] == Some(present_from(children, from)[a]),
        a < b ==> present_slot(children, from, a) < present_slot(children, from, b),
        a == b ==> present_slot(children, from, a) == present_slot(children, from, b),
    decreases children.len() - from,
{
    if children[from] is Some {
        if a == 0 {
            if b > 0 {
                lemma_present_order(children, from + 1, b - 1, b - 1);
            }
        } else {
            lemma_present_order(children, from + 1, a - 1, b - 1);
        }
    } else {
        lemma_present_order(children, from + 1, a, b);
    }
}

/// Where no child sits in two slots, no child comes twice among the
/// children from a slot on.
pub proof fn lemma_present_distinct(children: Seq<Option<usize>>, from: int, a: int, b: int)
    requires
        0 <= from,
        0 <= a < b < present_from(children, from).len(),
        forall|s: int, t: int|
            0 <= s < t < children.len() && children[s] is Some ==> children[s] != children[t],
    ensures
        present_from(children, from)[a] != present_from(children, from)[b],
{
    lemma_present_order(children, from, a, b);
    lemma_present_order(children, from, b, b);
}

/// A pass through the children of one node, in the order of their slots.
pub struct TrieCursor<'a> {
    idx: Option<usize>,
    node: &'a TrieNode,
}

impl<'a> TrieCursor<'a> {
    /// The children that the pass has yet to yield.
    pub closed spec fn remaining(&self) -> Seq<usize> {
        match self.idx {
            Some(slot) => present_from(self.node.children@, slot as int),
            None => Seq::empty(),
        }
    }

    /// The node whose children the pass yields.
    pub closed spec fn node(&self) -> TrieNode {
        *self.node
    }

    /// The pass stands at a slot that has a child, and the table it follows
    /// is right.
    pub closed spec fn wf(&self) -> bool {
        &&& table_ok(*self.node)
        &&& self.idx matches Some(slot) ==> slot < 27 && self.node.children[slot as int] is Some
    }

    /// A pass through all children of `node`.
    pub fn new(node: &'a TrieNode) -> (cursor: Self)
        requires
            table_ok(*node),
        ensures
            cursor.wf(),
            cursor.node() == *node,
            cursor.remaining() == present_from(node.children@, 0),
    {
        proof {
            lemma_next_present(node.children@, 0);
            lemma_present_after(node.children@, 0);
        }
        if node.children[0].is_some() {
            TrieCursor { idx: Some(0), node }
        } else {
            TrieCursor { idx: node.next_child[0], node }
        }
    }

    /// The next child, or `None` when the pass is over.
    pub fn next(&mut self) -> (child: Option<usize>)
        requires
            old(self).wf(),
        ensures
            final(self).wf(),
            final(self).node() == old(self).node(),
            match child {
                Some(c) => old(self).remaining().len() > 0 && c == old(self).remaining()[0]
                    && final(self).remaining() == old(self).remaining().drop_first(),
                None => old(self).remaining().len() == 0 && final(self).remaining().len() == 0,
            },
    {
        match self.idx {
            Some(idx) => {
                proof {
                    lemma_next_present(self.node.children@, idx as int);
                    lemma_present_after(self.node.children@, idx as int);
                    assert(present_from(self.node.children@, idx as int).drop_first()
                        =~= present_from(self.node.children@, idx + 1));
                }
                let rv = self.node.children[idx];
                self.idx = self.node.next_child[idx];
                rv
            },
            None => None,
        }
    }
}

impl TrieNode {
    /// The children of the node, in the order of their slots.
    pub fn present_children(&self) -> (kids: Vec<usize>)
        requires
            table_ok(*self),
        ensures
            kids@ == present_from(self.children@, 0),
    {
        let mut kids: Vec<usize> = Vec::new();
        let mut cursor = TrieCursor::new(self);
        loop
            invariant_except_break
                cursor.wf(),
                cursor.node() == *self,
                kids@ + cursor.remaining() == present_from(self.children@, 0),
                cursor.remaining().len() + kids@.len() == present_from(self.children@, 0).len(),
            ensures
                kids@ == present_from(self.children@, 0),
            decreases cursor.remaining().len(),
        {
            let ghost before = cursor.remaining();
            match cursor.next() {
                Some(child) => {
                    proof {
                        assert(kids@.push(child) + before.drop_first() =~= kids@ + before);
                    }
                    kids.push(child);
                },
                None => {
                    proof {
                        assert(kids@ + before =~= kids@);
                    }
                    break;
                },
            }
        }
        kids
    }
}

} // verus!
