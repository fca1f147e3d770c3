use crate::interval_tree::interval_tree_entry::IntervalTreeEntry;
use crate::interval_tree::interval_tree_node::IntervalTreeNode;
use crate::interval_tree::interval_type::IntervalType;
use vstd::prelude::*;

verus! {

/// Where an in-order iteration over a subtree stands.
pub enum State<'a, T, D> where T: IntervalType {
    /// Nothing was emitted yet.
    Initial,
    /// The entries of the left subtree are being emitted.
    EmitLeft(Box<InorderIterator<'a, T, D>>),
    /// The left subtree is exhausted; the entry of the root comes next.
    EmitSelf,
    /// The entries of the right subtree are being emitted.
    EmitRight(Box<InorderIterator<'a, T, D>>),
    /// Every entry was emitted.
    Done,
}

/// An iteration over the entries of a subtree in the order of their
/// interval starts, as an explicit state machine.
pub struct InorderIterator<'a, T, D> where T: IntervalType {
    pub root: Option<&'a IntervalTreeNode<T, D>>,
    pub current_state: State<'a, T, D>,
}

/// The number of nodes on the longest path from this node downwards.
pub open spec fn height<T: IntervalType, D>(node: &IntervalTreeNode<T, D>) -> nat
    decreases node,
{
    let l = match node.left {
        Some(left) => height(&*left),
        None => 0,
    };
    let r = match node.right {
        Some(right) => height(&*right),
        None => 0,
    };
    1 + if l >= r { l } else { r }
}

impl<'a, T, D> InorderIterator<'a, T, D> where T: IntervalType {
    /// The entries that the iterator has yet to emit, in order.
    pub open spec fn remaining(&self) -> Seq<IntervalTreeEntry<T, D>>
        decreases self,
    {
        match self.root {
            None => Seq::empty(),
            Some(root) => match self.current_state {
                State::Initial => root.inorder(),
                State::EmitLeft(iter) => iter.remaining() + seq![root.entry] + root.right_inorder(),
                State::EmitSelf => seq![root.entry] + root.right_inorder(),
                State::EmitRight(iter) => iter.remaining(),
                State::Done => Seq::empty(),
            },
        }
    }

    /// While a subtree is being emitted, the inner iterator runs over that
    /// very subtree.
    pub open spec fn wf(&self) -> bool
        decreases self,
    {
        match self.root {
            None => true,
            Some(root) => match self.current_state {
                State::EmitLeft(iter) => {
                    &&& iter.wf()
                    &&& root.left is Some
                    &&& iter.root == Some(&*root.left.unwrap())
                },
                State::EmitRight(iter) => {
                    &&& iter.wf()
                    &&& root.right is Some
                    &&& iter.root == Some(&*root.right.unwrap())
                },
                _ => true,
            },
        }
    }

    /// The height of the subtree that the iterator runs over.
    pub open spec fn weight(&self) -> nat {
        match self.root {
            None => 0,
            Some(root) => height(root),
        }
    }

    /// How many more transitions the state machine can make before it
    /// emits an entry or stops.
    pub open spec fn rank(&self) -> nat {
        match self.current_state {
            State::Initial => 4,
            State::EmitLeft(_) => 3,
            State::EmitSelf => 2,
            State::EmitRight(_) => 1,
            State::Done => 0,
        }
    }

    /// The iterator over the subtree below `root` that has emitted nothing yet.
    pub fn new(root: &'a IntervalTreeNode<T, D>) -> (iter: Self)
        ensures
            iter.wf(),
            iter.root == Some(root),
            iter.current_state is Initial,
            iter.remaining() == root.inorder(),
    {
        Self { root: Some(root), current_state: State::Initial }
    }

    /// The iterator that emits nothing.
    pub fn empty() -> (iter: Self)
        ensures
            iter.wf(),
            iter.root is None,
            iter.remaining() == Seq::<IntervalTreeEntry<T, D>>::empty(),
    {
        Self { root: None, current_state: State::Done }
    }

    /// Emits the next entry, or `None` once every entry was emitted.
    pub fn next(&mut self) -> (item: Option<&'a IntervalTreeEntry<T, D>>)
        requires
            old(self).wf(),
        ensures
            final(self).wf(),
            final(self).root == old(self).root,
            match item {
                Some(entry) => {
                    &&& old(self).remaining().len() > 0
                    &&& *entry == old(self).remaining()[0]
                    &&& final(self).remaining() == old(self).remaining().drop_first()
                },
                None => {
                    &&& old(self).remaining().len() == 0
                    &&& final(self).remaining().len() == 0
                },
            },
        decreases old(self).weight(),
    {
        if self.root.is_none() {
            return None;
        }
        let root = self.root.unwrap();

        loop
            invariant
                self.wf(),
                self.root == Some(root),
                self.root == old(self).root,
                self.remaining() == old(self).remaining(),
            decreases self.rank(),
        {
            match &mut self.current_state {
                // The initial state is entered always.
                State::Initial => {
                    if let Some(left) = &root.left {
                        let iter = InorderIterator::new(left);
                        self.current_state = State::EmitLeft(Box::new(iter));
                    } else {
                        self.current_state = State::EmitSelf;
                    }
                },
                // Only happens when there is a left child,
                // enumerate until it is exhausted.
                State::EmitLeft(iter) => {
                    let ghost before_remaining = iter.remaining();
                    let ghost rest = seq![root.entry] + root.right_inorder();
                    if let Some(value) = iter.next() {
                        proof {
                            assert((before_remaining + rest).drop_first() =~= before_remaining.drop_first()
                                + rest);
                            assert(before_remaining + seq![root.entry] + root.right_inorder()
                                =~= before_remaining + rest);
                            assert(iter.remaining() + seq![root.entry] + root.right_inorder()
                                =~= iter.remaining() + rest);
                        }
                        return Some(value);
                    }
                    proof {
                        assert(before_remaining + seq![root.entry] + root.right_inorder() =~= rest);
                    }
                    self.current_state = State::EmitSelf;
                },
                // The "self" state is entered always.
                State::EmitSelf => {
                    if let Some(right) = &root.right {
                        let iter = InorderIterator::new(right);
                        self.current_state = State::EmitRight(Box::new(iter));
                    } else {
                        self.current_state = State::Done;
                    }
                    proof {
                        assert((seq![root.entry] + root.right_inorder()).drop_first()
                            =~= root.right_inorder());
                    }
                    return Some(&root.entry);
                },
                // Only happens when there is a right child,
                // enumerate until it is exhausted.
                State::EmitRight(iter) => {
                    if let Some(value) = iter.next() {
                        return Some(value);
                    }
                    self.current_state = State::Done;
                },
                // The "Done" state is entered last.
                State::Done => {
                    return None;
                },
            }
        }
    }

    /// The bounds on the number of entries: both are the size of the
    /// subtree that the iterator runs over. The iterator that runs over no
    /// tree knows no upper bound.
    pub fn size_hint(&self) -> (bounds: (usize, Option<usize>))
        requires
            self.root is Some ==> self.root.unwrap().len_spec() <= usize::MAX,
        ensures
            self.root is None ==> bounds == (0usize, None::<usize>),
            self.root is Some ==> bounds == (
                self.root.unwrap().len_spec() as usize,
                Some(self.root.unwrap().len_spec() as usize),
            ),
    {
        if self.root.is_none() {
            return (0, None);
        }
        let size = self.root.unwrap().len();
        (size, Some(size))
    }

    /// Consumes the iterator and returns the size of the subtree that it
    /// runs over.
    pub fn count(self) -> (n: usize)
        requires
            self.root is Some ==> self.root.unwrap().len_spec() <= usize::MAX,
        ensures
            self.root is None ==> n == 0,
            self.root is Some ==> n == self.root.unwrap().len_spec(),
    {
        if let Some(node) = self.root {
            node.len()
        } else {
            0
        }
    }

    /// Consumes the iterator and returns the last entry of the subtree that
    /// it runs over: the entry of its rightmost node.
    pub fn last(self) -> (item: Option<&'a IntervalTreeEntry<T, D>>)
        ensures
            self.root is None ==> item is None,
            self.root is Some ==> item is Some && *item.unwrap() == self.root.unwrap().inorder().last(),
    {
        if self.root.is_none() {
            return None;
        }
        let mut token = self.root.unwrap();

        while token.right.is_some()
            invariant
                token.inorder().last() == self.root.unwrap().inorder().last(),
            decreases token,
        {
            token = token.right.as_ref().unwrap();
        }
        Some(&token.entry)
    }

    /// Consumes the iterator and returns what it has yet to emit, in order.
    pub fn collect(self) -> (items: Vec<&'a IntervalTreeEntry<T, D>>)
        requires
            self.wf(),
        ensures
            items@.len() == self.remaining().len(),
            forall|i: int| 0 <= i < items@.len() ==> *(#[trigger] items@[i]) == self.remaining()[i],
    {
        let mut iter = self;
        let mut items: Vec<&'a IntervalTreeEntry<T, D>> = Vec::new();
        loop
            invariant
                iter.wf(),
                items@.len() + iter.remaining().len() == self.remaining().len(),
                forall|i: int| 0 <= i < items@.len() ==> *(#[trigger] items@[i]) == self.remaining()[i],
                forall|i: int|
                    0 <= i < iter.remaining().len() ==> (#[trigger] iter.remaining()[i])
                        == self.remaining()[items@.len() + i],
            decreases iter.remaining().len(),
        {
            let ghost before_remaining = iter.remaining();
            match iter.next() {
                Some(entry) => {
                    items.push(entry);
                    proof {
                        assert forall|i: int| 0 <= i < iter.remaining().len() implies (
                        #[trigger] iter.remaining()[i]) == self.remaining()[items@.len() + i] by {
                            assert(iter.remaining()[i] == before_remaining[i + 1]);
                        }
                    }
                },
                None => {
                    return items;
                },
            }
        }
    }

    /// Calls `f` on each entry that the iterator has yet to emit, in order.
    pub fn for_each<F>(self, mut f: F) where F: FnMut(&'a IntervalTreeEntry<T, D>)
        requires
            self.wf(),
            forall|entry: &'a IntervalTreeEntry<T, D>| call_requires(f, (entry,)),
    {
        let items = self.collect();
        let mut i: usize = 0;
        while i < items.len()
            invariant
                forall|entry: &'a IntervalTreeEntry<T, D>| call_requires(f, (entry,)),
            decreases items.len() - i,
        {
            f(items[i]);
            i = i + 1;
        }
    }
}

} // verus!
