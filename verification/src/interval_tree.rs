//! An interval tree: a binary search tree over closed intervals, keyed on
//! their start, in which every node knows the largest end below it.

pub mod inorder_iterator;
pub mod interval;
pub mod interval_tree_entry;
pub mod interval_tree_node;
pub mod interval_type;

pub use inorder_iterator::InorderIterator;
pub use interval::Interval;
pub use interval_tree_entry::IntervalTreeEntry;
pub use interval_type::IntervalType;

use crate::interval_tree::interval_tree_node::{
    inorder_of,
    is_insertion,
    lemma_inorder_sorted,
    sorted_by_start,
    IntervalTreeNode,
    IntervalTreeNodeOption,
};
use crate::interval_tree::interval_type::is_total_order;
use vstd::prelude::*;
use vstd::std_specs::convert::IntoSpec;

verus! {

/// An Interval Tree.
pub struct IntervalTree<T, D> where T: IntervalType {
    /// The root node. May not exist if the tree is default constructed
    /// or built from no entries.
    root: Option<IntervalTreeNode<T, D>>,
}

impl<T, D> View for IntervalTree<T, D> where T: IntervalType {
    type V = Seq<IntervalTreeEntry<T, D>>;

    /// The entries of the tree in the order of an in-order traversal.
    closed spec fn view(&self) -> Seq<IntervalTreeEntry<T, D>> {
        match self.root {
            Some(root) => root.inorder(),
            None => Seq::empty(),
        }
    }
}

impl<T, D> Default for IntervalTree<T, D> where T: IntervalType {
    /// Returns an empty `IntervalTree<T, D>`.
    fn default() -> (tree: Self)
        ensures
            tree@ == Seq::<IntervalTreeEntry<T, D>>::empty(),
            is_total_order::<T>() ==> tree.wf(),
    {
        Self { root: None }
    }
}

impl<T, D> IntervalTree<T, D> where T: IntervalType {
    /// The order of `T` is total, the tree is a search tree on the start of
    /// its intervals in which every node holds the largest end below it,
    /// and its size is a machine integer.
    pub closed spec fn wf(&self) -> bool {
        &&& is_total_order::<T>()
        &&& self.root is Some ==> self.root.unwrap().wf()
    }

    /// The entry that `overlap_search` arrives at for `interval`: the search
    /// of the interval tree, started at the root.
    pub closed spec fn first_overlap(&self, interval: &Interval<T>) -> Option<IntervalTreeEntry<T, D>> {
        match self.root {
            Some(root) => root.first_overlap(interval),
            None => None,
        }
    }

    /// Creates a new `IntervalTree` from a root entry.
    pub fn new_from_entry<I>(entry: I) -> (tree: Self) where I: Into<IntervalTreeEntry<T, D>>
        ensures
            tree@.len() == 1,
            I::obeys_into_spec() ==> tree@ == seq![entry.into_spec()],
            is_total_order::<T>() ==> tree.wf(),
    {
        Self { root: Some(IntervalTreeNode::new(entry.into())) }
    }

    /// Creates a new `IntervalTree` from a root node.
    fn new_from_node(root: IntervalTreeNode<T, D>) -> (tree: Self)
        ensures
            tree == (IntervalTree { root: Some(root) }),
            tree@ == root.inorder(),
            root.wf() ==> tree.wf(),
    {
        Self { root: Some(root) }
    }

    /// Builds the tree that results from inserting the entries one after
    /// the other into an empty tree.
    pub fn from_iter(entries: Vec<IntervalTreeEntry<T, D>>) -> (tree: Self)
        requires
            is_total_order::<T>(),
        ensures
            tree.wf(),
            tree@ == inorder_of(entries@),
    {
        match IntervalTreeNodeOption::from_iter(entries) {
            IntervalTreeNodeOption::Present(node) => IntervalTree::new_from_node(node),
            IntervalTreeNodeOption::Absent => {
                assert(inorder_of(entries@) =~= Seq::empty());
                IntervalTree::default()
            },
        }
    }

    /// Inserts a new entry to the `IntervalTree`.
    ///
    /// The entry goes behind every entry that starts no later than it.
    pub fn insert<I>(&mut self, entry: I) where I: Into<IntervalTreeEntry<T, D>>
        requires
            old(self).wf(),
            old(self)@.len() < usize::MAX,
        ensures
            final(self).wf(),
            final(self)@.len() == old(self)@.len() + 1,
            I::obeys_into_spec() ==> is_insertion(old(self)@, final(self)@, entry.into_spec()),
    {
        let node = IntervalTreeNode::new(entry.into());
        let ghost inserted = node.entry;
        match &mut self.root {
            None => {
                self.root = Some(node);
                proof {
                    assert(old(self)@.insert(0, inserted) =~= self@);
                    assert(crate::interval_tree::interval_tree_node::inserted_at(
                        old(self)@,
                        self@,
                        inserted,
                        0,
                    ));
                }
            },
            Some(root) => {
                root.insert(node);
            },
        }
        proof {
            let k = choose|k: int|
                crate::interval_tree::interval_tree_node::inserted_at(
                    old(self)@,
                    self@,
                    inserted,
                    k,
                );
            assert(self@ == old(self)@.insert(k, inserted));
        }
    }

    /// Returns the number of elements in the `IntervalTree`.
    pub fn len(&self) -> (n: usize)
        requires
            self.wf(),
        ensures
            n == self@.len(),
    {
        if let Some(node) = &self.root {
            node.len()
        } else {
            0
        }
    }

    /// Returns whether the tree is empty, i.e., whether it has no elements.
    pub fn is_empty(&self) -> (b: bool)
        requires
            self.wf(),
        ensures
            b == (self@.len() == 0),
    {
        self.len() == 0
    }

    /// Queries the tree for overlaps with the specified `interval`.
    ///
    /// Returns an entry whose interval overlaps `interval` whenever the
    /// tree holds one: the one that the search arrives at first.
    pub fn overlap_search<I>(&self, interval: I) -> (found: Option<&IntervalTreeEntry<T, D>>) where
        I: Into<Interval<T>>,

        requires
            self.wf(),
        ensures
            found.is_some() ==> self@.contains(*found.unwrap()),
            I::obeys_into_spec() ==> {
                &&& found.is_some() == self.first_overlap(&interval.into_spec()).is_some()
                &&& found.is_some() ==> *found.unwrap() == self.first_overlap(
                    &interval.into_spec(),
                ).unwrap()
                &&& found.is_some() ==> found.unwrap().interval.overlaps(&interval.into_spec())
                &&& found.is_none() ==> forall|i: int|
                    0 <= i < self@.len() ==> !(#[trigger] self@[i]).interval.overlaps(
                        &interval.into_spec(),
                    )
            },
    {
        if let Some(node) = &self.root {
            let interval = interval.into();
            node.overlap_search(&interval)
        } else {
            None
        }
    }

    /// Returns an `InorderIterator<T, D>` that iterates the tree elements in order
    /// of their interval starts.
    pub fn iter_inorder(&self) -> (iter: InorderIterator<'_, T, D>)
        ensures
            iter.wf(),
            iter.remaining() == self@,
            self.wf() && iter.root is Some ==> iter.root.unwrap().len_spec() <= usize::MAX,
            (iter.root is None) == (self@.len() == 0),
            iter.root is Some ==> iter.root.unwrap().inorder() == self@,
    {
        if let Some(node) = &self.root {
            InorderIterator::new(node)
        } else {
            InorderIterator::empty()
        }
    }
}

impl<T> From<Interval<T>> for IntervalTree<T, ()> where T: IntervalType {
    /// The tree that holds the interval alone, without data.
    fn from(interval: Interval<T>) -> (tree: Self)
    {
        Self::new_from_node(IntervalTreeNode::new(IntervalTreeEntry { interval, data: () }))
    }
}

impl<T> vstd::std_specs::convert::FromSpecImpl<Interval<T>> for IntervalTree<T, ()> where T: IntervalType {
    open spec fn obeys_from_spec() -> bool {
        true
    }

    closed spec fn from_spec(interval: Interval<T>) -> IntervalTree<T, ()> {
        IntervalTree {
            root: Some(
                IntervalTreeNode {
                    entry: IntervalTreeEntry { interval, data: () },
                    max: interval.end,
                    left: None,
                    right: None,
                },
            ),
        }
    }
}

impl<T, D> From<(Interval<T>, D)> for IntervalTree<T, D> where T: IntervalType {
    /// The tree that holds the interval alone, with its data.
    fn from(value: (Interval<T>, D)) -> (tree: Self)
    {
        Self::new_from_node(IntervalTreeNode::new(IntervalTreeEntry { interval: value.0, data: value.1 }))
    }
}

impl<T, D> vstd::std_specs::convert::FromSpecImpl<(Interval<T>, D)> for IntervalTree<T, D> where T: IntervalType {
    open spec fn obeys_from_spec() -> bool {
        true
    }

    closed spec fn from_spec(value: (Interval<T>, D)) -> IntervalTree<T, D> {
        IntervalTree {
            root: Some(
                IntervalTreeNode {
                    entry: IntervalTreeEntry { interval: value.0, data: value.1 },
                    max: value.0.end,
                    left: None,
                    right: None,
                },
            ),
        }
    }
}

/// The tree that is made from one interval holds that interval alone.
pub proof fn lemma_from_interval<T: IntervalType, D>(interval: Interval<T>, data: D)
    ensures
        <IntervalTree<T, D> as vstd::std_specs::convert::FromSpec<(Interval<T>, D)>>::from_spec(
            (interval, data),
        )@ == seq![IntervalTreeEntry { interval, data }],
        <IntervalTree<T, ()> as vstd::std_specs::convert::FromSpec<Interval<T>>>::from_spec(interval)@
            == seq![IntervalTreeEntry { interval, data: () }],
{
    let tree = <IntervalTree<T, D> as vstd::std_specs::convert::FromSpec<(Interval<T>, D)>>::from_spec(
        (interval, data),
    );
    assert(tree@ =~= seq![IntervalTreeEntry { interval, data }]);
    let unit_tree = <IntervalTree<T, ()> as vstd::std_specs::convert::FromSpec<
        Interval<T>,
    >>::from_spec(interval);
    assert(unit_tree@ =~= seq![IntervalTreeEntry { interval, data: () }]);
}

/// An in-order iteration emits the entries with starts that do not decrease.
pub proof fn lemma_iteration_sorted<T: IntervalType, D>(tree: IntervalTree<T, D>)
    requires
        tree.wf(),
    ensures
        sorted_by_start(tree@),
{
    if tree.root is Some {
        lemma_inorder_sorted(tree.root.unwrap());
    }
}

/// The search for an overlap is exact: it returns an entry of the tree that
/// overlaps the interval if the tree holds one, and nothing only if the
/// tree holds none.
pub proof fn lemma_overlap_search_exact<T: IntervalType, D>(tree: IntervalTree<T, D>, interval: Interval<T>)
    requires
        tree.wf(),
    ensures
        match tree.first_overlap(&interval) {
            Some(entry) => tree@.contains(entry) && entry.interval.overlaps(&interval),
            None => forall|i: int|
                0 <= i < tree@.len() ==> !(#[trigger] tree@[i]).interval.overlaps(&interval),
        },
{
    if tree.root is Some {
        crate::interval_tree::interval_tree_node::lemma_first_overlap(tree.root.unwrap(), interval);
    }
}

} // verus!
