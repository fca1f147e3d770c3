use crate::interval_tree::interval::Interval;
use crate::interval_tree::interval_tree_entry::IntervalTreeEntry;
use crate::interval_tree::interval_type::{
    at_most,
    before,
    is_total_order,
    larger,
    lemma_total_order,
    IntervalType,
};
use vstd::prelude::*;
use vstd::std_specs::cmp::PartialOrdSpec;
use vstd::std_specs::convert::IntoSpec;

verus! {

/// A child node in the tree.
pub type ChildNode<T, D> = Option<Box<IntervalTreeNode<T, D>>>;

/// Structure to represent a node in Interval Search Tree.
pub struct IntervalTreeNode<T, D> where T: IntervalType {
    pub entry: IntervalTreeEntry<T, D>,
    /// The largest end of all intervals in the subtree below this node.
    pub max: T,
    pub left: ChildNode<T, D>,
    pub right: ChildNode<T, D>,
}

/// Wrapper to help with constructors that may have to deal with empty
/// sequences of entries.
pub enum IntervalTreeNodeOption<T, D> where T: IntervalType {
    /// There were no entries.
    Absent,
    /// The root of the tree that holds the entries.
    Present(IntervalTreeNode<T, D>),
}

/// The starts of the entries do not decrease along the sequence.
pub open spec fn sorted_by_start<T: IntervalType, D>(entries: Seq<IntervalTreeEntry<T, D>>) -> bool {
    forall|i: int, j: int|
        0 <= i < j < entries.len() ==> at_most(
            (#[trigger] entries[i]).interval.start,
            (#[trigger] entries[j]).interval.start,
        )
}

/// `m` is the largest end among the entries: it is the end of one of them,
/// and none of them ends after it.
pub open spec fn is_max_end<T: IntervalType, D>(entries: Seq<IntervalTreeEntry<T, D>>, m: T) -> bool {
    &&& exists|i: int| 0 <= i < entries.len() && (#[trigger] entries[i]).interval.end == m
    &&& forall|i: int| 0 <= i < entries.len() ==> at_most((#[trigger] entries[i]).interval.end, m)
}

/// `after` is `before` with `entry` put in at position `k`, behind every
/// entry that starts no later than it and in front of every entry that
/// starts later.
pub open spec fn inserted_at<T: IntervalType, D>(
    before_seq: Seq<IntervalTreeEntry<T, D>>,
    after: Seq<IntervalTreeEntry<T, D>>,
    entry: IntervalTreeEntry<T, D>,
    k: int,
) -> bool {
    &&& 0 <= k <= before_seq.len()
    &&& after == before_seq.insert(k, entry)
    &&& forall|i: int|
        0 <= i < k ==> at_most((#[trigger] before_seq[i]).interval.start, entry.interval.start)
    &&& forall|i: int|
        k <= i < before_seq.len() ==> before(
            entry.interval.start,
            (#[trigger] before_seq[i]).interval.start,
        )
}

/// `after` is `before` with `entry` put in behind the last entry that starts
/// no later than it: entries with equal starts stay in the order in which
/// they came.
pub open spec fn is_insertion<T: IntervalType, D>(
    before_seq: Seq<IntervalTreeEntry<T, D>>,
    after: Seq<IntervalTreeEntry<T, D>>,
    entry: IntervalTreeEntry<T, D>,
) -> bool {
    exists|k: int| inserted_at(before_seq, after, entry, k)
}

impl<T, D> IntervalTreeNodeOption<T, D> where T: IntervalType {
    /// Unwraps the node of this option.
    pub fn unwrap(self) -> (node: IntervalTreeNode<T, D>)
        requires
            self is Present,
        ensures
            node == self->Present_0,
    {
        match self {
            Self::Present(value) => value,
            Self::Absent => {
                proof {
                    assert(false);
                }
                vstd::pervasive::unreached()
            },
        }
    }

    /// Builds a tree by inserting the entries one after the other, the
    /// first one at the root. Without entries there is no node.
    pub fn from_iter(entries: Vec<IntervalTreeEntry<T, D>>) -> (root: Self)
        requires
            is_total_order::<T>(),
        ensures
            entries@.len() == 0 <==> root is Absent,
            root is Present ==> {
                &&& root->Present_0.wf()
                &&& root->Present_0.inorder() == inorder_of(entries@)
            },
    {
        let mut root: Option<IntervalTreeNode<T, D>> = None;
        let mut source = entries;
        let ghost all = source@;
        let count = source.len();
        assert(all.len() == count);
        let ghost mut taken: int = 0;
        // Turn the entries around, so that the first one can be popped first.
        let mut entries: Vec<IntervalTreeEntry<T, D>> = Vec::new();
        while source.len() > 0
            invariant
                all.len() <= usize::MAX,
                source@.len() + entries@.len() == all.len(),
                source@ == all.take(source@.len() as int),
                forall|i: int| 0 <= i < entries@.len() ==> entries@[i] == all[all.len() - 1 - i],
            decreases source.len(),
        {
            let entry = source.pop().unwrap();
            entries.push(entry);
        }
        while entries.len() > 0
            invariant
                is_total_order::<T>(),
                0 <= taken <= all.len(),
                all.len() <= usize::MAX,
                entries@.len() == all.len() - taken,
                forall|i: int| 0 <= i < entries@.len() ==> entries@[i] == all[all.len() - 1 - i],
                (taken == 0) <==> root.is_none(),
                root.is_some() ==> {
                    &&& root.unwrap().wf()
                    &&& root.unwrap().inorder() == inorder_of(all.take(taken))
                },
            decreases entries.len(),
        {
            let entry = entries.pop().unwrap();
            assert(entry == all[taken]);
            let new_node = IntervalTreeNode::new(entry);
            proof {
                assert(all.take(taken + 1).drop_last() == all.take(taken));
                assert(all.take(taken + 1).last() == all[taken]);
                lemma_inorder_of_len(all.take(taken));
                assert(all.take(taken).len() == taken);
            }
            match root {
                Some(mut node) => {
                    node.insert(new_node);
                    root = Some(node);
                },
                None => {
                    proof {
                        assert(all.take(0) =~= Seq::empty());
                        assert(inorder_of(all.take(0)) =~= Seq::empty());
                        assert(Seq::<IntervalTreeEntry<T, D>>::empty().insert(0, entry) =~= seq![entry]);
                        assert(inserted_at(Seq::empty(), seq![entry], entry, 0));
                        lemma_insertion_unique(
                            Seq::empty(),
                            seq![entry],
                            inorder_of(all.take(1)),
                            entry,
                        );
                    }
                    root = Some(new_node);
                },
            }
            proof {
                taken = taken + 1;
                lemma_insertion_unique(
                    inorder_of(all.take(taken - 1)),
                    root.unwrap().inorder(),
                    inorder_of(all.take(taken)),
                    all[taken - 1],
                );
            }
        }
        proof {
            assert(all.take(taken) == all);
        }
        match root {
            Some(node) => IntervalTreeNodeOption::Present(node),
            None => IntervalTreeNodeOption::Absent,
        }
    }
}

/// The position behind the last entry of a sorted sequence that starts no
/// later than `start`.
pub open spec fn insertion_point<T: IntervalType, D>(
    entries: Seq<IntervalTreeEntry<T, D>>,
    start: T,
) -> int
    decreases entries.len(),
{
    if entries.len() == 0 {
        0
    } else if before(start, entries.last().interval.start) {
        insertion_point(entries.drop_last(), start)
    } else {
        entries.len() as int
    }
}

/// The in-order sequence of the tree that results from inserting the
/// entries one after the other into an empty tree: the entries sorted by
/// start, those with equal starts in the order in which they came.
pub open spec fn inorder_of<T: IntervalType, D>(entries: Seq<IntervalTreeEntry<T, D>>) -> Seq<
    IntervalTreeEntry<T, D>,
>
    decreases entries.len(),
{
    if entries.len() == 0 {
        Seq::empty()
    } else {
        let rest = inorder_of(entries.drop_last());
        rest.insert(insertion_point(rest, entries.last().interval.start), entries.last())
    }
}

/// Inserting entries one after the other keeps all of them.
pub proof fn lemma_inorder_of_len<T: IntervalType, D>(entries: Seq<IntervalTreeEntry<T, D>>)
    ensures
        inorder_of(entries).len() == entries.len(),
    decreases entries.len(),
{
    if entries.len() > 0 {
        lemma_inorder_of_len(entries.drop_last());
        lemma_insertion_point_range(
            inorder_of(entries.drop_last()),
            entries.last().interval.start,
        );
    }
}

/// The insertion point lies within the sequence, behind no entry that
/// starts later than `start`.
pub proof fn lemma_insertion_point_range<T: IntervalType, D>(
    entries: Seq<IntervalTreeEntry<T, D>>,
    start: T,
)
    ensures
        0 <= insertion_point(entries, start) <= entries.len(),
        forall|i: int|
            insertion_point(entries, start) <= i < entries.len() ==> before(
                start,
                (#[trigger] entries[i]).interval.start,
            ),
        insertion_point(entries, start) > 0 ==> !before(
            start,
            entries[insertion_point(entries, start) - 1].interval.start,
        ),
    decreases entries.len(),
{
    if entries.len() > 0 && before(start, entries.last().interval.start) {
        let rest = entries.drop_last();
        lemma_insertion_point_range(rest, start);
        assert forall|i: int| insertion_point(entries, start) <= i < entries.len() implies before(
            start,
            (#[trigger] entries[i]).interval.start,
        ) by {
            if i < rest.len() {
                assert(rest[i] == entries[i]);
            }
        }
        if insertion_point(entries, start) > 0 {
            assert(rest[insertion_point(entries, start) - 1] == entries[insertion_point(
                entries,
                start,
            ) - 1]);
        }
    }
}

/// In a sorted sequence there is one place only where an entry can go
/// behind the entries that start no later and in front of those that start
/// later: the insertion point.
pub proof fn lemma_insertion_unique<T: IntervalType, D>(
    entries: Seq<IntervalTreeEntry<T, D>>,
    after: Seq<IntervalTreeEntry<T, D>>,
    expected: Seq<IntervalTreeEntry<T, D>>,
    entry: IntervalTreeEntry<T, D>,
)
    requires
        is_total_order::<T>(),
        is_insertion(entries, after, entry),
        expected == entries.insert(insertion_point(entries, entry.interval.start), entry),
    ensures
        after == expected,
{
    lemma_total_order::<T>();
    let k = choose|k: int| inserted_at(entries, after, entry, k);
    let p = insertion_point(entries, entry.interval.start);
    lemma_insertion_point_range(entries, entry.interval.start);
    if k < p {
        assert(before(entry.interval.start, entries[p - 1].interval.start));
    } else if p < k {
        assert(at_most(entries[p].interval.start, entry.interval.start));
        assert(before(entry.interval.start, entries[p].interval.start));
        assert(at_most(entries[p].interval.start, entry.interval.start) <==> !before(
            entry.interval.start,
            entries[p].interval.start,
        ));
    }
}

impl<T, D> IntervalTreeNode<T, D> where T: IntervalType {
    /// The entries of the left subtree in order.
    pub open spec fn left_inorder(&self) -> Seq<IntervalTreeEntry<T, D>>
        decreases self, 0int,
    {
        match self.left {
            Some(left) => left.inorder(),
            None => Seq::empty(),
        }
    }

    /// The entries of the right subtree in order.
    pub open spec fn right_inorder(&self) -> Seq<IntervalTreeEntry<T, D>>
        decreases self, 0int,
    {
        match self.right {
            Some(right) => right.inorder(),
            None => Seq::empty(),
        }
    }

    /// The entries of the subtree below this node in order: those of the
    /// left subtree, the entry of this node, those of the right subtree.
    pub open spec fn inorder(&self) -> Seq<IntervalTreeEntry<T, D>>
        decreases self, 1int,
    {
        self.left_inorder() + seq![self.entry] + self.right_inorder()
    }

    /// The number of entries in the subtree below this node.
    pub open spec fn len_spec(&self) -> nat {
        self.inorder().len()
    }

    /// The subtree is a search tree on the start of the intervals, ties to
    /// the right, and each node holds the largest end below it.
    pub open spec fn is_search_tree(&self) -> bool
        decreases self,
    {
        &&& match self.left {
            Some(left) => left.is_search_tree(),
            None => true,
        }
        &&& match self.right {
            Some(right) => right.is_search_tree(),
            None => true,
        }
        &&& forall|i: int|
            0 <= i < self.left_inorder().len() ==> before(
                (#[trigger] self.left_inorder()[i]).interval.start,
                self.entry.interval.start,
            )
        &&& forall|i: int|
            0 <= i < self.right_inorder().len() ==> at_most(
                self.entry.interval.start,
                (#[trigger] self.right_inorder()[i]).interval.start,
            )
        &&& is_max_end(self.inorder(), self.max)
    }

    /// The order of `T` is total, the subtree is a search tree with correct
    /// maxima, and its size is a machine integer.
    pub open spec fn wf(&self) -> bool {
        &&& is_total_order::<T>()
        &&& self.is_search_tree()
        &&& self.len_spec() <= usize::MAX
    }

    /// The node has no children.
    pub open spec fn is_single(&self) -> bool {
        self.left is None && self.right is None
    }

    /// A utility function to create a new Interval Search Tree Node.
    pub fn new(entry: IntervalTreeEntry<T, D>) -> (node: Self)
        ensures
            node == (IntervalTreeNode { entry, max: entry.interval.end, left: None, right: None }),
            node.entry == entry,
            node.is_single(),
            node.max == entry.interval.end,
            node.inorder() == seq![entry],
            is_total_order::<T>() ==> node.wf(),
    {
        let max = entry.interval.end;
        let node = Self { entry, max, left: None, right: None };
        proof {
            assert(node.inorder() =~= seq![entry]);
            if is_total_order::<T>() {
                lemma_total_order::<T>();
                assert(node.inorder()[0].interval.end == max);
            }
        }
        node
    }

    /// A utility function to create a new Interval Search Tree Node.
    pub fn new_from_pair<I>(interval: I, data: D) -> (node: Self) where I: Into<Interval<T>>
        ensures
            node.is_single(),
            node.entry.data == data,
            I::obeys_into_spec() ==> node.entry.interval == interval.into_spec(),
            node.inorder() == seq![node.entry],
            is_total_order::<T>() ==> node.wf(),
    {
        Self::new(IntervalTreeEntry::new(interval, data))
    }

    /// Gets the size of the tree, i.e., the number of intervals stored.
    pub fn len(&self) -> (size: usize)
        requires
            self.len_spec() <= usize::MAX,
        ensures
            size == self.len_spec(),
        decreases self,
    {
        let mut size: usize = 1;
        if let Some(left) = &self.left {
            size += left.len();
        }
        if let Some(right) = &self.right {
            size += right.len();
        }
        size
    }

    /// A utility function to insert a new Interval Search Tree Node.
    ///
    /// The node descends to the left where its interval starts before that
    /// of the node it meets and to the right otherwise, and becomes a child
    /// in the first empty place. Every node it passes raises its maximum to
    /// the end of the new interval where that is larger.
    pub fn insert(&mut self, node: IntervalTreeNode<T, D>)
        requires
            old(self).wf(),
            old(self).len_spec() < usize::MAX,
            node.is_single(),
            node.max == node.entry.interval.end,
        ensures
            final(self).wf(),
            is_insertion(old(self).inorder(), final(self).inorder(), node.entry),
            final(self).max == larger(old(self).max, node.entry.interval.end),
            final(self).entry == old(self).entry,
        decreases *old(self),
    {
        let low = self.entry.interval.start;
        let high = node.max;
        let ghost entry = node.entry;
        let ghost old_left = self.left_inorder();
        let ghost old_right = self.right_inorder();
        let ghost k: int;
        proof {
            lemma_total_order::<T>();
            assert(node.inorder() =~= seq![entry]);
            assert(node.inorder()[0].interval.end == node.max);
            assert(node.is_search_tree());
            lemma_children(*old(self));
        }

        if node.entry.interval.start < low {
            match &mut self.left {
                Some(left) => {
                    left.insert(node);
                },
                None => {
                    self.left = Some(Box::new(node));
                },
            };
            proof {
                let new_left = self.left_inorder();
                if old(self).left is None {
                    assert(old_left.insert(0, entry) =~= new_left);
                    assert(inserted_at(old_left, new_left, entry, 0));
                }
                k = choose|kl: int| inserted_at(old_left, new_left, entry, kl);
                lemma_insert_left(old_left, new_left, old_right, self.entry, entry, k);
            }
        } else {
            match &mut self.right {
                Some(right) => {
                    right.insert(node);
                },
                None => {
                    self.right = Some(Box::new(node));
                },
            };
            proof {
                let new_right = self.right_inorder();
                if old(self).right is None {
                    assert(old_right.insert(0, entry) =~= new_right);
                    assert(inserted_at(old_right, new_right, entry, 0));
                }
                let kr = choose|kr: int| inserted_at(old_right, new_right, entry, kr);
                lemma_insert_right(old_left, old_right, new_right, self.entry, entry, kr);
                k = old_left.len() + 1 + kr;
            }
        }

        // Update the max value of this ancestor if needed
        if self.max < high {
            self.max = high;
        }
        proof {
            lemma_max_after_insert(old(self).inorder(), self.inorder(), entry, k, old(self).max);
            assert(self.inorder().len() == old(self).inorder().len() + 1);
            assert(self.is_search_tree());
        }
    }

    /// The entry that the search for an overlap with `interval` arrives at:
    /// this node's entry if it overlaps; else what the search finds in the
    /// left subtree, if that subtree holds an end that is not before the
    /// start of `interval`; else what it finds in the right subtree.
    pub open spec fn first_overlap(&self, interval: &Interval<T>) -> Option<IntervalTreeEntry<T, D>>
        decreases self,
    {
        if self.entry.interval.overlaps(interval) {
            Some(self.entry)
        } else if self.left is Some && at_most(interval.start, self.left.unwrap().max) {
            self.left.unwrap().first_overlap(interval)
        } else if self.right is Some {
            self.right.unwrap().first_overlap(interval)
        } else {
            None
        }
    }

    /// The main function that searches a given interval i in a given
    /// Interval Tree.
    ///
    /// It finds an entry whenever the subtree holds one that overlaps.
    pub fn overlap_search(&self, interval: &Interval<T>) -> (found: Option<&IntervalTreeEntry<T, D>>)
        requires
            self.wf(),
        ensures
            found.is_some() == self.first_overlap(interval).is_some(),
            found.is_some() ==> *found.unwrap() == self.first_overlap(interval).unwrap(),
            found.is_some() ==> self.inorder().contains(*found.unwrap()) && found.unwrap().interval.overlaps(
                interval,
            ),
            found.is_none() ==> forall|i: int|
                0 <= i < self.inorder().len() ==> !(#[trigger] self.inorder()[i]).interval.overlaps(
                    interval,
                ),
        decreases self,
    {
        proof {
            lemma_first_overlap(*self, *interval);
        }
        // Check for overlap with root.
        if self.entry.interval.overlaps_with(interval) {
            return Some(&self.entry);
        }
        // If left child of root is present and max of left child is
        // greater than or equal to given interval, then the interval may
        // overlap with an interval of left subtree.

        if let Some(left) = &self.left {
            if interval.start <= left.max {
                proof {
                    lemma_children(*self);
                    lemma_total_order::<T>();
                }
                return left.overlap_search(interval);
            }
        }
        // Else interval can only overlap with right subtree, or not at all.

        if let Some(right) = &self.right {
            proof {
                lemma_children(*self);
            }
            return right.overlap_search(interval);
        }
        None
    }
}

/// An insertion into the left subtree is an insertion into the whole tree,
/// and keeps the left subtree in front of the node's own entry.
proof fn lemma_insert_left<T: IntervalType, D>(
    left: Seq<IntervalTreeEntry<T, D>>,
    new_left: Seq<IntervalTreeEntry<T, D>>,
    right: Seq<IntervalTreeEntry<T, D>>,
    own: IntervalTreeEntry<T, D>,
    entry: IntervalTreeEntry<T, D>,
    k: int,
)
    requires
        is_total_order::<T>(),
        inserted_at(left, new_left, entry, k),
        before(entry.interval.start, own.interval.start),
        forall|i: int| 0 <= i < left.len() ==> before((#[trigger] left[i]).interval.start, own.interval.start),
        forall|i: int|
            0 <= i < right.len() ==> at_most(own.interval.start, (#[trigger] right[i]).interval.start),
    ensures
        inserted_at(left + seq![own] + right, new_left + seq![own] + right, entry, k),
        forall|i: int|
            0 <= i < new_left.len() ==> before((#[trigger] new_left[i]).interval.start, own.interval.start),
{
    lemma_total_order::<T>();
    let all = left + seq![own] + right;
    let new_all = new_left + seq![own] + right;
    assert(new_all =~= all.insert(k, entry));
    assert forall|i: int| k <= i < all.len() implies before(
        entry.interval.start,
        (#[trigger] all[i]).interval.start,
    ) by {
        if i < left.len() {
            assert(all[i] == left[i]);
        } else if i > left.len() {
            assert(all[i] == right[i - left.len() - 1]);
        }
    }
    assert forall|i: int| 0 <= i < k implies at_most(
        (#[trigger] all[i]).interval.start,
        entry.interval.start,
    ) by {
        assert(all[i] == left[i]);
    }
    assert forall|i: int| 0 <= i < new_left.len() implies before(
        (#[trigger] new_left[i]).interval.start,
        own.interval.start,
    ) by {
        if i < k {
            assert(new_left[i] == left[i]);
        } else if i > k {
            assert(new_left[i] == left[i - 1]);
        }
    }
}

/// An insertion into the right subtree is an insertion into the whole
/// tree, and keeps the right subtree behind the node's own entry.
proof fn lemma_insert_right<T: IntervalType, D>(
    left: Seq<IntervalTreeEntry<T, D>>,
    right: Seq<IntervalTreeEntry<T, D>>,
    new_right: Seq<IntervalTreeEntry<T, D>>,
    own: IntervalTreeEntry<T, D>,
    entry: IntervalTreeEntry<T, D>,
    k: int,
)
    requires
        is_total_order::<T>(),
        inserted_at(right, new_right, entry, k),
        !before(entry.interval.start, own.interval.start),
        forall|i: int| 0 <= i < left.len() ==> before((#[trigger] left[i]).interval.start, own.interval.start),
        forall|i: int|
            0 <= i < right.len() ==> at_most(own.interval.start, (#[trigger] right[i]).interval.start),
    ensures
        inserted_at(left + seq![own] + right, left + seq![own] + new_right, entry, left.len() + 1 + k),
        forall|i: int|
            0 <= i < new_right.len() ==> at_most(
                own.interval.start,
                (#[trigger] new_right[i]).interval.start,
            ),
{
    lemma_total_order::<T>();
    let all = left + seq![own] + right;
    let new_all = left + seq![own] + new_right;
    let p = left.len() + 1 + k;
    assert(new_all =~= all.insert(p, entry));
    assert(at_most(own.interval.start, entry.interval.start) <==> !before(
        entry.interval.start,
        own.interval.start,
    ));
    assert forall|i: int| p <= i < all.len() implies before(
        entry.interval.start,
        (#[trigger] all[i]).interval.start,
    ) by {
        assert(all[i] == right[i - left.len() - 1]);
    }
    assert forall|i: int| 0 <= i < p implies at_most(
        (#[trigger] all[i]).interval.start,
        entry.interval.start,
    ) by {
        if i < left.len() {
            assert(all[i] == left[i]);
            assert(before(left[i].interval.start, own.interval.start));
        } else if i > left.len() {
            assert(all[i] == right[i - left.len() - 1]);
        }
    }
    assert forall|i: int| 0 <= i < new_right.len() implies at_most(
        own.interval.start,
        (#[trigger] new_right[i]).interval.start,
    ) by {
        if i < k {
            assert(new_right[i] == right[i]);
        } else if i > k {
            assert(new_right[i] == right[i - 1]);
        }
    }
}

/// After an insertion the largest end is the larger of what it was and the
/// end of the new entry.
proof fn lemma_max_after_insert<T: IntervalType, D>(
    entries: Seq<IntervalTreeEntry<T, D>>,
    after: Seq<IntervalTreeEntry<T, D>>,
    entry: IntervalTreeEntry<T, D>,
    k: int,
    max: T,
)
    requires
        is_total_order::<T>(),
        inserted_at(entries, after, entry, k),
        is_max_end(entries, max),
    ensures
        is_max_end(after, larger(max, entry.interval.end)),
{
    lemma_total_order::<T>();
    let high = entry.interval.end;
    let m = larger(max, high);
    assert(at_most(high, max) <==> !before(max, high));
    let w = choose|i: int| 0 <= i < entries.len() && (#[trigger] entries[i]).interval.end == max;
    if before(max, high) {
        assert(after[k].interval.end == m);
    } else if w < k {
        assert(after[w] == entries[w]);
    } else {
        assert(after[w + 1] == entries[w]);
    }
    assert forall|i: int| 0 <= i < after.len() implies at_most((#[trigger] after[i]).interval.end, m) by {
        if i < k {
            assert(after[i] == entries[i]);
        } else if i > k {
            assert(after[i] == entries[i - 1]);
        }
    }
}

/// The children of a well-formed node are well-formed.
pub proof fn lemma_children<T: IntervalType, D>(node: IntervalTreeNode<T, D>)
    requires
        node.wf(),
    ensures
        node.left is Some ==> node.left.unwrap().wf(),
        node.right is Some ==> node.right.unwrap().wf(),
        node.len_spec() == node.left_inorder().len() + 1 + node.right_inorder().len(),
{
}

/// The in-order sequence of a search tree is sorted by start.
pub proof fn lemma_inorder_sorted<T: IntervalType, D>(node: IntervalTreeNode<T, D>)
    requires
        node.wf(),
    ensures
        sorted_by_start(node.inorder()),
    decreases node,
{
    lemma_total_order::<T>();
    lemma_children(node);
    if node.left is Some {
        lemma_inorder_sorted(*node.left.unwrap());
    }
    if node.right is Some {
        lemma_inorder_sorted(*node.right.unwrap());
    }
    let l = node.left_inorder();
    let r = node.right_inorder();
    let all = node.inorder();
    assert forall|i: int, j: int| 0 <= i < j < all.len() implies at_most(
        (#[trigger] all[i]).interval.start,
        (#[trigger] all[j]).interval.start,
    ) by {
        let s = node.entry.interval.start;
        if i < l.len() {
            assert(all[i] == l[i]);
            assert(before(l[i].interval.start, s));
        } else if i > l.len() {
            assert(all[i] == r[i - l.len() - 1]);
        }
        if j < l.len() {
            assert(all[j] == l[j]);
        } else if j > l.len() {
            assert(all[j] == r[j - l.len() - 1]);
            assert(at_most(s, r[j - l.len() - 1].interval.start));
        }
    }
}

/// The search for an overlap is complete and sound: what it arrives at is
/// an entry of the tree that overlaps the interval, and it arrives at
/// nothing only if no entry of the tree overlaps the interval.
pub proof fn lemma_first_overlap<T: IntervalType, D>(node: IntervalTreeNode<T, D>, interval: Interval<T>)
    requires
        node.wf(),
    ensures
        match node.first_overlap(&interval) {
            Some(entry) => node.inorder().contains(entry) && entry.interval.overlaps(&interval),
            None => forall|i: int|
                0 <= i < node.inorder().len() ==> !(#[trigger] node.inorder()[i]).interval.overlaps(
                    &interval,
                ),
        },
    decreases node,
{
    lemma_total_order::<T>();
    lemma_children(node);
    let l = node.left_inorder();
    let r = node.right_inorder();
    let all = node.inorder();
    let s = node.entry.interval.start;
    if node.entry.interval.overlaps(&interval) {
        assert(all[l.len() as int] == node.entry);
    } else if node.left is Some && at_most(interval.start, node.left.unwrap().max) {
        let left = *node.left.unwrap();
        lemma_first_overlap(left, interval);
        match left.first_overlap(&interval) {
            Some(entry) => {
                let i = choose|i: int| 0 <= i < l.len() && l[i] == entry;
                assert(all[i] == entry);
            },
            None => {
                // The entry that ends last in the left subtree ends no
                // earlier than the interval starts. It does not overlap,
                // so it starts after the interval ends; and whatever is
                // not in the left subtree starts later still.
                let w = choose|i: int| 0 <= i < l.len() && (#[trigger] l[i]).interval.end == left.max;
                assert(!l[w].interval.overlaps(&interval));
                assert(at_most(l[w].interval.start, interval.end) <==> !before(
                    interval.end,
                    l[w].interval.start,
                ));
                assert(before(interval.end, l[w].interval.start));
                assert(before(l[w].interval.start, s));
                assert(before(interval.end, s));
                assert forall|i: int| 0 <= i < all.len() implies !(#[trigger] all[i]).interval.overlaps(
                    &interval,
                ) by {
                    if i < l.len() {
                        assert(all[i] == l[i]);
                    } else if i == l.len() {
                    } else {
                        let e = r[i - l.len() - 1];
                        assert(all[i] == e);
                        assert(at_most(s, e.interval.start));
                        assert(before(interval.end, e.interval.start));
                        assert(at_most(e.interval.start, interval.end) <==> !before(
                            interval.end,
                            e.interval.start,
                        ));
                    }
                }
            },
        }
    } else {
        // Nothing in the left subtree ends late enough to overlap.
        assert forall|i: int| 0 <= i < l.len() implies !(#[trigger] l[i]).interval.overlaps(
            &interval,
        ) by {
            let left = *node.left.unwrap();
            assert(at_most(l[i].interval.end, left.max));
            assert(at_most(interval.start, left.max) <==> !before(left.max, interval.start));
            assert(before(l[i].interval.end, interval.start));
            assert(at_most(interval.start, l[i].interval.end) <==> !before(
                l[i].interval.end,
                interval.start,
            ));
        }
        if node.right is Some {
            let right = *node.right.unwrap();
            lemma_first_overlap(right, interval);
            match right.first_overlap(&interval) {
                Some(entry) => {
                    let i = choose|i: int| 0 <= i < r.len() && r[i] == entry;
                    assert(all[l.len() + 1 + i] == entry);
                },
                None => {
                    assert forall|i: int| 0 <= i < all.len() implies !(
                    #[trigger] all[i]).interval.overlaps(&interval) by {
                        if i < l.len() {
                            assert(all[i] == l[i]);
                        } else if i == l.len() {
                        } else {
                            assert(all[i] == r[i - l.len() - 1]);
                        }
                    }
                },
            }
        } else {
            assert forall|i: int| 0 <= i < all.len() implies !(#[trigger] all[i]).interval.overlaps(
                &interval,
            ) by {
                if i < l.len() {
                    assert(all[i] == l[i]);
                }
            }
        }
    }
}

} // verus!
