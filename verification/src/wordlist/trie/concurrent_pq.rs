//! The priority queue of the search: a bank of max-heaps, each item put into
//! one of them at random, and popped from the better of two.

use vstd::prelude::*;
use vstd::multiset::Multiset;

verus! {

/// What the queue holds: anything with a score. The greater score leaves first.
pub trait QItem: Sized {
    /// The score by which the queue orders the item.
    spec fn score_spec(&self) -> i64;

    /// The score by which the queue orders the item.
    fn score(&self) -> (s: i64)
        ensures
            s == self.score_spec(),
    ;
}

impl QItem for i32 {
    open spec fn score_spec(&self) -> i64 {
        *self as i64
    }

    fn score(&self) -> (s: i64) {
        *self as i64
    }
}

impl QItem for i64 {
    open spec fn score_spec(&self) -> i64 {
        *self
    }

    fn score(&self) -> (s: i64) {
        *self
    }
}

/// `<[T]>::swap` of std, on a vector: exchanges the items at `a` and `b`,
/// which std documents to panic where an index is out of bounds.
#[verifier::external_body]
fn swap_items<T>(v: &mut Vec<T>, a: usize, b: usize)
    requires
        a < old(v)@.len(),
        b < old(v)@.len(),
    ensures
        final(v)@ == old(v)@.update(a as int, old(v)@[b as int]).update(b as int, old(v)@[a as int]),
{
    v.swap(a, b);
}

/// A number below `n`, drawn by `rand::Rng::gen_range` from the thread's
/// generator. The draw differs from call to call; it is below `n` each time.
#[verifier::external_body]
fn rand_below(n: usize) -> (r: usize)
    requires
        n > 0,
    ensures
        r < n,
{
    rand::Rng::gen_range(&mut rand::thread_rng(), 0..n)
}

/// The number of threads of the current pool, as
/// `rayon::current_num_threads` reports it.
#[verifier::external_body]
fn pool_threads() -> usize {
    rayon::current_num_threads()
}

/// Every item but the first has a parent with at least its score.
pub open spec fn heap_ordered<T: QItem>(items: Seq<T>) -> bool {
    forall|i: int|
        0 < i < items.len() ==> items[(i - 1) / 2].score_spec() >= (
        #[trigger] items[i]).score_spec()
}

/// In a heap the first item has the greatest score.
proof fn lemma_heap_top<T: QItem>(items: Seq<T>, i: int)
    requires
        heap_ordered(items),
        0 <= i < items.len(),
    ensures
        items[0].score_spec() >= items[i].score_spec(),
    decreases i,
{
    if i > 0 {
        lemma_heap_top(items, (i - 1) / 2);
    }
}

/// Exchanging two items of a sequence leaves its multiset as it was.
proof fn lemma_swap_multiset<T>(s: Seq<T>, a: int, b: int)
    requires
        0 <= a < s.len(),
        0 <= b < s.len(),
    ensures
        s.update(a, s[b]).update(b, s[a]).to_multiset() == s.to_multiset(),
{
    broadcast use vstd::seq_lib::to_multiset_update;

    let s1 = s.update(a, s[b]);
    let s2 = s1.update(b, s[a]);
    assert(s1.to_multiset() == s.to_multiset().insert(s[b]).remove(s[a]));
    assert(s2.to_multiset() == s1.to_multiset().insert(s[a]).remove(s1[b]));
    vstd::seq_lib::to_multiset_contains(s, s[a]);
    vstd::seq_lib::to_multiset_contains(s, s[b]);
    assert(s.contains(s[a]));
    assert(s.contains(s[b]));
    assert(s2.to_multiset() =~= s.to_multiset());
}

/// One max-heap of the bank.
pub struct SingleQ<T: QItem> {
    items: Vec<T>,
}

impl<T: QItem> SingleQ<T> {
    /// The items in the heap.
    pub closed spec fn view(&self) -> Multiset<T> {
        self.items@.to_multiset()
    }

    /// The heap is ordered.
    pub closed spec fn wf(&self) -> bool {
        heap_ordered(self.items@)
    }

    /// An empty heap.
    pub fn new() -> (q: Self)
        ensures
            q.wf(),
            q@ == Multiset::<T>::empty(),
    {
        let q = SingleQ { items: Vec::new() };
        proof {
            q.items@.to_multiset_ensures();
            assert(q@ =~= Multiset::<T>::empty());
        }
        q
    }

    /// The number of items.
    pub fn len(&self) -> (n: usize)
        ensures
            n == self@.len(),
    {
        proof {
            self.items@.to_multiset_ensures();
        }
        self.items.len()
    }

    /// Whether the heap holds no item.
    pub fn is_empty(&self) -> (b: bool)
        ensures
            b == (self@.len() == 0),
    {
        proof {
            self.items@.to_multiset_ensures();
        }
        self.items.len() == 0
    }

    /// The greatest score in the heap, if it holds an item.
    pub fn peek(&self) -> (top: Option<i64>)
        requires
            self.wf(),
        ensures
            top is None <==> self@.len() == 0,
            top matches Some(s) ==> {
                &&& exists|x: T| self@.contains(x) && x.score_spec() == s
                &&& forall|y: T| self@.contains(y) ==> y.score_spec() <= s
            },
    {
        proof {
            self.items@.to_multiset_ensures();
        }
        if self.items.len() == 0 {
            None
        } else {
            let s = self.items[0].score();
            proof {
                let items = self.items@;
                assert(items.contains(items[0]));
                assert(self@.contains(items[0]));
                assert forall|y: T| self@.contains(y) implies y.score_spec() <= s by {
                    let i = choose|i: int| 0 <= i < items.len() && items[i] == y;
                    lemma_heap_top(items, i);
                }
            }
            Some(s)
        }
    }

    /// Puts `item` into the heap.
    pub fn push(&mut self, item: T)
        requires
            old(self).wf(),
        ensures
            final(self).wf(),
            final(self)@ == old(self)@.insert(item),
    {
        self.items.push(item);
        let n = self.items.len();
        let mut idx: usize = n - 1;
        proof {
            vstd::seq_lib::to_multiset_build(old(self).items@, item);
        }
        while idx > 0 && self.items[(idx - 1) / 2].score() < self.items[idx].score()
            invariant
                n == self.items@.len(),
                idx < n,
                self.items@.to_multiset() == old(self).items@.to_multiset().insert(item),
                forall|i: int|
                    0 < i < n && i != idx ==> self.items@[(i - 1) / 2].score_spec() >= (
                    #[trigger] self.items@[i]).score_spec(),
                forall|i: int|
                    0 < i < n && (i - 1) / 2 == idx && idx > 0 ==> self.items@[(idx - 1) / 2].score_spec()
                        >= (#[trigger] self.items@[i]).score_spec(),
            decreases idx,
        {
            let parent = (idx - 1) / 2;
            let ghost before = self.items@;
            swap_items(&mut self.items, parent, idx);
            proof {
                lemma_swap_multiset(before, parent as int, idx as int);
                let after = self.items@;
                assert forall|i: int| 0 < i < n && i != parent implies after[(i - 1) / 2].score_spec()
                    >= (#[trigger] after[i]).score_spec() by {
                    if i == idx {
                    } else if (i - 1) / 2 == idx {
                        assert(before[parent as int].score_spec() >= before[i].score_spec());
                    } else if (i - 1) / 2 == parent {
                        assert(before[parent as int].score_spec() >= before[i].score_spec());
                    } else {
                        assert(before[(i - 1) / 2].score_spec() >= before[i].score_spec());
                    }
                }
                assert forall|i: int|
                    0 < i < n && (i - 1) / 2 == parent && parent > 0 implies after[(parent - 1)
                        / 2].score_spec() >= (#[trigger] after[i]).score_spec() by {
                    assert(before[(parent - 1) / 2].score_spec() >= before[parent as int].score_spec());
                    if i != idx {
                        assert(before[parent as int].score_spec() >= before[i].score_spec());
                    }
                }
            }
            idx = parent;
        }
    }

    /// Takes the item with the greatest score out of the heap.
    pub fn pop(&mut self) -> (top: Option<T>)
        requires
            old(self).wf(),
        ensures
            final(self).wf(),
            top is None <==> old(self)@.len() == 0,
            top is None ==> final(self)@ == old(self)@,
            top matches Some(x) ==> {
                &&& old(self)@.contains(x)
                &&& final(self)@ == old(self)@.remove(x)
                &&& forall|y: T| old(self)@.contains(y) ==> y.score_spec() <= x.score_spec()
            },
    {
        proof {
            self.items@.to_multiset_ensures();
        }
        let n = self.items.len();
        if n == 0 {
            return None;
        }
        let ghost orig = self.items@;
        swap_items(&mut self.items, 0, n - 1);
        let ghost swapped = self.items@;
        let top = self.items.pop().unwrap();
        let m = n - 1;
        proof {
            lemma_swap_multiset(orig, 0, n - 1);
            assert(top == orig[0]);
            assert(self.items@ =~= swapped.remove(n - 1));
            vstd::seq_lib::to_multiset_remove(swapped, n - 1);
            assert(orig.contains(orig[0]));
            assert forall|y: T| orig.to_multiset().contains(y) implies y.score_spec()
                <= top.score_spec() by {
                let i = choose|i: int| 0 <= i < orig.len() && orig[i] == y;
                lemma_heap_top(orig, i);
            }
            assert forall|i: int| 0 < i < m && (i - 1) / 2 != 0 implies self.items@[(i - 1)
                / 2].score_spec() >= (#[trigger] self.items@[i]).score_spec() by {
                assert(orig[(i - 1) / 2].score_spec() >= orig[i].score_spec());
            }
        }
        let mut idx: usize = 0;
        loop
            invariant_except_break
                m == self.items@.len(),
                idx <= m,
                self.items@.to_multiset() == orig.to_multiset().remove(top),
                forall|i: int|
                    0 < i < m && (i - 1) / 2 != idx ==> self.items@[(i - 1) / 2].score_spec() >= (
                    #[trigger] self.items@[i]).score_spec(),
                forall|i: int|
                    0 < i < m && (i - 1) / 2 == idx && idx > 0 ==> self.items@[(idx - 1) / 2].score_spec()
                        >= (#[trigger] self.items@[i]).score_spec(),
            ensures
                m == self.items@.len(),
                self.items@.to_multiset() == orig.to_multiset().remove(top),
                heap_ordered(self.items@),
            decreases m - idx,
        {
            if m < 2 || idx > (m - 2) / 2 {
                break;
            }
            let left = 2 * idx + 1;
            let right = left + 1;
            let big = if right < m && self.items[right].score() > self.items[left].score() {
                right
            } else {
                left
            };
            if self.items[idx].score() >= self.items[big].score() {
                proof {
                    assert forall|i: int| 0 < i < m implies self.items@[(i - 1) / 2].score_spec()
                        >= (#[trigger] self.items@[i]).score_spec() by {
                        if (i - 1) / 2 == idx {
                            assert(i == left || i == right);
                        }
                    }
                }
                break;
            }
            let ghost before = self.items@;
            swap_items(&mut self.items, idx, big);
            proof {
                lemma_swap_multiset(before, idx as int, big as int);
                let after = self.items@;
                assert forall|i: int| 0 < i < m && (i - 1) / 2 != big implies after[(i - 1)
                    / 2].score_spec() >= (#[trigger] after[i]).score_spec() by {
                    if i == big {
                    } else if (i - 1) / 2 == idx {
                        assert(i == left || i == right);
                    } else if i == idx {
                        assert(before[(idx - 1) / 2].score_spec() >= before[big as int].score_spec());
                    } else {
                        assert(before[(i - 1) / 2].score_spec() >= before[i].score_spec());
                    }
                }
                assert forall|i: int|
                    0 < i < m && (i - 1) / 2 == big && big > 0 implies after[(big - 1) / 2].score_spec()
                        >= (#[trigger] after[i]).score_spec() by {
                    assert(before[(i - 1) / 2].score_spec() >= before[i].score_spec());
                }
            }
            idx = big;
        }
        Some(top)
    }

    /// A heap holds no more items than a vector can.
    pub proof fn lemma_len_bound(&self)
        ensures
            self@.len() <= usize::MAX,
    {
        self.items@.to_multiset_ensures();
        vstd::std_specs::vec::axiom_spec_len(&self.items);
        assert(vstd::std_specs::vec::spec_vec_len(&self.items) == self.items@.len());
    }

    /// Takes every item out of the heap.
    pub fn clear(&mut self)
        ensures
            final(self).wf(),
            final(self)@ == Multiset::<T>::empty(),
    {
        self.items.clear();
        proof {
            self.items@.to_multiset_ensures();
            assert(self@ =~= Multiset::<T>::empty());
        }
    }
}

/// The items of the first `upto` heaps of a bank.
pub open spec fn bank_items<T: QItem>(bank: Seq<SingleQ<T>>, upto: int) -> Multiset<T>
    decreases upto,
{
    if upto <= 0 {
        Multiset::empty()
    } else {
        bank_items(bank, upto - 1).add(bank[upto - 1]@)
    }
}

/// What is in one heap of the bank is in the bank.
proof fn lemma_bank_contains<T: QItem>(bank: Seq<SingleQ<T>>, k: int, upto: int, x: T)
    requires
        0 <= k < upto <= bank.len(),
        bank[k]@.contains(x),
    ensures
        bank_items(bank, upto).contains(x),
    decreases upto,
{
    broadcast use vstd::multiset::group_multiset_axioms;

    if k < upto - 1 {
        lemma_bank_contains(bank, k, upto - 1, x);
    }
}

/// A bank of empty heaps is empty.
proof fn lemma_bank_empty<T: QItem>(bank: Seq<SingleQ<T>>, upto: int)
    requires
        0 <= upto <= bank.len(),
        forall|k: int| 0 <= k < upto ==> (#[trigger] bank[k])@.len() == 0,
    ensures
        bank_items(bank, upto).len() == 0,
    decreases upto,
{
    broadcast use vstd::multiset::group_multiset_axioms;

    if upto > 0 {
        lemma_bank_empty(bank, upto - 1);
        assert(bank[upto - 1]@.len() == 0);
    }
}

/// A bank holds no more items than its heaps can.
proof fn lemma_bank_len_bound<T: QItem>(bank: Seq<SingleQ<T>>, upto: int)
    requires
        0 <= upto <= bank.len(),
    ensures
        bank_items(bank, upto).len() <= upto * usize::MAX,
    decreases upto,
{
    broadcast use vstd::multiset::group_multiset_axioms;

    if upto > 0 {
        lemma_bank_len_bound(bank, upto - 1);
        bank[upto - 1].lemma_len_bound();
        assert((upto - 1) * usize::MAX + usize::MAX == upto * usize::MAX) by (nonlinear_arith);
    }
}

/// A bank holds at least the items of any two of its heaps.
proof fn lemma_bank_len_two<T: QItem>(bank: Seq<SingleQ<T>>, upto: int, a: int, b: int)
    requires
        0 <= a < upto <= bank.len(),
        0 <= b < upto,
        a != b,
    ensures
        bank_items(bank, upto).len() >= bank[a]@.len() + bank[b]@.len(),
    decreases upto,
{
    broadcast use vstd::multiset::group_multiset_axioms;

    if a < upto - 1 && b < upto - 1 {
        lemma_bank_len_two(bank, upto - 1, a, b);
    } else if a == upto - 1 {
        lemma_bank_len_one(bank, upto - 1, b);
    } else {
        lemma_bank_len_one(bank, upto - 1, a);
    }
}

/// A bank holds at least the items of any one of its heaps.
proof fn lemma_bank_len_one<T: QItem>(bank: Seq<SingleQ<T>>, upto: int, a: int)
    requires
        0 <= a < upto <= bank.len(),
    ensures
        bank_items(bank, upto).len() >= bank[a]@.len(),
    decreases upto,
{
    broadcast use vstd::multiset::group_multiset_axioms;

    if a < upto - 1 {
        lemma_bank_len_one(bank, upto - 1, a);
    }
}

/// Putting an item into one heap puts it into the bank.
proof fn lemma_bank_insert<T: QItem>(
    bank: Seq<SingleQ<T>>,
    after: Seq<SingleQ<T>>,
    k: int,
    upto: int,
    x: T,
)
    requires
        0 <= k < bank.len(),
        0 <= upto <= bank.len(),
        after.len() == bank.len(),
        forall|j: int| 0 <= j < bank.len() && j != k ==> (#[trigger] after[j])@ == bank[j]@,
        after[k]@ == bank[k]@.insert(x),
    ensures
        bank_items(after, upto) == if k < upto {
            bank_items(bank, upto).insert(x)
        } else {
            bank_items(bank, upto)
        },
    decreases upto,
{
    broadcast use vstd::multiset::group_multiset_axioms;

    if upto > 0 {
        lemma_bank_insert(bank, after, k, upto - 1, x);
        if k != upto - 1 {
            assert(after[upto - 1]@ == bank[upto - 1]@);
        }
        assert(bank_items(after, upto) =~= if k < upto {
            bank_items(bank, upto).insert(x)
        } else {
            bank_items(bank, upto)
        });
    }
}

/// Taking an item out of one heap takes it out of the bank.
proof fn lemma_bank_remove<T: QItem>(
    bank: Seq<SingleQ<T>>,
    after: Seq<SingleQ<T>>,
    k: int,
    upto: int,
    x: T,
)
    requires
        0 <= k < bank.len(),
        0 <= upto <= bank.len(),
        after.len() == bank.len(),
        forall|j: int| 0 <= j < bank.len() && j != k ==> (#[trigger] after[j])@ == bank[j]@,
        bank[k]@.contains(x),
        after[k]@ == bank[k]@.remove(x),
    ensures
        bank_items(after, upto) == if k < upto {
            bank_items(bank, upto).remove(x)
        } else {
            bank_items(bank, upto)
        },
    decreases upto,
{
    broadcast use vstd::multiset::group_multiset_axioms;

    if upto > 0 {
        lemma_bank_remove(bank, after, k, upto - 1, x);
        if k != upto - 1 {
            assert(after[upto - 1]@ == bank[upto - 1]@);
        }
        if k < upto - 1 {
            lemma_bank_contains(bank, k, upto - 1, x);
        }
        assert(bank_items(after, upto) =~= if k < upto {
            bank_items(bank, upto).remove(x)
        } else {
            bank_items(bank, upto)
        });
    }
}

/// The number of heaps for a pool of `threads` threads: two for each
/// thread, as far as the number can be written, and one at least.
pub open spec fn heaps_for(threads: nat) -> nat {
    if threads == 0 {
        1
    } else if 2 * threads <= usize::MAX {
        2 * threads
    } else {
        threads
    }
}

/// The number of heaps for a pool of `threads` threads.
pub fn bank_size(threads: usize) -> (n: usize)
    ensures
        n == heaps_for(threads as nat),
        n >= 1,
{
    if threads == 0 {
        1
    } else if threads <= usize::MAX / 2 {
        threads * 2
    } else {
        threads
    }
}

/// The queue: a bank of max-heaps and the count of the items in them.
pub struct ConcurrentPQ<T: QItem> {
    pq: Vec<SingleQ<T>>,
    len: u128,
    num_queues: usize,
}

impl<T: QItem> ConcurrentPQ<T> {
    /// The items in the queue.
    pub closed spec fn view(&self) -> Multiset<T> {
        bank_items(self.pq@, self.pq@.len() as int)
    }

    /// The number of heaps in the bank.
    pub closed spec fn queues(&self) -> nat {
        self.pq@.len()
    }

    /// The items in heap `k` of the bank.
    pub closed spec fn shard(&self, k: int) -> Multiset<T> {
        self.pq@[k]@
    }

    /// No item of heap `k` has a greater score than `x`.
    pub open spec fn tops(&self, k: int, x: T) -> bool {
        forall|y: T| (#[trigger] self.shard(k).contains(y)) ==> y.score_spec() <= x.score_spec()
    }

    /// The bank has a heap, each heap is ordered, and the count is right.
    pub closed spec fn wf(&self) -> bool {
        &&& self.pq@.len() == self.num_queues
        &&& self.num_queues >= 1
        &&& forall|k: int| 0 <= k < self.pq@.len() ==> (#[trigger] self.pq@[k]).wf()
        &&& self.len == self@.len()
    }

    /// An empty queue of two heaps for each thread of the current pool.
    pub fn new() -> (queue: Self)
        ensures
            queue.wf(),
            queue.queues() >= 1,
            queue@ == Multiset::<T>::empty(),
    {
        Self::with_queues(bank_size(pool_threads()))
    }

    /// An empty queue with a bank of `n` heaps.
    pub fn with_queues(n: usize) -> (queue: Self)
        requires
            n >= 1,
        ensures
            queue.wf(),
            queue.queues() == n,
            queue@ == Multiset::<T>::empty(),
    {
        let mut v: Vec<SingleQ<T>> = Vec::with_capacity(n);
        let mut i: usize = 0;
        while i < n
            invariant
                i <= n,
                v@.len() == i,
                forall|k: int| 0 <= k < i ==> (#[trigger] v@[k]).wf() && v@[k]@.len() == 0,
            decreases n - i,
        {
            let q = SingleQ::new();
            proof {
                vstd::multiset::lemma_multiset_empty_len(q@);
            }
            v.push(q);
            i = i + 1;
        }
        let queue = ConcurrentPQ { pq: v, len: 0, num_queues: n };
        proof {
            lemma_bank_empty(queue.pq@, n as int);
            vstd::multiset::lemma_multiset_empty_len(queue@);
        }
        queue
    }

    /// The number of items in the queue.
    pub fn len(&self) -> (n: u128)
        requires
            self.wf(),
        ensures
            n == self@.len(),
    {
        self.len
    }

    /// A heap of the bank, drawn at random.
    fn get_queue(&self) -> (k: usize)
        requires
            self.wf(),
        ensures
            k < self.queues(),
    {
        rand_below(self.pq.len())
    }

    /// A heap that holds an item and is not `held`: the first such from a
    /// random start. It gives up when it meets an empty heap while the queue
    /// counts no more items than the `claimed` ones, or when it has gone
    /// round the bank.
    fn get_nonempty_queue(&self, claimed: usize, held: Option<usize>) -> (found: Option<usize>)
        requires
            self.wf(),
        ensures
            found matches Some(k) ==> k < self.queues() && held != Some(k) && self.shard(
                k as int,
            ).len() > 0,
            found is None ==> self@.len() <= claimed || forall|k: int|
                0 <= k < self.queues() && held != Some(k as usize) ==> (#[trigger] self.shard(k)).len()
                    == 0,
    {
        let n = self.pq.len();
        let start = self.get_queue();
        let mut probes: usize = 0;
        while probes < n
            invariant
                self.wf(),
                n == self.queues(),
                start < n,
                probes <= n,
                forall|j: int|
                    0 <= j < probes ==> held == Some(((start + j) % (n as int)) as usize)
                        || (#[trigger] self.shard((start + j) % (n as int))).len() == 0,
            decreases n - probes,
        {
            let q = if start < n - probes {
                start + probes
            } else {
                probes - (n - start)
            };
            proof {
                assert(q as int == (start + probes) % (n as int)) by (nonlinear_arith)
                    requires
                        0 <= start < n,
                        0 <= probes < n,
                        q as int == if start < n - probes {
                            start + probes
                        } else {
                            probes - (n - start)
                        },
                ;
            }
            if held != Some(q) && !self.pq[q].is_empty() {
                return Some(q);
            }
            if self.len <= claimed as u128 {
                return None;
            }
            probes = probes + 1;
        }
        proof {
            assert forall|k: int| 0 <= k < self.queues() && held != Some(k as usize) implies (
            #[trigger] self.shard(k)).len() == 0 by {
                let j = if k >= start {
                    k - start
                } else {
                    k + n - start
                };
                assert((start + j) % (n as int) == k) by (nonlinear_arith)
                    requires
                        0 <= start < n,
                        0 <= k < n,
                        j == if k >= start {
                            k - start
                        } else {
                            k + n - start
                        },
                ;
                assert(self.shard((start + j) % (n as int)).len() == 0 || held == Some(
                    ((start + j) % (n as int)) as usize,
                ));
            }
        }
        None
    }

    /// Puts `item` into a heap drawn at random.
    pub fn push(&mut self, item: T)
        requires
            old(self).wf(),
        ensures
            final(self).wf(),
            final(self).queues() == old(self).queues(),
            final(self)@ == old(self)@.insert(item),
    {
        let k = self.get_queue();
        let ghost before = self.pq@;
        self.pq[k].push(item);
        proof {
            let after = self.pq@;
            lemma_bank_insert(before, after, k as int, before.len() as int, item);
            lemma_bank_len_bound(after, after.len() as int);
            assert(after.len() * usize::MAX <= usize::MAX * usize::MAX) by (nonlinear_arith)
                requires
                    after.len() <= usize::MAX,
            ;
            assert(usize::MAX * usize::MAX < u128::MAX) by (nonlinear_arith);
            assert forall|j: int| 0 <= j < after.len() implies (#[trigger] after[j]).wf() by {
                if j != k {
                    assert(after[j] == before[j]);
                }
            }
        }
        self.len = self.len + 1;
    }

    /// Takes every item out of every heap.
    pub fn clear(&mut self)
        requires
            old(self).wf(),
        ensures
            final(self).wf(),
            final(self).queues() == old(self).queues(),
            final(self)@ == Multiset::<T>::empty(),
    {
        let n = self.pq.len();
        let mut i: usize = 0;
        while i < n
            invariant
                i <= n,
                n == self.pq@.len(),
                n == self.num_queues,
                n >= 1,
                forall|k: int| 0 <= k < n ==> (#[trigger] self.pq@[k]).wf(),
                forall|k: int| 0 <= k < i ==> (#[trigger] self.pq@[k])@.len() == 0,
            decreases n - i,
        {
            let ghost before = self.pq@;
            self.pq[i].clear();
            proof {
                let after = self.pq@;
                vstd::multiset::lemma_multiset_empty_len(after[i as int]@);
                assert forall|k: int| 0 <= k < n implies (#[trigger] after[k]).wf() by {
                    if k != i {
                        assert(after[k] == before[k]);
                    }
                }
                assert forall|k: int| 0 <= k < i + 1 implies (#[trigger] after[k])@.len() == 0 by {
                    if k != i {
                        assert(after[k] == before[k]);
                    }
                }
            }
            i = i + 1;
        }
        self.len = 0;
        proof {
            lemma_bank_empty(self.pq@, n as int);
            vstd::multiset::lemma_multiset_empty_len(self@);
        }
    }

    /// Takes an item out of the queue: the better of the best items of two
    /// heaps that hold one, or the best item of the only such heap. It
    /// returns `None` only where the queue is empty.
    pub fn try_pop(&mut self) -> (popped: Option<T>)
        requires
            old(self).wf(),
        ensures
            final(self).wf(),
            final(self).queues() == old(self).queues(),
            popped is None <==> old(self)@.len() == 0,
            popped is None ==> final(self)@ == old(self)@,
            popped matches Some(x) ==> {
                &&& old(self)@.contains(x)
                &&& final(self)@ == old(self)@.remove(x)
                &&& exists|k: int, other: int|
                    {
                        &&& 0 <= k < old(self).queues()
                        &&& 0 <= other < old(self).queues()
                        &&& #[trigger] old(self).shard(k).contains(x)
                        &&& old(self).tops(k, x)
                        &&& #[trigger] old(self).tops(other, x)
                        &&& other != k || forall|j: int|
                            0 <= j < old(self).queues() && j != k ==> (#[trigger] old(self).shard(
                                j,
                            )).len() == 0
                    }
            },
    {
        if self.len == 0 {
            return None;
        }
        let q1 = self.get_nonempty_queue(0, None);
        let k1 = match q1 {
            Some(k) => k,
            None => {
                proof {
                    assert forall|k: int| 0 <= k < self.pq@.len() implies (#[trigger] self.pq@[k])@.len()
                        == 0 by {
                        assert(self.shard(k).len() == 0);
                    }
                    lemma_bank_empty(self.pq@, self.pq@.len() as int);
                }
                return None;
            },
        };
        let q1_sz = self.pq[k1].len();
        let q2 = self.get_nonempty_queue(q1_sz, Some(k1));
        let top1 = self.pq[k1].peek();
        let (k, rival) = match q2 {
            None => {
                proof {
                    // no other heap holds an item
                    assert forall|j: int| 0 <= j < self.queues() && j != k1 implies (
                    #[trigger] self.shard(j)).len() == 0 by {
                        if self@.len() <= q1_sz {
                            lemma_bank_len_two(self.pq@, self.pq@.len() as int, k1 as int, j);
                        }
                    }
                }
                (k1, k1)
            },
            Some(k2) => {
                let top2 = self.pq[k2].peek();
                if top1.unwrap() > top2.unwrap() {
                    (k1, k2)
                } else {
                    (k2, k1)
                }
            },
        };
        let ghost before = self.pq@;
        let popped = self.pq[k].pop();
        proof {
            let after = self.pq@;
            let x = popped->0;
            lemma_bank_remove(before, after, k as int, before.len() as int, x);
            lemma_bank_contains(before, k as int, before.len() as int, x);
            assert forall|j: int| 0 <= j < after.len() implies (#[trigger] after[j]).wf() by {
                if j != k {
                    assert(after[j] == before[j]);
                }
            }
            assert(old(self).shard(k as int).contains(x));
            assert(old(self).tops(k as int, x));
            assert(old(self).tops(rival as int, x));
        }
        self.len = self.len - 1;
        popped
    }
}

/// One call on a queue: a push with its item, or a pop with what it
/// returned.
pub ghost enum Call<T> {
    Push(T),
    Pop(Option<T>),
}

/// What a call makes of the items `before`, on a bank of heaps as on one
/// heap: a push adds its item; a pop takes out the item that it returns,
/// and returns none only where there is none.
pub open spec fn follows<T>(before: Multiset<T>, call: Call<T>, after: Multiset<T>) -> bool {
    match call {
        Call::Push(x) => after == before.insert(x),
        Call::Pop(None) => before.len() == 0 && after == before,
        Call::Pop(Some(x)) => before.contains(x) && after == before.remove(x),
    }
}

/// `held` are the items of a queue that was empty, before and after each
/// of `calls`.
pub open spec fn trace<T>(calls: Seq<Call<T>>, held: Seq<Multiset<T>>) -> bool {
    &&& held.len() == calls.len() + 1
    &&& held[0] == Multiset::<T>::empty()
    &&& forall|i: int| 0 <= i < calls.len() ==> follows(held[i], #[trigger] calls[i], held[i + 1])
}

/// The items that the calls pushed.
pub open spec fn pushed<T>(calls: Seq<Call<T>>) -> Multiset<T>
    decreases calls.len(),
{
    if calls.len() == 0 {
        Multiset::empty()
    } else {
        match calls.last() {
            Call::Push(x) => pushed(calls.drop_last()).insert(x),
            Call::Pop(_) => pushed(calls.drop_last()),
        }
    }
}

/// The items that the calls popped.
pub open spec fn popped<T>(calls: Seq<Call<T>>) -> Multiset<T>
    decreases calls.len(),
{
    if calls.len() == 0 {
        Multiset::empty()
    } else {
        match calls.last() {
            Call::Pop(Some(x)) => popped(calls.drop_last()).insert(x),
            _ => popped(calls.drop_last()),
        }
    }
}

/// Whatever the order of the pushes and pops on a queue that was empty, and
/// whichever heaps they went to: the items that were pushed are those that
/// were popped and those that are left.
pub proof fn lemma_items_kept<T>(calls: Seq<Call<T>>, held: Seq<Multiset<T>>)
    requires
        trace(calls, held),
    ensures
        pushed(calls) == popped(calls).add(held.last()),
    decreases calls.len(),
{
    if calls.len() == 0 {
        assert(pushed(calls) =~= popped(calls).add(held.last()));
    } else {
        let n = calls.len() as int;
        let before = held[n - 1];
        assert(trace(calls.drop_last(), held.drop_last())) by {
            assert forall|i: int| 0 <= i < n - 1 implies follows(
                held.drop_last()[i],
                #[trigger] calls.drop_last()[i],
                held.drop_last()[i + 1],
            ) by {
                assert(follows(held[i], calls[i], held[i + 1]));
            }
        }
        lemma_items_kept(calls.drop_last(), held.drop_last());
        assert(held.drop_last().last() == before);
        assert(follows(before, calls[n - 1], held[n]));
        assert(pushed(calls) =~= popped(calls).add(held.last()));
    }
}

/// A bank of heaps returns the items that one heap returns: two queues
/// that were empty, were pushed the same items and are empty again have
/// popped the same items.
pub proof fn lemma_same_items<T>(
    calls: Seq<Call<T>>,
    held: Seq<Multiset<T>>,
    other_calls: Seq<Call<T>>,
    other_held: Seq<Multiset<T>>,
)
    requires
        trace(calls, held),
        trace(other_calls, other_held),
        pushed(calls) == pushed(other_calls),
        held.last().len() == 0,
        other_held.last().len() == 0,
    ensures
        popped(calls) == popped(other_calls),
{
    lemma_items_kept(calls, held);
    lemma_items_kept(other_calls, other_held);
    assert(popped(calls).add(held.last()) =~= popped(calls)) by {
        assert(held.last() =~= Multiset::<T>::empty()) by {
            assert forall|x: T| held.last().count(x) == 0 by {
                if held.last().count(x) > 0 {
                    vstd::multiset::lemma_multiset_empty_len(held.last());
                }
            }
        }
    }
    assert(popped(other_calls).add(other_held.last()) =~= popped(other_calls)) by {
        assert(other_held.last() =~= Multiset::<T>::empty()) by {
            assert forall|x: T| other_held.last().count(x) == 0 by {
                if other_held.last().count(x) > 0 {
                    vstd::multiset::lemma_multiset_empty_len(other_held.last());
                }
            }
        }
    }
}

} // verus!
