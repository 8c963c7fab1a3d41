//! A bucket priority queue over bounded integer scores.
//!
//! Holds a set of column indices, each with a score in `[0, capacity)`, and
//! extracts an item with minimum score in amortized constant time. Each
//! bucket is a circular doubly-linked list threaded through two index
//! arrays; a monotonically advancing `min_score` cursor makes a full drain
//! of `n` items cost `O(n)` in total.

use vstd::prelude::*;

verus! {

/// Total number of items over all buckets.
pub open spec fn total_of(bs: Seq<Seq<usize>>) -> nat
    decreases bs.len(),
{
    if bs.len() == 0 {
        0
    } else {
        bs[0].len() + total_of(bs.drop_first())
    }
}

/// Index of the first non-empty bucket, or `bs.len()` if all are empty.
pub open spec fn first_nonempty(bs: Seq<Seq<usize>>) -> int
    decreases bs.len(),
{
    if bs.len() == 0 {
        0
    } else if bs[0].len() > 0 {
        0
    } else {
        1 + first_nonempty(bs.drop_first())
    }
}

/// A priority queue of column indices keyed by scores in `[0, capacity)`.
///
/// Abstractly the queue is a sequence of buckets, one per score
/// (`self.buckets()`); bucket `s` lists the live items of score `s` in the
/// order they would be extracted. Concretely each bucket is a circular
/// doubly-linked list through `prev`/`next`, entered at `score2head[s]`.
pub struct ColsQueue {
    score2head: Vec<Option<usize>>,
    prev: Vec<usize>,
    next: Vec<usize>,
    min_score: usize,
    len: usize,
    buckets: Ghost<Seq<Seq<usize>>>,
}

impl ColsQueue {
    /// The abstract contents: for each score, the items holding that score,
    /// in extraction order.
    pub closed spec fn buckets(self) -> Seq<Seq<usize>> {
        self.buckets@
    }

    /// Number of buckets, which also bounds the item indices.
    pub closed spec fn cap(self) -> int {
        self.score2head@.len() as int
    }

    /// Whether `col` is currently present in some bucket.
    pub open spec fn has_col(self, col: usize) -> bool {
        exists|s: int, k: int|
            0 <= s < self.buckets().len() && 0 <= k < self.buckets()[s].len()
                && #[trigger] self.buckets()[s][k] == col
    }

    /// The circular list of bucket `s` matches the abstract bucket: the head
    /// pointer enters at position 0 and `prev`/`next` step through the
    /// positions cyclically.
    spec fn bucket_linked(self, s: int) -> bool {
        let b = self.buckets@[s];
        &&& (b.len() == 0 <==> self.score2head@[s] is None)
        &&& (b.len() > 0 ==> self.score2head@[s] == Some(b[0]))
        &&& forall|k: int| 0 <= k < b.len() ==> (#[trigger] b[k] as int) < self.cap()
        &&& forall|k: int|
            0 <= k < b.len() ==> self.next@[#[trigger] b[k] as int] == b[
                if k + 1 == b.len() { 0int } else { k + 1 }
            ]
        &&& forall|k: int|
            0 <= k < b.len() ==> self.prev@[#[trigger] b[k] as int] == b[
                if k == 0 { b.len() - 1 } else { k - 1 }
            ]
    }

    /// No item occurs at two distinct positions.
    spec fn all_distinct(self) -> bool {
        forall|s1: int, k1: int, s2: int, k2: int|
            0 <= s1 < self.buckets@.len() && 0 <= k1 < self.buckets@[s1].len() && 0 <= s2
                < self.buckets@.len() && 0 <= k2 < self.buckets@[s2].len() && (s1 != s2 || k1 != k2)
                ==> #[trigger] self.buckets@[s1][k1] != #[trigger] self.buckets@[s2][k2]
    }

    /// The queue's invariant.
    pub closed spec fn wf(self) -> bool {
        &&& self.buckets@.len() == self.cap()
        &&& self.prev@.len() == self.cap()
        &&& self.next@.len() == self.cap()
        &&& self.min_score as int <= self.cap()
        &&& self.len as nat == total_of(self.buckets@)
        &&& forall|s: int| 0 <= s < self.min_score as int ==> self.buckets@[s].len() == 0
        &&& forall|s: int| 0 <= s < self.cap() ==> #[trigger] self.bucket_linked(s)
        &&& self.all_distinct()
    }

    /// Creates an empty queue for items and scores in `[0, num_cols)`.
    pub fn new(num_cols: usize) -> (q: ColsQueue)
        ensures
            q.wf(),
            q.cap() == num_cols as int,
            q.buckets().len() == num_cols as int,
            forall|s: int| 0 <= s < num_cols as int ==> q.buckets()[s].len() == 0,
            total_of(q.buckets()) == 0,
    {
        let mut score2head: Vec<Option<usize>> = Vec::with_capacity(num_cols);
        let mut prev: Vec<usize> = Vec::with_capacity(num_cols);
        let mut next: Vec<usize> = Vec::with_capacity(num_cols);
        let mut i: usize = 0;
        while i < num_cols
            invariant
                i <= num_cols,
                score2head@.len() == i as int,
                prev@.len() == i as int,
                next@.len() == i as int,
                forall|s: int| 0 <= s < i as int ==> score2head@[s] is None,
            decreases num_cols - i,
        {
            score2head.push(None);
            prev.push(0);
            next.push(0);
            i += 1;
        }
        let q = ColsQueue {
            score2head,
            prev,
            next,
            min_score: num_cols,
            len: 0,
            buckets: Ghost(Seq::new(num_cols as nat, |s: int| Seq::empty())),
        };
        proof {
            lemma_total_of_all_empty(q.buckets@);
        }
        q
    }

    /// Inserts `col` with the given score at the tail of its bucket, so
    /// that it is extracted after the items already holding that score.
    /// Each item is inserted at most once over the queue's lifetime.
    #[verifier::rlimit(100)]
    pub fn add(&mut self, col: usize, score: usize)
        requires
            old(self).wf(),
            (col as int) < old(self).cap(),
            (score as int) < old(self).cap(),
            !old(self).has_col(col),
            total_of(old(self).buckets()) < usize::MAX as nat,
        ensures
            final(self).wf(),
            final(self).cap() == old(self).cap(),
            final(self).buckets() == old(self).buckets().update(
                score as int,
                old(self).buckets()[score as int].push(col),
            ),
            total_of(final(self).buckets()) == total_of(old(self).buckets()) + 1,
    {
        proof {
            assert forall|s: int, k: int|
                0 <= s < old(self).buckets@.len() && 0 <= k
                    < old(self).buckets@[s].len() implies #[trigger] old(self).buckets@[s][k]
                != col by {
                if old(self).buckets()[s][k] == col {
                    assert(old(self).has_col(col));
                    assert(false);
                }
            }
            assert(old(self).bucket_linked(score as int));
        }
        if score < self.min_score {
            self.min_score = score;
        }
        self.len = self.len + 1;

        let head_opt = self.score2head[score];
        match head_opt {
            Some(head) => {
                let tail = self.prev[head];
                self.prev.set(col, tail);
                self.next.set(col, head);
                self.next.set(tail, col);
                self.prev.set(head, col);
            },
            None => {
                self.prev.set(col, col);
                self.next.set(col, col);
                self.score2head.set(score, Some(col));
            },
        }
        proof {
            let ob = old(self).buckets@;
            let b = ob[score as int];
            let nb = ob.update(score as int, b.push(col));
            self.buckets@ = nb;
            lemma_total_update(ob, score as int, b.push(col));
            assert forall|s: int| 0 <= s < self.cap() implies #[trigger] self.bucket_linked(
                s,
            ) by {
                assert(old(self).bucket_linked(s));
                if s != score as int {
                    assert(nb[s] == ob[s]);
                    assert forall|k: int| 0 <= k < nb[s].len() implies {
                        &&& (#[trigger] nb[s][k] as int) < self.cap()
                        &&& self.next@[nb[s][k] as int] == nb[s][
                            if k + 1 == nb[s].len() { 0int } else { k + 1 }
                        ]
                        &&& self.prev@[nb[s][k] as int] == nb[s][
                            if k == 0 { nb[s].len() - 1 } else { k - 1 }
                        ]
                    } by {
                        assert(ob[s][k] != col);
                        if b.len() > 0 {
                            assert(ob[s][k] != b[0]);
                            assert(ob[s][k] != b[b.len() - 1]);
                        }
                    }
                } else {
                    let nbs = b.push(col);
                    assert(nb[s] == nbs);
                    if b.len() == 0 {
                        assert(nbs.len() == 1 && nbs[0] == col);
                    } else {
                        let head = b[0];
                        let tail = b[b.len() - 1];
                        assert forall|k: int| 0 <= k < nbs.len() implies {
                            &&& (#[trigger] nbs[k] as int) < self.cap()
                            &&& self.next@[nbs[k] as int] == nbs[
                                if k + 1 == nbs.len() { 0int } else { k + 1 }
                            ]
                            &&& self.prev@[nbs[k] as int] == nbs[
                                if k == 0 { nbs.len() - 1 } else { k - 1 }
                            ]
                        } by {
                            if k < b.len() {
                                assert(nbs[k] == b[k]);
                                assert(b[k] != col);
                                if k != 0 && k != b.len() - 1 {
                                    assert(b[k] != head && b[k] != tail);
                                }
                            } else {
                                assert(nbs[k] == col);
                            }
                        }
                    }
                }
            }
            assert forall|s1: int, k1: int, s2: int, k2: int|
                0 <= s1 < nb.len() && 0 <= k1 < nb[s1].len() && 0 <= s2 < nb.len() && 0 <= k2
                    < nb[s2].len() && (s1 != s2 || k1 != k2) implies #[trigger] nb[s1][k1]
                != #[trigger] nb[s2][k2] by {
                if s1 == score as int && k1 == b.len() {
                    assert(nb[s1][k1] == col);
                    assert(nb[s2][k2] == ob[s2][k2] && ob[s2][k2] != col);
                } else if s2 == score as int && k2 == b.len() {
                    assert(nb[s2][k2] == col);
                    assert(nb[s1][k1] == ob[s1][k1] && ob[s1][k1] != col);
                } else {
                    assert(nb[s1][k1] == ob[s1][k1] && nb[s2][k2] == ob[s2][k2]);
                }
            }
        }
    }

    /// Unlinks `col`, which must currently hold the given score, from its
    /// bucket's circular list. If `col` was the bucket's head, the head moves
    /// to the next item, so the rest of the bucket keeps its order.
    #[verifier::rlimit(100)]
    fn remove(&mut self, col: usize, score: usize)
        requires
            old(self).wf(),
            (score as int) < old(self).cap(),
            old(self).buckets()[score as int].contains(col),
        ensures
            final(self).wf(),
            final(self).cap() == old(self).cap(),
            forall|k: int|
                0 <= k < old(self).buckets()[score as int].len() && (#[trigger] old(
                    self,
                ).buckets()[score as int][k]) == col ==> final(self).buckets() == old(
                    self,
                ).buckets().update(score as int, old(self).buckets()[score as int].remove(k)),
            old(self).buckets()[score as int][0] == col ==> final(self).buckets() == old(
                self,
            ).buckets().update(score as int, old(self).buckets()[score as int].drop_first()),
    {
        proof {
            assert(old(self).bucket_linked(score as int));
            lemma_bucket_le_total(old(self).buckets@, score as int);
        }
        let ghost ob = old(self).buckets@;
        let ghost b = ob[score as int];
        let ghost k = choose|k: int| 0 <= k < b.len() && b[k] == col;
        proof {
            assert(0 <= k < b.len() && b[k] == col);
            assert((col as int) < self.cap());
        }
        self.len = self.len - 1;
        let nxt = self.next[col];
        if nxt == col {
            proof {
                if b.len() > 1 {
                    let k2: int = if k + 1 == b.len() { 0int } else { k + 1 };
                    assert(b[k2] == nxt && k2 != k);
                    assert(false);
                }
            }
            self.score2head.set(score, None);
        } else {
            let p = self.prev[col];
            self.next.set(p, nxt);
            self.prev.set(nxt, p);
            let head = self.score2head[score].unwrap();
            if head == col {
                self.score2head.set(score, Some(nxt));
            }
            proof {
                if b.len() == 1 {
                    assert(b[0] == col && nxt == b[0]);
                    assert(false);
                }
            }
        }
        proof {
            let nb = ob.update(score as int, b.remove(k));
            self.buckets@ = nb;
            lemma_total_update(ob, score as int, b.remove(k));
            b.remove_ensures(k);
            let bl = b.len() as int;
            let p = b[if k == 0 { bl - 1 } else { k - 1 }];
            let n = b[if k + 1 == bl { 0int } else { k + 1 }];
            assert forall|s: int| 0 <= s < self.cap() implies #[trigger] self.bucket_linked(
                s,
            ) by {
                assert(old(self).bucket_linked(s));
                if s != score as int {
                    assert(nb[s] == ob[s]);
                    assert forall|j: int| 0 <= j < nb[s].len() implies {
                        &&& (#[trigger] nb[s][j] as int) < self.cap()
                        &&& self.next@[nb[s][j] as int] == nb[s][
                            if j + 1 == nb[s].len() { 0int } else { j + 1 }
                        ]
                        &&& self.prev@[nb[s][j] as int] == nb[s][
                            if j == 0 { nb[s].len() - 1 } else { j - 1 }
                        ]
                    } by {
                        assert(ob[s][j] != p && ob[s][j] != n && ob[s][j] != col);
                    }
                } else {
                    let nbs = b.remove(k);
                    assert(nb[s] == nbs);
                    if bl > 1 {
                        assert(nbs[0] == if k == 0 { b[1] } else { b[0] });
                        assert forall|j: int| 0 <= j < nbs.len() implies {
                            &&& (#[trigger] nbs[j] as int) < self.cap()
                            &&& self.next@[nbs[j] as int] == nbs[
                                if j + 1 == nbs.len() { 0int } else { j + 1 }
                            ]
                            &&& self.prev@[nbs[j] as int] == nbs[
                                if j == 0 { nbs.len() - 1 } else { j - 1 }
                            ]
                        } by {
                            let oj: int = if j < k { j } else { j + 1 };
                            assert(nbs[j] == b[oj]);
                            assert(b[oj] != col);
                            let osucc: int = if oj + 1 == bl { 0int } else { oj + 1 };
                            let opred: int = if oj == 0 { bl - 1 } else { oj - 1 };
                            if b[oj] == p {
                                assert(self.next@[b[oj] as int] == n);
                            } else {
                                assert(self.next@[b[oj] as int] == b[osucc]);
                                assert(b[osucc] != col);
                            }
                            if b[oj] == n {
                                assert(self.prev@[b[oj] as int] == p);
                            } else {
                                assert(self.prev@[b[oj] as int] == b[opred]);
                                assert(b[opred] != col);
                            }
                        }
                    }
                }
            }
            assert forall|s1: int, k1: int, s2: int, k2: int|
                0 <= s1 < nb.len() && 0 <= k1 < nb[s1].len() && 0 <= s2 < nb.len() && 0 <= k2
                    < nb[s2].len() && (s1 != s2 || k1 != k2) implies #[trigger] nb[s1][k1]
                != #[trigger] nb[s2][k2] by {
                let ok1: int = if s1 == score as int && k1 >= k { k1 + 1 } else { k1 };
                let ok2: int = if s2 == score as int && k2 >= k { k2 + 1 } else { k2 };
                assert(nb[s1][k1] == ob[s1][ok1]);
                assert(nb[s2][k2] == ob[s2][ok2]);
            }
            assert forall|k2: int| 0 <= k2 < b.len() && b[k2] == col implies self.buckets@ == ob
                .update(score as int, b.remove(k2)) by {
                if k2 != k {
                    assert(old(self).buckets@[score as int][k2] != old(self).buckets@[
                        score as int
                    ][k]);
                    assert(false);
                }
            }
            if b[0] == col {
                if k != 0 {
                    assert(b[0] != b[k]);
                    assert(false);
                }
                assert(b.remove(0) =~= b.drop_first());
                assert(self.buckets@ == ob.update(score as int, b.drop_first()));
            }
        }
    }

    /// Removes and returns an item with the smallest score present, or
    /// `None` when the queue is empty. Of the items sharing the smallest
    /// score, the head of that bucket — the one inserted earliest — leaves
    /// first.
    pub fn pop_min(&mut self) -> (r: Option<usize>)
        requires
            old(self).wf(),
        ensures
            final(self).wf(),
            final(self).cap() == old(self).cap(),
            total_of(old(self).buckets()) == 0 ==> r is None && final(self).buckets() == old(
                self,
            ).buckets(),
            total_of(old(self).buckets()) > 0 ==> r == Some(
                old(self).buckets()[first_nonempty(old(self).buckets())][0],
            ) && final(self).buckets() == old(self).buckets().update(
                first_nonempty(old(self).buckets()),
                old(self).buckets()[first_nonempty(old(self).buckets())].drop_first(),
            ),
            total_of(old(self).buckets()) > 0 ==> total_of(final(self).buckets()) == total_of(
                old(self).buckets(),
            ) - 1,
            total_of(old(self).buckets()) > 0 ==> 0 <= first_nonempty(old(self).buckets())
                < old(self).cap() && old(self).buckets()[first_nonempty(
                old(self).buckets(),
            )].len() > 0 && (forall|s: int|
                0 <= s < first_nonempty(old(self).buckets()) ==> old(self).buckets()[s].len()
                    == 0),
    {
        let ghost pre = *self;
        while self.min_score < self.score2head.len() && self.score2head[self.min_score].is_none()
            invariant
                pre.wf(),
                self.score2head@ == pre.score2head@,
                self.prev@ == pre.prev@,
                self.next@ == pre.next@,
                self.len == pre.len,
                self.buckets@ == pre.buckets@,
                self.min_score as int <= pre.cap(),
                forall|s: int| 0 <= s < self.min_score as int ==> pre.buckets@[s].len() == 0,
            decreases self.score2head@.len() - self.min_score as int,
        {
            proof {
                assert(pre.bucket_linked(self.min_score as int));
                assert(pre.score2head@[self.min_score as int] is None);
                assert(pre.buckets@[self.min_score as int].len() == 0);
            }
            self.min_score = self.min_score + 1;
        }
        proof {
            assert forall|s: int| 0 <= s < self.cap() implies #[trigger] self.bucket_linked(
                s,
            ) by {
                assert(pre.bucket_linked(s));
            }
            assert forall|s1: int, k1: int, s2: int, k2: int|
                0 <= s1 < self.buckets@.len() && 0 <= k1 < self.buckets@[s1].len() && 0 <= s2
                    < self.buckets@.len() && 0 <= k2 < self.buckets@[s2].len() && (s1 != s2 || k1
                    != k2) implies #[trigger] self.buckets@[s1][k1]
                != #[trigger] self.buckets@[s2][k2] by {
                assert(pre.buckets@[s1][k1] != pre.buckets@[s2][k2]);
            }
            assert(self.wf());
        }
        if self.min_score >= self.score2head.len() {
            proof {
                lemma_total_of_all_empty(self.buckets@);
            }
            return None;
        }
        proof {
            assert(self.bucket_linked(self.min_score as int));
        }
        let col = self.score2head[self.min_score].unwrap();
        let ghost b = self.buckets@[self.min_score as int];
        proof {
            assert(b[0] == col);
            assert(b.contains(col));
            lemma_first_nonempty_found(self.buckets@, self.min_score as int);
            lemma_bucket_le_total(self.buckets@, self.min_score as int);
        }
        let ms = self.min_score;
        let ghost before = self.buckets@;
        self.remove(col, ms);
        proof {
            assert(before[ms as int][0] == col);
            assert(self.buckets@ == before.update(ms as int, before[ms as int].drop_first()));
            lemma_total_update(before, ms as int, before[ms as int].drop_first());
            assert(first_nonempty(old(self).buckets()) == ms as int);
        }
        Some(col)
    }

    /// Number of items currently in the queue.
    pub fn len(&self) -> (r: usize)
        requires
            self.wf(),
        ensures
            r as nat == total_of(self.buckets()),
    {
        self.len
    }
}

/// Replacing one bucket changes the total by the difference in bucket size.
proof fn lemma_total_update(bs: Seq<Seq<usize>>, s: int, b: Seq<usize>)
    requires
        0 <= s < bs.len(),
    ensures
        total_of(bs.update(s, b)) + bs[s].len() == total_of(bs) + b.len(),
    decreases bs.len(),
{
    if s == 0 {
        assert(bs.update(0, b).drop_first() =~= bs.drop_first());
    } else {
        assert(bs.update(s, b).drop_first() =~= bs.drop_first().update(s - 1, b));
        lemma_total_update(bs.drop_first(), s - 1, b);
    }
}

/// One bucket never holds more items than the whole queue.
pub proof fn lemma_bucket_le_total(bs: Seq<Seq<usize>>, s: int)
    requires
        0 <= s < bs.len(),
    ensures
        bs[s].len() <= total_of(bs),
    decreases bs.len(),
{
    if s > 0 {
        lemma_bucket_le_total(bs.drop_first(), s - 1);
    }
}

/// With all buckets below `s` empty and bucket `s` non-empty, `s` is the
/// first non-empty bucket.
proof fn lemma_first_nonempty_found(bs: Seq<Seq<usize>>, s: int)
    requires
        0 <= s < bs.len(),
        bs[s].len() > 0,
        forall|t: int| 0 <= t < s ==> bs[t].len() == 0,
    ensures
        first_nonempty(bs) == s,
    decreases s,
{
    if s > 0 {
        lemma_first_nonempty_found(bs.drop_first(), s - 1);
    }
}

/// A sequence of empty buckets holds no items.
proof fn lemma_total_of_all_empty(bs: Seq<Seq<usize>>)
    requires
        forall|s: int| 0 <= s < bs.len() ==> bs[s].len() == 0,
    ensures
        total_of(bs) == 0,
    decreases bs.len(),
{
    if bs.len() > 0 {
        lemma_total_of_all_empty(bs.drop_first());
    }
}

} // verus!
