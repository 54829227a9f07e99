//! The store of numbers a node has learnt, in the order it learnt them.

use std::collections::HashSet;
use vstd::prelude::*;

verus! {

broadcast use vstd::std_specs::hash::group_hash_axioms;

/// The sum of a sequence of numbers, over the mathematical integers.
pub open spec fn seq_sum(s: Seq<usize>) -> int
    decreases s.len(),
{
    if s.len() == 0 {
        0
    } else {
        seq_sum(s.drop_last()) + s.last()
    }
}

/// The store after learning `n`: unchanged if `n` is known, else `n` appended.
pub open spec fn with_number(s: Seq<usize>, n: usize) -> Seq<usize> {
    if s.contains(n) {
        s
    } else {
        s.push(n)
    }
}

/// The store after learning each number of `u`, from first to last.
pub open spec fn merged(s: Seq<usize>, u: Seq<usize>) -> Seq<usize>
    decreases u.len(),
{
    if u.len() == 0 {
        s
    } else {
        with_number(merged(s, u.drop_last()), u.last())
    }
}

/// The last `n` numbers of `s` (all of them if there are fewer), newest first.
pub open spec fn newest_first(s: Seq<usize>, n: nat) -> Seq<usize> {
    let k = if n < s.len() {
        n
    } else {
        s.len()
    };
    Seq::new(k, |i: int| s[s.len() - 1 - i])
}

/// Every number a node has learnt, each once, in the order it was learnt.
pub struct MasterOfNumbers {
    numbers: Vec<usize>,
    known_numbers: HashSet<usize>,
}

impl View for MasterOfNumbers {
    type V = Seq<usize>;

    closed spec fn view(&self) -> Seq<usize> {
        self.numbers@
    }
}

/// A well-formed store holds no number twice.
pub proof fn lemma_store_no_duplicates(m: &MasterOfNumbers)
    requires
        m.wf(),
    ensures
        m@.no_duplicates(),
{
}

impl MasterOfNumbers {
    /// The set of known numbers mirrors the list, and the list holds no number twice.
    pub closed spec fn wf(&self) -> bool {
        &&& self.known_numbers@ == self.numbers@.to_set()
        &&& self.numbers@.no_duplicates()
    }

    pub fn new() -> (r: Self)
        ensures
            r.wf(),
            r@ == Seq::<usize>::empty(),
            r@.no_duplicates(),
    {
        let r = MasterOfNumbers { numbers: Vec::new(), known_numbers: HashSet::new() };
        assert(r.numbers@.to_set() =~= Set::<usize>::empty());
        r
    }

    /// Learns `number`; returns whether it was new.
    pub fn add_number(&mut self, number: usize) -> (added: bool)
        requires
            old(self).wf(),
        ensures
            final(self).wf(),
            added == !old(self)@.contains(number),
            final(self)@ == with_number(old(self)@, number),
            final(self)@.no_duplicates(),
            old(self)@.is_prefix_of(final(self)@),
    {
        proof {
            lemma_merged_extends(self@, seq![number]);
            assert(seq![number].drop_last() =~= Seq::<usize>::empty());
        }
        if self.known_numbers.contains(&number) {
            return false;
        }
        self.known_numbers.insert(number);
        self.numbers.push(number);
        proof {
            self.numbers@.drop_last().lemma_push_to_set_commute(number);
            assert(self.numbers@.drop_last() =~= old(self).numbers@);
        }
        true
    }

    /// Learns every number of `update` in turn, with no sum computed.
    fn merge_numbers(&mut self, update: &[usize])
        requires
            old(self).wf(),
        ensures
            final(self).wf(),
            final(self)@ == merged(old(self)@, update@),
    {
        let mut i: usize = 0;
        while i < update.len()
            invariant
                i <= update@.len(),
                self.wf(),
                self@ == merged(old(self)@, update@.take(i as int)),
            decreases update@.len() - i,
        {
            let n = update[i];
            proof {
                assert(update@.take(i + 1).drop_last() =~= update@.take(i as int));
                assert(update@.take(i + 1).last() == n);
            }
            self.add_number(n);
            i = i + 1;
        }
        assert(update@.take(update@.len() as int) =~= update@);
    }

    /// Learns every number of `update` in turn and returns the count and the
    /// sum of the numbers now known, or `None` when that sum does not fit in
    /// a `usize` (the numbers are learnt in either case).
    pub fn extend_numbers_checked(&mut self, update: &[usize]) -> (r: Option<(usize, usize)>)
        requires
            old(self).wf(),
        ensures
            final(self).wf(),
            final(self)@ == merged(old(self)@, update@),
            final(self)@.no_duplicates(),
            old(self)@.is_prefix_of(final(self)@),
            match r {
                Some((count, sum)) => count == final(self)@.len() && sum == seq_sum(final(self)@),
                None => seq_sum(final(self)@) > usize::MAX,
            },
    {
        proof {
            lemma_merged_extends(self@, update@);
        }
        self.merge_numbers(update);
        self.checked_sum_count()
    }

    /// Learns every number of `update` in turn; returns the count and the sum
    /// of the numbers now known.
    pub fn extend_numbers(&mut self, update: &[usize]) -> (r: (usize, usize))
        requires
            old(self).wf(),
            seq_sum(merged(old(self)@, update@)) <= usize::MAX,
        ensures
            final(self).wf(),
            final(self)@ == merged(old(self)@, update@),
            final(self)@.no_duplicates(),
            old(self)@.is_prefix_of(final(self)@),
            r.0 == final(self)@.len(),
            r.1 == seq_sum(final(self)@),
    {
        proof {
            lemma_merged_extends(self@, update@);
        }
        self.merge_numbers(update);
        self.get_sum_count()
    }

    /// All known numbers in the order learnt, or, given `Some(n)`, the last
    /// `n` of them newest first.
    pub fn read_numbers(&self, last_n: Option<usize>) -> (r: Vec<usize>)
        ensures
            r@ == match last_n {
                Some(n) => newest_first(self@, n as nat),
                None => self@,
            },
    {
        match last_n {
            Some(n) => {
                let len = self.numbers.len();
                let k = if n < len {
                    n
                } else {
                    len
                };
                let mut r: Vec<usize> = Vec::new();
                let mut i: usize = 0;
                while i < k
                    invariant
                        k <= len == self.numbers@.len(),
                        k == (if n < len { n } else { len }),
                        i <= k,
                        r@ =~= newest_first(self@, n as nat).take(i as int),
                    decreases k - i,
                {
                    r.push(self.numbers[len - 1 - i]);
                    assert(newest_first(self@, n as nat)[i as int] == self.numbers@[len - 1 - i]);
                    i = i + 1;
                }
                r
            },
            None => {
                let mut r: Vec<usize> = Vec::new();
                let mut i: usize = 0;
                while i < self.numbers.len()
                    invariant
                        i <= self.numbers@.len(),
                        r@ =~= self.numbers@.take(i as int),
                    decreases self.numbers@.len() - i,
                {
                    r.push(self.numbers[i]);
                    i = i + 1;
                }
                r
            },
        }
    }

    /// The count and the sum of the known numbers, or `None` when the sum does
    /// not fit in a `usize`.
    pub fn checked_sum_count(&self) -> (r: Option<(usize, usize)>)
        ensures
            match r {
                Some((count, sum)) => count == self@.len() && sum == seq_sum(self@),
                None => seq_sum(self@) > usize::MAX,
            },
    {
        let mut acc: usize = 0;
        let mut i: usize = 0;
        while i < self.numbers.len()
            invariant
                i <= self.numbers@.len(),
                acc == seq_sum(self.numbers@.take(i as int)),
            decreases self.numbers@.len() - i,
        {
            let n = self.numbers[i];
            proof {
                assert(self.numbers@.take(i + 1).drop_last() =~= self.numbers@.take(i as int));
            }
            match acc.checked_add(n) {
                Some(s) => acc = s,
                None => {
                    proof {
                        lemma_prefix_sum_le(self.numbers@, i + 1);
                    }
                    return None;
                },
            }
            i = i + 1;
        }
        assert(self.numbers@.take(i as int) =~= self.numbers@);
        Some((self.numbers.len(), acc))
    }

    /// The count and the sum of the known numbers.
    pub fn get_sum_count(&self) -> (r: (usize, usize))
        requires
            seq_sum(self@) <= usize::MAX,
        ensures
            r.0 == self@.len(),
            r.1 == seq_sum(self@),
    {
        match self.checked_sum_count() {
            Some(r) => r,
            None => (0, 0),
        }
    }
}

/// The set a store denotes after learning `n` is the old set with `n` added.
pub proof fn lemma_with_number_to_set(s: Seq<usize>, n: usize)
    ensures
        with_number(s, n).to_set() == s.to_set().insert(n),
{
    if s.contains(n) {
        assert(s.to_set().insert(n) =~= s.to_set());
    } else {
        s.lemma_push_to_set_commute(n);
    }
}

/// Learning a number never puts a number in the store twice.
pub proof fn lemma_with_number_no_duplicates(s: Seq<usize>, n: usize)
    requires
        s.no_duplicates(),
    ensures
        with_number(s, n).no_duplicates(),
{
    if !s.contains(n) {
        let t = s.push(n);
        assert forall|i: int, j: int| 0 <= i < t.len() && 0 <= j < t.len() && i != j implies t[i]
            != t[j] by {
            if i == s.len() as int {
                assert(s[j] == t[j]);
            } else if j == s.len() as int {
                assert(s[i] == t[i]);
            }
        }
    }
}

/// Learning a batch of numbers never puts a number in the store twice.
pub proof fn lemma_merged_no_duplicates(s: Seq<usize>, u: Seq<usize>)
    requires
        s.no_duplicates(),
    ensures
        merged(s, u).no_duplicates(),
    decreases u.len(),
{
    if u.len() > 0 {
        lemma_merged_no_duplicates(s, u.drop_last());
        lemma_with_number_no_duplicates(merged(s, u.drop_last()), u.last());
    }
}

/// Learning a number twice is learning it once, and afterwards it is known.
pub proof fn lemma_add_twice(s: Seq<usize>, n: usize)
    ensures
        with_number(s, n).contains(n),
        with_number(with_number(s, n), n) == with_number(s, n),
{
    if !s.contains(n) {
        assert(s.push(n)[s.len() as int] == n);
    }
}

/// Numbers are never forgotten nor reordered: the store before learning a
/// batch is a prefix of the store after.
pub proof fn lemma_merged_extends(s: Seq<usize>, u: Seq<usize>)
    ensures
        s.is_prefix_of(merged(s, u)),
    decreases u.len(),
{
    if u.len() > 0 {
        lemma_merged_extends(s, u.drop_last());
        let m = merged(s, u.drop_last());
        if !m.contains(u.last()) {
            assert(m.push(u.last()).subrange(0, s.len() as int) =~= m.subrange(0, s.len() as int));
        }
    }
}

/// After learning a batch, the store knows exactly the old numbers and those of the batch.
pub proof fn lemma_merged_to_set(s: Seq<usize>, u: Seq<usize>)
    ensures
        merged(s, u).to_set() == s.to_set().union(u.to_set()),
    decreases u.len(),
{
    if u.len() == 0 {
        assert(u.to_set() =~= Set::<usize>::empty());
        assert(s.to_set().union(u.to_set()) =~= s.to_set());
    } else {
        let p = u.drop_last();
        lemma_merged_to_set(s, p);
        lemma_with_number_to_set(merged(s, p), u.last());
        assert(p.push(u.last()) =~= u);
        p.lemma_push_to_set_commute(u.last());
        assert(s.to_set().union(p.to_set()).insert(u.last()) =~= s.to_set().union(u.to_set()));
    }
}

/// A batch whose numbers are all known changes nothing.
pub proof fn lemma_merged_known(s: Seq<usize>, u: Seq<usize>)
    requires
        forall|i: int| 0 <= i < u.len() ==> s.contains(#[trigger] u[i]),
    ensures
        merged(s, u) == s,
    decreases u.len(),
{
    if u.len() > 0 {
        lemma_merged_known(s, u.drop_last());
        assert(s.contains(u[u.len() - 1]));
    }
}

/// Learning the same batch a second time changes nothing.
pub proof fn lemma_merged_idempotent(s: Seq<usize>, u: Seq<usize>)
    ensures
        merged(merged(s, u), u) == merged(s, u),
{
    let m = merged(s, u);
    lemma_merged_to_set(s, u);
    assert forall|i: int| 0 <= i < u.len() implies m.contains(#[trigger] u[i]) by {
        assert(u.to_set().contains(u[i]));
        assert(m.to_set().contains(u[i]));
    }
    lemma_merged_known(m, u);
}

/// Two stores that each learn the other's numbers end up knowing the same set.
pub proof fn lemma_exchange_converges(a: Seq<usize>, b: Seq<usize>)
    ensures
        merged(a, b).to_set() == merged(b, a).to_set(),
        merged(a, b).to_set() == a.to_set().union(b.to_set()),
{
    lemma_merged_to_set(a, b);
    lemma_merged_to_set(b, a);
    assert(a.to_set().union(b.to_set()) =~= b.to_set().union(a.to_set()));
}

/// Every number is summed once: a number's learning adds it to the sum exactly when it is new.
pub proof fn lemma_with_number_sum(s: Seq<usize>, n: usize)
    ensures
        seq_sum(with_number(s, n)) == seq_sum(s) + (if s.contains(n) { 0 } else { n as int }),
{
    if !s.contains(n) {
        assert(s.push(n).drop_last() =~= s);
    }
}

/// Two sequences, each without repeats, that hold the same elements have the same length.
pub proof fn lemma_same_set_same_len<A>(a: Seq<A>, b: Seq<A>)
    requires
        a.no_duplicates(),
        b.no_duplicates(),
        a.to_set() == b.to_set(),
    ensures
        a.len() == b.len(),
{
    a.unique_seq_to_set();
    b.unique_seq_to_set();
}

/// The sum of two sequences one after the other is the sum of their sums.
pub proof fn lemma_sum_concat(s: Seq<usize>, t: Seq<usize>)
    ensures
        seq_sum(s + t) == seq_sum(s) + seq_sum(t),
    decreases t.len(),
{
    if t.len() == 0 {
        assert(s + t =~= s);
    } else {
        lemma_sum_concat(s, t.drop_last());
        assert((s + t).drop_last() =~= s + t.drop_last());
        assert((s + t).last() == t.last());
    }
}

/// Taking the element at `k` out of a sequence takes it out of the sum.
pub proof fn lemma_sum_remove(s: Seq<usize>, k: int)
    requires
        0 <= k < s.len(),
    ensures
        seq_sum(s) == seq_sum(s.remove(k)) + s[k],
{
    let one = seq![s[k]];
    assert(one.drop_last() =~= Seq::<usize>::empty());
    assert(seq_sum(one.drop_last()) == 0);
    assert(one.last() == s[k]);
    assert(seq_sum(one) == s[k]);
    lemma_sum_concat(s.take(k), one + s.skip(k + 1));
    lemma_sum_concat(one, s.skip(k + 1));
    lemma_sum_concat(s.take(k), s.skip(k + 1));
    assert(s =~= s.take(k) + (one + s.skip(k + 1)));
    assert(s.remove(k) =~= s.take(k) + s.skip(k + 1));
}

/// Two sequences, each without repeats, that hold the same numbers have the
/// same count and the same sum, whatever their order.
pub proof fn lemma_same_set_same_count_sum(a: Seq<usize>, b: Seq<usize>)
    requires
        a.no_duplicates(),
        b.no_duplicates(),
        a.to_set() == b.to_set(),
    ensures
        a.len() == b.len(),
        seq_sum(a) == seq_sum(b),
    decreases a.len(),
{
    lemma_same_set_same_len(a, b);
    if a.len() > 0 {
        let x = a.last();
        assert(a.to_set().contains(x));
        assert(b.to_set().contains(x));
        let k = choose|k: int| 0 <= k < b.len() && b[k] == x;
        let a1 = a.drop_last();
        let b1 = b.remove(k);
        assert forall|i: int, j: int| 0 <= i < b1.len() && 0 <= j < b1.len() && i != j implies b1[i] != b1[j] by {
            let bi = if i < k { i } else { i + 1 };
            let bj = if j < k { j } else { j + 1 };
            assert(b1[i] == b[bi]);
            assert(b1[j] == b[bj]);
        }
        assert forall|y: usize| a1.to_set().contains(y) implies b1.to_set().contains(y) by {
            let i = choose|i: int| 0 <= i < a1.len() && a1[i] == y;
            assert(a[i] == y);
            assert(y != x);
            assert(a.to_set().contains(y));
            assert(b.to_set().contains(y));
            let j = choose|j: int| 0 <= j < b.len() && b[j] == y;
            if j < k {
                assert(b1[j] == y);
            } else {
                assert(j != k);
                assert(b1[j - 1] == y);
            }
        }
        assert forall|y: usize| b1.to_set().contains(y) implies a1.to_set().contains(y) by {
            let j = choose|j: int| 0 <= j < b1.len() && b1[j] == y;
            let bj = if j < k { j } else { j + 1 };
            assert(b[bj] == y);
            assert(y != x);
            assert(b.to_set().contains(y));
            assert(a.to_set().contains(y));
            let i = choose|i: int| 0 <= i < a.len() && a[i] == y;
            assert(i != a.len() - 1);
            assert(a1[i] == y);
        }
        assert(a1.to_set() =~= b1.to_set());
        lemma_same_set_same_count_sum(a1, b1);
        lemma_sum_remove(b, k);
    }
}

/// Learning two batches in either order leaves the same numbers, the same
/// count and the same sum; only the order of the list may differ.
pub proof fn lemma_merge_order_irrelevant(s: Seq<usize>, u1: Seq<usize>, u2: Seq<usize>)
    requires
        s.no_duplicates(),
    ensures
        merged(merged(s, u1), u2).to_set() == merged(merged(s, u2), u1).to_set(),
        merged(merged(s, u1), u2).len() == merged(merged(s, u2), u1).len(),
        seq_sum(merged(merged(s, u1), u2)) == seq_sum(merged(merged(s, u2), u1)),
{
    let a = merged(merged(s, u1), u2);
    let b = merged(merged(s, u2), u1);
    lemma_merged_to_set(s, u1);
    lemma_merged_to_set(merged(s, u1), u2);
    lemma_merged_to_set(s, u2);
    lemma_merged_to_set(merged(s, u2), u1);
    assert(a.to_set() =~= b.to_set());
    lemma_merged_no_duplicates(s, u1);
    lemma_merged_no_duplicates(merged(s, u1), u2);
    lemma_merged_no_duplicates(s, u2);
    lemma_merged_no_duplicates(merged(s, u2), u1);
    lemma_same_set_same_count_sum(a, b);
}

/// A prefix never sums to more than the whole.
proof fn lemma_prefix_sum_le(s: Seq<usize>, k: int)
    requires
        0 <= k <= s.len(),
    ensures
        seq_sum(s.take(k)) <= seq_sum(s),
    decreases s.len(),
{
    if k < s.len() {
        assert(s.drop_last().take(k) =~= s.take(k));
        lemma_prefix_sum_le(s.drop_last(), k);
    } else {
        assert(s.take(k) =~= s);
    }
}

} // verus!
