//! Occurrence counts over sequences, and a running tally of values.
//!
//! `count`, `distinct` and `first_index` are the vocabulary in which the
//! rest of the crate speaks of votes, groups and count tables; `Tally` is
//! the executable table that keeps counts up to date while values arrive
//! one by one.
use vstd::prelude::*;

verus! {

/// The number of positions of `s` that hold `x`.
pub open spec fn count<T>(s: Seq<T>, x: T) -> nat
    decreases s.len(),
{
    if s.len() == 0 {
        0
    } else {
        count(s.drop_last(), x) + if s.last() == x {
            1nat
        } else {
            0nat
        }
    }
}

/// The values of `s` without repetition, in the order of their first
/// occurrence.
pub open spec fn distinct<T>(s: Seq<T>) -> Seq<T>
    decreases s.len(),
{
    if s.len() == 0 {
        Seq::empty()
    } else {
        let earlier = distinct(s.drop_last());
        if earlier.contains(s.last()) {
            earlier
        } else {
            earlier.push(s.last())
        }
    }
}

/// The first place of `s` that holds `x`, or `-1` if there is none.
pub open spec fn first_index<T>(s: Seq<T>, x: T) -> int
    decreases s.len(),
{
    if s.len() == 0 {
        -1
    } else {
        let earlier = first_index(s.drop_last(), x);
        if earlier >= 0 {
            earlier
        } else if s.last() == x {
            s.len() - 1
        } else {
            -1
        }
    }
}

/// Appending `y` raises the count of `y` by one and leaves every other count.
pub proof fn lemma_count_push<T>(s: Seq<T>, y: T, x: T)
    ensures
        count(s.push(y), x) == count(s, x) + if y == x {
            1nat
        } else {
            0nat
        },
{
    assert(s.push(y).drop_last() =~= s);
}

/// No value occurs more often than the sequence is long.
pub proof fn lemma_count_bound<T>(s: Seq<T>, x: T)
    ensures
        count(s, x) <= s.len(),
    decreases s.len(),
{
    if s.len() > 0 {
        lemma_count_bound(s.drop_last(), x);
    }
}

/// A value has a positive count exactly when it occurs.
pub proof fn lemma_count_contains<T>(s: Seq<T>, x: T)
    ensures
        count(s, x) > 0 <==> s.contains(x),
    decreases s.len(),
{
    if s.len() > 0 {
        let front = s.drop_last();
        lemma_count_contains(front, x);
        if s.contains(x) {
            let i = choose|i: int| 0 <= i < s.len() && s[i] == x;
            if i < s.len() - 1 {
                assert(front[i] == x);
            }
        }
        if front.contains(x) {
            let i = choose|i: int| 0 <= i < front.len() && front[i] == x;
            assert(s[i] == x);
        }
        if s.last() == x {
            assert(s[s.len() - 1] == x);
        }
    }
}

/// `distinct(s)` holds exactly the values of `s`, each once.
pub proof fn lemma_distinct<T>(s: Seq<T>)
    ensures
        distinct(s).no_duplicates(),
        distinct(s).len() <= s.len(),
        forall|x: T| #[trigger] distinct(s).contains(x) <==> s.contains(x),
    decreases s.len(),
{
    if s.len() > 0 {
        let front = s.drop_last();
        let earlier = distinct(front);
        lemma_distinct(front);
        assert forall|x: T| #[trigger] distinct(s).contains(x) <==> s.contains(x) by {
            if s.contains(x) {
                let i = choose|i: int| 0 <= i < s.len() && s[i] == x;
                if i < s.len() - 1 {
                    assert(front[i] == x);
                    assert(front.contains(x));
                    assert(earlier.contains(x));
                    let j = choose|j: int| 0 <= j < earlier.len() && earlier[j] == x;
                    assert(distinct(s)[j] == x);
                } else {
                    if earlier.contains(x) {
                    } else {
                        assert(distinct(s)[earlier.len() as int] == x);
                    }
                }
            }
            if distinct(s).contains(x) {
                let j = choose|j: int| 0 <= j < distinct(s).len() && distinct(s)[j] == x;
                if j < earlier.len() {
                    assert(earlier[j] == x);
                    assert(earlier.contains(x));
                    assert(front.contains(x));
                    let i = choose|i: int| 0 <= i < front.len() && front[i] == x;
                    assert(s[i] == x);
                } else {
                    assert(s[s.len() - 1] == x);
                }
            }
        }
    }
}

/// How `distinct` grows when one value is appended.
pub proof fn lemma_distinct_push<T>(s: Seq<T>, y: T)
    ensures
        distinct(s.push(y)) == if distinct(s).contains(y) {
            distinct(s)
        } else {
            distinct(s).push(y)
        },
{
    assert(s.push(y).drop_last() =~= s);
}

/// `first_index` finds the first place that holds `x`, and only reports
/// `-1` when no place does.
pub proof fn lemma_first_index<T>(s: Seq<T>, x: T)
    ensures
        -1 <= first_index(s, x) < s.len(),
        first_index(s, x) >= 0 ==> s[first_index(s, x)] == x,
        forall|k: int| 0 <= k < s.len() && k < first_index(s, x) ==> s[k] != x,
        first_index(s, x) == -1 ==> forall|k: int| 0 <= k < s.len() ==> s[k] != x,
    decreases s.len(),
{
    if s.len() > 0 {
        let front = s.drop_last();
        lemma_first_index(front, x);
        assert forall|k: int| 0 <= k < s.len() - 1 implies s[k] == front[k] by {}
    }
}

/// The place `i` is `first_index(s, x)` when it holds `x` and no earlier
/// place does.
pub proof fn lemma_first_index_is<T>(s: Seq<T>, x: T, i: int)
    requires
        0 <= i < s.len(),
        s[i] == x,
        forall|k: int| 0 <= k < i ==> s[k] != x,
    ensures
        first_index(s, x) == i,
{
    lemma_first_index(s, x);
}

/// Once a value has a first place, appending leaves that place.
pub proof fn lemma_first_index_push<T>(s: Seq<T>, y: T, x: T)
    ensures
        first_index(s, x) >= 0 ==> first_index(s.push(y), x) == first_index(s, x),
        first_index(s, x) < 0 && y == x ==> first_index(s.push(y), x) == s.len(),
        first_index(s, x) < 0 && y != x ==> first_index(s.push(y), x) == -1,
{
    assert(s.push(y).drop_last() =~= s);
}

/// A value that can be told apart from another of its type.
pub trait Key: Copy + Sized {
    /// Tells whether the two values are the same.
    fn same(&self, other: &Self) -> (equal: bool)
        ensures
            equal == (*self == *other),
    ;
}

impl Key for u32 {
    fn same(&self, other: &u32) -> (equal: bool) {
        *self == *other
    }
}

/// A running count of the values added so far, kept per distinct value in
/// the order in which the values first arrived.
pub struct Tally<K: Key> {
    keys: Vec<K>,
    counts: Vec<usize>,
    seen: Ghost<Seq<K>>,
}

impl<K: Key> View for Tally<K> {
    type V = Seq<K>;

    /// Every value added so far, in the order of arrival.
    closed spec fn view(&self) -> Seq<K> {
        self.seen@
    }
}

impl<K: Key> Tally<K> {
    /// The table agrees with the values added: one entry for each distinct
    /// value, in first-arrival order, holding that value's count.
    pub closed spec fn wf(&self) -> bool {
        &&& self.keys@ == distinct(self.seen@)
        &&& self.counts@.len() == self.keys@.len()
        &&& forall|j: int|
            0 <= j < self.keys@.len() ==> #[trigger] self.counts@[j] == count(
                self.seen@,
                self.keys@[j],
            )
    }

    /// An empty tally.
    pub fn new() -> (tally: Self)
        ensures
            tally.wf(),
            tally@ == Seq::<K>::empty(),
    {
        Tally { keys: Vec::new(), counts: Vec::new(), seen: Ghost(Seq::empty()) }
    }

    /// Records one more occurrence of `x`.
    pub fn add(&mut self, x: K)
        requires
            old(self).wf(),
            old(self)@.len() < usize::MAX,
        ensures
            final(self).wf(),
            final(self)@ == old(self)@.push(x),
    {
        let ghost before = self.seen@;
        let mut j: usize = 0;
        while j < self.keys.len()
            invariant
                0 <= j <= self.keys@.len(),
                self.wf(),
                self.seen@ == before,
                before == old(self)@,
                before.len() < usize::MAX,
                forall|k: int| 0 <= k < j ==> self.keys@[k] != x,
            decreases self.keys@.len() - j,
        {
            if self.keys[j].same(&x) {
                proof {
                    lemma_distinct(before);
                    lemma_distinct_push(before, x);
                    lemma_count_bound(before, x);
                    assert(self.counts@[j as int] == count(before, x));
                    assert forall|k: int| 0 <= k < self.keys@.len() implies count(
                        before.push(x),
                        self.keys@[k],
                    ) == count(before, self.keys@[k]) + if k == j {
                        1nat
                    } else {
                        0nat
                    } by {
                        lemma_count_push(before, x, self.keys@[k]);
                    }
                    assert(self.keys@.contains(x));
                }
                self.counts[j] = self.counts[j] + 1;
                self.seen = Ghost(before.push(x));
                return ;
            }
            j += 1;
        }
        proof {
            assert(!self.keys@.contains(x));
            lemma_distinct(before);
            lemma_distinct_push(before, x);
            lemma_count_contains(before, x);
            assert forall|k: int| 0 <= k < self.keys@.len() implies count(
                before.push(x),
                self.keys@[k],
            ) == count(before, self.keys@[k]) by {
                lemma_count_push(before, x, self.keys@[k]);
            }
            lemma_count_push(before, x, x);
        }
        self.keys.push(x);
        self.counts.push(1);
        self.seen = Ghost(before.push(x));
    }

    /// The distinct values added so far, in the order of their first arrival.
    pub fn keys(&self) -> (keys: &Vec<K>)
        requires
            self.wf(),
        ensures
            keys@ == distinct(self@),
    {
        &self.keys
    }

    /// The count of each distinct value, in the order of `keys`.
    pub fn counts(&self) -> (counts: &Vec<usize>)
        requires
            self.wf(),
        ensures
            counts@.len() == distinct(self@).len(),
            forall|j: int|
                0 <= j < counts@.len() ==> #[trigger] counts@[j] == count(self@, distinct(self@)[j]),
    {
        &self.counts
    }
}

/// The place of `x` among `keys`, if it is there.
pub fn position(keys: &Vec<u32>, x: u32) -> (found: Option<usize>)
    ensures
        match found {
            Some(j) => j < keys@.len() && keys@[j as int] == x,
            None => !keys@.contains(x),
        },
{
    let mut j: usize = 0;
    while j < keys.len()
        invariant
            0 <= j <= keys@.len(),
            forall|k: int| 0 <= k < j ==> keys@[k] != x,
        decreases keys@.len() - j,
    {
        if keys[j] == x {
            return Some(j);
        }
        j += 1;
    }
    None
}

} // verus!
