//! Lexicographic order of edge values, and a map keyed by edge values that is
//! kept in that order.

use vstd::prelude::*;

verus! {

/// Whether `a` comes before `b` in lexicographic order.
pub open spec fn lex_less(a: Seq<i32>, b: Seq<i32>) -> bool {
    exists|i: int| #[trigger] first_less(a, b, i)
}

/// Whether `a` and `b` first differ at `i`, where `a` is less.
pub open spec fn first_less(a: Seq<i32>, b: Seq<i32>, i: int) -> bool {
    0 <= i < 6 && a[i] < b[i] && forall|j: int| 0 <= j < i ==> #[trigger] a[j] == b[j]
}

pub(crate) fn is_less(a: &[i32; 6], b: &[i32; 6]) -> (less: bool)
    ensures
        less == lex_less(a@, b@),
{
    for i in 0..6usize
        invariant
            forall|j: int| 0 <= j < i ==> #[trigger] a@[j] == b@[j],
    {
        if a[i] < b[i] {
            assert(first_less(a@, b@, i as int));
            return true;
        }
        if a[i] > b[i] {
            assert forall|k: int| !#[trigger] first_less(a@, b@, k) by {
                if first_less(a@, b@, k) && i < k {
                    assert(a@[i as int] == b@[i as int]);
                }
            }
            return false;
        }
    }
    false
}

/// Of two different values one comes before the other, and never both.
pub proof fn lemma_lex_total(a: Seq<i32>, b: Seq<i32>)
    requires
        a.len() == 6,
        b.len() == 6,
    ensures
        a == b || lex_less(a, b) || lex_less(b, a),
        !(lex_less(a, b) && lex_less(b, a)),
        a == b ==> !lex_less(a, b),
{
    if lex_less(a, b) && lex_less(b, a) {
        let i = choose|i: int| #[trigger] first_less(a, b, i);
        let j = choose|j: int| #[trigger] first_less(b, a, j);
        if i < j {
            assert(b[i] == a[i]);
        } else if j < i {
            assert(a[j] == b[j]);
        }
    }
    if !lex_less(a, b) && !lex_less(b, a) {
        lemma_lex_equal_below(a, b, 6);
        assert(a =~= b);
    }
}

proof fn lemma_lex_equal_below(a: Seq<i32>, b: Seq<i32>, n: int)
    requires
        0 <= n <= 6,
        !lex_less(a, b),
        !lex_less(b, a),
    ensures
        forall|j: int| 0 <= j < n ==> #[trigger] a[j] == b[j],
    decreases n,
{
    if n > 0 {
        lemma_lex_equal_below(a, b, n - 1);
        if a[n - 1] < b[n - 1] {
            assert(first_less(a, b, n - 1));
        } else if b[n - 1] < a[n - 1] {
            assert forall|j: int| 0 <= j < n - 1 implies #[trigger] b[j] == a[j] by {
                assert(a[j] == b[j]);
            }
            assert(first_less(b, a, n - 1));
        }
    }
}

pub proof fn lemma_lex_transitive(a: Seq<i32>, b: Seq<i32>, c: Seq<i32>)
    requires
        lex_less(a, b),
        lex_less(b, c),
    ensures
        lex_less(a, c),
{
    let i = choose|i: int| #[trigger] first_less(a, b, i);
    let j = choose|j: int| #[trigger] first_less(b, c, j);
    let k = if i < j {
        i
    } else {
        j
    };
    assert forall|m: int| 0 <= m < k implies #[trigger] a[m] == c[m] by {
        assert(a[m] == b[m]);
        assert(b[m] == c[m]);
    }
    if i < j {
        assert(b[i] == c[i]);
    } else if j < i {
        assert(a[j] == b[j]);
    }
    assert(first_less(a, c, k));
}

/// A map from edge values, as a list in lexicographic order.
pub struct EdgeMap<V> {
    entries: Vec<([i32; 6], V)>,
}

spec fn entry_at<V>(entries: Seq<([i32; 6], V)>, key: Seq<i32>, i: int) -> bool {
    0 <= i < entries.len() && entries[i].0@ == key
}

impl<V> View for EdgeMap<V> {
    type V = Map<Seq<i32>, V>;

    closed spec fn view(&self) -> Map<Seq<i32>, V> {
        Map::new(
            |key: Seq<i32>| exists|i: int| #[trigger] entry_at(self.entries@, key, i),
            |key: Seq<i32>| self.entries@[choose|i: int| #[trigger] entry_at(self.entries@, key, i)].1,
        )
    }
}

impl<V> EdgeMap<V> {
    /// The entries are in lexicographic order.
    pub closed spec fn wf(&self) -> bool {
        forall|i: int, j: int|
            0 <= i < j < self.entries.len() ==> lex_less(
                (#[trigger] self.entries@[i]).0@,
                (#[trigger] self.entries@[j]).0@,
            )
    }

    /// A map without entries.
    pub fn new() -> (map: Self)
        ensures
            map.wf(),
            map@ == Map::<Seq<i32>, V>::empty(),
    {
        let map: Self = EdgeMap { entries: Vec::new() };
        assert(map@ =~= Map::<Seq<i32>, V>::empty());
        map
    }

    /// The first place whose key does not come before `key`.
    fn place_of(&self, key: &[i32; 6]) -> (at: usize)
        requires
            self.wf(),
        ensures
            at <= self.entries.len(),
            forall|i: int| 0 <= i < at ==> lex_less((#[trigger] self.entries@[i]).0@, key@),
            forall|i: int| at <= i < self.entries.len() ==> !lex_less((#[trigger] self.entries@[i]).0@, key@),
    {
        let mut low: usize = 0;
        let mut high: usize = self.entries.len();
        while low < high
            invariant
                self.wf(),
                low <= high <= self.entries.len(),
                forall|i: int| 0 <= i < low ==> lex_less((#[trigger] self.entries@[i]).0@, key@),
                forall|i: int| high <= i < self.entries.len() ==> !lex_less((#[trigger] self.entries@[i]).0@, key@),
            decreases high - low,
        {
            let mid: usize = low + (high - low) / 2;
            let ghost entries = self.entries@;
            if is_less(&self.entries[mid].0, key) {
                proof {
                    assert forall|i: int| 0 <= i < mid + 1 implies lex_less((#[trigger] entries[i]).0@, key@) by {
                        if i < mid {
                            lemma_lex_transitive(entries[i].0@, entries[mid as int].0@, key@);
                        }
                    }
                }
                low = mid + 1;
            } else {
                proof {
                    assert forall|i: int| mid <= i < entries.len() implies !lex_less((#[trigger] entries[i]).0@, key@) by {
                        if mid < i && lex_less(entries[i].0@, key@) {
                            lemma_lex_transitive(entries[mid as int].0@, entries[i].0@, key@);
                        }
                    }
                }
                high = mid;
            }
        }
        low
    }

    /// A key stands at one place only.
    proof fn lemma_entry(&self, key: Seq<i32>, i: int)
        requires
            self.wf(),
            entry_at(self.entries@, key, i),
        ensures
            self@.contains_key(key),
            self@[key] == self.entries@[i].1,
            forall|j: int| #[trigger] entry_at(self.entries@, key, j) ==> j == i,
    {
        assert forall|j: int| #[trigger] entry_at(self.entries@, key, j) implies j == i by {
            let a = self.entries@[i].0@;
            let b = self.entries@[j].0@;
            lemma_lex_total(a, b);
            if i < j {
                assert(lex_less(self.entries@[i].0@, self.entries@[j].0@));
            } else if j < i {
                assert(lex_less(self.entries@[j].0@, self.entries@[i].0@));
            }
        }
    }

    /// The value of `key`, if it has one.
    pub fn get(&self, key: &[i32; 6]) -> (value: Option<&V>)
        requires
            self.wf(),
        ensures
            match value {
                Some(v) => self@.contains_key(key@) && self@[key@] == *v,
                None => !self@.contains_key(key@),
            },
    {
        let at: usize = self.place_of(key);
        if at < self.entries.len() && !is_less(key, &self.entries[at].0) {
            proof {
                lemma_lex_total(self.entries@[at as int].0@, key@);
                self.lemma_entry(key@, at as int);
            }
            Some(&self.entries[at].1)
        } else {
            proof {
                if self@.contains_key(key@) {
                    let i = choose|i: int| #[trigger] entry_at(self.entries@, key@, i);
                    lemma_lex_total(key@, key@);
                    assert(!lex_less(self.entries@[i].0@, key@));
                    assert(i >= at);
                    if i > at {
                        assert(lex_less(self.entries@[at as int].0@, self.entries@[i].0@));
                    }
                }
            }
            None
        }
    }

    /// Adds an entry for a key that has none.
    pub fn insert(&mut self, key: [i32; 6], value: V)
        requires
            old(self).wf(),
            !old(self)@.contains_key(key@),
        ensures
            final(self).wf(),
            final(self)@ == old(self)@.insert(key@, value),
    {
        let at: usize = self.place_of(&key);
        let ghost before = *self;
        self.entries.insert(at, (key, value));
        proof {
            let old_entries = before.entries@;
            let entries = self.entries@;
            assert forall|i: int| 0 <= i < old_entries.len() implies {
                &&& i < at ==> entries[i] == #[trigger] old_entries[i]
                &&& i >= at ==> entries[i + 1] == old_entries[i]
            } by {
            }
            assert forall|i: int, j: int| 0 <= i < j < entries.len() implies lex_less(
                (#[trigger] entries[i]).0@,
                (#[trigger] entries[j]).0@,
            ) by {
                if i == at {
                    let k = j - 1;
                    assert(entries[j] == old_entries[k]);
                    assert(!lex_less(old_entries[k].0@, key@));
                    if old_entries[k].0@ == key@ {
                        assert(entry_at(old_entries, key@, k));
                        before.lemma_entry(key@, k);
                    }
                    lemma_lex_total(key@, old_entries[k].0@);
                } else if j == at {
                    assert(entries[i] == old_entries[i]);
                } else {
                    let a = if i < at {
                        i
                    } else {
                        i - 1
                    };
                    let b = if j < at {
                        j
                    } else {
                        j - 1
                    };
                    assert(entries[i] == old_entries[a] && entries[j] == old_entries[b]);
                    assert(lex_less(old_entries[a].0@, old_entries[b].0@));
                }
            }
            assert forall|k: Seq<i32>| #[trigger] self@.contains_key(k) <==> before@.insert(key@, value).contains_key(k) by {
                if self@.contains_key(k) && k != key@ {
                    let i = choose|i: int| #[trigger] entry_at(entries, k, i);
                    let a = if i < at {
                        i
                    } else {
                        i - 1
                    };
                    assert(entry_at(old_entries, k, a));
                }
                if before@.contains_key(k) {
                    let i = choose|i: int| #[trigger] entry_at(old_entries, k, i);
                    let a = if i < at {
                        i
                    } else {
                        i + 1
                    };
                    assert(entry_at(entries, k, a));
                }
                if k == key@ {
                    assert(entry_at(entries, k, at as int));
                }
            }
            assert forall|k: Seq<i32>| #[trigger] self@.contains_key(k) implies self@[k] == before@.insert(key@, value)[k] by {
                if k == key@ {
                    assert(entry_at(entries, k, at as int));
                    self.lemma_entry(k, at as int);
                } else {
                    let i = choose|i: int| #[trigger] entry_at(entries, k, i);
                    let a = if i < at {
                        i
                    } else {
                        i - 1
                    };
                    assert(entry_at(old_entries, k, a));
                    self.lemma_entry(k, i);
                    before.lemma_entry(k, a);
                }
            }
            assert(self@ =~= before@.insert(key@, value));
        }
    }
}

} // verus!
