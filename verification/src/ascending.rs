//! Ascending lists of the numbers below a bound that satisfy a property.

use vstd::prelude::*;

verus! {

/// The numbers below `n` that satisfy `keep`, in ascending order.
pub open spec fn select_below(n: nat, keep: spec_fn(int) -> bool) -> Seq<usize>
    decreases n,
{
    if n == 0 {
        Seq::empty()
    } else {
        let rest = select_below((n - 1) as nat, keep);
        if keep(n - 1) {
            rest.push((n - 1) as usize)
        } else {
            rest
        }
    }
}

/// Whether `list` holds exactly the numbers below `n` that satisfy `keep`,
/// each once and in ascending order.
pub open spec fn lists_ascending(list: Seq<usize>, n: int, keep: spec_fn(int) -> bool) -> bool {
    &&& forall|i: int| 0 <= i < list.len() ==> (#[trigger] list[i]) < n && keep(list[i] as int)
    &&& forall|i: int, j: int| 0 <= i < j < list.len() ==> #[trigger] list[i] < #[trigger] list[j]
    &&& forall|x: int| 0 <= x < n && #[trigger] keep(x) ==> list.contains(x as usize)
}

pub proof fn lemma_select_below(n: nat, keep: spec_fn(int) -> bool)
    requires
        n <= usize::MAX,
    ensures
        lists_ascending(select_below(n, keep), n as int, keep),
        select_below(n, keep).len() <= n,
    decreases n,
{
    if n > 0 {
        let rest = select_below((n - 1) as nat, keep);
        let list = select_below(n, keep);
        lemma_select_below((n - 1) as nat, keep);
        assert forall|x: int| 0 <= x < n && #[trigger] keep(x) implies list.contains(x as usize) by {
            if x < n - 1 {
                assert(rest.contains(x as usize));
                let i = choose|i: int| 0 <= i < rest.len() && rest[i] == x as usize;
                assert(list[i] == x as usize);
            } else {
                assert(list[list.len() - 1] == x as usize);
            }
        }
    }
}

/// There is only one such list.
pub proof fn lemma_ascending_unique(list: Seq<usize>, n: nat, keep: spec_fn(int) -> bool)
    requires
        lists_ascending(list, n as int, keep),
        n <= usize::MAX,
    ensures
        list == select_below(n, keep),
    decreases n,
{
    if n == 0 {
        if list.len() > 0 {
            assert(list[0] < 0);
        }
        assert(list =~= select_below(n, keep));
    } else {
        let m = (n - 1) as nat;
        if keep(m as int) {
            assert(list.contains(m as usize));
            let i = choose|i: int| 0 <= i < list.len() && list[i] == m as usize;
            if i < list.len() - 1 {
                assert(list[i] < list[list.len() - 1]);
            }
            let front = list.drop_last();
            assert forall|x: int| 0 <= x < m && #[trigger] keep(x) implies front.contains(x as usize) by {
                assert(list.contains(x as usize));
                let k = choose|k: int| 0 <= k < list.len() && list[k] == x as usize;
                assert(front[k] == x as usize);
            }
            assert forall|k: int| 0 <= k < front.len() implies (#[trigger] front[k]) < m && keep(
                front[k] as int,
            ) by {
                assert(front[k] == list[k]);
                assert(list[k] < list[list.len() - 1]);
            }
            lemma_ascending_unique(front, m, keep);
            assert(list =~= front.push(m as usize));
        } else {
            assert forall|k: int| 0 <= k < list.len() implies (#[trigger] list[k]) < m && keep(
                list[k] as int,
            ) by {
            }
            lemma_ascending_unique(list, m, keep);
        }
    }
}

/// The list depends only on which numbers below the bound are kept.
pub proof fn lemma_select_below_ext(n: nat, p: spec_fn(int) -> bool, q: spec_fn(int) -> bool)
    requires
        forall|x: int| 0 <= x < n ==> #[trigger] p(x) == q(x),
    ensures
        select_below(n, p) == select_below(n, q),
    decreases n,
{
    if n > 0 {
        lemma_select_below_ext((n - 1) as nat, p, q);
        assert(p(n - 1) == q(n - 1));
    }
}

/// The entries among the first `i` of `list` that satisfy `keep`, in order.
pub open spec fn sieved(list: Seq<usize>, i: int, keep: spec_fn(int) -> bool) -> Seq<usize>
    decreases i,
{
    if i <= 0 {
        Seq::empty()
    } else {
        let rest = sieved(list, i - 1, keep);
        if keep(list[i - 1] as int) {
            rest.push(list[i - 1])
        } else {
            rest
        }
    }
}

proof fn lemma_sieved_entries(list: Seq<usize>, i: int, n: int, first: spec_fn(int) -> bool, keep: spec_fn(int) -> bool)
    requires
        lists_ascending(list, n, first),
        0 <= i <= list.len(),
    ensures
        forall|k: int|
            #![trigger sieved(list, i, keep)[k]]
            0 <= k < sieved(list, i, keep).len() ==> {
                &&& sieved(list, i, keep)[k] < n
                &&& first(sieved(list, i, keep)[k] as int)
                &&& keep(sieved(list, i, keep)[k] as int)
                &&& i < list.len() ==> sieved(list, i, keep)[k] < list[i]
            },
        forall|k: int, m: int|
            0 <= k < m < sieved(list, i, keep).len() ==> #[trigger] sieved(list, i, keep)[k]
                < #[trigger] sieved(list, i, keep)[m],
        forall|k: int|
            0 <= k < i && keep(#[trigger] list[k] as int) ==> sieved(list, i, keep).contains(list[k]),
    decreases i,
{
    if i > 0 {
        lemma_sieved_entries(list, i - 1, n, first, keep);
        let rest = sieved(list, i - 1, keep);
        let now = sieved(list, i, keep);
        assert forall|k: int| 0 <= k < i && keep(#[trigger] list[k] as int) implies now.contains(list[k]) by {
            if k < i - 1 {
                assert(rest.contains(list[k]));
                let m = choose|m: int| 0 <= m < rest.len() && rest[m] == list[k];
                assert(now[m] == list[k]);
            } else {
                assert(now[rest.len() as int] == list[k]);
            }
        }
        assert forall|k: int| 0 <= k < now.len() && i < list.len() implies (#[trigger] now[k]) < list[i] by {
            assert(list[i - 1] < list[i]);
            if k < rest.len() {
                assert(now[k] == rest[k]);
            }
        }
    }
}

/// Sieving an ascending list gives the ascending list of what passes both
/// properties.
pub proof fn lemma_sieved(list: Seq<usize>, n: nat, first: spec_fn(int) -> bool, keep: spec_fn(int) -> bool)
    requires
        lists_ascending(list, n as int, first),
        n <= usize::MAX,
    ensures
        sieved(list, list.len() as int, keep) == select_below(n, |x: int| first(x) && keep(x)),
{
    let both = |x: int| first(x) && keep(x);
    let out = sieved(list, list.len() as int, keep);
    lemma_sieved_entries(list, list.len() as int, n as int, first, keep);
    assert forall|x: int| 0 <= x < n && #[trigger] both(x) implies out.contains(x as usize) by {
        assert(first(x));
        assert(list.contains(x as usize));
        let k = choose|k: int| 0 <= k < list.len() && list[k] == x as usize;
        assert(keep(list[k] as int));
    }
    assert forall|k: int| 0 <= k < out.len() implies (#[trigger] out[k]) < n && both(out[k] as int) by {
    }
    lemma_ascending_unique(out, n, both);
}

} // verus!
