//! Deterministic orderings of position ids: every ranking in the planners sorts ids by a
//! two-part key and breaks ties by the lower id, so the order is a pure function of the keys.

use vstd::prelude::*;

verus! {

/// `a` ranks strictly before `b` under `keys`: smaller key (lexicographic), then lower id.
pub open spec fn key_before(keys: Seq<(u64, u64)>, a: int, b: int) -> bool {
    ||| keys[a].0 < keys[b].0
    ||| (keys[a].0 == keys[b].0 && keys[a].1 < keys[b].1)
    ||| (keys[a].0 == keys[b].0 && keys[a].1 == keys[b].1 && a < b)
}

/// `s` ranks after `prev` (everything ranks after `None`).
pub open spec fn after(keys: Seq<(u64, u64)>, prev: Option<usize>, s: int) -> bool {
    match prev {
        None => true,
        Some(p) => key_before(keys, p as int, s),
    }
}

/// `m` is the first selected id ranking after `prev`.
pub open spec fn is_next(elig: Seq<bool>, keys: Seq<(u64, u64)>, prev: Option<usize>, m: int) -> bool {
    &&& elig.len() <= usize::MAX
    &&& 0 <= m < elig.len()
    &&& elig[m]
    &&& after(keys, prev, m)
    &&& forall|j: int|
        0 <= j < elig.len() && #[trigger] elig[j] && after(keys, prev, j) ==> (j == m
            || key_before(keys, m, j))
}

/// The first selected id ranking after `prev`, if any.
pub open spec fn next_id(elig: Seq<bool>, keys: Seq<(u64, u64)>, prev: Option<usize>) -> Option<usize> {
    if exists|m: int| is_next(elig, keys, prev, m) {
        Some((choose|m: int| is_next(elig, keys, prev, m)) as usize)
    } else {
        None
    }
}

/// The first selected id (the minimum under `keys`), if any.
pub open spec fn first_id(elig: Seq<bool>, keys: Seq<(u64, u64)>) -> Option<usize> {
    next_id(elig, keys, None)
}

/// Number of selected ids below `k` ranking after `prev`.
pub open spec fn count_after(elig: Seq<bool>, keys: Seq<(u64, u64)>, prev: Option<usize>, k: int) -> nat
    decreases k,
{
    if k <= 0 {
        0
    } else {
        count_after(elig, keys, prev, k - 1) + (if elig[k - 1] && after(keys, prev, k - 1) {
            1nat
        } else {
            0nat
        })
    }
}

/// The selected ids ranking after `prev`, in rank order.
pub open spec fn sorted_from(elig: Seq<bool>, keys: Seq<(u64, u64)>, prev: Option<usize>) -> Seq<usize>
    decreases count_after(elig, keys, prev, elig.len() as int),
    via sorted_from_decreases
{
    match next_id(elig, keys, prev) {
        None => Seq::empty(),
        Some(m) => seq![m] + sorted_from(elig, keys, Some(m)),
    }
}

/// The selected ids in rank order.
pub open spec fn sorted_ids(elig: Seq<bool>, keys: Seq<(u64, u64)>) -> Seq<usize> {
    sorted_from(elig, keys, None)
}

/// Ranking is transitive.
pub proof fn lemma_key_before_trans(keys: Seq<(u64, u64)>, a: int, b: int, c: int)
    requires
        key_before(keys, a, b),
        key_before(keys, b, c),
    ensures
        key_before(keys, a, c),
{
}

/// The next id is unique.
pub proof fn lemma_next_unique(elig: Seq<bool>, keys: Seq<(u64, u64)>, prev: Option<usize>, a: int, b: int)
    requires
        is_next(elig, keys, prev, a),
        is_next(elig, keys, prev, b),
    ensures
        a == b,
{
    assert(elig[a]);
    assert(elig[b]);
}

/// A witnessed next id is the one `next_id` names.
pub proof fn lemma_next_is(elig: Seq<bool>, keys: Seq<(u64, u64)>, prev: Option<usize>, m: int)
    requires
        is_next(elig, keys, prev, m),
    ensures
        next_id(elig, keys, prev) == Some(m as usize),
{
    let c = choose|c: int| is_next(elig, keys, prev, c);
    lemma_next_unique(elig, keys, prev, c, m);
}

/// `next_id` names a next id when it names one.
pub proof fn lemma_next_id_some(elig: Seq<bool>, keys: Seq<(u64, u64)>, prev: Option<usize>)
    requires
        next_id(elig, keys, prev) is Some,
    ensures
        is_next(elig, keys, prev, next_id(elig, keys, prev)->0 as int),
{
    let c = choose|c: int| is_next(elig, keys, prev, c);
    assert(is_next(elig, keys, prev, c));
    assert(0 <= c < elig.len());
}

/// Moving past the next id drops exactly that id from the ids ranking after the cursor.
proof fn lemma_count_after_step(elig: Seq<bool>, keys: Seq<(u64, u64)>, prev: Option<usize>, m: int, k: int)
    requires
        is_next(elig, keys, prev, m),
        0 <= k <= elig.len(),
    ensures
        count_after(elig, keys, Some(m as usize), k) + (if m < k {
            1nat
        } else {
            0nat
        }) == count_after(elig, keys, prev, k),
    decreases k,
{
    if k > 0 {
        lemma_count_after_step(elig, keys, prev, m, k - 1);
        let j = k - 1;
        if elig[j] && after(keys, Some(m as usize), j) {
            match prev {
                None => {},
                Some(p) => {
                    lemma_key_before_trans(keys, p as int, m, j);
                },
            }
        }
        if elig[j] && after(keys, prev, j) && j != m {
            assert(key_before(keys, m, j));
        }
    }
}

#[via_fn]
proof fn sorted_from_decreases(elig: Seq<bool>, keys: Seq<(u64, u64)>, prev: Option<usize>) {
    match next_id(elig, keys, prev) {
        None => {},
        Some(m) => {
            lemma_next_id_some(elig, keys, prev);
            lemma_count_after_step(elig, keys, prev, m as int, elig.len() as int);
        },
    }
}

/// Every id of the ranked selection is a selected id.
pub proof fn lemma_sorted_from_elems(elig: Seq<bool>, keys: Seq<(u64, u64)>, prev: Option<usize>)
    ensures
        forall|i: int|
            0 <= i < sorted_from(elig, keys, prev).len() ==> {
                let x = #[trigger] sorted_from(elig, keys, prev)[i];
                &&& 0 <= x < elig.len()
                &&& elig[x as int]
            },
    decreases count_after(elig, keys, prev, elig.len() as int),
{
    match next_id(elig, keys, prev) {
        None => {},
        Some(m) => {
            lemma_next_id_some(elig, keys, prev);
            lemma_count_after_step(elig, keys, prev, m as int, elig.len() as int);
            lemma_sorted_from_elems(elig, keys, Some(m));
            let rest = sorted_from(elig, keys, Some(m));
            assert(sorted_from(elig, keys, prev) == seq![m] + rest);
            assert forall|i: int| 0 <= i < sorted_from(elig, keys, prev).len() implies {
                let x = #[trigger] sorted_from(elig, keys, prev)[i];
                &&& 0 <= x < elig.len()
                &&& elig[x as int]
            } by {
                if i > 0 {
                    assert(sorted_from(elig, keys, prev)[i] == rest[i - 1]);
                }
            }
        },
    }
}

/// At most `k` ids below `k` rank after any cursor.
proof fn lemma_count_after_le(elig: Seq<bool>, keys: Seq<(u64, u64)>, prev: Option<usize>, k: int)
    requires
        0 <= k,
    ensures
        count_after(elig, keys, prev, k) <= k,
    decreases k,
{
    if k > 0 {
        lemma_count_after_le(elig, keys, prev, k - 1);
    }
}

/// The ranked selection after `prev` is no longer than the ids ranking after it.
proof fn lemma_sorted_from_len(elig: Seq<bool>, keys: Seq<(u64, u64)>, prev: Option<usize>)
    ensures
        sorted_from(elig, keys, prev).len() <= count_after(elig, keys, prev, elig.len() as int),
    decreases count_after(elig, keys, prev, elig.len() as int),
{
    match next_id(elig, keys, prev) {
        None => {},
        Some(m) => {
            lemma_next_id_some(elig, keys, prev);
            lemma_count_after_step(elig, keys, prev, m as int, elig.len() as int);
            lemma_sorted_from_len(elig, keys, Some(m));
        },
    }
}

/// The ranked selection has at most one id per position.
pub proof fn lemma_sorted_ids_len(elig: Seq<bool>, keys: Seq<(u64, u64)>)
    ensures
        sorted_ids(elig, keys).len() <= elig.len(),
{
    lemma_sorted_from_len(elig, keys, None);
    lemma_count_after_le(elig, keys, None, elig.len() as int);
}

/// Every id of the ranked selection is a selected id.
pub proof fn lemma_sorted_ids_elems(elig: Seq<bool>, keys: Seq<(u64, u64)>)
    ensures
        forall|i: int|
            0 <= i < sorted_ids(elig, keys).len() ==> {
                let x = #[trigger] sorted_ids(elig, keys)[i];
                &&& 0 <= x < elig.len()
                &&& elig[x as int]
            },
{
    lemma_sorted_from_elems(elig, keys, None);
}

/// The ranked selection starts with the first selected id.
pub proof fn lemma_sorted_ids_first(elig: Seq<bool>, keys: Seq<(u64, u64)>)
    ensures
        sorted_ids(elig, keys).len() > 0 <==> first_id(elig, keys) is Some,
        sorted_ids(elig, keys).len() > 0 ==> sorted_ids(elig, keys)[0] == first_id(elig, keys)->0,
{
    match next_id(elig, keys, None) {
        None => {},
        Some(m) => {
            assert(sorted_ids(elig, keys) == seq![m] + sorted_from(elig, keys, Some(m)));
        },
    }
}

/// `m` ranks first among the selected ids below `k` that rank after `prev`.
pub open spec fn least_below(elig: Seq<bool>, keys: Seq<(u64, u64)>, prev: Option<usize>, k: int, m: int) -> bool {
    &&& 0 <= m < k
    &&& elig[m]
    &&& after(keys, prev, m)
    &&& forall|j: int|
        0 <= j < k && #[trigger] elig[j] && after(keys, prev, j) ==> (j == m || key_before(keys, m, j))
}

/// Among finitely many selected ids ranking after `prev`, one ranks first.
proof fn lemma_least_below_exists(elig: Seq<bool>, keys: Seq<(u64, u64)>, prev: Option<usize>, k: int, j: int)
    requires
        0 <= j < k,
        elig[j],
        after(keys, prev, j),
    ensures
        exists|m: int| least_below(elig, keys, prev, k, m),
    decreases k,
{
    let i = k - 1;
    if j == i {
        if exists|j2: int| 0 <= j2 < i && elig[j2] && after(keys, prev, j2) {
            let j2 = choose|j2: int| 0 <= j2 < i && elig[j2] && after(keys, prev, j2);
            lemma_least_below_exists(elig, keys, prev, i, j2);
            let m = choose|m: int| least_below(elig, keys, prev, i, m);
            if key_before(keys, m, i) {
                assert(least_below(elig, keys, prev, k, m));
            } else {
                assert forall|x: int| 0 <= x < k && #[trigger] elig[x] && after(keys, prev, x) implies (x == i
                    || key_before(keys, i, x)) by {
                    if x != i && x != m {
                        lemma_key_before_trans(keys, i, m, x);
                    }
                }
                assert(least_below(elig, keys, prev, k, i));
            }
        } else {
            assert(least_below(elig, keys, prev, k, i));
        }
    } else {
        lemma_least_below_exists(elig, keys, prev, i, j);
        let m = choose|m: int| least_below(elig, keys, prev, i, m);
        if elig[i] && after(keys, prev, i) && !key_before(keys, m, i) {
            assert forall|x: int| 0 <= x < k && #[trigger] elig[x] && after(keys, prev, x) implies (x == i
                || key_before(keys, i, x)) by {
                if x != i && x != m {
                    lemma_key_before_trans(keys, i, m, x);
                }
            }
            assert(least_below(elig, keys, prev, k, i));
        } else {
            assert(least_below(elig, keys, prev, k, m));
        }
    }
}

/// A selected id ranking after `prev` leaves a next id to name.
pub proof fn lemma_next_id_exists(elig: Seq<bool>, keys: Seq<(u64, u64)>, prev: Option<usize>, j: int)
    requires
        elig.len() <= usize::MAX,
        0 <= j < elig.len(),
        elig[j],
        after(keys, prev, j),
    ensures
        next_id(elig, keys, prev) is Some,
{
    lemma_least_below_exists(elig, keys, prev, elig.len() as int, j);
    let m = choose|m: int| least_below(elig, keys, prev, elig.len() as int, m);
    assert(is_next(elig, keys, prev, m));
    lemma_next_is(elig, keys, prev, m);
}

/// Every selected id ranking after `prev` occurs in the ranked selection after `prev`.
pub proof fn lemma_sorted_from_complete(elig: Seq<bool>, keys: Seq<(u64, u64)>, prev: Option<usize>, j: int)
    requires
        elig.len() <= usize::MAX,
        0 <= j < elig.len(),
        elig[j],
        after(keys, prev, j),
    ensures
        sorted_from(elig, keys, prev).contains(j as usize),
    decreases count_after(elig, keys, prev, elig.len() as int),
{
    lemma_next_id_exists(elig, keys, prev, j);
    let m = next_id(elig, keys, prev)->0;
    lemma_next_id_some(elig, keys, prev);
    let rest = sorted_from(elig, keys, Some(m));
    assert(sorted_from(elig, keys, prev) == seq![m] + rest);
    if j == m {
        assert(sorted_from(elig, keys, prev)[0] == m);
    } else {
        assert(key_before(keys, m as int, j));
        lemma_count_after_step(elig, keys, prev, m as int, elig.len() as int);
        lemma_sorted_from_complete(elig, keys, Some(m), j);
        let i = choose|i: int| 0 <= i < rest.len() && rest[i] == j as usize;
        assert(sorted_from(elig, keys, prev)[i + 1] == j as usize);
    }
}

/// Every selected id occurs in the ranked selection.
pub proof fn lemma_sorted_ids_complete(elig: Seq<bool>, keys: Seq<(u64, u64)>, j: int)
    requires
        elig.len() <= usize::MAX,
        0 <= j < elig.len(),
        elig[j],
    ensures
        sorted_ids(elig, keys).contains(j as usize),
{
    lemma_sorted_from_complete(elig, keys, None, j);
}

/// The ranked selection after `prev` ranks after `prev` and strictly ascends.
pub proof fn lemma_sorted_from_ascends(elig: Seq<bool>, keys: Seq<(u64, u64)>, prev: Option<usize>)
    ensures
        forall|i: int|
            0 <= i < sorted_from(elig, keys, prev).len() ==> after(keys, prev, #[trigger] sorted_from(elig, keys, prev)[i] as int),
        forall|i: int, j: int|
            0 <= i < j < sorted_from(elig, keys, prev).len() ==> key_before(
                keys,
                #[trigger] sorted_from(elig, keys, prev)[i] as int,
                #[trigger] sorted_from(elig, keys, prev)[j] as int,
            ),
    decreases count_after(elig, keys, prev, elig.len() as int),
{
    match next_id(elig, keys, prev) {
        None => {},
        Some(m) => {
            lemma_next_id_some(elig, keys, prev);
            lemma_count_after_step(elig, keys, prev, m as int, elig.len() as int);
            lemma_sorted_from_ascends(elig, keys, Some(m));
            let rest = sorted_from(elig, keys, Some(m));
            let all = sorted_from(elig, keys, prev);
            assert(all == seq![m] + rest);
            assert forall|i: int| 0 <= i < all.len() implies after(keys, prev, #[trigger] all[i] as int) by {
                if i > 0 {
                    assert(all[i] == rest[i - 1]);
                    match prev {
                        None => {},
                        Some(p) => lemma_key_before_trans(keys, p as int, m as int, rest[i - 1] as int),
                    }
                }
            }
            assert forall|i: int, j: int| 0 <= i < j < all.len() implies key_before(
                keys,
                #[trigger] all[i] as int,
                #[trigger] all[j] as int,
            ) by {
                assert(all[j] == rest[j - 1]);
                if i > 0 {
                    assert(all[i] == rest[i - 1]);
                }
            }
        },
    }
}

/// The ranked selection names each id at most once.
pub proof fn lemma_sorted_ids_distinct(elig: Seq<bool>, keys: Seq<(u64, u64)>)
    ensures
        forall|i: int, j: int|
            0 <= i < j < sorted_ids(elig, keys).len() ==> #[trigger] sorted_ids(elig, keys)[i] != #[trigger] sorted_ids(
                elig,
                keys,
            )[j],
{
    lemma_sorted_from_ascends(elig, keys, None);
}

/// The first selected id ranking after `prev` (see [`next_id`]).
pub fn next_id_exec(elig: &Vec<bool>, keys: &Vec<(u64, u64)>, prev: Option<usize>) -> (r: Option<usize>)
    requires
        keys@.len() == elig@.len(),
        prev matches Some(p) ==> p < elig@.len(),
    ensures
        r == next_id(elig@, keys@, prev),
        r matches Some(m) ==> is_next(elig@, keys@, prev, m as int),
{
    let n = elig.len();
    let mut best: Option<usize> = None;
    let mut j: usize = 0;
    while j < n
        invariant
            n == elig@.len(),
            keys@.len() == n,
            prev matches Some(p) ==> p < n,
            0 <= j <= n,
            best matches Some(m) ==> {
                &&& 0 <= m < j
                &&& elig@[m as int]
                &&& after(keys@, prev, m as int)
                &&& forall|i: int|
                    0 <= i < j && #[trigger] elig@[i] && after(keys@, prev, i) ==> (i == m
                        || key_before(keys@, m as int, i))
            },
            best is None ==> forall|i: int| 0 <= i < j ==> !(#[trigger] elig@[i] && after(keys@, prev, i)),
        decreases n - j,
    {
        if elig[j] {
            let is_after = match prev {
                None => true,
                Some(p) => {
                    let kp = keys[p];
                    let kj = keys[j];
                    kp.0 < kj.0 || (kp.0 == kj.0 && kp.1 < kj.1) || (kp.0 == kj.0 && kp.1 == kj.1
                        && p < j)
                },
            };
            if is_after {
                match best {
                    None => {
                        best = Some(j);
                    },
                    Some(m) => {
                        let km = keys[m];
                        let kj = keys[j];
                        let j_first = kj.0 < km.0 || (kj.0 == km.0 && kj.1 < km.1);
                        if j_first {
                            proof {
                                assert forall|i: int|
                                    0 <= i < j + 1 && #[trigger] elig@[i] && after(keys@, prev, i)
                                        implies (i == j || key_before(keys@, j as int, i)) by {
                                    if i != j && i != m {
                                        lemma_key_before_trans(keys@, j as int, m as int, i);
                                    }
                                }
                            }
                            best = Some(j);
                        }
                    },
                }
            }
        }
        j = j + 1;
    }
    match best {
        Some(m) => {
            proof {
                lemma_next_is(elig@, keys@, prev, m as int);
            }
            Some(m)
        },
        None => {
            assert(!exists|m: int| is_next(elig@, keys@, prev, m));
            None
        },
    }
}

/// The selected ids in rank order (see [`sorted_ids`]).
pub fn sort_ids(elig: &Vec<bool>, keys: &Vec<(u64, u64)>) -> (r: Vec<usize>)
    requires
        keys@.len() == elig@.len(),
    ensures
        r@ == sorted_ids(elig@, keys@),
{
    let mut out: Vec<usize> = Vec::new();
    let mut prev: Option<usize> = None;
    loop
        invariant
            keys@.len() == elig@.len(),
            prev matches Some(p) ==> p < elig@.len(),
            out@ + sorted_from(elig@, keys@, prev) == sorted_ids(elig@, keys@),
        decreases count_after(elig@, keys@, prev, elig@.len() as int),
    {
        let nx = next_id_exec(elig, keys, prev);
        match nx {
            None => {
                proof {
                    assert(sorted_from(elig@, keys@, prev) =~= Seq::<usize>::empty());
                    assert(out@ + Seq::<usize>::empty() =~= out@);
                }
                return out;
            },
            Some(m) => {
                proof {
                    lemma_count_after_step(elig@, keys@, prev, m as int, elig@.len() as int);
                    assert(sorted_from(elig@, keys@, prev) == seq![m] + sorted_from(
                        elig@,
                        keys@,
                        Some(m),
                    ));
                    assert(out@.push(m) + sorted_from(elig@, keys@, Some(m)) =~= out@ + (seq![m]
                        + sorted_from(elig@, keys@, Some(m))));
                }
                out.push(m);
                prev = Some(m);
            },
        }
    }
}

} // verus!
