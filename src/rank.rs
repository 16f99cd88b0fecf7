//! Ranking of documents for a query: passage similarities are pooled by
//! document, keeping each document's best passage, and documents are ordered
//! by that best similarity.
use vstd::prelude::*;
use itertools::Itertools;
use crate::index::{DocumentIndex, IndexError};

verus! {

broadcast use vstd::seq_lib::group_to_multiset_ensures;

/// A key that orders half-precision bit patterns as their numbers are
/// ordered: negative numbers below positive ones, larger magnitudes further
/// from zero (the IEEE 754 total order).
pub open spec fn similarity_key(bits: u16) -> u16 {
    if bits & 0x8000u16 != 0 {
        !bits
    } else {
        bits | 0x8000u16
    }
}

/// The ordering key of the half-precision number with bit pattern `bits`.
pub fn similarity_order(bits: u16) -> (r: u16)
    ensures
        r == similarity_key(bits),
{
    if bits & 0x8000u16 != 0 {
        !bits
    } else {
        bits | 0x8000u16
    }
}

/// Document `a` ranks no lower than document `b`: some passage of `a` is at
/// least as similar as every passage of `b`.
pub open spec fn ranks_above(sims: Seq<u16>, owners: Seq<i64>, a: i64, b: i64) -> bool {
    exists|x: int|
        #![trigger owners[x]]
        0 <= x < owners.len() && owners[x] == a && forall|y: int|
            0 <= y < owners.len() && owners[y] == b ==> similarity_key(sims[y])
                <= similarity_key(#[trigger] sims[x])
}

/// `r` lists each document that owns a passage exactly once, from the most
/// to the least similar by each document's best passage.
pub open spec fn is_ranking(sims: Seq<u16>, owners: Seq<i64>, r: Seq<i64>) -> bool {
    &&& forall|i: int, j: int| 0 <= i < j < r.len() ==> r[i] != r[j]
    &&& forall|d: i64| r.contains(d) <==> owners.contains(d)
    &&& forall|i: int, j: int|
        0 <= i < j < r.len() ==> ranks_above(sims, owners, #[trigger] r[i], #[trigger] r[j])
}

/// Relies on itertools' `Itertools::sorted_by_key`, which sorts the items
/// with `slice::sort_by_key`: the same items, in ascending order of the key.
#[verifier::external_body]
fn sorted_by_score(pairs: Vec<(u16, usize)>) -> (r: Vec<(u16, usize)>)
    ensures
        r@.to_multiset() == pairs@.to_multiset(),
        forall|i: int, j: int| 0 <= i < j < r@.len() ==> r@[i].0 <= r@[j].0,
{
    pairs.into_iter().sorted_by_key(|p| p.0).collect()
}

/// Some entry of `sorted` carries the row index `x`.
spec fn placed(sorted: Seq<(u16, usize)>, x: int) -> bool {
    exists|p: int| 0 <= p < sorted.len() && (#[trigger] sorted[p]).1 == x as usize
}

fn holds(v: &Vec<i64>, x: i64) -> (r: bool)
    ensures
        r == v@.contains(x),
{
    let mut i: usize = 0;
    while i < v.len()
        invariant
            i <= v@.len(),
            forall|j: int| 0 <= j < i ==> v@[j] != x,
        decreases v@.len() - i,
    {
        if v[i] == x {
            return true;
        }
        i += 1;
    }
    false
}

/// Ranks the documents that own passages: `similarities[i]` is the bit
/// pattern of the half-precision similarity of passage `i`, which `owners[i]`
/// owns. Each document appears once, ordered by its best passage; documents
/// whose best passages are equally similar come in either order.
pub fn rank_documents(similarities: &Vec<u16>, owners: &Vec<i64>) -> (r: Vec<i64>)
    requires
        similarities@.len() == owners@.len(),
    ensures
        is_ranking(similarities@, owners@, r@),
{
    let n = similarities.len();
    let ghost sims = similarities@;
    let ghost own = owners@;
    let mut pairs: Vec<(u16, usize)> = Vec::new();
    let mut i: usize = 0;
    while i < n
        invariant
            i <= n,
            n == sims.len(),
            sims == similarities@,
            pairs@.len() == i,
            forall|k: int| 0 <= k < i ==> #[trigger] pairs@[k] == (similarity_key(sims[k]), k as usize),
        decreases n - i,
    {
        pairs.push((similarity_order(similarities[i]), i));
        i += 1;
    }
    let ghost ps = pairs@;
    let sorted = sorted_by_score(pairs);
    let ghost ss = sorted@;
    let m = sorted.len();
    proof {
        assert(ss.len() == ss.to_multiset().len());
        assert(ps.len() == ps.to_multiset().len());
        assert forall|p: int| 0 <= p < m implies (#[trigger] ss[p]).1 < n && ss[p].0 == similarity_key(
            sims[ss[p].1 as int],
        ) by {
            assert(ss.contains(ss[p]));
            assert(ss.to_multiset().count(ss[p]) > 0);
            assert(ps.contains(ss[p]));
            let k = choose|k: int| 0 <= k < ps.len() && ps[k] == ss[p];
            assert(ps[k] == (similarity_key(sims[k]), k as usize));
        }
        assert forall|x: int| 0 <= x < n implies #[trigger] placed(ss, x) by {
            assert(ps[x] == (similarity_key(sims[x]), x as usize));
            assert(ps.contains(ps[x]));
            assert(ps.to_multiset().count(ps[x]) > 0);
            assert(ss.contains(ps[x]));
        }
    }
    let mut r: Vec<i64> = Vec::new();
    let ghost mut first: Seq<int> = seq![];
    let mut t: usize = m;
    while t > 0
        invariant
            t <= m,
            m == ss.len(),
            ss == sorted@,
            n == own.len(),
            own == owners@,
            forall|p: int| 0 <= p < m ==> (#[trigger] ss[p]).1 < n,
            forall|x: int| 0 <= x < n ==> #[trigger] placed(ss, x),
            forall|p: int|
                0 <= p < m ==> (#[trigger] ss[p]).0 == similarity_key(sims[ss[p].1 as int]),
            forall|p: int, q: int| 0 <= p < q < m ==> ss[p].0 <= ss[q].0,
            first.len() == r@.len(),
            forall|i: int, j: int| 0 <= i < j < r@.len() ==> r@[i] != r@[j],
            forall|i: int|
                0 <= i < r@.len() ==> t <= #[trigger] first[i] < m && own[ss[first[i]].1 as int]
                    == r@[i],
            forall|i: int, j: int| 0 <= i < j < r@.len() ==> #[trigger] first[i] > #[trigger] first[j],
            forall|p: int| t <= p < m ==> r@.contains(#[trigger] own[ss[p].1 as int]),
            forall|i: int, p: int|
                0 <= i < r@.len() && t <= p < m && own[(#[trigger] ss[p]).1 as int] == r@[i] ==> p
                    <= #[trigger] first[i],
        decreases t,
    {
        t -= 1;
        let d = owners[sorted[t].1];
        let ghost r_old = r@;
        if !holds(&r, d) {
            r.push(d);
            proof {
                first = first.push(t as int);
            }
        }
        proof {
            assert(r@.contains(d)) by {
                if r@.len() > r_old.len() {
                    assert(r@[r@.len() - 1] == d);
                }
            }
            assert forall|x: i64| r_old.contains(x) implies r@.contains(x) by {
                let i = choose|i: int| 0 <= i < r_old.len() && r_old[i] == x;
                assert(r@[i] == x);
            }
            assert forall|p: int| t <= p < m implies r@.contains(#[trigger] own[ss[p].1 as int]) by {
                if p > t {
                    assert(r_old.contains(own[ss[p].1 as int]));
                }
            }
        }
    }
    proof {
        assert forall|d: i64| r@.contains(d) <==> own.contains(d) by {
            if r@.contains(d) {
                let i = choose|i: int| 0 <= i < r@.len() && r@[i] == d;
                assert(own[ss[first[i]].1 as int] == d);
            }
            if own.contains(d) {
                let x = choose|x: int| 0 <= x < own.len() && own[x] == d;
                assert(placed(ss, x));
                let p = choose|p: int| 0 <= p < m && (#[trigger] ss[p]).1 == x as usize;
                assert(r@.contains(own[ss[p].1 as int]));
            }
        }
        assert forall|i: int, j: int| 0 <= i < j < r@.len() implies ranks_above(
            sims,
            own,
            #[trigger] r@[i],
            #[trigger] r@[j],
        ) by {
            let pa = first[i];
            let xa = ss[pa].1 as int;
            assert(own[xa] == r@[i]);
            assert forall|y: int|
                0 <= y < own.len() && own[y] == r@[j] implies similarity_key(sims[y])
                <= similarity_key(#[trigger] sims[xa]) by {
                assert(placed(ss, y));
                let q = choose|q: int| 0 <= q < m && (#[trigger] ss[q]).1 == y as usize;
                assert(q <= first[j]);
                assert(first[i] > first[j]);
                assert(ss[q].0 <= ss[pa].0);
            }
        }
    }
    r
}

/// The items that were found, in order.
pub open spec fn present<T>(s: Seq<Option<T>>) -> Seq<T>
    decreases s.len(),
{
    if s.len() == 0 {
        seq![]
    } else {
        let rest = present(s.drop_first());
        match s[0] {
            Some(v) => seq![v] + rest,
            None => rest,
        }
    }
}

/// The page of `items` that skips `offset` of them and holds at most `limit`.
pub open spec fn page<T>(items: Seq<T>, offset: int, limit: int) -> Seq<T> {
    let from = if offset < items.len() {
        offset
    } else {
        items.len() as int
    };
    let to = if from + limit < items.len() {
        from + limit
    } else {
        items.len() as int
    };
    items.subrange(from, to)
}

/// Drops the entries that did not resolve, then skips `offset` of the rest
/// and keeps at most `limit`.
pub fn paginate<T>(resolved: Vec<Option<T>>, offset: usize, limit: usize) -> (r: Vec<T>)
    ensures
        r@ == page(present(resolved@), offset as int, limit as int),
{
    let ghost all = present(resolved@);
    let mut rest = resolved;
    let mut skipped: usize = 0;
    let mut r: Vec<T> = Vec::new();
    while r.len() < limit && rest.len() > 0
        invariant
            skipped <= offset,
            r@.len() <= limit,
            skipped < offset ==> r@.len() == 0,
            all == present(resolved@),
            ({
                let taken = skipped + r@.len();
                &&& taken + present(rest@).len() == all.len()
                &&& present(rest@) == all.subrange(taken as int, all.len() as int)
                &&& r@ == all.subrange(skipped as int, taken as int)
            }),
        decreases rest@.len(),
    {
        let ghost before = rest@;
        let ghost taken_old = skipped + r@.len();
        let ghost r_old = r@;
        let item = rest.remove(0);
        assert(before.drop_first() =~= rest@);
        proof {
            let tail = all.subrange(taken_old as int, all.len() as int);
            assert(present(before) == tail);
            match &item {
                Some(v) => {
                    assert(present(before) == seq![*v] + present(rest@));
                    assert(tail[0] == *v);
                    assert((seq![*v] + present(rest@)).drop_first() =~= present(rest@));
                    assert(tail.drop_first() =~= all.subrange(taken_old + 1, all.len() as int));
                },
                None => {
                    assert(present(before) == present(rest@));
                },
            }
        }
        match item {
            Some(v) => {
                if skipped < offset {
                    skipped += 1;
                } else {
                    r.push(v);
                }
            },
            None => {},
        }
        proof {
            let taken = skipped + r@.len();
            if r@.len() > r_old.len() {
                assert(r@ =~= all.subrange(skipped as int, taken as int));
            }
        }
    }
    proof {
        if rest@.len() == 0 {
            assert(present(rest@) =~= seq![]);
        }
    }
    assert(r@ =~= page(all, offset as int, limit as int));
    r
}

impl DocumentIndex {
    /// Ranks the documents of this snapshot for a query: `similarities[i]` is
    /// the bit pattern of the half-precision similarity of the query to row
    /// `i`. Fails where there is not one similarity per row.
    pub fn rank(&self, similarities: &Vec<u16>) -> (r: Result<Vec<i64>, IndexError>)
        ensures
            similarities@.len() != self@.ids.len() ==> r == Err::<Vec<i64>, IndexError>(
                IndexError::CountMismatch {
                    found: similarities@.len() as usize,
                    expected: self@.ids.len() as usize,
                },
            ),
            similarities@.len() == self@.ids.len() ==> (r matches Ok(v) && is_ranking(
                similarities@,
                self@.ids,
                v@,
            )),
    {
        let ids = self.recipe_ids();
        if similarities.len() != ids.len() {
            return Err(IndexError::CountMismatch { found: similarities.len(), expected: ids.len() });
        }
        Ok(rank_documents(similarities, ids))
    }
}

} // verus!
