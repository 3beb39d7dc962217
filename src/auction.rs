use vstd::prelude::*;
use vstd::arithmetic::div_mod::{lemma_div_is_ordered_by_denominator, lemma_basic_div, lemma_div_pos_is_pos};

verus! {

/// Portions that `votes` earn at `price`: the sum of `floor(vote / price)`.
pub open spec fn portions_at(votes: Seq<u128>, price: int) -> int
    decreases votes.len(),
{
    if votes.len() == 0 {
        0
    } else {
        portions_at(votes.drop_last(), price) + votes.last() as int / price
    }
}

/// `price` is the auction's price for `votes` and `num_portions`: the largest
/// price at which the votes earn at least `num_portions` portions, or zero
/// where no portion is asked for or no positive price earns enough.
pub open spec fn is_portion_price(votes: Seq<u128>, num_portions: int, price: int) -> bool {
    if num_portions == 0 || portions_at(votes, 1) < num_portions {
        price == 0
    } else {
        &&& price >= 1
        &&& portions_at(votes, price) >= num_portions
        &&& forall|q: int| q > price ==> #[trigger] portions_at(votes, q) < num_portions
    }
}

/// Farm `i` is ranked ahead of farm `j`: more votes, or equal votes and a
/// smaller index.
pub open spec fn ranked_before(votes: Seq<u128>, i: int, j: int) -> bool {
    votes[i] > votes[j] || (votes[i] == votes[j] && i < j)
}

/// `awards` lists, in rank order, each farm that earns a positive number of
/// portions at `price`, with that number.
pub open spec fn is_award_list(votes: Seq<u128>, price: int, awards: Seq<(usize, u128)>) -> bool {
    &&& forall|k: int| 0 <= k < awards.len() ==> {
        &&& (#[trigger] awards[k]).0 < votes.len()
        &&& awards[k].1 == votes[awards[k].0 as int] as int / price
        &&& awards[k].1 > 0
    }
    &&& forall|i: int| 0 <= i < votes.len() && votes[i] as int / price > 0 ==>
        exists|k: int| 0 <= k < awards.len() && (#[trigger] awards[k]).0 == i
    &&& forall|k: int, l: int| 0 <= k < l < awards.len() ==>
        ranked_before(votes, (#[trigger] awards[k]).0 as int, (#[trigger] awards[l]).0 as int)
}

proof fn lemma_portions_nonneg(votes: Seq<u128>, price: int)
    requires
        price >= 1,
    ensures
        portions_at(votes, price) >= 0,
    decreases votes.len(),
{
    if votes.len() > 0 {
        lemma_portions_nonneg(votes.drop_last(), price);
        lemma_div_pos_is_pos(votes.last() as int, price);
    }
}

/// A higher price never earns more portions.
pub proof fn lemma_portions_antitone(votes: Seq<u128>, p: int, q: int)
    requires
        1 <= p <= q,
    ensures
        portions_at(votes, q) <= portions_at(votes, p),
    decreases votes.len(),
{
    if votes.len() > 0 {
        lemma_portions_antitone(votes.drop_last(), p, q);
        lemma_div_is_ordered_by_denominator(votes.last() as int, p, q);
    }
}

proof fn lemma_portions_above_max(votes: Seq<u128>, q: int)
    requires
        forall|i: int| 0 <= i < votes.len() ==> votes[i] < q,
    ensures
        portions_at(votes, q) == 0,
    decreases votes.len(),
{
    if votes.len() > 0 {
        lemma_portions_above_max(votes.drop_last(), q);
        lemma_basic_div(votes.last() as int, q);
    }
}

/// Whether `votes` earn at least `num_portions` portions at `price`.
fn earns_at_least(votes: &Vec<u128>, price: u128, num_portions: u32) -> (r: bool)
    requires
        price >= 1,
    ensures
        r == (portions_at(votes@, price as int) >= num_portions),
{
    if num_portions == 0 {
        proof {
            lemma_portions_nonneg(votes@, price as int);
        }
        return true;
    }
    let mut acc: u128 = 0;
    let mut i: usize = 0;
    while i < votes.len()
        invariant
            i <= votes@.len(),
            price >= 1,
            acc == portions_at(votes@.subrange(0, i as int), price as int),
            acc < num_portions,
        decreases votes@.len() - i,
    {
        proof {
            assert(votes@.subrange(0, i as int + 1).drop_last() =~= votes@.subrange(0, i as int));
        }
        let share = votes[i] / price;
        if share >= num_portions as u128 - acc {
            proof {
                lemma_portions_prefix_le(votes@, i as int + 1, price as int);
            }
            return true;
        }
        acc = acc + share;
        i = i + 1;
    }
    proof {
        assert(votes@.subrange(0, i as int) =~= votes@);
    }
    false
}

proof fn lemma_portions_prefix_le(votes: Seq<u128>, n: int, price: int)
    requires
        0 <= n <= votes.len(),
        price >= 1,
    ensures
        portions_at(votes.subrange(0, n), price) <= portions_at(votes, price),
    decreases votes.len(),
{
    if n == votes.len() {
        assert(votes.subrange(0, n) =~= votes);
    } else {
        lemma_portions_prefix_le(votes.drop_last(), n, price);
        assert(votes.drop_last().subrange(0, n) =~= votes.subrange(0, n));
        lemma_div_pos_is_pos(votes.last() as int, price);
    }
}

/// The price of the portion auction: the largest price at which the votes
/// earn at least `num_portions` portions, found by binary search; zero where
/// no portion is asked for or even price one earns too few.
pub fn portion_price(votes: &Vec<u128>, num_portions: u32) -> (price: u128)
    ensures
        is_portion_price(votes@, num_portions as int, price as int),
{
    if num_portions == 0 || !earns_at_least(votes, 1, num_portions) {
        return 0;
    }
    let mut max_vote: u128 = 0;
    let mut i: usize = 0;
    while i < votes.len()
        invariant
            i <= votes@.len(),
            forall|j: int| 0 <= j < i ==> votes@[j] <= max_vote,
        decreases votes@.len() - i,
    {
        if votes[i] > max_vote {
            max_vote = votes[i];
        }
        i = i + 1;
    }
    proof {
        assert forall|q: int| q > max_vote implies #[trigger] portions_at(votes@, q) < num_portions by {
            lemma_portions_above_max(votes@, q);
        }
        if max_vote == 0 {
            assert(portions_at(votes@, 1) < num_portions);
        }
    }
    let mut lo: u128 = 1;
    let mut hi: u128 = max_vote;
    while lo < hi
        invariant
            1 <= lo <= hi,
            num_portions > 0,
            portions_at(votes@, lo as int) >= num_portions,
            forall|q: int| q > hi ==> #[trigger] portions_at(votes@, q) < num_portions,
        decreases hi - lo,
    {
        let mid = lo + (hi - lo + 1) / 2;
        if earns_at_least(votes, mid, num_portions) {
            lo = mid;
        } else {
            proof {
                assert forall|q: int| q > mid - 1 implies #[trigger] portions_at(votes@, q) < num_portions by {
                    lemma_portions_antitone(votes@, mid as int, q);
                }
            }
            hi = mid - 1;
        }
    }
    lo
}

/// The first `n` farms are listed as `is_award_list` asks.
pub open spec fn awards_upto(votes: Seq<u128>, price: int, awards: Seq<(usize, u128)>, n: int) -> bool {
    &&& forall|k: int| 0 <= k < awards.len() ==> {
        &&& (#[trigger] awards[k]).0 < n
        &&& awards[k].1 == votes[awards[k].0 as int] as int / price
        &&& awards[k].1 > 0
    }
    &&& forall|j: int| 0 <= j < n && votes[j] as int / price > 0 ==>
        exists|k: int| 0 <= k < awards.len() && (#[trigger] awards[k]).0 == j
    &&& forall|k: int, l: int| 0 <= k < l < awards.len() ==>
        ranked_before(votes, (#[trigger] awards[k]).0 as int, (#[trigger] awards[l]).0 as int)
}

proof fn lemma_awards_insert(votes: Seq<u128>, price: int, old_awards: Seq<(usize, u128)>, i: usize, pos: int, share: u128)
    requires
        price >= 1,
        i < votes.len(),
        share == votes[i as int] as int / price,
        share > 0,
        awards_upto(votes, price, old_awards, i as int),
        0 <= pos <= old_awards.len(),
        forall|k: int| 0 <= k < pos ==> votes[(#[trigger] old_awards[k]).0 as int] >= votes[i as int],
        pos < old_awards.len() ==> votes[old_awards[pos].0 as int] < votes[i as int],
    ensures
        awards_upto(votes, price, old_awards.insert(pos, (i, share)), i as int + 1),
{
    let v = votes[i as int];
    let awards = old_awards.insert(pos, (i, share));
    assert forall|k: int| pos <= k < old_awards.len() implies votes[(#[trigger] old_awards[k]).0 as int] < v by {
        if k > pos {
            assert(ranked_before(votes, old_awards[pos].0 as int, old_awards[k].0 as int));
        }
    }
    assert forall|k: int| 0 <= k < awards.len() implies {
        &&& (#[trigger] awards[k]).0 < i as int + 1
        &&& awards[k].1 == votes[awards[k].0 as int] as int / price
        &&& awards[k].1 > 0
    } by {
        if k < pos {
            assert(awards[k] == old_awards[k]);
        } else if k > pos {
            assert(awards[k] == old_awards[k - 1]);
        }
    }
    assert forall|j: int| 0 <= j < i as int + 1 && votes[j] as int / price > 0 implies
        exists|k: int| 0 <= k < awards.len() && (#[trigger] awards[k]).0 == j by {
        if j == i as int {
            assert(awards[pos].0 == j);
        } else {
            let k = choose|k: int| 0 <= k < old_awards.len() && (#[trigger] old_awards[k]).0 == j;
            if k < pos {
                assert(awards[k].0 == j);
            } else {
                assert(awards[k + 1].0 == j);
            }
        }
    }
    assert forall|k: int, l: int| 0 <= k < l < awards.len() implies
        ranked_before(votes, (#[trigger] awards[k]).0 as int, (#[trigger] awards[l]).0 as int) by {
        if l < pos {
            assert(awards[k] == old_awards[k] && awards[l] == old_awards[l]);
        } else if l == pos {
            assert(awards[k] == old_awards[k]);
        } else if k == pos {
            assert(awards[l] == old_awards[l - 1]);
        } else if k < pos {
            assert(awards[k] == old_awards[k] && awards[l] == old_awards[l - 1]);
        } else {
            assert(awards[k] == old_awards[k - 1] && awards[l] == old_awards[l - 1]);
        }
    }
}

/// The farms that earn portions at `price`, each with its number of
/// portions, in rank order (more votes first; equal votes by index).
pub fn award_portions(votes: &Vec<u128>, price: u128) -> (awards: Vec<(usize, u128)>)
    requires
        price >= 1,
    ensures
        is_award_list(votes@, price as int, awards@),
{
    let mut awards: Vec<(usize, u128)> = Vec::new();
    let mut i: usize = 0;
    while i < votes.len()
        invariant
            i <= votes@.len(),
            price >= 1,
            awards_upto(votes@, price as int, awards@, i as int),
        decreases votes@.len() - i,
    {
        let share = votes[i] / price;
        if share > 0 {
            let v = votes[i];
            let mut pos: usize = 0;
            while pos < awards.len() && votes[awards[pos].0] >= v
                invariant
                    pos <= awards@.len(),
                    i < votes@.len(),
                    v == votes@[i as int],
                    forall|k: int| 0 <= k < awards@.len() ==> (#[trigger] awards@[k]).0 < i,
                    forall|k: int| 0 <= k < pos ==> votes@[(#[trigger] awards@[k]).0 as int] >= v,
                decreases awards@.len() - pos,
            {
                pos = pos + 1;
            }
            proof {
                lemma_awards_insert(votes@, price as int, awards@, i, pos as int, share);
            }
            awards.insert(pos, (i, share));
        }
        i = i + 1;
    }
    awards
}

} // verus!
