use vstd::prelude::*;
use vstd::string::StrSliceExecFns;

verus! {

/// `end` is where the token list of a farm entry ends: at its first '&', or
/// at its end where it has none.
pub open spec fn is_list_end(farm: Seq<char>, end: int) -> bool {
    &&& 0 <= end <= farm.len()
    &&& forall|k: int| 0 <= k < end ==> farm[k] != '&'
    &&& end == farm.len() || farm[end] == '&'
}

/// `farm[i..j]` is one of the '|'-separated tokens before `end`.
pub open spec fn is_segment(farm: Seq<char>, end: int, i: int, j: int) -> bool {
    &&& 0 <= i <= j <= end
    &&& i == 0 || farm[i - 1] == '|'
    &&& j == end || farm[j] == '|'
    &&& forall|k: int| i <= k < j ==> farm[k] != '|'
}

/// `token` is listed in the farm entry `farm` (tokens separated by '|',
/// before the first '&').
pub open spec fn farm_lists_token(farm: Seq<char>, token: Seq<char>) -> bool {
    exists|end: int, i: int, j: int| #[trigger] is_list_end(farm, end) && #[trigger] is_segment(farm, end, i, j)
        && farm.subrange(i, j) == token
}

/// The tokens listed in the farm entry `farm_info`, in order.
pub fn extra_incentive_tokens(farm_info: &String) -> (r: Vec<String>)
    ensures
        forall|t: Seq<char>| (exists|k: int| 0 <= k < r@.len() && #[trigger] r@[k]@ == t) <==> farm_lists_token(farm_info@, t),
{
    let s = farm_info.as_str();
    let n = s.unicode_len();
    let ghost f = farm_info@;
    assert(s@ == f);
    let mut end: usize = 0;
    while end < n && s.get_char(end) != '&'
        invariant
            end <= n,
            n == f.len(),
            s@ == f,
            forall|k: int| 0 <= k < end ==> f[k] != '&',
        decreases n - end,
    {
        end = end + 1;
    }
    assert(is_list_end(f, end as int));
    let mut r: Vec<String> = Vec::new();
    let ghost mut bounds: Seq<(int, int)> = Seq::empty();
    let mut start: usize = 0;
    let mut pos: usize = 0;
    while pos < end
        invariant
            start <= pos,
            pos <= end,
            end <= n,
            n == f.len(),
            s@ == f,
            is_list_end(f, end as int),
            start == 0 || f[start - 1] == '|',
            forall|k: int| start <= k < pos ==> f[k] != '|',
            bounds.len() == r@.len(),
            forall|k: int| 0 <= k < r@.len() ==> is_segment(f, end as int, #[trigger] bounds[k].0, bounds[k].1)
                && r@[k]@ == f.subrange(bounds[k].0, bounds[k].1),
            forall|i: int, j: int| #[trigger] is_segment(f, end as int, i, j) && j < pos ==>
                exists|k: int| 0 <= k < bounds.len() && bounds[k] == (i, j),
        decreases end - pos,
    {
        if s.get_char(pos) == '|' {
            let piece = s.substring_char(start, pos).to_owned();
            let ghost before = bounds;
            r.push(piece);
            proof {
                bounds = bounds.push((start as int, pos as int));
                assert(is_segment(f, end as int, start as int, pos as int));
                assert forall|i: int, j: int| #[trigger] is_segment(f, end as int, i, j) && j < pos + 1 implies
                    exists|k: int| 0 <= k < bounds.len() && bounds[k] == (i, j) by {
                    if j < pos {
                        let k = choose|k: int| 0 <= k < before.len() && before[k] == (i, j);
                        assert(bounds[k] == before[k]);
                    } else {
                        lemma_segment_start(f, end as int, start as int, pos as int, i);
                        assert(bounds[bounds.len() - 1] == (i, j));
                    }
                }
            }
            start = pos + 1;
        } else {
            proof {
                assert forall|i: int, j: int| #[trigger] is_segment(f, end as int, i, j) && j < pos + 1 implies
                    exists|k: int| 0 <= k < bounds.len() && bounds[k] == (i, j) by {
                    assert(j != pos);
                }
            }
        }
        pos = pos + 1;
    }
    let piece = s.substring_char(start, end).to_owned();
    let ghost before = bounds;
    r.push(piece);
    proof {
        bounds = bounds.push((start as int, end as int));
        assert(is_segment(f, end as int, start as int, end as int));
        assert forall|i: int, j: int| #[trigger] is_segment(f, end as int, i, j) implies
            exists|k: int| 0 <= k < bounds.len() && bounds[k] == (i, j) by {
            if j < end {
                let k = choose|k: int| 0 <= k < before.len() && before[k] == (i, j);
                assert(bounds[k] == before[k]);
            } else {
                lemma_segment_start(f, end as int, start as int, end as int, i);
                assert(bounds[bounds.len() - 1] == (i, j));
            }
        }
        assert forall|k: int| 0 <= k < r@.len() implies is_segment(f, end as int, #[trigger] bounds[k].0, bounds[k].1)
            && r@[k]@ == f.subrange(bounds[k].0, bounds[k].1) by {
            if k < before.len() {
                assert(bounds[k] == before[k]);
            }
        }
    }
    proof {
        assert forall|t: Seq<char>| (exists|k: int| 0 <= k < r@.len() && #[trigger] r@[k]@ == t) implies farm_lists_token(f, t) by {
            let k = choose|k: int| 0 <= k < r@.len() && #[trigger] r@[k]@ == t;
            assert(is_segment(f, end as int, bounds[k].0, bounds[k].1));
            assert(is_list_end(f, end as int));
        }
        assert forall|t: Seq<char>| farm_lists_token(f, t) implies (exists|k: int| 0 <= k < r@.len() && #[trigger] r@[k]@ == t) by {
            let (e, i, j) = choose|e: int, i: int, j: int| #[trigger] is_list_end(f, e) && #[trigger] is_segment(f, e, i, j) && f.subrange(i, j) == t;
            if e < end {
                assert(f[e] == '&');
            } else if e > end {
                assert(f[end as int] == '&');
            }
            assert(e == end);
            assert(is_segment(f, end as int, i, j));
            let k = choose|k: int| 0 <= k < bounds.len() && bounds[k] == (i, j);
            assert(is_segment(f, end as int, bounds[k].0, bounds[k].1));
            assert(r@[k]@ == t);
        }
    }
    r
}

proof fn lemma_segment_start(f: Seq<char>, end: int, start: int, pos: int, i: int)
    requires
        is_segment(f, end, i, pos),
        0 <= start <= pos,
        start == 0 || f[start - 1] == '|',
        forall|k: int| start <= k < pos ==> f[k] != '|',
    ensures
        i == start,
{
    if i < start {
        assert(f[start - 1] == '|');
    } else if i > start {
        assert(f[i - 1] == '|');
    }
}

/// Whether the farm entry `farm_info` lists `token`.
pub fn farm_has_token(farm_info: &String, token: &String) -> (r: bool)
    ensures
        r == farm_lists_token(farm_info@, token@),
{
    let tokens = extra_incentive_tokens(farm_info);
    let mut k: usize = 0;
    while k < tokens.len()
        invariant
            k <= tokens@.len(),
            forall|t: Seq<char>| (exists|q: int| 0 <= q < tokens@.len() && #[trigger] tokens@[q]@ == t) <==> farm_lists_token(farm_info@, t),
            forall|q: int| 0 <= q < k ==> tokens@[q]@ != token@,
        decreases tokens@.len() - k,
    {
        if tokens[k] == *token {
            assert(tokens@[k as int]@ == token@);
            return true;
        }
        k = k + 1;
    }
    false
}

} // verus!
