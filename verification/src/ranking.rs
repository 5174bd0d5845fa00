//! Ranking of records by a byte count: a descending sort followed by truncation.
use vstd::multiset::Multiset;
use vstd::prelude::*;

verus! {

broadcast use vstd::seq_lib::group_to_multiset_ensures;

/// Records that are ranked by a byte count.
pub trait Ranked: Sized {
    /// The byte count by which the record is ranked.
    spec fn rank(&self) -> u64;

    /// Computes [`Ranked::rank`].
    fn rank_exec(&self) -> (res: u64)
        ensures
            res == self.rank(),
    ;
}

/// Every record ranks at least as high as every record after it.
pub open spec fn sorted_desc<T: Ranked>(s: Seq<T>) -> bool {
    forall|i: int, j: int| 0 <= i < j < s.len() ==> (#[trigger] s[i]).rank() >= (#[trigger] s[j]).rank()
}

/// The number of records kept from `len` records when at most `n` are asked for.
pub open spec fn kept_len(len: int, n: int) -> int {
    if n < len {
        n
    } else {
        len
    }
}

/// `res` is the first `n` records of some ordering of `all` by descending rank:
/// `p` holds the same records as `all` (with multiplicity), is sorted, and `res` is its prefix.
pub open spec fn ranked_prefix_by<T: Ranked>(all: Seq<T>, p: Seq<T>, res: Seq<T>, n: int) -> bool {
    &&& p.to_multiset() == all.to_multiset()
    &&& sorted_desc(p)
    &&& res == p.subrange(0, kept_len(p.len() as int, n))
}

/// `res` is the top `n` of `all` by descending rank (ties in any order).
pub open spec fn ranked_prefix<T: Ranked>(all: Seq<T>, res: Seq<T>, n: int) -> bool {
    exists|p: Seq<T>| #[trigger] ranked_prefix_by(all, p, res, n)
}

/// `p` holds the records of `all` ordered by descending rank, records of equal rank in
/// their order in `all`: `idx` gives the position in `all` of each record of `p`.
pub open spec fn stable_order_by<T: Ranked>(all: Seq<T>, p: Seq<T>, idx: Seq<int>) -> bool {
    &&& idx.len() == p.len() == all.len()
    &&& forall|k: int| 0 <= k < p.len() ==> 0 <= #[trigger] idx[k] < all.len() && p[k] == all[idx[k]]
    &&& forall|k1: int, k2: int|
        0 <= k1 < k2 < p.len() ==> #[trigger] idx[k1] != #[trigger] idx[k2]
    &&& forall|k1: int, k2: int|
        0 <= k1 < k2 < p.len() ==> (#[trigger] p[k1]).rank() > (#[trigger] p[k2]).rank() || (
        p[k1].rank() == p[k2].rank() && idx[k1] < idx[k2])
}

/// `res` is the top `n` of `all` by descending rank, ties in their order in `all`.
pub open spec fn stable_ranked_prefix<T: Ranked>(all: Seq<T>, res: Seq<T>, n: int) -> bool {
    exists|p: Seq<T>, idx: Seq<int>|
        #[trigger] stable_order_by(all, p, idx) && res == p.subrange(0, kept_len(p.len() as int, n))
}

proof fn lemma_insert_multiset<T>(s: Seq<T>, pos: int, x: T)
    requires
        0 <= pos <= s.len(),
    ensures
        s.insert(pos, x).to_multiset() == s.to_multiset().insert(x),
{
    let t = s.insert(pos, x);
    assert(t.remove(pos) =~= s);
    assert(t[pos] == x);
    assert(t.contains(x));
    assert(t.to_multiset().remove(x) == s.to_multiset());
    assert(t.to_multiset().count(x) > 0);
    assert(t.to_multiset() =~= s.to_multiset().insert(x));
}

/// Sorts by descending rank (stable) and keeps the first `n` records.
pub fn top_n_by_bytes<T: Ranked>(v: Vec<T>, n: usize) -> (res: Vec<T>)
    ensures
        ranked_prefix(v@, res@, n as int),
        stable_ranked_prefix(v@, res@, n as int),
{
    let ghost orig = v@;
    let mut input = v;
    let mut out: Vec<T> = Vec::new();
    let ghost mut idx: Seq<int> = Seq::empty();
    while input.len() > 0
        invariant
            out@.to_multiset().add(input@.to_multiset()) == orig.to_multiset(),
            sorted_desc(out@),
            input@ == orig.subrange(0, input@.len() as int),
            idx.len() == out@.len() == orig.len() - input@.len(),
            forall|k: int|
                0 <= k < out@.len() ==> input@.len() <= #[trigger] idx[k] < orig.len() && out@[k]
                    == orig[idx[k]],
            forall|k1: int, k2: int|
                0 <= k1 < k2 < out@.len() ==> #[trigger] idx[k1] != #[trigger] idx[k2],
            forall|k1: int, k2: int|
                0 <= k1 < k2 < out@.len() ==> (#[trigger] out@[k1]).rank() > (
                #[trigger] out@[k2]).rank() || (out@[k1].rank() == out@[k2].rank() && idx[k1]
                < idx[k2]),
        decreases input@.len(),
    {
        let ghost before_in = input@;
        let ghost before_out = out@;
        let ghost before_idx = idx;
        let x = input.pop().unwrap();
        proof {
            assert(before_in =~= input@.push(x));
            assert(input@ =~= orig.subrange(0, input@.len() as int));
            assert(x == orig[input@.len() as int]);
        }
        let r = x.rank_exec();
        let mut pos: usize = 0;
        while pos < out.len() && out[pos].rank_exec() > r
            invariant
                pos <= out@.len(),
                out@ == before_out,
                forall|j: int| 0 <= j < pos ==> (#[trigger] out@[j]).rank() > r,
            decreases out@.len() - pos,
        {
            pos = pos + 1;
        }
        proof {
            lemma_insert_multiset(before_out, pos as int, x);
        }
        out.insert(pos, x);
        proof {
            let m = input@.len() as int;
            idx = before_idx.insert(pos as int, m);
            let o = out@;
            assert forall|k: int| 0 <= k < o.len() implies m <= #[trigger] idx[k] < orig.len()
                && o[k] == orig[idx[k]] by {
                if k < pos {
                    assert(idx[k] == before_idx[k]);
                } else if k > pos {
                    assert(idx[k] == before_idx[k - 1]);
                }
            }
            assert forall|k1: int, k2: int| 0 <= k1 < k2 < o.len() implies #[trigger] idx[k1]
                != #[trigger] idx[k2] by {
                if k1 != pos && k2 != pos {
                    let a1 = if k1 < pos { k1 } else { k1 - 1 };
                    let a2 = if k2 < pos { k2 } else { k2 - 1 };
                    assert(idx[k1] == before_idx[a1]);
                    assert(idx[k2] == before_idx[a2]);
                } else if k1 == pos {
                    assert(idx[k2] == before_idx[k2 - 1]);
                } else {
                    assert(idx[k1] == before_idx[k1]);
                }
            }
            assert forall|k1: int, k2: int| 0 <= k1 < k2 < o.len() implies (#[trigger] o[k1]).rank()
                > (#[trigger] o[k2]).rank() || (o[k1].rank() == o[k2].rank() && idx[k1] < idx[k2]) by {
                if k2 < pos {
                    assert(o[k1] == before_out[k1] && idx[k1] == before_idx[k1]);
                    assert(o[k2] == before_out[k2] && idx[k2] == before_idx[k2]);
                } else if k2 == pos {
                    assert(o[k1] == before_out[k1]);
                } else if k1 < pos {
                    assert(o[k1] == before_out[k1]);
                    assert(o[k2] == before_out[k2 - 1]);
                    assert(before_out[k1].rank() > r);
                    if pos < before_out.len() {
                        assert(before_out[pos as int].rank() <= r);
                    }
                } else if k1 == pos {
                    assert(o[k2] == before_out[k2 - 1]);
                    assert(idx[k2] == before_idx[k2 - 1]);
                    assert(before_out[pos as int].rank() <= r);
                    if pos < before_out.len() {
                        assert(sorted_desc(before_out));
                    }
                } else {
                    assert(o[k1] == before_out[k1 - 1] && idx[k1] == before_idx[k1 - 1]);
                    assert(o[k2] == before_out[k2 - 1] && idx[k2] == before_idx[k2 - 1]);
                }
            }
            assert(o == before_out.insert(pos as int, x));
            assert forall|i: int, j: int| 0 <= i < j < o.len() implies (#[trigger] o[i]).rank()
                >= (#[trigger] o[j]).rank() by {
                if j < pos {
                    assert(o[i] == before_out[i]);
                    assert(o[j] == before_out[j]);
                } else if j == pos {
                    assert(o[i] == before_out[i]);
                } else if i < pos {
                    assert(o[i] == before_out[i]);
                    assert(o[j] == before_out[j - 1]);
                    assert(before_out[i].rank() > r);
                    if pos < before_out.len() {
                        assert(before_out[pos as int].rank() <= r);
                    }
                } else if i == pos {
                    assert(o[j] == before_out[j - 1]);
                    assert(before_out[pos as int].rank() <= r);
                } else {
                    assert(o[i] == before_out[i - 1]);
                    assert(o[j] == before_out[j - 1]);
                }
            }
            assert(out@.to_multiset().add(input@.to_multiset()) =~= orig.to_multiset());
        }
    }
    proof {
        assert(input@.to_multiset() =~= Multiset::empty());
        assert(out@.to_multiset() =~= orig.to_multiset());
    }
    let ghost sorted = out@;
    out.truncate(n);
    proof {
        if n as int >= sorted.len() {
            assert(sorted.subrange(0, sorted.len() as int) =~= sorted);
        }
        assert(out@ == sorted.subrange(0, kept_len(sorted.len() as int, n as int)));
    }
    assert(ranked_prefix_by(orig, sorted, out@, n as int));
    assert(stable_order_by(orig, sorted, idx));
    out
}

/// The top `n` come in descending rank, and every record left out ranks no higher than
/// each kept one.
pub proof fn lemma_ranked_prefix_order<T: Ranked>(all: Seq<T>, res: Seq<T>, n: int)
    requires
        0 <= n,
        ranked_prefix(all, res, n),
    ensures
        sorted_desc(res),
        res.len() == kept_len(all.len() as int, n),
        forall|k: int, i: int|
            0 <= k < all.len() && !res.contains(#[trigger] all[k]) && 0 <= i < res.len()
                ==> (#[trigger] res[i]).rank() >= all[k].rank(),
{
    let p = choose|p: Seq<T>| #[trigger] ranked_prefix_by(all, p, res, n);
    assert(p.len() == all.len()) by {
        assert(p.to_multiset().len() == all.to_multiset().len());
    }
    let m = kept_len(p.len() as int, n);
    assert(res =~= p.subrange(0, m));
    assert forall|k: int, i: int|
        0 <= k < all.len() && !res.contains(#[trigger] all[k]) && 0 <= i < res.len()
            implies (#[trigger] res[i]).rank() >= all[k].rank() by {
        assert(all.contains(all[k]));
        assert(all.to_multiset().count(all[k]) > 0);
        assert(p.contains(all[k]));
        let mm = choose|mm: int| 0 <= mm < p.len() && p[mm] == all[k];
        if mm < m {
            assert(res[mm] == p[mm]);
            assert(res.contains(all[k]));
        } else {
            assert(res[i] == p[i]);
        }
    }
    assert forall|i: int, j: int| 0 <= i < j < res.len() implies (#[trigger] res[i]).rank()
        >= (#[trigger] res[j]).rank() by {
        assert(res[i] == p[i] && res[j] == p[j]);
    }
}

} // verus!
