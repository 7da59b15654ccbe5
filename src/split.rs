//! Enumeration of the ways a line's slack cells can be spread over the gaps
//! around and between its blocks.

use vstd::prelude::*;

verus! {

/// Sum of a sequence of block lengths.
pub open spec fn sum(s: Seq<usize>) -> int
    decreases s.len(),
{
    if s.len() == 0 {
        0
    } else {
        sum(s.drop_last()) + s.last()
    }
}

/// Fewest cells a clue occupies: its blocks plus one separator between
/// consecutive blocks.
pub open spec fn min_length(clue: Seq<usize>) -> int {
    if clue.len() == 0 {
        0
    } else {
        sum(clue) + clue.len() - 1
    }
}

/// Puts `x` in front of every sequence of `ss`.
pub open spec fn prepend(x: usize, ss: Seq<Seq<usize>>) -> Seq<Seq<usize>> {
    ss.map_values(|s: Seq<usize>| seq![x] + s)
}

/// Puts `prefix` in front of every sequence of `ss`.
pub open spec fn extend(prefix: Seq<usize>, ss: Seq<Seq<usize>>) -> Seq<Seq<usize>> {
    ss.map_values(|s: Seq<usize>| prefix + s)
}

/// Every way to write `n` as an ordered sum of `k` non-negative parts whose
/// first part is at least `lo`, in lexicographic order.
pub open spec fn compositions_from(n: usize, k: nat, lo: nat) -> Seq<Seq<usize>>
    decreases k, n + 1 - lo,
{
    if k == 0 || lo > n {
        seq![]
    } else if k == 1 {
        if lo == 0 {
            seq![seq![n]]
        } else {
            seq![]
        }
    } else {
        prepend(lo as usize, compositions_from((n - lo) as usize, (k - 1) as nat, 0))
            + compositions_from(n, k, lo + 1)
    }
}

/// Every way to write `n` as an ordered sum of `k` non-negative parts, in
/// lexicographic order.
pub open spec fn compositions(n: usize, k: nat) -> Seq<Seq<usize>> {
    compositions_from(n, k, 0)
}

/// The splits of a line of `length` cells under `clue`: the compositions of
/// its leftover cells into one bucket more than it has blocks, or none where
/// the clue does not fit.
pub open spec fn line_splits(clue: Seq<usize>, length: usize) -> Seq<Seq<usize>> {
    if min_length(clue) > length {
        seq![]
    } else {
        compositions((length - min_length(clue)) as usize, clue.len() + 1)
    }
}

/// The contents of a sequence of vectors.
pub open spec fn views(v: Seq<Vec<usize>>) -> Seq<Seq<usize>> {
    v.map_values(|x: Vec<usize>| x@)
}

/// Binomial coefficient, by Pascal's rule.
pub open spec fn binomial(n: nat, k: nat) -> nat
    decreases n,
{
    if k == 0 {
        1
    } else if n == 0 {
        0
    } else {
        binomial((n - 1) as nat, (k - 1) as nat) + binomial((n - 1) as nat, k)
    }
}

proof fn lemma_extend_add(prefix: Seq<usize>, a: Seq<Seq<usize>>, b: Seq<Seq<usize>>)
    ensures
        extend(prefix, a + b) == extend(prefix, a) + extend(prefix, b),
{
    assert(extend(prefix, a + b) =~= extend(prefix, a) + extend(prefix, b));
}

proof fn lemma_extend_prepend(prefix: Seq<usize>, x: usize, ss: Seq<Seq<usize>>)
    ensures
        extend(prefix, prepend(x, ss)) == extend(prefix.push(x), ss),
{
    assert forall|i: int| 0 <= i < ss.len() implies
        #[trigger] extend(prefix, prepend(x, ss))[i] == extend(prefix.push(x), ss)[i] by {
        assert(prefix + (seq![x] + ss[i]) =~= prefix.push(x) + ss[i]);
    }
    assert(extend(prefix, prepend(x, ss)) =~= extend(prefix.push(x), ss));
}

/// Appends to `splits`, in lexicographic order, every composition of `n` into
/// the buckets `index..buckets` of `current`, each behind the buckets that
/// `current` already holds before `index`.
pub fn split(
    n: usize,
    buckets: usize,
    index: usize,
    current: &mut Vec<usize>,
    splits: &mut Vec<Vec<usize>>,
)
    requires
        index < buckets,
        old(current)@.len() == buckets,
    ensures
        final(current)@.len() == buckets,
        final(current)@.subrange(0, index as int) == old(current)@.subrange(0, index as int),
        views(final(splits)@) == views(old(splits)@) + extend(
            old(current)@.subrange(0, index as int),
            compositions(n, (buckets - index) as nat),
        ),
    decreases buckets - index,
{
    let ghost prefix = current@.subrange(0, index as int);
    let ghost k = (buckets - index) as nat;
    if index == buckets - 1 {
        current.set(index, n);
        assert(current@.subrange(0, index as int) =~= prefix);
        assert(current@ =~= prefix + seq![n]);
        splits.push(current.clone());
        assert(compositions(n, 1) == seq![seq![n]]);
        assert(extend(prefix, seq![seq![n]]) =~= seq![prefix + seq![n]]);
        assert(views(splits@) =~= views(old(splits)@) + seq![prefix + seq![n]]);
        return;
    }
    let ghost start = views(splits@);
    let mut i: usize = 0;
    loop
        invariant
            i <= n,
            index < buckets,
            k == buckets - index,
            k >= 2,
            current@.len() == buckets,
            current@.subrange(0, index as int) == prefix,
            old(current)@.len() == buckets,
            prefix == old(current)@.subrange(0, index as int),
            start == views(old(splits)@),
            start + extend(prefix, compositions(n, k)) == views(splits@) + extend(
                prefix,
                compositions_from(n, k, i as nat),
            ),
        decreases n - i,
    {
        current.set(index, i);
        assert(current@.subrange(0, index as int) =~= prefix);
        let ghost mid = views(splits@);
        split(n - i, buckets, index + 1, current, splits);
        proof {
            let rest = compositions((n - i) as usize, (k - 1) as nat);
            assert(current@.subrange(0, index + 1) =~= prefix.push(i));
            assert(current@.subrange(0, index as int) =~= prefix);
            assert(compositions_from(n, k, i as nat) == prepend(i, rest) + compositions_from(
                n,
                k,
                (i + 1) as nat,
            ));
            lemma_extend_add(prefix, prepend(i, rest), compositions_from(n, k, (i + 1) as nat));
            lemma_extend_prepend(prefix, i, rest);
            assert(views(splits@) == mid + extend(prefix.push(i), rest));
            assert(mid + (extend(prefix.push(i), rest) + extend(
                prefix,
                compositions_from(n, k, (i + 1) as nat),
            )) =~= views(splits@) + extend(prefix, compositions_from(n, k, (i + 1) as nat)));
        }
        if i == n {
            assert(compositions_from(n, k, (i + 1) as nat) =~= seq![]);
            assert(extend(prefix, seq![]) =~= seq![]);
            assert(views(splits@) + extend(prefix, seq![]) =~= views(splits@));
            return;
        }
        i = i + 1;
    }
}

/// Every split of a line of `length` cells under `clue`, in lexicographic
/// order; none where the clue does not fit.
pub fn split_line(line: &Vec<usize>, length: usize) -> (splits: Vec<Vec<usize>>)
    requires
        line@.len() < usize::MAX,
    ensures
        views(splits@) == line_splits(line@, length),
{
    // Cells taken by the blocks and the separators between them, as long as
    // they fit in the line.
    let mut used: usize = 0;
    let mut i: usize = 0;
    while i < line.len()
        invariant
            i <= line@.len(),
            used <= length,
            used == sum(line@.subrange(0, i as int)) + (if i == 0 { 0int } else { i - 1 }),
        decreases line@.len() - i,
    {
        proof {
            assert(line@.subrange(0, i + 1).drop_last() =~= line@.subrange(0, i as int));
        }
        let sep: usize = if i == 0 { 0 } else { 1 };
        if line[i] > length - used || sep > length - used - line[i] {
            proof {
                lemma_sum_prefix_grows(line@, i + 1);
            }
            return Vec::new();
        }
        used = used + line[i] + sep;
        i = i + 1;
    }
    assert(line@.subrange(0, line@.len() as int) =~= line@);
    let buckets: usize = line.len() + 1;
    let leftover: usize = length - used;
    let mut splits: Vec<Vec<usize>> = Vec::new();
    let mut current: Vec<usize> = vec![0; buckets];
    assert(views(splits@) =~= seq![]);
    assert(current@.subrange(0, 0) =~= Seq::<usize>::empty());
    split(leftover, buckets, 0, &mut current, &mut splits);
    proof {
        let all = compositions(leftover, buckets as nat);
        assert(extend(seq![], all) =~= all) by {
            assert forall|j: int| 0 <= j < all.len() implies #[trigger] extend(seq![], all)[j]
                == all[j] by {
                assert(Seq::<usize>::empty() + all[j] =~= all[j]);
            }
        }
        assert(seq![] + all =~= all);
    }
    splits
}

/// The sum of a prefix never exceeds the sum of the whole sequence it
/// continues into.
proof fn lemma_sum_prefix_grows(s: Seq<usize>, j: int)
    requires
        0 <= j <= s.len(),
    ensures
        sum(s.subrange(0, j)) <= sum(s),
    decreases s.len() - j,
{
    if j < s.len() {
        lemma_sum_prefix_grows(s, j + 1);
        assert(s.subrange(0, j + 1).drop_last() =~= s.subrange(0, j));
    } else {
        assert(s.subrange(0, j) =~= s);
    }
}

/// Raising the least first part by one matches taking one from the total.
proof fn lemma_shift_count(n: usize, k: nat, lo: nat)
    requires
        k >= 2,
        n >= 1,
        lo <= n,
    ensures
        compositions_from(n, k, lo + 1).len() == compositions_from((n - 1) as usize, k, lo).len(),
    decreases n - lo,
{
    if lo + 1 <= n {
        lemma_shift_count(n, k, lo + 1);
        assert((n - (lo + 1)) as usize == ((n - 1) as usize - lo) as usize);
    }
}

proof fn lemma_binomial_zero(n: nat, k: nat)
    requires
        k > n,
    ensures
        binomial(n, k) == 0,
    decreases n,
{
    if n > 0 {
        lemma_binomial_zero((n - 1) as nat, (k - 1) as nat);
        lemma_binomial_zero((n - 1) as nat, k);
    }
}

proof fn lemma_binomial_edges(n: nat)
    ensures
        binomial(n, n) == 1,
    decreases n,
{
    if n > 0 {
        lemma_binomial_edges((n - 1) as nat);
        lemma_binomial_zero((n - 1) as nat, n);
    }
}

pub proof fn lemma_sum_nonneg(s: Seq<usize>)
    ensures
        sum(s) >= 0,
    decreases s.len(),
{
    if s.len() > 0 {
        lemma_sum_nonneg(s.drop_last());
    }
}

/// There are `C(n + k - 1, k - 1)` compositions of `n` into `k >= 1` parts.
proof fn lemma_compositions_count(n: usize, k: nat)
    requires
        k >= 1,
    ensures
        compositions(n, k).len() == binomial((n + k - 1) as nat, (k - 1) as nat),
    decreases n + k,
{
    if k == 1 {
    } else if n == 0 {
        lemma_compositions_count(0, (k - 1) as nat);
        lemma_binomial_edges((k - 1) as nat);
        assert(compositions_from(0, k, 1) =~= seq![]);
        assert(compositions(0, k).len() == compositions(0, (k - 1) as nat).len());
        assert(binomial((k - 2) as nat, (k - 2) as nat) == 1) by {
            lemma_binomial_edges((k - 2) as nat);
        }
    } else {
        lemma_compositions_count(n, (k - 1) as nat);
        lemma_compositions_count((n - 1) as usize, k);
        lemma_shift_count(n, k, 0);
        assert(compositions(n, k).len() == compositions(n, (k - 1) as nat).len()
            + compositions_from(n, k, 1).len());
    }
}

/// A clue of `k` blocks that fits a line of `length` cells has exactly
/// `C(leftover + k, k)` splits, where `leftover` is the line's length less
/// the blocks and the separators between them; a clue of no blocks has one.
pub proof fn lemma_split_count(clue: Seq<usize>, length: usize)
    requires
        min_length(clue) <= length,
    ensures
        line_splits(clue, length).len() == binomial(
            (length - min_length(clue) + clue.len()) as nat,
            clue.len(),
        ),
{
    lemma_sum_nonneg(clue);
    lemma_compositions_count((length - min_length(clue)) as usize, clue.len() + 1);
}

/// The sum of two sequences put together.
pub proof fn lemma_sum_add(a: Seq<usize>, b: Seq<usize>)
    ensures
        sum(a + b) == sum(a) + sum(b),
    decreases b.len(),
{
    if b.len() > 0 {
        lemma_sum_add(a, b.drop_last());
        assert((a + b).drop_last() =~= a + b.drop_last());
    } else {
        assert(a + b =~= a);
    }
}

/// Every composition of `n` sums to `n`.
pub proof fn lemma_compositions_sum(n: usize, k: nat, lo: nat)
    ensures
        forall|j: int|
            0 <= j < compositions_from(n, k, lo).len() ==> sum(
                #[trigger] compositions_from(n, k, lo)[j],
            ) == n,
    decreases k, n + 1 - lo,
{
    if k == 0 || lo > n {
    } else if k == 1 {
        if lo == 0 {
            assert(seq![n].drop_last() =~= Seq::<usize>::empty());
            assert(sum(Seq::<usize>::empty()) == 0);
        }
    } else {
        let rest = compositions_from((n - lo) as usize, (k - 1) as nat, 0);
        lemma_compositions_sum((n - lo) as usize, (k - 1) as nat, 0);
        lemma_compositions_sum(n, k, lo + 1);
        let head = prepend(lo as usize, rest);
        let tail = compositions_from(n, k, lo + 1);
        assert forall|j: int| 0 <= j < head.len() implies sum(#[trigger] head[j]) == n by {
            lemma_sum_add(seq![lo as usize], rest[j]);
            assert(seq![lo as usize].drop_last() =~= Seq::<usize>::empty());
            assert(sum(Seq::<usize>::empty()) == 0);
            assert(head[j] == seq![lo as usize] + rest[j]);
            assert(sum(rest[j]) == n - lo);
        }
        assert(compositions_from(n, k, lo) == head + tail);
        assert forall|j: int| 0 <= j < (head + tail).len() implies sum(#[trigger] (head + tail)[j]) == n by {
            if j < head.len() {
                assert((head + tail)[j] == head[j]);
            } else {
                assert((head + tail)[j] == tail[j - head.len()]);
            }
        }
    }
}

/// Every sequence of `k` parts that sums to `n`, with its first part at least
/// `lo`, is one of the compositions enumerated from `lo`.
pub proof fn lemma_compositions_complete(n: usize, k: nat, lo: nat, s: Seq<usize>)
    requires
        k >= 1,
        k == 1 ==> lo == 0,
        s.len() == k,
        sum(s) == n,
        s[0] >= lo,
    ensures
        compositions_from(n, k, lo).contains(s),
    decreases k, n + 1 - lo,
{
    let rest = s.subrange(1, k as int);
    assert(s =~= seq![s[0]] + rest);
    lemma_sum_add(seq![s[0]], rest);
    assert(seq![s[0]].drop_last() =~= Seq::<usize>::empty());
    assert(sum(Seq::<usize>::empty()) == 0);
    lemma_sum_nonneg(rest);
    if k == 1 {
        assert(rest =~= Seq::<usize>::empty());
        assert(s =~= seq![n]);
        assert(compositions_from(n, k, lo)[0] == s);
    } else if s[0] == lo {
        let sub = compositions_from((n - lo) as usize, (k - 1) as nat, 0);
        lemma_compositions_complete((n - lo) as usize, (k - 1) as nat, 0, rest);
        let j = choose|j: int| 0 <= j < sub.len() && sub[j] == rest;
        let head = prepend(lo as usize, sub);
        let all = head + compositions_from(n, k, lo + 1);
        assert(compositions_from(n, k, lo) == all);
        assert(all[j] == head[j]);
        assert(head[j] =~= s);
    } else {
        lemma_compositions_complete(n, k, lo + 1, s);
        let tail = compositions_from(n, k, lo + 1);
        let j = choose|j: int| 0 <= j < tail.len() && tail[j] == s;
        let head = prepend(lo as usize, compositions_from((n - lo) as usize, (k - 1) as nat, 0));
        assert(compositions_from(n, k, lo) == head + tail);
        assert((head + tail)[head.len() + j] == s);
    }
}

} // verus!
