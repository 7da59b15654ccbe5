//! One line of the board: the cell pattern that each split of a clue places,
//! and the run lengths that a filled line shows.

use vstd::prelude::*;
use crate::split::{
    compositions, compositions_from, lemma_compositions_sum, lemma_sum_add, line_splits, min_length,
    split_line, sum, views,
};

verus! {

/// `n` blank cells.
pub open spec fn blanks(n: nat) -> Seq<bool> {
    Seq::new(n, |_i: int| false)
}

/// `n` painted cells.
pub open spec fn paints(n: nat) -> Seq<bool> {
    Seq::new(n, |_i: int| true)
}

/// Blank cells in bucket `i` of a split: its value, plus the mandatory
/// separator for the buckets between two blocks.
pub open spec fn gap(split: Seq<usize>, i: int) -> nat {
    if 0 < i < split.len() - 1 {
        (split[i] + 1) as nat
    } else {
        split[i] as nat
    }
}

/// Bucket `i`'s blank run, followed by block `i` unless `i` is the last bucket.
pub open spec fn chunk(clue: Seq<usize>, split: Seq<usize>, i: int) -> Seq<bool> {
    if i + 1 < split.len() {
        blanks(gap(split, i)) + paints(clue[i] as nat)
    } else {
        blanks(gap(split, i))
    }
}

/// The cells placed by the first `i` buckets of a split.
pub open spec fn placement_upto(clue: Seq<usize>, split: Seq<usize>, i: nat) -> Seq<bool>
    decreases i,
{
    if i == 0 {
        seq![]
    } else {
        placement_upto(clue, split, (i - 1) as nat) + chunk(clue, split, i - 1)
    }
}

/// The line, cell by cell (`true` for painted), that a split of `clue` places.
pub open spec fn placement(clue: Seq<usize>, split: Seq<usize>) -> Seq<bool> {
    placement_upto(clue, split, split.len())
}

/// Every placement of `clue` on a line of `length` cells, one per split, in the
/// order of the splits.
pub open spec fn line_placements(clue: Seq<usize>, length: usize) -> Seq<Seq<bool>> {
    line_splits(clue, length).map_values(|s: Seq<usize>| placement(clue, s))
}

/// The contents of a sequence of vectors of cells.
pub open spec fn bool_views(v: Seq<Vec<bool>>) -> Seq<Seq<bool>> {
    v.map_values(|x: Vec<bool>| x@)
}

/// The runs closed so far by a left-to-right scan, and the length of the run
/// still open at its end.
pub open spec fn scan(s: Seq<bool>) -> (Seq<int>, int)
    decreases s.len(),
{
    if s.len() == 0 {
        (seq![], 0)
    } else {
        let (done, open) = scan(s.drop_last());
        if s.last() {
            (done, open + 1)
        } else if open > 0 {
            (done.push(open), 0)
        } else {
            (done, 0)
        }
    }
}

/// Lengths of the maximal painted runs of a line, left to right.
pub open spec fn runs(s: Seq<bool>) -> Seq<int> {
    let (done, open) = scan(s);
    if open > 0 {
        done.push(open)
    } else {
        done
    }
}

/// A clue's block lengths as integers.
pub open spec fn ints(clue: Seq<usize>) -> Seq<int> {
    clue.map_values(|b: usize| b as int)
}

proof fn lemma_compositions_len(n: usize, k: nat, lo: nat)
    ensures
        forall|j: int|
            0 <= j < compositions_from(n, k, lo).len() ==> (#[trigger] compositions_from(
                n,
                k,
                lo,
            )[j]).len() == k,
    decreases k, n + 1 - lo,
{
    if k == 0 || lo > n {
    } else if k == 1 {
    } else {
        let rest = compositions_from((n - lo) as usize, (k - 1) as nat, 0);
        lemma_compositions_len((n - lo) as usize, (k - 1) as nat, 0);
        lemma_compositions_len(n, k, lo + 1);
        let head = rest.map_values(|s: Seq<usize>| seq![lo as usize] + s);
        assert forall|j: int| 0 <= j < head.len() implies (#[trigger] head[j]).len() == k by {
            assert(rest[j].len() == k - 1);
        }
        let tail = compositions_from(n, k, lo + 1);
        assert(compositions_from(n, k, lo) == head + tail);
        assert forall|j: int| 0 <= j < (head + tail).len() implies (#[trigger] (head + tail)[j]).len()
            == k by {
            if j < head.len() {
                assert((head + tail)[j] == head[j]);
            } else {
                assert((head + tail)[j] == tail[j - head.len()]);
            }
        }
    }
}

/// Every split of a line has one bucket more than the clue has blocks.
pub proof fn lemma_split_lengths(clue: Seq<usize>, length: usize)
    ensures
        forall|j: int|
            0 <= j < line_splits(clue, length).len() ==> (#[trigger] line_splits(
                clue,
                length,
            )[j]).len() == clue.len() + 1,
{
    let leftover = (length - crate::split::min_length(clue)) as usize;
    lemma_compositions_len(leftover, clue.len() + 1, 0);
}

/// Appends `n` copies of `cell` to `out`.
fn push_run(out: &mut Vec<bool>, n: usize, cell: bool)
    ensures
        final(out)@ == old(out)@ + Seq::new(n as nat, |_i: int| cell),
{
    let mut j: usize = 0;
    while j < n
        invariant
            j <= n,
            out@ == old(out)@ + Seq::new(j as nat, |_i: int| cell),
        decreases n - j,
    {
        out.push(cell);
        j = j + 1;
        assert(out@ =~= old(out)@ + Seq::new(j as nat, |_i: int| cell));
    }
}

/// The cells, left to right, that `split` places for `line`: each bucket's
/// blank run (one cell longer between two blocks), then the next block.
pub fn line_pattern(line: &Vec<usize>, split: &Vec<usize>) -> (pattern: Vec<bool>)
    requires
        split@.len() == line@.len() + 1,
    ensures
        pattern@ == placement(line@, split@),
{
    let mut pattern: Vec<bool> = Vec::new();
    let last: usize = split.len() - 1;
    let mut i: usize = 0;
    while i < split.len()
        invariant
            i <= split@.len(),
            last == split@.len() - 1,
            split@.len() == line@.len() + 1,
            pattern@ == placement_upto(line@, split@, i as nat),
        decreases split@.len() - i,
    {
        let ghost before = pattern@;
        // Blank cells, with the separator that keeps two blocks apart.
        push_run(&mut pattern, split[i], false);
        if 0 < i && i < last {
            pattern.push(false);
        }
        assert(pattern@ =~= before + blanks(gap(split@, i as int)));
        if i < last {
            // Painted cells of the block that follows.
            let ghost mid = pattern@;
            push_run(&mut pattern, line[i], true);
            assert(pattern@ =~= mid + paints(line@[i as int] as nat));
        }
        assert(pattern@ =~= placement_upto(line@, split@, (i + 1) as nat));
        i = i + 1;
    }
    pattern
}

/// Every placement of `line` on `length` cells: one cell pattern per split,
/// in the order the splits are enumerated; none where the clue does not fit.
pub fn line_patterns(line: &Vec<usize>, length: usize) -> (patterns: Vec<Vec<bool>>)
    requires
        line@.len() < usize::MAX,
    ensures
        bool_views(patterns@) == line_placements(line@, length),
{
    let splits = split_line(line, length);
    proof {
        lemma_split_lengths(line@, length);
    }
    let mut patterns: Vec<Vec<bool>> = Vec::new();
    let mut i: usize = 0;
    while i < splits.len()
        invariant
            i <= splits@.len(),
            views(splits@) == line_splits(line@, length),
            forall|j: int|
                0 <= j < line_splits(line@, length).len() ==> (#[trigger] line_splits(
                    line@,
                    length,
                )[j]).len() == line@.len() + 1,
            bool_views(patterns@) == line_placements(line@, length).subrange(0, i as int),
        decreases splits@.len() - i,
    {
        assert(splits@[i as int]@ == views(splits@)[i as int]);
        let pattern = line_pattern(line, &splits[i]);
        let ghost before = bool_views(patterns@);
        assert(line_placements(line@, length)[i as int] == pattern@);
        patterns.push(pattern);
        assert(bool_views(patterns@) =~= before.push(pattern@));
        assert(bool_views(patterns@) =~= line_placements(line@, length).subrange(0, i + 1));
        i = i + 1;
    }
    assert(bool_views(patterns@) =~= line_placements(line@, length));
    patterns
}

/// Lengths of the maximal painted runs of `line`, left to right.
pub fn line_runs(line: &Vec<bool>) -> (r: Vec<usize>)
    ensures
        ints(r@) == runs(line@),
{
    let mut done: Vec<usize> = Vec::new();
    let mut open: usize = 0;
    let mut i: usize = 0;
    while i < line.len()
        invariant
            i <= line@.len(),
            open <= i,
            (ints(done@), open as int) == scan(line@.subrange(0, i as int)),
        decreases line@.len() - i,
    {
        assert(line@.subrange(0, i + 1).drop_last() =~= line@.subrange(0, i as int));
        if line[i] {
            open = open + 1;
        } else if open > 0 {
            let ghost before = done@;
            done.push(open);
            assert(ints(done@) =~= ints(before).push(open as int));
            open = 0;
        }
        i = i + 1;
    }
    assert(line@.subrange(0, line@.len() as int) =~= line@);
    if open > 0 {
        let ghost before = done@;
        done.push(open);
        assert(ints(done@) =~= ints(before).push(open as int));
    }
    done
}

/// Whether the painted runs of `line` are exactly the blocks of `clue`.
pub fn matches_clue(clue: &Vec<usize>, line: &Vec<bool>) -> (r: bool)
    ensures
        r == (runs(line@) == ints(clue@)),
{
    let found = line_runs(line);
    if found.len() != clue.len() {
        assert(ints(found@).len() != ints(clue@).len());
        return false;
    }
    let mut i: usize = 0;
    while i < clue.len()
        invariant
            i <= clue@.len(),
            found@.len() == clue@.len(),
            ints(found@) == runs(line@),
            forall|j: int| 0 <= j < i ==> found@[j] == clue@[j],
        decreases clue@.len() - i,
    {
        if found[i] != clue[i] {
            assert(ints(found@)[i as int] != ints(clue@)[i as int]);
            return false;
        }
        i = i + 1;
    }
    assert(ints(found@) =~= ints(clue@));
    true
}

/// Painting `m` more cells lengthens the open run by `m`.
proof fn lemma_scan_paints(p: Seq<bool>, m: nat)
    ensures
        scan(p + paints(m)) == (scan(p).0, scan(p).1 + m),
    decreases m,
{
    if m == 0 {
        assert(p + paints(0) =~= p);
    } else {
        lemma_scan_paints(p, (m - 1) as nat);
        assert((p + paints(m)).drop_last() =~= p + paints((m - 1) as nat));
    }
}

/// One or more blank cells close the open run.
proof fn lemma_scan_blanks(p: Seq<bool>, n: nat)
    requires
        n >= 1,
    ensures
        scan(p + blanks(n)) == (runs(p), 0int),
    decreases n,
{
    if n == 1 {
        assert((p + blanks(1)).drop_last() =~= p);
    } else {
        lemma_scan_blanks(p, (n - 1) as nat);
        assert((p + blanks(n)).drop_last() =~= p + blanks((n - 1) as nat));
    }
}

/// Blank cells at the end of a line do not change its runs.
proof fn lemma_runs_blanks(p: Seq<bool>, n: nat)
    ensures
        runs(p + blanks(n)) == runs(p),
{
    if n == 0 {
        assert(p + blanks(0) =~= p);
    } else {
        lemma_scan_blanks(p, n);
    }
}

proof fn lemma_scan_blanks_alone(n: nat)
    ensures
        scan(blanks(n)) == (Seq::<int>::empty(), 0int),
    decreases n,
{
    if n > 0 {
        lemma_scan_blanks_alone((n - 1) as nat);
        assert(blanks(n).drop_last() =~= blanks((n - 1) as nat));
    }
}

/// After the first `i >= 1` buckets and blocks, the blocks before the last
/// are closed runs, the last is the open run, and the length is the buckets,
/// the blocks, and the separators between them.
proof fn lemma_placement_prefix(clue: Seq<usize>, split: Seq<usize>, i: nat)
    requires
        split.len() == clue.len() + 1,
        1 <= i <= clue.len(),
        forall|j: int| 0 <= j < clue.len() ==> #[trigger] clue[j] > 0,
    ensures
        scan(placement_upto(clue, split, i)) == (
            ints(clue.subrange(0, i - 1)),
            clue[i - 1] as int,
        ),
        placement_upto(clue, split, i).len() == sum(split.subrange(0, i as int)) + sum(
            clue.subrange(0, i as int),
        ) + i - 1,
    decreases i,
{
    let prev = placement_upto(clue, split, (i - 1) as nat);
    let g = gap(split, i - 1);
    let b = clue[i - 1] as nat;
    assert(placement_upto(clue, split, i) == prev + (blanks(g) + paints(b)));
    assert(prev + (blanks(g) + paints(b)) =~= (prev + blanks(g)) + paints(b));
    lemma_scan_paints(prev + blanks(g), b);
    assert(split.subrange(0, i as int).drop_last() =~= split.subrange(0, i - 1));
    assert(clue.subrange(0, i as int).drop_last() =~= clue.subrange(0, i - 1));
    if i == 1 {
        assert(prev =~= Seq::<bool>::empty());
        assert(prev + blanks(g) =~= blanks(g));
        lemma_scan_blanks_alone(g);
        assert(ints(clue.subrange(0, 0)) =~= Seq::<int>::empty());
        assert(split.subrange(0, 0) =~= Seq::<usize>::empty());
        assert(clue.subrange(0, 0) =~= Seq::<usize>::empty());
    } else {
        lemma_placement_prefix(clue, split, (i - 1) as nat);
        lemma_scan_blanks(prev, g);
        assert(ints(clue.subrange(0, i - 1)) =~= ints(clue.subrange(0, i - 2)).push(
            clue[i - 2] as int,
        ));
    }
}

/// Each placement of a clue of positive blocks fills exactly the line, and
/// its painted runs are the clue's blocks.
pub proof fn lemma_placement_meets_clue(clue: Seq<usize>, length: usize, split: Seq<usize>)
    requires
        forall|j: int| 0 <= j < clue.len() ==> #[trigger] clue[j] > 0,
        min_length(clue) <= length,
        split.len() == clue.len() + 1,
        sum(split) == length - min_length(clue),
    ensures
        placement(clue, split).len() == length,
        runs(placement(clue, split)) == ints(clue),
{
    let k = clue.len();
    let last = split[k as int] as nat;
    assert(placement(clue, split) == placement_upto(clue, split, k) + blanks(last));
    lemma_runs_blanks(placement_upto(clue, split, k), last);
    assert(split.subrange(0, k as int + 1) =~= split);
    assert(split.subrange(0, k as int + 1).drop_last() =~= split.subrange(0, k as int));
    assert(clue.subrange(0, k as int) =~= clue);
    if k == 0 {
        assert(split.drop_last() =~= Seq::<usize>::empty());
        assert(sum(Seq::<usize>::empty()) == 0);
        assert(placement_upto(clue, split, 0) + blanks(last) =~= blanks(last));
        lemma_scan_blanks_alone(last);
        assert(ints(clue) =~= Seq::<int>::empty());
        assert(split.subrange(0, 0) =~= Seq::<usize>::empty());
    } else {
        lemma_placement_prefix(clue, split, k);
        assert(ints(clue) =~= ints(clue.subrange(0, k - 1)).push(clue[k - 1] as int));
    }
}

/// Every placement in a line's list fills the line and meets its clue.
pub proof fn lemma_placements_meet_clue(clue: Seq<usize>, length: usize)
    requires
        forall|j: int| 0 <= j < clue.len() ==> #[trigger] clue[j] > 0,
    ensures
        forall|j: int|
            0 <= j < line_placements(clue, length).len() ==> {
                &&& (#[trigger] line_placements(clue, length)[j]).len() == length
                &&& runs(line_placements(clue, length)[j]) == ints(clue)
            },
{
    if min_length(clue) <= length {
        crate::split::lemma_sum_nonneg(clue);
        let leftover = (length - min_length(clue)) as usize;
        lemma_split_lengths(clue, length);
        lemma_compositions_sum(leftover, clue.len() + 1, 0);
        assert forall|j: int| 0 <= j < line_placements(clue, length).len() implies {
            &&& (#[trigger] line_placements(clue, length)[j]).len() == length
            &&& runs(line_placements(clue, length)[j]) == ints(clue)
        } by {
            let s = line_splits(clue, length)[j];
            assert(compositions(leftover, clue.len() + 1)[j] == s);
            lemma_placement_meets_clue(clue, length, s);
        }
    }
}

/// The blank runs that a left-to-right scan has seen: the one before the
/// first painted run, one between each two runs, and the one after the last
/// closed run (before the open run, if any).
pub open spec fn blank_scan(p: Seq<bool>) -> Seq<int>
    decreases p.len(),
{
    if p.len() == 0 {
        seq![0]
    } else {
        let gs = blank_scan(p.drop_last());
        let open = scan(p.drop_last()).1;
        if p.last() {
            gs
        } else if open > 0 {
            gs.push(1)
        } else {
            gs.update(gs.len() - 1, gs.last() + 1)
        }
    }
}

/// The first `i` blank runs, each followed by its painted run.
pub open spec fn build(runs: Seq<int>, gaps: Seq<int>, i: nat) -> Seq<bool>
    decreases i,
{
    if i == 0 {
        seq![]
    } else {
        build(runs, gaps, (i - 1) as nat) + blanks(gaps[i - 1] as nat) + paints(runs[i - 1] as nat)
    }
}

proof fn lemma_build_prefix(r1: Seq<int>, g1: Seq<int>, r2: Seq<int>, g2: Seq<int>, n: nat)
    requires
        forall|i: int| 0 <= i < n ==> r1[i] == r2[i] && g1[i] == g2[i],
    ensures
        build(r1, g1, n) == build(r2, g2, n),
    decreases n,
{
    if n > 0 {
        lemma_build_prefix(r1, g1, r2, g2, (n - 1) as nat);
    }
}

/// A line is its blank and painted runs put back together.
proof fn lemma_decompose(p: Seq<bool>)
    ensures
        ({
            let (done, open) = scan(p);
            let gs = blank_scan(p);
            let m = done.len();
            &&& gs.len() == m + 1
            &&& open >= 0
            &&& forall|i: int| 0 <= i <= m ==> #[trigger] gs[i] >= (if i == 0 { 0int } else { 1int })
            &&& forall|i: int| 0 <= i <= m ==> #[trigger] gs[i] <= p.len()
            &&& forall|i: int| 0 <= i < m ==> #[trigger] done[i] >= 1
            &&& p == build(done, gs, m) + blanks(gs[m as int] as nat) + paints(open as nat)
        }),
    decreases p.len(),
{
    if p.len() == 0 {
        assert(p =~= build(seq![], seq![0], 0) + blanks(0) + paints(0));
    } else {
        let q = p.drop_last();
        lemma_decompose(q);
        let (done, open) = scan(q);
        let gs = blank_scan(q);
        let m = done.len();
        assert(p =~= q.push(p.last()));
        if p.last() {
            assert(p =~= build(done, gs, m) + blanks(gs[m as int] as nat) + paints((open + 1) as nat));
        } else if open > 0 {
            let d2 = done.push(open);
            let g2 = gs.push(1);
            lemma_build_prefix(done, gs, d2, g2, m);
            assert(build(d2, g2, m + 1) == build(d2, g2, m) + blanks(g2[m as int] as nat) + paints(
                d2[m as int] as nat,
            ));
            assert(p =~= build(d2, g2, m + 1) + blanks(1) + paints(0));
        } else {
            let g2 = gs.update(m as int, gs[m as int] + 1);
            lemma_build_prefix(done, gs, done, g2, m);
            assert(p =~= build(done, g2, m) + blanks((gs[m as int] + 1) as nat) + paints(0));
        }
    }
}

/// A placement is as long as its buckets, blocks and separators together.
proof fn lemma_placement_len(clue: Seq<usize>, split: Seq<usize>)
    requires
        forall|j: int| 0 <= j < clue.len() ==> #[trigger] clue[j] > 0,
        split.len() == clue.len() + 1,
    ensures
        placement(clue, split).len() == sum(split) + min_length(clue),
{
    let k = clue.len();
    let last = split[k as int] as nat;
    assert(placement(clue, split) == placement_upto(clue, split, k) + blanks(last));
    assert(split.subrange(0, k as int + 1) =~= split);
    assert(split.subrange(0, k as int + 1).drop_last() =~= split.subrange(0, k as int));
    assert(clue.subrange(0, k as int) =~= clue);
    if k == 0 {
        assert(split.drop_last() =~= Seq::<usize>::empty());
        assert(sum(Seq::<usize>::empty()) == 0);
    } else {
        lemma_placement_prefix(clue, split, k);
    }
}

proof fn lemma_placement_build(
    clue: Seq<usize>,
    split: Seq<usize>,
    done: Seq<int>,
    gs: Seq<int>,
    m: nat,
    i: nat,
)
    requires
        split.len() == clue.len() + 1,
        m <= clue.len(),
        i <= m,
        done.len() == m,
        gs.len() == m + 1,
        forall|t: int| 0 <= t < m ==> #[trigger] clue[t] as int == done[t],
        split[0] as int == gs[0],
        forall|t: int| 1 <= t < m ==> #[trigger] split[t] as int == gs[t] - 1,
    ensures
        placement_upto(clue, split, i) == build(done, gs, i),
    decreases i,
{
    if i > 0 {
        lemma_placement_build(clue, split, done, gs, m, (i - 1) as nat);
        let t = i - 1;
        assert(gap(split, t) == gs[t] as nat);
        assert(placement_upto(clue, split, i) =~= build(done, gs, i));
    }
}

/// Every line whose painted runs are a clue of positive blocks is one of
/// that clue's placements on a line of its length.
pub proof fn lemma_line_is_placement(clue: Seq<usize>, p: Seq<bool>)
    requires
        forall|j: int| 0 <= j < clue.len() ==> #[trigger] clue[j] > 0,
        runs(p) == ints(clue),
        p.len() <= usize::MAX,
    ensures
        exists|j: int|
            0 <= j < line_placements(clue, p.len() as usize).len() && #[trigger] line_placements(
                clue,
                p.len() as usize,
            )[j] == p,
{
    lemma_decompose(p);
    let (done, open) = scan(p);
    let gs = blank_scan(p);
    let m = done.len();
    let k = clue.len();
    let length = p.len() as usize;
    if open > 0 {
        assert(ints(clue) == done.push(open));
        assert(k == m + 1);
    } else {
        assert(ints(clue) == done);
        assert(k == m);
    }
    assert forall|t: int| 0 <= t < m implies #[trigger] clue[t] as int == done[t] by {
        assert(ints(clue)[t] == clue[t] as int);
    }
    let split = Seq::new(
        (k + 1) as nat,
        |i: int|
            (if i == 0 {
                gs[0]
            } else if i < m || (i == m && open > 0) {
                gs[i] - 1
            } else if i == m {
                gs[m as int]
            } else {
                0
            }) as usize,
    );
    lemma_placement_build(clue, split, done, gs, m, m);
    if open > 0 {
        assert(clue[m as int] as int == open) by {
            assert(ints(clue)[m as int] == clue[m as int] as int);
        }
        assert(gap(split, m as int) == gs[m as int] as nat);
        assert(placement(clue, split) == placement_upto(clue, split, m + 1) + chunk(clue, split, m as int + 1));
        assert(placement_upto(clue, split, m + 1) == placement_upto(clue, split, m) + chunk(clue, split, m as int));
        assert(placement(clue, split) == placement_upto(clue, split, m) + (blanks(
            gap(split, m as int),
        ) + paints(clue[m as int] as nat)) + blanks(gap(split, m as int + 1)));
        assert(placement(clue, split) =~= p);
    } else {
        assert(gap(split, m as int) == gs[m as int] as nat);
        assert(placement(clue, split) == placement_upto(clue, split, m) + blanks(
            gap(split, m as int),
        ));
        assert(placement(clue, split) =~= p);
    }
    lemma_placement_len(clue, split);
    crate::split::lemma_sum_nonneg(split);
    crate::split::lemma_sum_nonneg(clue);
    let n = (length - min_length(clue)) as usize;
    crate::split::lemma_compositions_complete(n, (k + 1) as nat, 0, split);
    let all = compositions(n, (k + 1) as nat);
    assert(line_splits(clue, length) == all);
    let j = choose|j: int| 0 <= j < all.len() && all[j] == split;
    assert(line_placements(clue, length)[j] == p);
}

} // verus!
