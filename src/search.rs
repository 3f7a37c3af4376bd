use vstd::prelude::*;
use crate::matrix::{columns, index_seq, is_matrix, select_rows, select_rows_spec};
use crate::split::{is_partition, lemma_all_left_partition, make_split};

verus! {

/// `(left, right)` is the split of the rows of column `feat` of `x` at the
/// value that column holds in row `row`, as `less` classifies them.
pub open spec fn split_at<T, L: Fn(T, T) -> bool>(
    x: Seq<Seq<T>>,
    nrows: nat,
    less: L,
    feat: int,
    row: int,
    left: Seq<usize>,
    right: Seq<usize>,
) -> bool {
    &&& is_partition(left, right, nrows)
    &&& forall|k: int| 0 <= k < left.len() ==> less.ensures((x[feat][#[trigger] left[k] as int], x[feat][row]), true)
    &&& forall|k: int| 0 <= k < right.len() ==> less.ensures((x[feat][#[trigger] right[k] as int], x[feat][row]), false)
}

/// The candidate `(feat, row)` has loss `s`: `loss` answered `s` for the
/// target rows on the two sides of its split.
pub open spec fn candidate_loss<T, S, L: Fn(T, T) -> bool, G: Fn(&Vec<Vec<T>>, &Vec<Vec<T>>) -> S>(
    x: Seq<Seq<T>>,
    y: Seq<Seq<T>>,
    nrows: nat,
    less: L,
    loss: G,
    feat: int,
    row: int,
    s: S,
) -> bool {
    exists|l: Seq<usize>, r: Seq<usize>, yl: Vec<Vec<T>>, yr: Vec<Vec<T>>|
        #![trigger split_at(x, nrows, less, feat, row, l, r), loss.ensures((&yl, &yr), s)]
        split_at(x, nrows, less, feat, row, l, r) && columns(yl@) == select_rows_spec(y, l) && columns(yr@)
            == select_rows_spec(y, r) && loss.ensures((&yl, &yr), s)
}

/// The best loss after a scan in which candidate `k` had loss `losses[k]`
/// and was kept when `kept[k]`: the loss of the last kept candidate, or
/// `initial` when none was kept.
pub open spec fn running_best<S>(losses: Seq<S>, kept: Seq<bool>, initial: S) -> S
    decreases kept.len(),
{
    if kept.len() == 0 || losses.len() != kept.len() {
        initial
    } else if kept.last() {
        losses.last()
    } else {
        running_best(losses.drop_last(), kept.drop_last(), initial)
    }
}

/// The position of the last kept candidate, or `-1` when none was kept.
pub open spec fn last_kept(kept: Seq<bool>) -> int
    decreases kept.len(),
{
    if kept.len() == 0 {
        -1
    } else if kept.last() {
        kept.len() - 1
    } else {
        last_kept(kept.drop_last())
    }
}

/// `losses` and `kept` record a scan of the first `losses.len()`
/// candidates, numbered features first, then rows (candidate `k` is row
/// `k % nrows` of feature `k / nrows`): each loss is that candidate's loss,
/// and each candidate was kept exactly when `better` ranked its loss ahead
/// of the best loss before it.
pub open spec fn is_scan<T, S, L: Fn(T, T) -> bool, G: Fn(&Vec<Vec<T>>, &Vec<Vec<T>>) -> S, C: Fn(S, S) -> bool>(
    x: Seq<Seq<T>>,
    y: Seq<Seq<T>>,
    nrows: nat,
    initial: S,
    less: L,
    loss: G,
    better: C,
    losses: Seq<S>,
    kept: Seq<bool>,
) -> bool {
    &&& losses.len() == kept.len()
    &&& forall|k: int|
        0 <= k < losses.len() ==> candidate_loss(x, y, nrows, less, loss, k / (nrows as int), k % (nrows as int), #[trigger] losses[k])
    &&& forall|k: int|
        0 <= k < losses.len() ==> better.ensures(
            (losses[k], running_best(losses.take(k), kept.take(k), initial)),
            #[trigger] kept[k],
        )
}

/// The target rows `idx` of `y`, where `idx` is one side of a split of
/// `nrows` rows, so that every index is in range.
pub(crate) fn select_y<T: Copy>(y: &Vec<Vec<T>>, idx: &Vec<usize>, nrows: usize) -> (r: Vec<Vec<T>>)
    requires
        is_matrix(columns(y@), nrows as nat),
        forall|k: int| 0 <= k < idx.len() ==> (#[trigger] idx[k] as nat) < nrows,
    ensures
        columns(r@) == select_rows_spec(columns(y@), idx@),
{
    let picked = select_rows(y, idx);
    proof {
        let m = columns(y@);
        assert forall|j: int, k: int| 0 <= j < m.len() && 0 <= k < idx@.len() implies (#[trigger] idx@[k] as int)
            < #[trigger] m[j].len() by {
            assert(m[j].len() == nrows);
            assert((idx[k] as nat) < nrows);
        }
    }
    match picked {
        Ok(s) => s,
        Err(_) => {
            proof {
                assert(false);
            }
            Vec::new()
        },
    }
}

/// The outcome of the split search at one node.
pub struct SplitChoice<S> {
    /// The column the node splits on.
    pub feat_index: usize,
    /// The row whose value in that column is the threshold; `None` when no
    /// candidate beat the initial score.
    pub threshold_row: Option<usize>,
    /// The loss of the chosen split, or the initial score.
    pub score: S,
    /// The rows sent left, ascending.
    pub left: Vec<usize>,
    /// The rows sent right, ascending.
    pub right: Vec<usize>,
}

/// `better` acts as a strict order: it never answers both ways for the
/// same pair, never ranks a loss ahead of itself, and ranks transitively.
pub open spec fn strict_order<S, C: Fn(S, S) -> bool>(better: C) -> bool {
    &&& forall|a: S, b: S| !(#[trigger] better.ensures((a, b), true) && better.ensures((a, b), false))
    &&& forall|a: S| !(#[trigger] better.ensures((a, a), true))
    &&& forall|a: S, b: S, c: S|
        #[trigger] better.ensures((a, b), true) && #[trigger] better.ensures((b, c), true) ==> better.ensures(
            (a, c),
            true,
        )
}

/// When `better` is a strict order, no candidate of a scan is ranked ahead
/// of the best loss the scan ends with: the kept loss is a minimum.
pub proof fn lemma_scan_keeps_minimum<T, S, L: Fn(T, T) -> bool, G: Fn(&Vec<Vec<T>>, &Vec<Vec<T>>) -> S, C: Fn(S, S) -> bool>(
    x: Seq<Seq<T>>,
    y: Seq<Seq<T>>,
    nrows: nat,
    initial: S,
    less: L,
    loss: G,
    better: C,
    losses: Seq<S>,
    kept: Seq<bool>,
)
    requires
        strict_order(better),
        is_scan(x, y, nrows, initial, less, loss, better, losses, kept),
    ensures
        forall|k: int|
            0 <= k < losses.len() ==> !better.ensures((#[trigger] losses[k], running_best(losses, kept, initial)), true),
    decreases losses.len(),
{
    if losses.len() > 0 {
        let n = losses.len() - 1;
        let pl = losses.drop_last();
        let pk = kept.drop_last();
        assert(losses.take(n) == pl);
        assert(kept.take(n) == pk);
        lemma_scan_prefix(x, y, nrows, initial, less, loss, better, losses, kept, n);
        lemma_scan_keeps_minimum(x, y, nrows, initial, less, loss, better, pl, pk);
        let prev = running_best(pl, pk, initial);
        assert(better.ensures((losses[n], prev), kept[n]));
        assert forall|k: int| 0 <= k < losses.len() implies !better.ensures(
            (#[trigger] losses[k], running_best(losses, kept, initial)),
            true,
        ) by {
            if k < n {
                assert(losses[k] == pl[k]);
                assert(!better.ensures((pl[k], prev), true));
                if kept[n] {
                    if better.ensures((losses[k], losses[n]), true) {
                        assert(better.ensures((losses[k], prev), true));
                    }
                }
            }
        }
    }
}

/// Every prefix of a scan is a scan.
pub proof fn lemma_scan_prefix<T, S, L: Fn(T, T) -> bool, G: Fn(&Vec<Vec<T>>, &Vec<Vec<T>>) -> S, C: Fn(S, S) -> bool>(
    x: Seq<Seq<T>>,
    y: Seq<Seq<T>>,
    nrows: nat,
    initial: S,
    less: L,
    loss: G,
    better: C,
    losses: Seq<S>,
    kept: Seq<bool>,
    n: int,
)
    requires
        is_scan(x, y, nrows, initial, less, loss, better, losses, kept),
        0 <= n <= losses.len(),
    ensures
        is_scan(x, y, nrows, initial, less, loss, better, losses.take(n), kept.take(n)),
{
    let pl = losses.take(n);
    let pk = kept.take(n);
    assert forall|q: int| 0 <= q < n implies pl.take(q) == losses.take(q) && pk.take(q) == kept.take(q) by {
        assert(pl.take(q) =~= losses.take(q));
        assert(pk.take(q) =~= kept.take(q));
    }
    assert forall|q: int| 0 <= q < pl.len() implies candidate_loss(
        x, y, nrows, less, loss, q / (nrows as int), q % (nrows as int), #[trigger] pl[q]) by {
        assert(pl[q] == losses[q]);
    }
    assert forall|q: int| 0 <= q < pl.len() implies better.ensures(
        (pl[q], running_best(pl.take(q), pk.take(q), initial)),
        #[trigger] pk[q],
    ) by {
        assert(pl[q] == losses[q]);
        assert(pk[q] == kept[q]);
    }
}

/// When `better` is a strict order whose "not ahead" is transitive too (a
/// strict weak order), a kept candidate is ranked ahead of every candidate
/// before it: so among equally good candidates, the first is kept.
pub proof fn lemma_kept_beats_earlier<T, S, L: Fn(T, T) -> bool, G: Fn(&Vec<Vec<T>>, &Vec<Vec<T>>) -> S, C: Fn(S, S) -> bool>(
    x: Seq<Seq<T>>,
    y: Seq<Seq<T>>,
    nrows: nat,
    initial: S,
    less: L,
    loss: G,
    better: C,
    losses: Seq<S>,
    kept: Seq<bool>,
    j: int,
)
    requires
        strict_order(better),
        forall|a: S, b: S, c: S|
            !#[trigger] better.ensures((a, b), true) && !#[trigger] better.ensures((b, c), true) ==> !better.ensures(
                (a, c),
                true,
            ),
        is_scan(x, y, nrows, initial, less, loss, better, losses, kept),
        0 <= j < losses.len(),
        kept[j],
    ensures
        forall|k: int| 0 <= k < j ==> better.ensures((losses[j], #[trigger] losses[k]), true),
{
    lemma_scan_prefix(x, y, nrows, initial, less, loss, better, losses, kept, j);
    lemma_scan_keeps_minimum(x, y, nrows, initial, less, loss, better, losses.take(j), kept.take(j));
    let prev = running_best(losses.take(j), kept.take(j), initial);
    assert(better.ensures((losses[j], prev), true));
    assert forall|k: int| 0 <= k < j implies better.ensures((losses[j], #[trigger] losses[k]), true) by {
        assert(losses.take(j)[k] == losses[k]);
        assert(!better.ensures((losses[k], prev), true));
    }
}

/// `c` is the outcome of the split search over the features `x` and the
/// targets `y`, both with `nrows` rows, starting from the loss `initial`.
///
/// Some scan of all candidates, in order, gives it: its score is the best
/// loss of the scan. When no candidate was kept, all rows go left; otherwise
/// `c` names the last kept candidate, with that candidate's split and loss.
pub open spec fn is_best_split<T, S, L: Fn(T, T) -> bool, G: Fn(&Vec<Vec<T>>, &Vec<Vec<T>>) -> S, C: Fn(S, S) -> bool>(
    x: Seq<Seq<T>>,
    y: Seq<Seq<T>>,
    nrows: nat,
    initial: S,
    less: L,
    loss: G,
    better: C,
    c: SplitChoice<S>,
) -> bool {
    exists|losses: Seq<S>, kept: Seq<bool>|
        #[trigger] is_scan(x, y, nrows, initial, less, loss, better, losses, kept) && losses.len() == x.len() * nrows
            && chose(x, y, nrows, initial, less, loss, losses, kept, c)
}

/// `c` is what the scan `losses`, `kept` chose.
pub open spec fn chose<T, S, L: Fn(T, T) -> bool, G: Fn(&Vec<Vec<T>>, &Vec<Vec<T>>) -> S>(
    x: Seq<Seq<T>>,
    y: Seq<Seq<T>>,
    nrows: nat,
    initial: S,
    less: L,
    loss: G,
    losses: Seq<S>,
    kept: Seq<bool>,
    c: SplitChoice<S>,
) -> bool {
    let k = last_kept(kept);
    &&& is_partition(c.left@, c.right@, nrows)
    &&& c.score == running_best(losses, kept, initial)
    &&& k < 0 ==> {
        &&& c.threshold_row is None
        &&& c.feat_index == 0
        &&& c.left@ == index_seq(nrows)
        &&& c.right@.len() == 0
    }
    &&& k >= 0 ==> {
        &&& c.threshold_row == Some((k % (nrows as int)) as usize)
        &&& c.feat_index == k / (nrows as int)
        &&& c.feat_index < x.len()
        &&& split_at(x, nrows, less, c.feat_index as int, k % (nrows as int), c.left@, c.right@)
        &&& exists|yl: Vec<Vec<T>>, yr: Vec<Vec<T>>|
            columns(yl@) == select_rows_spec(y, c.left@) && columns(yr@) == select_rows_spec(y, c.right@)
                && #[trigger] loss.ensures((&yl, &yr), c.score)
    }
}

/// Searches every feature column, and every value in it as a threshold, for
/// the split with the best loss.
///
/// Candidates are tried features first, in column order, then values in
/// row order. A candidate is kept when `better(loss, best)` answers `true`
/// for its loss against the best so far, which starts at `initial`; so the
/// first of equally good candidates wins. When none is kept, all rows go
/// left and none right.
pub fn split_search<
    T: Copy,
    S: Copy,
    L: Fn(T, T) -> bool + Copy,
    G: Fn(&Vec<Vec<T>>, &Vec<Vec<T>>) -> S,
    C: Fn(S, S) -> bool,
>(
    x: &Vec<Vec<T>>,
    y: &Vec<Vec<T>>,
    nrows: usize,
    initial: S,
    less: L,
    loss: G,
    better: C,
) -> (r: SplitChoice<S>)
    requires
        is_matrix(columns(x@), nrows as nat),
        is_matrix(columns(y@), nrows as nat),
        forall|a: T, b: T| less.requires((a, b)),
        forall|a: &Vec<Vec<T>>, b: &Vec<Vec<T>>| loss.requires((a, b)),
        forall|a: S, b: S| better.requires((a, b)),
    ensures
        is_best_split(columns(x@), columns(y@), nrows as nat, initial, less, loss, better, r),
{
    let mut best = SplitChoice {
        feat_index: 0,
        threshold_row: None,
        score: initial,
        left: crate::matrix::all_rows(nrows),
        right: Vec::new(),
    };
    let ghost m = columns(x@);
    let ghost my = columns(y@);
    let ghost n = nrows as int;
    let ghost mut losses: Seq<S> = Seq::empty();
    let ghost mut kept: Seq<bool> = Seq::empty();
    proof {
        lemma_all_left_partition(nrows as nat);
    }
    let mut j: usize = 0;
    while j < x.len()
        invariant
            m == columns(x@),
            my == columns(y@),
            n == nrows,
            is_matrix(m, nrows as nat),
            is_matrix(my, nrows as nat),
            j <= x.len(),
            forall|a: T, b: T| less.requires((a, b)),
            forall|a: &Vec<Vec<T>>, b: &Vec<Vec<T>>| loss.requires((a, b)),
            forall|a: S, b: S| better.requires((a, b)),
            is_scan(m, my, nrows as nat, initial, less, loss, better, losses, kept),
            losses.len() == j * n,
            chose(m, my, nrows as nat, initial, less, loss, losses, kept, best),
        decreases x.len() - j,
    {
        let feat = &x[j];
        assert(m[j as int] == feat@);
        let mut i: usize = 0;
        while i < feat.len()
            invariant
                m == columns(x@),
                my == columns(y@),
                n == nrows,
                is_matrix(m, nrows as nat),
                is_matrix(my, nrows as nat),
                j < x.len(),
                feat == x[j as int],
                feat.len() == nrows,
                i <= nrows,
                forall|a: T, b: T| less.requires((a, b)),
                forall|a: &Vec<Vec<T>>, b: &Vec<Vec<T>>| loss.requires((a, b)),
                forall|a: S, b: S| better.requires((a, b)),
                is_scan(m, my, nrows as nat, initial, less, loss, better, losses, kept),
                losses.len() == j * n + i,
                chose(m, my, nrows as nat, initial, less, loss, losses, kept, best),
            decreases nrows - i,
        {
            let val = feat[i];
            let (l, r) = make_split(feat, val, less);
            assert(split_at(m, nrows as nat, less, j as int, i as int, l@, r@));
            let yl = select_y(y, &l, nrows);
            let yr = select_y(y, &r, nrows);
            let s = loss(&yl, &yr);
            let b = better(s, best.score);
            let ghost k = losses.len() as int;
            proof {
                vstd::arithmetic::div_mod::lemma_fundamental_div_mod_converse(k, n, j as int, i as int);
                assert(candidate_loss(m, my, nrows as nat, less, loss, k / n, k % n, s));
                let old_losses = losses;
                let old_kept = kept;
                losses = losses.push(s);
                kept = kept.push(b);
                assert(losses.take(k) == old_losses);
                assert(kept.take(k) == old_kept);
                assert(losses.drop_last() == old_losses);
                assert(kept.drop_last() == old_kept);
                assert forall|q: int| 0 <= q < k implies losses.take(q) == old_losses.take(q) && kept.take(q)
                    == old_kept.take(q) by {
                    assert(losses.take(q) =~= old_losses.take(q));
                    assert(kept.take(q) =~= old_kept.take(q));
                }
                assert forall|q: int| 0 <= q < losses.len() implies candidate_loss(
                    m, my, nrows as nat, less, loss, q / n, q % n, #[trigger] losses[q]) by {
                    if q < k {
                        assert(losses[q] == old_losses[q]);
                    }
                }
                assert forall|q: int| 0 <= q < losses.len() implies better.ensures(
                    (losses[q], running_best(losses.take(q), kept.take(q), initial)),
                    #[trigger] kept[q],
                ) by {
                    if q < k {
                        assert(losses[q] == old_losses[q]);
                        assert(kept[q] == old_kept[q]);
                    }
                }
            }
            if b {
                best = SplitChoice { feat_index: j, threshold_row: Some(i), score: s, left: l, right: r };
                assert(columns(yl@) == select_rows_spec(my, best.left@) && columns(yr@) == select_rows_spec(
                    my, best.right@) && loss.ensures((&yl, &yr), best.score));
            }
            i += 1;
        }
        proof {
            assert((j + 1) * n == j * n + n) by (nonlinear_arith);
        }
        j += 1;
    }
    best
}

} // verus!
