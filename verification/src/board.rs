//! Clearing full rows off the board, and what they score.

use vstd::prelude::*;
use crate::block::Block;
use crate::grid::{Grid, is_rect};

verus! {

/// Every cell of the row is filled.
pub open spec fn row_full(row: Seq<Block>) -> bool {
    forall|j: int| 0 <= j < row.len() ==> #[trigger] row[j] != Block::Void
}

/// Every cell of the row is empty.
pub open spec fn row_empty(row: Seq<Block>) -> bool {
    forall|j: int| 0 <= j < row.len() ==> #[trigger] row[j] == Block::Void
}

/// A row of `w` empty cells.
pub open spec fn void_row(w: int) -> Seq<Block> {
    Seq::new(w as nat, |j: int| Block::Void)
}

/// The number of full rows among the first `k` rows of `f`.
pub open spec fn full_count(f: Seq<Seq<Block>>, k: int) -> nat
    decreases k,
{
    if k <= 0 {
        0
    } else {
        full_count(f, k - 1) + if row_full(f[k - 1]) { 1nat } else { 0nat }
    }
}

/// The number of full rows of `f`.
pub open spec fn full_rows(f: Seq<Seq<Block>>) -> nat {
    full_count(f, f.len() as int)
}

/// No row of `f` is full.
pub open spec fn no_full_row(f: Seq<Seq<Block>>) -> bool {
    forall|i: int| 0 <= i < f.len() ==> !row_full(#[trigger] f[i])
}

/// The score for clearing `n` rows at once.
pub open spec fn line_score(n: nat) -> nat {
    if n == 0 {
        0
    } else if n == 1 {
        40
    } else if n == 2 {
        100
    } else if n == 3 {
        300
    } else {
        1200
    }
}

/// `f` with its full rows emptied.
pub open spec fn blank_full(f: Seq<Seq<Block>>) -> Seq<Seq<Block>> {
    Seq::new(f.len(), |i: int| if row_full(f[i]) { void_row(f[i].len() as int) } else { f[i] })
}

/// The rows of `rows` that are not empty, in order.
pub open spec fn kept_rows(rows: Seq<Seq<Block>>) -> Seq<Seq<Block>>
    decreases rows.len(),
{
    if rows.len() == 0 {
        seq![]
    } else {
        let rest = kept_rows(rows.drop_first());
        if row_empty(rows[0]) {
            rest
        } else {
            seq![rows[0]] + rest
        }
    }
}

/// The board `f` of width `w` after its rows have sunk: the non-empty rows, in
/// order, at the bottom, and empty rows above them.
pub open spec fn settled(f: Seq<Seq<Block>>, w: int) -> Seq<Seq<Block>> {
    let k = kept_rows(f);
    Seq::new((f.len() - k.len()) as nat, |i: int| void_row(w)) + k
}

/// The board `f` of width `w` after a line clear: when some row is full, the full
/// rows are emptied and every non-empty row sinks to the bottom in order; else the
/// board stays as it is.
pub open spec fn after_clear(f: Seq<Seq<Block>>, w: int) -> Seq<Seq<Block>> {
    if full_rows(f) > 0 {
        settled(blank_full(f), w)
    } else {
        f
    }
}

proof fn lemma_full_count_zero(f: Seq<Seq<Block>>, k: int)
    requires
        0 <= k <= f.len(),
    ensures
        full_count(f, k) == 0 <==> (forall|i: int| 0 <= i < k ==> !row_full(#[trigger] f[i])),
        full_count(f, k) <= k,
    decreases k,
{
    if k > 0 {
        lemma_full_count_zero(f, k - 1);
    }
}

proof fn lemma_kept_rows(rows: Seq<Seq<Block>>)
    ensures
        kept_rows(rows).len() <= rows.len(),
        forall|t: int| 0 <= t < kept_rows(rows).len() ==> !row_empty(#[trigger] kept_rows(rows)[t]),
        forall|t: int| 0 <= t < kept_rows(rows).len() ==> rows.contains(#[trigger] kept_rows(rows)[t]),
        (exists|i: int| 0 <= i < rows.len() && row_empty(#[trigger] rows[i])) ==> kept_rows(rows).len() < rows.len(),
    decreases rows.len(),
{
    if rows.len() > 0 {
        let rest = rows.drop_first();
        lemma_kept_rows(rest);
        let k = kept_rows(rows);
        assert forall|t: int| 0 <= t < k.len() implies rows.contains(#[trigger] k[t]) by {
            if row_empty(rows[0]) {
                assert(rest.contains(k[t]));
                let q = choose|q: int| 0 <= q < rest.len() && rest[q] == k[t];
                assert(rows[q + 1] == k[t]);
            } else if t == 0 {
                assert(rows[0] == k[t]);
            } else {
                assert(k[t] == kept_rows(rest)[t - 1]);
                assert(rest.contains(k[t]));
                let q = choose|q: int| 0 <= q < rest.len() && rest[q] == k[t];
                assert(rows[q + 1] == k[t]);
            }
        }
        if exists|i: int| 0 <= i < rows.len() && row_empty(#[trigger] rows[i]) {
            let i = choose|i: int| 0 <= i < rows.len() && row_empty(#[trigger] rows[i]);
            if i > 0 {
                assert(rest[i - 1] == rows[i]);
            }
        }
    }
}

/// After a line clear, no row of a board at least one cell wide is full.
pub proof fn lemma_clear_leaves_no_full_row(f: Seq<Seq<Block>>, w: int)
    requires
        w >= 1,
        is_rect(f, f.len() as int, w),
    ensures
        no_full_row(after_clear(f, w)),
        is_rect(after_clear(f, w), f.len() as int, w),
{
    lemma_full_count_zero(f, f.len() as int);
    if full_rows(f) > 0 {
        let b = blank_full(f);
        lemma_kept_rows(b);
        let k = kept_rows(b);
        let r = settled(b, w);
        assert forall|t: int| 0 <= t < k.len() implies (#[trigger] k[t]).len() == w && !row_full(k[t]) by {
            assert(b.contains(k[t]));
            let q = choose|q: int| 0 <= q < b.len() && b[q] == k[t];
            if row_full(f[q]) {
                assert(row_empty(b[q]));
            } else {
                assert(b[q] == f[q]);
            }
        }
        assert forall|i: int| 0 <= i < r.len() implies !row_full(#[trigger] r[i]) && r[i].len() == w by {
            let e = f.len() - k.len();
            if i < e {
                assert(r[i] == void_row(w));
                assert(r[i][0] == Block::Void);
            } else {
                assert(r[i] == k[i - e]);
            }
        }
    }
}

/// `f` has as many rows and columns as `g` and is the same outside rows `lo` up to
/// (not including) `hi`.
pub open spec fn same_outside(f: Seq<Seq<Block>>, g: Seq<Seq<Block>>, lo: int, hi: int) -> bool {
    &&& f.len() == g.len()
    &&& forall|i: int| 0 <= i < f.len() && !(lo <= i < hi) ==> #[trigger] f[i] == g[i]
}

proof fn lemma_full_count_window(f: Seq<Seq<Block>>, lo: int, hi: int, k: int)
    requires
        lo <= hi,
        0 <= k <= f.len(),
        forall|i: int| 0 <= i < f.len() && row_full(#[trigger] f[i]) ==> lo <= i < hi,
    ensures
        full_count(f, k) <= (if k <= lo { 0 } else if k >= hi { hi - lo } else { k - lo }),
    decreases k,
{
    if k > 0 {
        lemma_full_count_window(f, lo, hi, k - 1);
    }
}

/// When a board with no full row changes only in rows `lo` up to `hi`, at most
/// `hi - lo` of its rows are full.
pub proof fn lemma_few_full_rows(before: Seq<Seq<Block>>, after: Seq<Seq<Block>>, lo: int, hi: int)
    requires
        lo <= hi,
        no_full_row(before),
        same_outside(after, before, lo, hi),
    ensures
        full_rows(after) <= hi - lo,
{
    assert forall|i: int| 0 <= i < after.len() && row_full(#[trigger] after[i]) implies lo <= i < hi by {
        if !(lo <= i < hi) {
            assert(after[i] == before[i]);
        }
    }
    lemma_full_count_window(after, lo, hi, after.len() as int);
}

/// The width of a board: the length of its first row, or zero without rows.
pub open spec fn board_width(f: Seq<Seq<Block>>) -> int {
    if f.len() > 0 {
        f[0].len() as int
    } else {
        0
    }
}

/// Whether every cell of row `i` is filled.
fn row_is_full(field: &Grid, i: usize, w: usize) -> (full: bool)
    requires
        i < field@.len(),
        field@[i as int].len() == w,
    ensures
        full == row_full(field@[i as int]),
{
    let mut j: usize = 0;
    while j < w
        invariant
            i < field@.len(),
            field@[i as int].len() == w,
            j <= w,
            forall|k: int| 0 <= k < j ==> #[trigger] field@[i as int][k] != Block::Void,
        decreases w - j,
    {
        if field.get(i, j) == Block::Void {
            return false;
        }
        j = j + 1;
    }
    true
}

/// Clears the full rows of the board: they are emptied and every non-empty row
/// sinks to the bottom, keeping its order. Adds the score of the clear (40, 100,
/// 300 or 1200 for one to four rows) to `score` and the number of rows to
/// `cleared_lines`; gives whether any row was cleared. More than four full rows
/// cannot be cleared at once (the game panics).
pub fn handle_line_clears(field: &mut Grid, score: &mut u128, cleared_lines: &mut u32) -> (any: bool)
    requires
        full_rows(old(field)@) <= 4,
        *old(score) + line_score(full_rows(old(field)@)) <= u128::MAX,
        *old(cleared_lines) + full_rows(old(field)@) <= u32::MAX,
    ensures
        any == (full_rows(old(field)@) > 0),
        *final(score) == *old(score) + line_score(full_rows(old(field)@)),
        *final(cleared_lines) == *old(cleared_lines) + full_rows(old(field)@),
        final(field)@ == after_clear(old(field)@, board_width(old(field)@)),
        final(field).width() == old(field).width(),
{
    let ghost f0 = field@;
    let (h, w) = field.dim();
    proof {
        if h > 0 {
            assert(f0[0].len() == w);
        }
    }
    let mut cleared: Vec<usize> = Vec::new();
    let mut i: usize = 0;
    while i < h
        invariant
            field@ == f0,
            is_rect(f0, h as int, w as int),
            i <= h,
            cleared@.len() == full_count(f0, i as int),
            forall|t: int| 0 <= t < cleared@.len() ==> #[trigger] cleared@[t] < i && row_full(f0[cleared@[t] as int]),
            forall|q: int| 0 <= q < i && row_full(#[trigger] f0[q]) ==> cleared@.contains(q as usize),
        decreases h - i,
    {
        let ghost before = cleared@;
        if row_is_full(field, i, w) {
            cleared.push(i);
            proof {
                assert(cleared@[cleared@.len() - 1] == i);
                assert forall|q: int| 0 <= q < i && row_full(#[trigger] f0[q]) implies cleared@.contains(q as usize) by {
                    let t = choose|t: int| 0 <= t < before.len() && before[t] == q as usize;
                    assert(cleared@[t] == q as usize);
                }
            }
        }
        i = i + 1;
    }
    proof {
        lemma_full_count_zero(f0, h as int);
    }
    let n = cleared.len();
    let gain: u128 = match n {
        0 => 0,
        1 => 40,
        2 => 100,
        3 => 300,
        _ => 1200,
    };
    *score = *score + gain;

    // Empty the full rows.
    let mut k: usize = 0;
    while k < n
        invariant
            n == cleared@.len(),
            n == full_rows(f0),
            is_rect(f0, h as int, w as int),
            forall|t: int| 0 <= t < cleared@.len() ==> #[trigger] cleared@[t] < h && row_full(f0[cleared@[t] as int]),
            k <= n,
            field.width() == w,
            is_rect(field@, h as int, w as int),
            forall|q: int, j: int| 0 <= q < h && 0 <= j < w ==> #[trigger] field@[q][j] == (
                if (exists|t: int| 0 <= t < k && cleared@[t] == q) { Block::Void } else { f0[q][j] }),
        decreases n - k,
    {
        let row = cleared[k];
        let mut j: usize = 0;
        while j < w
            invariant
                n == cleared@.len(),
                is_rect(f0, h as int, w as int),
                forall|t: int| 0 <= t < cleared@.len() ==> #[trigger] cleared@[t] < h && row_full(f0[cleared@[t] as int]),
                k < n,
                row == cleared@[k as int],
                j <= w,
                field.width() == w,
                is_rect(field@, h as int, w as int),
                forall|q: int, c: int| 0 <= q < h && 0 <= c < w ==> #[trigger] field@[q][c] == (
                    if (exists|t: int| 0 <= t < k && cleared@[t] == q) || (q == row && c < j) { Block::Void } else { f0[q][c] }),
            decreases w - j,
        {
            field.set(row, j, Block::Void);
            j = j + 1;
        }
        proof {
            assert forall|q: int, c: int| 0 <= q < h && 0 <= c < w implies #[trigger] field@[q][c] == (
                if (exists|t: int| 0 <= t < k + 1 && cleared@[t] == q) { Block::Void } else { f0[q][c] }) by {
                if q == row {
                    assert(cleared@[k as int] == q);
                }
                if exists|t: int| 0 <= t < k + 1 && cleared@[t] == q {
                    let t = choose|t: int| 0 <= t < k + 1 && cleared@[t] == q;
                    if t < k {
                    } else {
                        assert(q == row);
                    }
                }
            }
        }
        k = k + 1;
    }
    let ghost b = field@;
    proof {
        assert forall|q: int| 0 <= q < h implies #[trigger] b[q] == blank_full(f0)[q] by {
            if row_full(f0[q]) {
                assert(cleared@.contains(q as usize));
                let t = choose|t: int| 0 <= t < cleared@.len() && cleared@[t] == q as usize;
                assert(b[q] =~= void_row(w as int));
            } else {
                assert forall|t: int| 0 <= t < n implies cleared@[t] != q by {}
                assert(b[q] =~= f0[q]);
            }
        }
        assert(b =~= blank_full(f0));
    }

    if n > 0 {
        let mut new_field = Grid::new(h, w, Block::Void);
        let mut cnt: usize = 0;
        let mut i: usize = h;
        proof {
            lemma_kept_rows(b);
            assert(b.subrange(h as int, h as int) =~= Seq::<Seq<Block>>::empty());
            assert(kept_rows(b.subrange(h as int, h as int)).len() == 0);
            let q = cleared@[0] as int;
            assert(row_empty(b[q]));
        }
        while i > 0
            invariant
                b == field@,
                b == blank_full(f0),
                is_rect(b, h as int, w as int),
                h * w <= isize::MAX,
                exists|q: int| 0 <= q < h && row_empty(#[trigger] b[q]),
                i <= h,
                new_field.width() == w,
                cnt == kept_rows(b.subrange(i as int, h as int)).len(),
                is_rect(new_field@, h as int, w as int),
                forall|t: int| 0 <= t < h - cnt ==> #[trigger] new_field@[t] == void_row(w as int),
                forall|t: int| h - cnt <= t < h ==> #[trigger] new_field@[t] == kept_rows(b.subrange(i as int, h as int))[t - (h - cnt)],
            decreases i,
        {
            i = i - 1;
            let ghost s = b.subrange(i as int, h as int);
            let ghost s_next = b.subrange(i as int + 1, h as int);
            proof {
                assert(s.drop_first() =~= s_next);
                assert(s[0] == b[i as int]);
                lemma_kept_rows(s);
                let q = choose|q: int| 0 <= q < h && row_empty(#[trigger] b[q]);
                if q >= i {
                    assert(s[q - i] == b[q]);
                }
            }
            let target: usize = h - 1 - cnt;
            let ghost nf0 = new_field@;
            let mut advance = false;
            let mut j: usize = 0;
            while j < w
                invariant
                    b == field@,
                    is_rect(b, h as int, w as int),
                    i < h,
                    target < h,
                    j <= w,
                    new_field.width() == w,
                    is_rect(nf0, h as int, w as int),
                    is_rect(new_field@, h as int, w as int),
                    forall|t: int| 0 <= t < h && t != target ==> #[trigger] new_field@[t] == nf0[t],
                    advance == !(forall|c: int| 0 <= c < j ==> #[trigger] b[i as int][c] == Block::Void),
                    forall|c: int| 0 <= c < w ==> #[trigger] new_field@[target as int][c] == (
                        if c < j { b[i as int][c] } else { nf0[target as int][c] }),
                decreases w - j,
            {
                let cell = field.get(i, j);
                if cell != Block::Void {
                    advance = true;
                }
                new_field.set(target, j, cell);
                j = j + 1;
            }
            proof {
                let ks = kept_rows(s);
                let kn = kept_rows(s_next);
                if advance {
                    assert(!row_empty(b[i as int]));
                    assert(ks == seq![b[i as int]] + kn);
                    assert(new_field@[target as int] =~= b[i as int]);
                    assert forall|t: int| h - (cnt + 1) <= t < h implies #[trigger] new_field@[t] == ks[t - (h - (cnt + 1))] by {
                        if t == target {
                        } else {
                            assert(ks[t - (h - (cnt + 1))] == kn[t - (h - cnt)]);
                        }
                    }
                } else {
                    assert(row_empty(b[i as int]));
                    assert(ks == kn);
                    assert(nf0[target as int] == void_row(w as int));
                    assert(new_field@[target as int] =~= void_row(w as int));
                }
            }
            if advance {
                cnt = cnt + 1;
            }
        }
        proof {
            assert(b.subrange(0, h as int) =~= b);
            assert(new_field@ =~= settled(b, w as int));
        }
        *field = new_field;
    }
    *cleared_lines = *cleared_lines + (n as u32);
    n > 0
}

} // verus!
