use vstd::prelude::*;
use crate::tiler::{WindowIndex, covered, padded_len};
use crate::sigmoid::{sigmoid_q, sigmoid_spec};
use crate::PROB_SCALE;

verus! {

/// Window `e` covers position `p` of the padded sequence of input `i`.
pub open spec fn covers(e: WindowIndex, i: int, p: int) -> bool {
    e.input_id == i && e.start <= p < e.start + e.valid_length
}

/// How many of the first `k` windows of the index table cover position `p`
/// of the padded sequence of input `i`.
pub open spec fn cov_count(indices: Seq<WindowIndex>, k: int, i: int, p: int) -> int
    decreases k,
{
    if k <= 0 {
        0
    } else {
        cov_count(indices, k - 1, i, p) + if covers(indices[k - 1], i, p) {
            1int
        } else {
            0int
        }
    }
}

/// The logit a prediction tensor of row length `ln` and `cn` channels holds
/// for position `p` of the window of row `w`, channel `c`.
pub open spec fn logit_at(
    logits: Seq<i64>,
    ln: int,
    cn: int,
    w: int,
    pos: int,
    c: int,
) -> i64 {
    logits[(w * ln + pos) * cn + c]
}

/// Sum, over the first `k` windows that cover position `p` of input `i`, of
/// the fixed-point sigmoid of the window's logit for `p` on channel `c`.
pub open spec fn cov_sum(
    logits: Seq<i64>,
    ln: int,
    cn: int,
    indices: Seq<WindowIndex>,
    k: int,
    i: int,
    p: int,
    c: int,
) -> int
    decreases k,
{
    if k <= 0 {
        0
    } else {
        cov_sum(logits, ln, cn, indices, k - 1, i, p, c) + if covers(indices[k - 1], i, p) {
            sigmoid_spec(logit_at(logits, ln, cn, k - 1, p - indices[k - 1].start, c) as int)
        } else {
            0int
        }
    }
}

/// The averaged per-byte probability the reducer owes for byte `b` of input
/// `i` on channel `c`: the mean of the sigmoids of all covering windows'
/// logits, and zero where no window covers the byte.
pub open spec fn reduced_prob(
    logits: Seq<i64>,
    ln: int,
    cn: int,
    indices: Seq<WindowIndex>,
    i: int,
    b: int,
    padding: int,
    c: int,
) -> int {
    let p = b + padding;
    let cnt = cov_count(indices, indices.len() as int, i, p);
    if cnt > 0 {
        cov_sum(logits, ln, cn, indices, indices.len() as int, i, p, c) / cnt
    } else {
        0
    }
}

/// A flat index into the prediction tensor stays inside it.
proof fn lemma_flat_index(w: int, pos: int, c: int, rows: int, ln: int, cn: int)
    requires
        0 <= w < rows,
        0 <= pos < ln,
        0 <= c < cn,
    ensures
        0 <= (w * ln + pos) * cn + c < rows * ln * cn,
        0 <= w * ln + pos < rows * ln,
        rows * ln <= rows * ln * cn,
{
    assert(0 <= (w * ln + pos) * cn + c < rows * ln * cn && 0 <= w * ln + pos < rows * ln
        && rows * ln <= rows * ln * cn) by (nonlinear_arith)
        requires
            0 <= w < rows,
            0 <= pos < ln,
            0 <= c < cn,
    ;
}

/// Folds the prediction tensor back into one per-byte, per-channel
/// probability matrix per input: the fixed-point sigmoid is applied to every
/// logit, and the contributions of all windows covering a byte are averaged
/// uniformly.
///
/// The contract pins every output value: entry `b * channels + c` of matrix
/// `i` is the mean of the covering sigmoids (`reduced_prob`), every value
/// lies in 0 ..= PROB_SCALE, and when the index table covers every padded
/// byte position — the tiler guarantees it does — every byte's count is
/// at least one.
pub fn reduce(
    texts: &Vec<Vec<u8>>,
    logits: &Vec<i64>,
    rows: usize,
    length: usize,
    channels: usize,
    indices: &Vec<WindowIndex>,
    padding: usize,
) -> (r: Vec<Vec<u32>>)
    requires
        logits@.len() == rows * length * channels,
        channels >= 1,
        indices@.len() <= rows,
        indices@.len() * (PROB_SCALE as int) < u64::MAX,
        forall|w: int|
            0 <= w < indices@.len() ==> (#[trigger] indices@[w]).valid_length <= length,
        forall|w: int|
            0 <= w < indices@.len() ==> (#[trigger] indices@[w]).start
                + indices@[w].valid_length < usize::MAX,
        forall|i: int|
            0 <= i < texts@.len() ==> #[trigger] texts@[i]@.len() + 2 * padding < usize::MAX,
        forall|i: int| 0 <= i < texts@.len() ==> #[trigger] texts@[i]@.len() * channels < usize::MAX,
    ensures
        r@.len() == texts@.len(),
        forall|i: int|
            0 <= i < texts@.len() ==> (#[trigger] r@[i])@.len() == texts@[i]@.len() * channels,
        forall|i: int, e: int|
            0 <= i < texts@.len() && 0 <= e < r@[i]@.len() ==> #[trigger] r@[i]@[e]
                <= PROB_SCALE,
        forall|i: int, b: int, c: int|
            0 <= i < texts@.len() && 0 <= b < texts@[i]@.len() && 0 <= c < channels
                ==> #[trigger] r@[i]@[b * channels + c] == reduced_prob(
                logits@,
                length as int,
                channels as int,
                indices@,
                i,
                b,
                padding as int,
                c,
            ),
{
    let mut r: Vec<Vec<u32>> = Vec::new();
    let mut i: usize = 0;
    while i < texts.len()
        invariant
            logits@.len() == rows * length * channels,
            channels >= 1,
            indices@.len() <= rows,
            indices@.len() * (PROB_SCALE as int) < u64::MAX,
            forall|w: int|
                0 <= w < indices@.len() ==> (#[trigger] indices@[w]).valid_length <= length,
            forall|w: int|
                0 <= w < indices@.len() ==> (#[trigger] indices@[w]).start
                    + indices@[w].valid_length < usize::MAX,
            forall|t: int|
                0 <= t < texts@.len() ==> #[trigger] texts@[t]@.len() + 2 * padding < usize::MAX,
            forall|t: int|
                0 <= t < texts@.len() ==> #[trigger] texts@[t]@.len() * channels < usize::MAX,
            i <= texts@.len(),
            r@.len() == i,
            forall|t: int|
                0 <= t < i ==> (#[trigger] r@[t])@.len() == texts@[t]@.len() * channels,
            forall|t: int, e: int|
                0 <= t < i && 0 <= e < r@[t]@.len() ==> #[trigger] r@[t]@[e] <= PROB_SCALE,
            forall|t: int, b: int, c: int|
                0 <= t < i && 0 <= b < texts@[t]@.len() && 0 <= c < channels
                    ==> #[trigger] r@[t]@[b * channels + c] == reduced_prob(
                    logits@,
                    length as int,
                    channels as int,
                    indices@,
                    t,
                    b,
                    padding as int,
                    c,
                ),
        decreases texts@.len() - i,
    {
        let len_i: usize = texts[i].len();
        let mut matrix: Vec<u32> = Vec::new();
        let mut b: usize = 0;
        while b < len_i
            invariant
                logits@.len() == rows * length * channels,
                channels >= 1,
                indices@.len() <= rows,
                indices@.len() * (PROB_SCALE as int) < u64::MAX,
                forall|w: int|
                    0 <= w < indices@.len() ==> (#[trigger] indices@[w]).valid_length <= length,
                forall|w: int|
                    0 <= w < indices@.len() ==> (#[trigger] indices@[w]).start
                        + indices@[w].valid_length < usize::MAX,
                i < texts@.len(),
                len_i == texts@[i as int]@.len(),
                texts@[i as int]@.len() + 2 * padding < usize::MAX,
                texts@[i as int]@.len() * channels < usize::MAX,
                b <= len_i,
                matrix@.len() == b * channels,
                forall|e: int| 0 <= e < matrix@.len() ==> #[trigger] matrix@[e] <= PROB_SCALE,
                forall|b0: int, c: int|
                    0 <= b0 < b && 0 <= c < channels ==> #[trigger] matrix@[b0 * channels + c]
                        == reduced_prob(
                        logits@,
                        length as int,
                        channels as int,
                        indices@,
                        i as int,
                        b0,
                        padding as int,
                        c,
                    ),
            decreases len_i - b,
        {
            let p: usize = b + padding;
            // Scan all windows, accumulating count and per-channel sums for
            // the padded position of this byte.
            let mut cnt: u64 = 0;
            let mut sums: Vec<u64> = Vec::new();
            let mut c0: usize = 0;
            while c0 < channels
                invariant
                    c0 <= channels,
                    sums@.len() == c0,
                    forall|c: int| 0 <= c < c0 ==> #[trigger] sums@[c] == 0,
                decreases channels - c0,
            {
                sums.push(0);
                c0 = c0 + 1;
            }
            let mut w: usize = 0;
            while w < indices.len()
                invariant
                    logits@.len() == rows * length * channels,
                    channels >= 1,
                    indices@.len() <= rows,
                    indices@.len() * (PROB_SCALE as int) < u64::MAX,
                    forall|w0: int|
                        0 <= w0 < indices@.len() ==> (#[trigger] indices@[w0]).valid_length
                            <= length,
                    forall|w0: int|
                        0 <= w0 < indices@.len() ==> (#[trigger] indices@[w0]).start
                            + indices@[w0].valid_length < usize::MAX,
                    w <= indices@.len(),
                    p == b + padding,
                    sums@.len() == channels,
                    cnt == cov_count(indices@, w as int, i as int, p as int),
                    cnt <= w,
                    forall|c: int|
                        0 <= c < channels ==> #[trigger] sums@[c] == cov_sum(
                            logits@,
                            length as int,
                            channels as int,
                            indices@,
                            w as int,
                            i as int,
                            p as int,
                            c,
                        ),
                    forall|c: int|
                        0 <= c < channels ==> #[trigger] sums@[c] <= cnt * (PROB_SCALE as int),
                decreases indices@.len() - w,
            {
                let e = indices[w];
                if e.input_id == i && e.start <= p && p < e.start + e.valid_length {
                    let pos: usize = p - e.start;
                    let mut c: usize = 0;
                    while c < channels
                        invariant
                            logits@.len() == rows * length * channels,
                            channels >= 1,
                            indices@.len() <= rows,
                            indices@.len() * (PROB_SCALE as int) < u64::MAX,
                            w < indices@.len(),
                            e == indices@[w as int],
                            covers(e, i as int, p as int),
                            pos == p - e.start,
                            pos < length,
                            c <= channels,
                            sums@.len() == channels,
                            cnt == cov_count(indices@, w as int, i as int, p as int),
                            cnt <= w,
                            forall|c1: int|
                                c <= c1 < channels ==> #[trigger] sums@[c1] == cov_sum(
                                    logits@,
                                    length as int,
                                    channels as int,
                                    indices@,
                                    w as int,
                                    i as int,
                                    p as int,
                                    c1,
                                ),
                            forall|c1: int|
                                0 <= c1 < c ==> #[trigger] sums@[c1] == cov_sum(
                                    logits@,
                                    length as int,
                                    channels as int,
                                    indices@,
                                    w as int + 1,
                                    i as int,
                                    p as int,
                                    c1,
                                ),
                            forall|c1: int|
                                c <= c1 < channels ==> #[trigger] sums@[c1] <= cnt * (
                                PROB_SCALE as int),
                            forall|c1: int|
                                0 <= c1 < c ==> #[trigger] sums@[c1] <= (cnt + 1) * (
                                PROB_SCALE as int),
                        decreases channels - c,
                    {
                        let total: usize = logits.len();
                        proof {
                            lemma_flat_index(
                                w as int,
                                pos as int,
                                c as int,
                                rows as int,
                                length as int,
                                channels as int,
                            );
                            assert(total as int == rows * length * channels);
                            assert(w * length + pos < total);
                            assert((w * length + pos) * channels + c < total);
                            assert((cnt + 1) * (PROB_SCALE as int) == cnt * (PROB_SCALE as int)
                                + PROB_SCALE) by (nonlinear_arith);
                        }
                        let flat: usize = (w * length + pos) * channels + c;
                        let s = sigmoid_q(logits[flat]);
                        let prev = sums[c];
                        sums.set(c, prev + (s as u64));
                        c = c + 1;
                    }
                    proof {
                        assert(cov_count(indices@, w as int + 1, i as int, p as int) == cnt + 1);
                        assert((cnt + 1) * (PROB_SCALE as int) <= indices@.len() * (
                        PROB_SCALE as int)) by (nonlinear_arith)
                            requires
                                cnt + 1 <= indices@.len(),
                        ;
                    }
                    cnt = cnt + 1;
                } else {
                    proof {
                        assert(!covers(indices@[w as int], i as int, p as int));
                        assert(cov_count(indices@, w as int + 1, i as int, p as int) == cnt);
                        assert forall|c1: int| 0 <= c1 < channels implies #[trigger] sums@[c1]
                            == cov_sum(
                            logits@,
                            length as int,
                            channels as int,
                            indices@,
                            w as int + 1,
                            i as int,
                            p as int,
                            c1,
                        ) by {
                            assert(sums@[c1] == cov_sum(
                                logits@,
                                length as int,
                                channels as int,
                                indices@,
                                w as int,
                                i as int,
                                p as int,
                                c1,
                            ));
                        };
                    }
                }
                w = w + 1;
            }
            // Average: counts of zero default to zero.
            let mut c: usize = 0;
            while c < channels
                invariant
                    channels >= 1,
                    i < texts@.len(),
                    len_i == texts@[i as int]@.len(),
                    texts@[i as int]@.len() * channels < usize::MAX,
                    b < len_i,
                    p == b + padding,
                    c <= channels,
                    sums@.len() == channels,
                    cnt == cov_count(indices@, indices@.len() as int, i as int, p as int),
                    forall|c1: int|
                        0 <= c1 < channels ==> #[trigger] sums@[c1] == cov_sum(
                            logits@,
                            length as int,
                            channels as int,
                            indices@,
                            indices@.len() as int,
                            i as int,
                            p as int,
                            c1,
                        ),
                    forall|c1: int|
                        0 <= c1 < channels ==> #[trigger] sums@[c1] <= cnt * (PROB_SCALE as int),
                    matrix@.len() == b * channels + c,
                    forall|e: int| 0 <= e < matrix@.len() ==> #[trigger] matrix@[e] <= PROB_SCALE,
                    forall|b0: int, c1: int|
                        0 <= b0 < b && 0 <= c1 < channels ==> #[trigger] matrix@[b0 * channels
                            + c1] == reduced_prob(
                            logits@,
                            length as int,
                            channels as int,
                            indices@,
                            i as int,
                            b0,
                            padding as int,
                            c1,
                        ),
                    forall|c1: int|
                        0 <= c1 < c ==> #[trigger] matrix@[b * channels + c1] == reduced_prob(
                            logits@,
                            length as int,
                            channels as int,
                            indices@,
                            i as int,
                            b as int,
                            padding as int,
                            c1,
                        ),
                decreases channels - c,
            {
                let v: u64 = if cnt > 0 {
                    let q = sums[c] / cnt;
                    proof {
                        vstd::arithmetic::div_mod::lemma_div_is_ordered(
                            sums@[c as int] as int,
                            cnt * (PROB_SCALE as int),
                            cnt as int,
                        );
                        assert(cnt * (PROB_SCALE as int) / (cnt as int) == PROB_SCALE as int)
                            by (nonlinear_arith)
                            requires
                                cnt > 0,
                        ;
                    }
                    q
                } else {
                    0
                };
                assert(v <= PROB_SCALE);
                matrix.push(v as u32);
                proof {
                    assert(matrix@.len() == b * channels + c + 1);
                    assert forall|b0: int, c1: int|
                        0 <= b0 < b && 0 <= c1 < channels implies #[trigger] matrix@[b0 * channels
                            + c1] == matrix@[b0 * channels + c1] && b0 * channels + c1 < b
                            * channels by {
                        assert(b0 * channels + c1 < b * channels) by (nonlinear_arith)
                            requires
                                0 <= b0 < b,
                                0 <= c1 < channels,
                        ;
                    };
                }
                c = c + 1;
            }
            proof {
                assert(b * channels + channels == (b + 1) * channels) by (nonlinear_arith);
                assert forall|b0: int, c1: int|
                    0 <= b0 < b + 1 && 0 <= c1 < channels implies #[trigger] matrix@[b0 * channels
                        + c1] == reduced_prob(
                        logits@,
                        length as int,
                        channels as int,
                        indices@,
                        i as int,
                        b0,
                        padding as int,
                        c1,
                    ) by {
                    if b0 < b {
                        assert(b0 * channels + c1 < b * channels) by (nonlinear_arith)
                            requires
                                b0 < b,
                                0 <= c1 < channels,
                                b0 >= 0,
                        ;
                    }
                };
            }
            b = b + 1;
        }
        r.push(matrix);
        i = i + 1;
    }
    r
}

/// Coverage: when every padded byte position of every input is covered by
/// the index table — as the tiler ensures — the reducer's counter for every
/// byte of every input is at least one.
pub proof fn lemma_counter_positive(indices: Seq<WindowIndex>, i: int, p: int)
    requires
        covered(indices, i, p),
    ensures
        cov_count(indices, indices.len() as int, i, p) >= 1,
{
    let w = choose|w: int|
        0 <= w < indices.len() && (#[trigger] indices[w]).input_id == i && indices[w].start <= p
            && p < indices[w].start + indices[w].valid_length;
    lemma_cov_count_from(indices, w, i, p);
}

/// A window that covers `p` makes every count over a prefix containing it
/// positive.
proof fn lemma_cov_count_from(indices: Seq<WindowIndex>, w: int, i: int, p: int)
    requires
        0 <= w < indices.len(),
        covers(indices[w], i, p),
    ensures
        forall|k: int|
            w < k <= indices.len() ==> #[trigger] cov_count(indices, k, i, p) >= 1,
    decreases indices.len(),
{
    assert forall|k: int|
        w < k <= indices.len() implies #[trigger] cov_count(indices, k, i, p) >= 1 by {
        lemma_cov_count_pos(indices, k, w, i, p);
    };
}

/// Counts over longer prefixes only grow.
proof fn lemma_cov_count_pos(indices: Seq<WindowIndex>, k: int, w: int, i: int, p: int)
    requires
        0 <= w < k,
        k <= indices.len(),
        covers(indices[w], i, p),
    ensures
        cov_count(indices, k, i, p) >= 1,
    decreases k,
{
    if k - 1 > w {
        lemma_cov_count_pos(indices, k - 1, w, i, p);
        assert(cov_count(indices, k, i, p) >= cov_count(indices, k - 1, i, p));
    } else {
        lemma_cov_count_nonneg(indices, k - 1, i, p);
    }
}

/// Counts are never negative.
proof fn lemma_cov_count_nonneg(indices: Seq<WindowIndex>, k: int, i: int, p: int)
    ensures
        cov_count(indices, k, i, p) >= 0,
    decreases k,
{
    if k > 0 {
        lemma_cov_count_nonneg(indices, k - 1, i, p);
    }
}

} // verus!
