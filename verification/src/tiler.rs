use vstd::prelude::*;
use crate::options::NNSplitOptions;

verus! {

/// One row of the index table: which window came from which input, at which
/// byte offset of the padded sequence, and how many of its bytes lie inside
/// the padded sequence.
#[derive(Clone, Copy, PartialEq, Eq, Structural, Debug)]
pub struct WindowIndex {
    pub input_id: usize,
    pub start: usize,
    pub valid_length: usize,
}

/// The byte the padded sequence of `text` holds at `pos`: zero over the
/// padding on either side, the text's byte in between.
pub open spec fn padded_byte(text: Seq<u8>, padding: int, pos: int) -> u8 {
    if padding <= pos < padding + text.len() {
        text[pos - padding]
    } else {
        0
    }
}

/// Length of the padded sequence of `text`.
pub open spec fn padded_len(text: Seq<u8>, padding: int) -> int {
    text.len() + 2 * padding
}

/// Length of the dimension an input is tiled over: the padded length,
/// extended to hold at least one full window.
pub open spec fn effective_len(text: Seq<u8>, padding: int, max_length: int) -> int {
    if padded_len(text, padding) < max_length {
        max_length
    } else {
        padded_len(text, padding)
    }
}

/// How many windows tile a sequence of length `eff`: the strides that fall
/// short of the final offset, plus the final window flush with the end.
pub open spec fn offsets_len(eff: int, max_length: int, stride: int) -> int {
    1 + ((eff - max_length) + stride - 1) / stride
}

/// The offset of window `j` over a sequence of length `eff`: the `j`-th
/// multiple of the stride, except that the last window sits flush with the
/// end.
pub open spec fn offset_at(eff: int, max_length: int, stride: int, j: int) -> int {
    if j < offsets_len(eff, max_length, stride) - 1 {
        j * stride
    } else {
        eff - max_length
    }
}

/// How many bytes of the window at `start` lie inside the padded sequence.
pub open spec fn window_valid_length(text: Seq<u8>, padding: int, max_length: int, start: int) -> int {
    if padded_len(text, padding) - start < max_length {
        padded_len(text, padding) - start
    } else {
        max_length
    }
}

/// The index-table rows of input `i`: one per window offset, in offset
/// order.
pub open spec fn input_table(text: Seq<u8>, options: NNSplitOptions, i: int) -> Seq<WindowIndex> {
    let eff = effective_len(text, options.padding as int, options.max_length as int);
    Seq::new(
        offsets_len(eff, options.max_length as int, options.stride as int) as nat,
        |j: int|
            WindowIndex {
                input_id: i as usize,
                start: offset_at(eff, options.max_length as int, options.stride as int, j) as usize,
                valid_length: window_valid_length(
                    text,
                    options.padding as int,
                    options.max_length as int,
                    offset_at(eff, options.max_length as int, options.stride as int, j),
                ) as usize,
            },
    )
}

/// The index table of the first `i` inputs, input-major.
pub open spec fn window_table_upto(texts: Seq<Vec<u8>>, options: NNSplitOptions, i: int) -> Seq<
    WindowIndex,
>
    decreases i,
{
    if i <= 0 {
        Seq::empty()
    } else {
        window_table_upto(texts, options, i - 1) + input_table(texts[i - 1]@, options, i - 1)
    }
}

/// The whole index table the tiler owes: for every input in order, one row
/// per window offset.
pub open spec fn window_table(texts: Seq<Vec<u8>>, options: NNSplitOptions) -> Seq<WindowIndex> {
    window_table_upto(texts, options, texts.len() as int)
}

/// Position `p` of the padded sequence of input `i` lies inside the valid
/// range of at least one window of the index table.
pub open spec fn covered(indices: Seq<WindowIndex>, i: int, p: int) -> bool {
    exists|w: int|
        0 <= w < indices.len() && (#[trigger] indices[w]).input_id == i && indices[w].start <= p
            && p < indices[w].start + indices[w].valid_length
}

/// Adding one more window to the table keeps every covered position covered.
pub proof fn lemma_covered_push(indices: Seq<WindowIndex>, e: WindowIndex, i: int, p: int)
    requires
        covered(indices, i, p),
    ensures
        covered(indices.push(e), i, p),
{
    let w = choose|w: int|
        0 <= w < indices.len() && (#[trigger] indices[w]).input_id == i && indices[w].start <= p
            && p < indices[w].start + indices[w].valid_length;
    assert(indices.push(e)[w] == indices[w]);
}

/// Offsets of the windows tiled over a sequence of length `eff`: one window
/// every `stride` bytes, and a final window flush with the end.
///
/// The contract pins the offsets exactly: all but the last sit at the
/// consecutive multiples of `stride` that fall short of the final offset,
/// and the last sits at `eff - max_length`.
pub fn window_offsets(eff: usize, max_length: usize, stride: usize) -> (r: Vec<usize>)
    requires
        1 <= stride <= max_length <= eff,
    ensures
        r@.len() >= 1,
        r@.len() == offsets_len(eff as int, max_length as int, stride as int),
        r@[r@.len() - 1] == eff - max_length,
        forall|j: int| 0 <= j < r@.len() - 1 ==> #[trigger] r@[j] == j * stride,
        forall|j: int| 0 <= j < r@.len() - 1 ==> #[trigger] r@[j] < eff - max_length,
        (r@.len() - 1) * stride >= eff - max_length,
        forall|j: int| 0 <= j < r@.len() ==> #[trigger] r@[j] + max_length <= eff,
        forall|j: int|
            0 <= j < r@.len() ==> #[trigger] r@[j] == offset_at(
                eff as int,
                max_length as int,
                stride as int,
                j,
            ),
{
    let n: usize = eff - max_length;
    let mut r: Vec<usize> = Vec::new();
    let mut offset: usize = 0;
    proof {
        assert(r@.len() == 0);
        assert(0 * stride == 0) by (nonlinear_arith);
    }
    while offset < n
        invariant
            1 <= stride <= max_length <= eff,
            n == eff - max_length,
            offset == r@.len() * stride,
            forall|j: int| 0 <= j < r@.len() ==> #[trigger] r@[j] == j * stride,
            forall|j: int| 0 <= j < r@.len() ==> #[trigger] r@[j] < n,
            offset <= n + stride,
        decreases n + stride - offset,
    {
        r.push(offset);
        proof {
            assert((r@.len() - 1) * stride + stride == r@.len() * stride) by (nonlinear_arith);
        }
        offset = offset + stride;
    }
    let ghost reg = r@.len();
    r.push(n);
    proof {
        assert(r@.len() - 1 == reg);
        assert(reg * stride >= n);
        assert forall|j: int| 0 <= j < r@.len() implies #[trigger] r@[j] + max_length <= eff by {
            if j < reg {
                assert(r@[j] < n);
            } else {
                assert(r@[j] == n);
            }
        };
        let x = n + stride - 1;
        let rem = x - reg * stride;
        if reg > 0 {
            assert(r@[reg - 1] == (reg - 1) * stride);
            assert(r@[reg - 1] < n);
            assert(reg * stride == (reg - 1) * stride + stride) by (nonlinear_arith);
        }
        assert(0 <= rem < stride);
        vstd::arithmetic::div_mod::lemma_fundamental_div_mod_converse(
            x,
            stride as int,
            reg as int,
            rem,
        );
        assert(r@.len() == offsets_len(eff as int, max_length as int, stride as int));
        assert forall|j: int| 0 <= j < r@.len() implies #[trigger] r@[j] == offset_at(
            eff as int,
            max_length as int,
            stride as int,
            j,
        ) by {
            if j < reg {
                assert(r@[j] == j * stride);
            } else {
                assert(r@[j] == n);
            }
        };
    }
    r
}

/// Every position of the tiled dimension lies inside at least one window:
/// consecutive offsets are at most one stride apart, a stride is at most one
/// window, and the final window is flush with the end.
pub proof fn lemma_offsets_cover(offs: Seq<usize>, eff: int, max_length: int, stride: int, p: int)
    requires
        1 <= stride <= max_length <= eff,
        offs.len() >= 1,
        offs[offs.len() - 1] == eff - max_length,
        forall|j: int| 0 <= j < offs.len() - 1 ==> #[trigger] offs[j] == j * stride,
        forall|j: int| 0 <= j < offs.len() - 1 ==> #[trigger] offs[j] < eff - max_length,
        (offs.len() - 1) * stride >= eff - max_length,
        0 <= p < eff,
    ensures
        exists|j: int| 0 <= j < offs.len() && #[trigger] offs[j] <= p && p < offs[j] + max_length,
{
    let last = offs.len() - 1;
    if p >= eff - max_length {
        assert(offs[last] <= p && p < offs[last] + max_length);
    } else {
        let j = p / stride;
        vstd::arithmetic::div_mod::lemma_fundamental_div_mod(p, stride);
        vstd::arithmetic::div_mod::lemma_div_pos_is_pos(p, stride);
        assert(j * stride <= p < j * stride + stride) by (nonlinear_arith)
            requires
                stride >= 1,
                j == p / stride,
                p == stride * (p / stride) + p % stride,
                0 <= p % stride < stride,
        ;
        assert(j < last) by (nonlinear_arith)
            requires
                j * stride <= p,
                p < eff - max_length,
                last * stride >= eff - max_length,
                stride >= 1,
                j >= 0,
        ;
        assert(offs[j] == j * stride);
        assert(offs[j] <= p && p < offs[j] + max_length);
    }
}

/// Appends all-zero rows of length `max_length` until the number of rows is
/// a multiple of `divisor`. The rows already present are left as they are.
fn pad_to_multiple(batch: &mut Vec<Vec<u8>>, divisor: usize, max_length: usize)
    requires
        divisor >= 1,
    ensures
        final(batch)@.len() as int % divisor as int == 0,
        final(batch)@.len() >= old(batch)@.len(),
        final(batch)@.len() < old(batch)@.len() + divisor,
        forall|w: int|
            0 <= w < old(batch)@.len() ==> #[trigger] final(batch)@[w] == old(batch)@[w],
        forall|w: int|
            old(batch)@.len() <= w < final(batch)@.len() ==> (#[trigger] final(batch)@[w])@.len()
                == max_length && forall|b: int|
                0 <= b < max_length ==> (#[trigger] final(batch)@[w])@[b] == 0,
{
    let rem: usize = batch.len() % divisor;
    let extra: usize = if rem == 0 {
        0
    } else {
        divisor - rem
    };
    assert(extra < divisor);
    proof {
        let len = batch@.len() as int;
        let d = divisor as int;
        let q = len / d;
        vstd::arithmetic::div_mod::lemma_fundamental_div_mod(len, d);
        assert(len == d * q + rem);
        if rem == 0 {
            vstd::arithmetic::div_mod::lemma_mod_multiples_basic(q, d);
            assert((len + extra) as int % d == 0);
        } else {
            assert(len + extra == (q + 1) * d) by (nonlinear_arith)
                requires
                    len == d * q + rem,
                    extra == d - rem,
            ;
            vstd::arithmetic::div_mod::lemma_mod_multiples_basic(q + 1, d);
            assert((len + extra) as int % d == 0);
        }
    }
    let mut a: usize = 0;
    while a < extra
        invariant
            a <= extra,
            batch@.len() == old(batch)@.len() + a,
            (old(batch)@.len() + extra) as int % divisor as int == 0,
            forall|w: int| 0 <= w < old(batch)@.len() ==> #[trigger] batch@[w] == old(batch)@[w],
            forall|w: int|
                old(batch)@.len() <= w < batch@.len() ==> (#[trigger] batch@[w])@.len()
                    == max_length && forall|b: int|
                    0 <= b < max_length ==> (#[trigger] batch@[w])@[b] == 0,
        decreases extra - a,
    {
        let mut row: Vec<u8> = Vec::new();
        let mut b: usize = 0;
        while b < max_length
            invariant
                b <= max_length,
                row@.len() == b,
                forall|q: int| 0 <= q < b ==> #[trigger] row@[q] == 0,
            decreases max_length - b,
        {
            row.push(0);
            b = b + 1;
        }
        batch.push(row);
        a = a + 1;
    }
}

/// A packed batch of windows plus its index table.
pub struct TiledInputs {
    /// One row per window, each exactly `max_length` bytes.
    pub batch: Vec<Vec<u8>>,
    /// One entry per real window; the trailing all-zero alignment rows of
    /// `batch` have no entry.
    pub indices: Vec<WindowIndex>,
}

/// Tiles a list of byte texts into a packed batch of windows plus an index
/// table.
///
/// The contract pins the batch down: row `w` holds the bytes of the padded
/// sequence of its input starting at the row's offset, the index table
/// records input, offset and number of bytes inside the padded sequence,
/// every padded position of every input is covered by at least one window,
/// and the batch ends with all-zero alignment rows that bring its row count
/// to a multiple of the length divisor.
pub fn tile(texts: &Vec<Vec<u8>>, options: &NNSplitOptions) -> (r: TiledInputs)
    requires
        options.valid(),
        forall|i: int|
            0 <= i < texts@.len() ==> #[trigger] texts@[i]@.len() + 2 * options.padding
                + options.max_length < usize::MAX,
    ensures
        r.batch@.len() as int % options.length_divisor as int == 0,
        r.indices@.len() <= r.batch@.len(),
        forall|w: int|
            0 <= w < r.batch@.len() ==> (#[trigger] r.batch@[w])@.len() == options.max_length,
        forall|w: int|
            r.indices@.len() <= w < r.batch@.len() ==> forall|b: int|
                0 <= b < options.max_length ==> (#[trigger] r.batch@[w])@[b] == 0,
        forall|w: int|
            0 <= w < r.indices@.len() ==> (#[trigger] r.indices@[w]).input_id < texts@.len(),
        forall|w: int|
            0 <= w < r.indices@.len() ==> (#[trigger] r.indices@[w]).start
                + r.indices@[w].valid_length <= padded_len(
                texts@[r.indices@[w].input_id as int]@,
                options.padding as int,
            ),
        forall|w: int|
            0 <= w < r.indices@.len() ==> (#[trigger] r.indices@[w]).valid_length
                <= options.max_length,
        forall|w: int, b: int|
            0 <= w < r.indices@.len() && 0 <= b < options.max_length
                ==> #[trigger] r.batch@[w]@[b] == padded_byte(
                texts@[r.indices@[w].input_id as int]@,
                options.padding as int,
                r.indices@[w].start + b,
            ),
        forall|i: int, p: int|
            0 <= i < texts@.len() && 0 <= p < padded_len(texts@[i]@, options.padding as int)
                ==> #[trigger] covered(r.indices@, i, p),
        r.indices@ == window_table(texts@, *options),
        r.batch@.len() < r.indices@.len() + options.length_divisor,
{
    let max_length = options.max_length;
    let padding = options.padding;
    let mut batch: Vec<Vec<u8>> = Vec::new();
    let mut indices: Vec<WindowIndex> = Vec::new();
    let mut i: usize = 0;
    while i < texts.len()
        invariant
            options.valid(),
            forall|t: int|
                0 <= t < texts@.len() ==> #[trigger] texts@[t]@.len() + 2 * options.padding
                    + options.max_length < usize::MAX,
            max_length == options.max_length,
            padding == options.padding,
            i <= texts@.len(),
            indices@ == window_table_upto(texts@, *options, i as int),
            batch@.len() == indices@.len(),
            forall|w: int| 0 <= w < batch@.len() ==> (#[trigger] batch@[w])@.len() == max_length,
            forall|w: int| 0 <= w < indices@.len() ==> (#[trigger] indices@[w]).input_id < i,
            forall|w: int|
                0 <= w < indices@.len() ==> (#[trigger] indices@[w]).start
                    + indices@[w].valid_length <= padded_len(
                    texts@[indices@[w].input_id as int]@,
                    padding as int,
                ),
            forall|w: int|
                0 <= w < indices@.len() ==> (#[trigger] indices@[w]).valid_length <= max_length,
            forall|w: int, b: int|
                0 <= w < indices@.len() && 0 <= b < max_length ==> #[trigger] batch@[w]@[b]
                    == padded_byte(
                    texts@[indices@[w].input_id as int]@,
                    padding as int,
                    indices@[w].start + b,
                ),
            forall|t: int, p: int|
                0 <= t < i && 0 <= p < padded_len(texts@[t]@, padding as int)
                    ==> #[trigger] covered(indices@, t, p),
        decreases texts@.len() - i,
    {
        let text: &Vec<u8> = &texts[i];
        let plen: usize = text.len() + 2 * padding;
        let eff: usize = if plen < max_length {
            max_length
        } else {
            plen
        };
        let offs = window_offsets(eff, max_length, options.stride);
        let ghost offs_snap = offs@;
        let ghost old_len = indices@.len();
        let mut k: usize = 0;
        while k < offs.len()
            invariant
                options.valid(),
                max_length == options.max_length,
                padding == options.padding,
                i < texts@.len(),
                text == texts@[i as int],
                texts@[i as int]@.len() + 2 * padding + max_length < usize::MAX,
                plen == padded_len(texts@[i as int]@, padding as int),
                eff == effective_len(texts@[i as int]@, padding as int, max_length as int),
                max_length <= eff,
                offs@ == offs_snap,
                forall|j: int| 0 <= j < offs@.len() ==> #[trigger] offs@[j] + max_length <= eff,
                offs_snap.len() == offsets_len(eff as int, max_length as int, options.stride as int),
                forall|j: int|
                    0 <= j < offs_snap.len() ==> #[trigger] offs_snap[j] == offset_at(
                        eff as int,
                        max_length as int,
                        options.stride as int,
                        j,
                    ),
                indices@.subrange(0, old_len as int) == window_table_upto(
                    texts@,
                    *options,
                    i as int,
                ),
                k <= offs@.len(),
                old_len <= indices@.len(),
                indices@.len() == old_len + k,
                batch@.len() == indices@.len(),
                forall|w: int|
                    0 <= w < batch@.len() ==> (#[trigger] batch@[w])@.len() == max_length,
                forall|w: int| 0 <= w < old_len ==> (#[trigger] indices@[w]).input_id < i,
                forall|w: int|
                    old_len <= w < indices@.len() ==> (#[trigger] indices@[w]).input_id
                        == i as int,
                forall|w: int|
                    old_len <= w < indices@.len() ==> (#[trigger] indices@[w]).start == offs_snap[
                        w - old_len],
                forall|w: int|
                    old_len <= w < indices@.len() ==> (#[trigger] indices@[w]).valid_length == (
                    if plen - indices@[w].start < max_length as int {
                        plen - indices@[w].start
                    } else {
                        max_length as int
                    }),
                forall|w: int|
                    0 <= w < indices@.len() ==> (#[trigger] indices@[w]).start
                        + indices@[w].valid_length <= padded_len(
                        texts@[indices@[w].input_id as int]@,
                        padding as int,
                    ),
                forall|w: int|
                    0 <= w < indices@.len() ==> (#[trigger] indices@[w]).valid_length
                        <= max_length,
                forall|w: int, b: int|
                    0 <= w < indices@.len() && 0 <= b < max_length ==> #[trigger] batch@[w]@[b]
                        == padded_byte(
                        texts@[indices@[w].input_id as int]@,
                        padding as int,
                        indices@[w].start + b,
                    ),
                forall|t: int, p: int|
                    0 <= t < i && 0 <= p < padded_len(texts@[t]@, padding as int)
                        ==> #[trigger] covered(indices@, t, p),
            decreases offs@.len() - k,
        {
            let start: usize = offs[k];
            assert(start + max_length <= eff);
            let valid: usize = if plen - start < max_length {
                plen - start
            } else {
                max_length
            };
            let mut row: Vec<u8> = Vec::new();
            let mut b: usize = 0;
            while b < max_length
                invariant
                    b <= max_length,
                    row@.len() == b,
                    start + max_length <= eff,
                    text == texts@[i as int],
                    i < texts@.len(),
                    texts@[i as int]@.len() + 2 * padding + max_length < usize::MAX,
                    plen == padded_len(texts@[i as int]@, padding as int),
                    forall|q: int|
                        0 <= q < b ==> #[trigger] row@[q] == padded_byte(
                            texts@[i as int]@,
                            padding as int,
                            start + q,
                        ),
                decreases max_length - b,
            {
                let pos: usize = start + b;
                let byte: u8 = if pos >= padding && pos < padding + text.len() {
                    text[pos - padding]
                } else {
                    0
                };
                row.push(byte);
                b = b + 1;
            }
            batch.push(row);
            let ghost pre = indices@;
            let e = WindowIndex { input_id: i, start, valid_length: valid };
            indices.push(e);
            proof {
                assert(indices@.subrange(0, old_len as int) =~= pre.subrange(0, old_len as int));
                assert forall|t: int, p: int|
                    0 <= t < i && 0 <= p < padded_len(texts@[t]@, padding as int)
                        implies #[trigger] covered(indices@, t, p) by {
                    assert(covered(pre, t, p));
                    lemma_covered_push(pre, e, t, p);
                };
            }
            k = k + 1;
        }
        proof {
            assert forall|p: int|
                0 <= p < padded_len(texts@[i as int]@, padding as int) implies covered(
                indices@,
                i as int,
                p,
            ) by {
                lemma_offsets_cover(
                    offs_snap,
                    eff as int,
                    max_length as int,
                    options.stride as int,
                    p,
                );
                let j = choose|j: int|
                    0 <= j < offs_snap.len() && #[trigger] offs_snap[j] <= p && p < offs_snap[j]
                        + max_length;
                let w = old_len + j;
                assert(indices@[w].input_id == i as int);
                assert(indices@[w].start == offs_snap[j]);
                assert(indices@[w].start <= p);
                assert(p < indices@[w].start + indices@[w].valid_length);
            };
            let tbl = input_table(texts@[i as int]@, *options, i as int);
            assert(tbl.len() == offs_snap.len());
            assert forall|w: int|
                old_len <= w < indices@.len() implies #[trigger] indices@[w] == tbl[w
                - old_len] by {
                let j = w - old_len;
                assert(indices@[w].start == offs_snap[j]);
                assert(offs_snap[j] == offset_at(
                    eff as int,
                    max_length as int,
                    options.stride as int,
                    j,
                ));
                assert(indices@[w].input_id == i as int);
            };
            assert(indices@ =~= window_table_upto(texts@, *options, i as int) + tbl);
            assert(window_table_upto(texts@, *options, i as int + 1) == window_table_upto(
                texts@,
                *options,
                i as int,
            ) + tbl);
        }
        i = i + 1;
    }
    pad_to_multiple(&mut batch, options.length_divisor, max_length);
    TiledInputs { batch, indices }
}

} // verus!
