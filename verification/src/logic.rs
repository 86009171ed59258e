use vstd::prelude::*;
use crate::errors::NNSplitError;
use crate::interpret::{Level, interpret, conforms, schema_valid};
use crate::metadata::parse_split_sequence;
use crate::options::NNSplitOptions;
use crate::reduce::{reduce, reduced_prob};
use crate::tiler::{tile, TiledInputs, WindowIndex, padded_len, padded_byte, covered, window_table};
use crate::tree::Split;
use crate::PROB_SCALE;

verus! {

/// The declarative schema of hierarchy levels, outermost first.
pub struct SplitSequence {
    pub levels: Vec<Level>,
}

impl SplitSequence {
    /// Every predicted level's threshold is a probability.
    pub open spec fn wf(self) -> bool {
        forall|l: int|
            0 <= l < self.levels@.len() ==> match #[trigger] self.levels@[l] {
                Level::Predicted { threshold, .. } => threshold <= PROB_SCALE,
                Level::Whitespace { .. } => true,
            }
    }

    /// The names of the levels, outermost first.
    pub fn get_levels(&self) -> (r: Vec<String>)
        ensures
            r@.len() == self.levels@.len(),
            forall|k: int|
                0 <= k < r@.len() ==> (#[trigger] r@[k])@ == self.levels@[k].name_view(),
    {
        let mut r: Vec<String> = Vec::new();
        let mut k: usize = 0;
        while k < self.levels.len()
            invariant
                k <= self.levels@.len(),
                r@.len() == k,
                forall|q: int|
                    0 <= q < k ==> (#[trigger] r@[q])@ == self.levels@[q].name_view(),
            decreases self.levels@.len() - k,
        {
            let name: String = match &self.levels[k] {
                Level::Predicted { name, .. } => name.as_str().to_owned(),
                Level::Whitespace { name } => name.as_str().to_owned(),
            };
            r.push(name);
            k = k + 1;
        }
        r
    }
}

/// The synchronous orchestration core of the splitter: it owns the options
/// and the schema, tiles inputs into windows, and turns predictions back
/// into split trees. The asynchronous runtime adapter sits between its two
/// halves and is the caller's concern.
pub struct NNSplitLogic {
    pub options: NNSplitOptions,
    pub split_sequence: SplitSequence,
}

/// The conditions under which a prediction tensor is accepted by `split`:
/// its row length is the configured window length, its row count covers the
/// index table, its flat size matches its dimensions, every schema channel
/// exists, the index table speaks only of the given texts and stays inside
/// their padded sequences, and the sizes stay within the machine's integers.
pub open spec fn prediction_ok(
    options: NNSplitOptions,
    levels: Seq<Level>,
    texts: Seq<Vec<u8>>,
    logits: Seq<i64>,
    rows: int,
    length: int,
    channels: int,
    indices: Seq<WindowIndex>,
) -> bool {
    &&& channels >= 1
    &&& length == options.max_length
    &&& rows >= indices.len()
    &&& logits.len() == rows * length * channels
    &&& schema_valid(levels, channels)
    &&& forall|w: int|
        0 <= w < indices.len() ==> (#[trigger] indices[w]).input_id < texts.len()
            && indices[w].valid_length <= length && indices[w].start + indices[w].valid_length
            <= padded_len(texts[indices[w].input_id as int]@, options.padding as int)
    &&& indices.len() * (PROB_SCALE as int) < u64::MAX
    &&& forall|i: int|
        0 <= i < texts.len() ==> (#[trigger] texts[i])@.len() + 2 * options.padding < usize::MAX
            && texts[i]@.len() * channels < usize::MAX
}

/// The per-byte probability matrix the reducer owes for input `i`, as one
/// flat row-major sequence of `len * cn` fixed-point values.
pub open spec fn reduced_matrix(
    logits: Seq<i64>,
    ln: int,
    cn: int,
    indices: Seq<WindowIndex>,
    i: int,
    len: int,
    padding: int,
) -> Seq<u32> {
    Seq::new(
        (len * cn) as nat,
        |e: int| reduced_prob(logits, ln, cn, indices, i, e / cn, padding, e % cn) as u32,
    )
}

/// A matrix whose entries satisfy the reducer's row-major contract is the
/// reduced matrix.
proof fn lemma_matrix_as_spec(
    m: Seq<u32>,
    logits: Seq<i64>,
    ln: int,
    cn: int,
    indices: Seq<WindowIndex>,
    i: int,
    len: int,
    padding: int,
)
    requires
        cn >= 1,
        len >= 0,
        m.len() == len * cn,
        forall|b: int, c: int|
            0 <= b < len && 0 <= c < cn ==> #[trigger] m[b * cn + c] == reduced_prob(
                logits,
                ln,
                cn,
                indices,
                i,
                b,
                padding,
                c,
            ),
    ensures
        m =~= reduced_matrix(logits, ln, cn, indices, i, len, padding),
{
    assert forall|e: int| 0 <= e < m.len() implies m[e] == reduced_matrix(
        logits,
        ln,
        cn,
        indices,
        i,
        len,
        padding,
    )[e] by {
        let b = e / cn;
        let c = e % cn;
        vstd::arithmetic::div_mod::lemma_fundamental_div_mod(e, cn);
        vstd::arithmetic::div_mod::lemma_div_pos_is_pos(e, cn);
        assert(0 <= c < cn);
        assert(0 <= b < len) by (nonlinear_arith)
            requires
                e == cn * b + c,
                0 <= e < len * cn,
                0 <= c < cn,
                cn >= 1,
                b >= 0,
        ;
        assert(b * cn + c == e) by (nonlinear_arith)
            requires
                e == cn * b + c,
        ;
        assert(m[b * cn + c] == reduced_prob(logits, ln, cn, indices, i, b, padding, c));
    };
}

impl NNSplitLogic {
    /// Valid options and a well-formed schema.
    pub open spec fn wf(self) -> bool {
        self.options.valid() && self.split_sequence.wf()
    }

    /// Validated construction from options and a ready schema: accepted
    /// exactly when the options are valid and every level's threshold is a
    /// probability; anything else is a configuration error.
    pub fn new(options: NNSplitOptions, levels: Vec<Level>) -> (r: Result<
        NNSplitLogic,
        NNSplitError,
    >)
        ensures
            match r {
                Ok(l) => l.options == options && l.split_sequence.levels@ == levels@ && l.wf(),
                Err(e) => e == NNSplitError::Config && !(options.valid()
                    && (SplitSequence { levels }).wf()),
            },
            r is Ok <==> options.valid() && (SplitSequence { levels }).wf(),
    {
        if !options.is_valid() {
            return Err(NNSplitError::Config);
        }
        let mut k: usize = 0;
        while k < levels.len()
            invariant
                k <= levels@.len(),
                forall|l: int|
                    0 <= l < k ==> match #[trigger] levels@[l] {
                        Level::Predicted { threshold, .. } => threshold <= PROB_SCALE,
                        Level::Whitespace { .. } => true,
                    },
            decreases levels@.len() - k,
        {
            let ok = match &levels[k] {
                Level::Predicted { threshold, .. } => *threshold <= PROB_SCALE,
                Level::Whitespace { .. } => true,
            };
            if !ok {
                return Err(NNSplitError::Config);
            }
            k = k + 1;
        }
        Ok(NNSplitLogic { options, split_sequence: SplitSequence { levels } })
    }

    /// Construction from options and the model's `split_sequence` metadata
    /// entry, as handed over by the runtime: absent metadata is a metadata
    /// error, invalid options a configuration error, and the JSON text is
    /// decoded by `parse_split_sequence`.
    pub fn from_metadata(options: NNSplitOptions, split_sequence_json: Option<&str>) -> (r: Result<
        NNSplitLogic,
        NNSplitError,
    >)
        ensures
            !options.valid() ==> r == Err::<NNSplitLogic, NNSplitError>(NNSplitError::Config),
            options.valid() ==> match split_sequence_json {
                None => r == Err::<NNSplitLogic, NNSplitError>(NNSplitError::Metadata),
                Some(j) => match r {
                    Ok(l) => l.options == options && l.wf() && crate::metadata::schema_of_plain(
                        crate::metadata::plain_json_of(j@),
                        options.threshold,
                    ) == Some(l.split_sequence.levels@),
                    Err(e) => e == NNSplitError::Metadata && crate::metadata::schema_of_plain(
                        crate::metadata::plain_json_of(j@),
                        options.threshold,
                    ) is None,
                },
            },
    {
        if !options.is_valid() {
            return Err(NNSplitError::Config);
        }
        let json = match split_sequence_json {
            Some(j) => j,
            None => {
                return Err(NNSplitError::Metadata);
            },
        };
        let levels = match parse_split_sequence(json, options.threshold) {
            Ok(l) => l,
            Err(e) => {
                return Err(e);
            },
        };
        Ok(NNSplitLogic { options, split_sequence: SplitSequence { levels } })
    }

    /// Tiles the texts into the window batch and index table that are
    /// submitted to the runtime; see `tile` for the exact shape. The batch
    /// covers every padded byte of every input at least once.
    pub fn get_inputs_and_indices(&self, texts: &Vec<Vec<u8>>) -> (r: TiledInputs)
        requires
            self.wf(),
            forall|i: int|
                0 <= i < texts@.len() ==> #[trigger] texts@[i]@.len() + 2 * self.options.padding
                    + self.options.max_length < usize::MAX,
        ensures
            r.batch@.len() as int % self.options.length_divisor as int == 0,
            r.indices@.len() <= r.batch@.len(),
            forall|w: int|
                0 <= w < r.batch@.len() ==> (#[trigger] r.batch@[w])@.len()
                    == self.options.max_length,
            forall|w: int|
                0 <= w < r.indices@.len() ==> (#[trigger] r.indices@[w]).input_id < texts@.len(),
            forall|w: int|
                0 <= w < r.indices@.len() ==> (#[trigger] r.indices@[w]).start
                    + r.indices@[w].valid_length <= padded_len(
                    texts@[r.indices@[w].input_id as int]@,
                    self.options.padding as int,
                ),
            forall|w: int|
                0 <= w < r.indices@.len() ==> (#[trigger] r.indices@[w]).valid_length
                    <= self.options.max_length,
            forall|w: int, b: int|
                0 <= w < r.indices@.len() && 0 <= b < self.options.max_length
                    ==> #[trigger] r.batch@[w]@[b] == padded_byte(
                    texts@[r.indices@[w].input_id as int]@,
                    self.options.padding as int,
                    r.indices@[w].start + b,
                ),
            forall|i: int, p: int|
                0 <= i < texts@.len() && 0 <= p < padded_len(
                    texts@[i]@,
                    self.options.padding as int,
                ) ==> #[trigger] covered(r.indices@, i, p),
            r.indices@ == window_table(texts@, self.options),
    {
        tile(texts, &self.options)
    }

    /// Turns the runtime's prediction tensor back into one split tree per
    /// input. The tensor is accepted exactly under `prediction_ok`; any
    /// mismatch is the shape error. On success the list has one tree per
    /// text, in order; each tree is well-formed, spans exactly its text, and
    /// conforms to the schema over the reduced probability matrix.
    pub fn split(
        &self,
        texts: &Vec<Vec<u8>>,
        logits: &Vec<i64>,
        rows: usize,
        length: usize,
        channels: usize,
        indices: &Vec<WindowIndex>,
    ) -> (r: Result<Vec<Split>, NNSplitError>)
        requires
            self.wf(),
        ensures
            r is Ok <==> prediction_ok(
                self.options,
                self.split_sequence.levels@,
                texts@,
                logits@,
                rows as int,
                length as int,
                channels as int,
                indices@,
            ),
            r matches Err(e) ==> e == NNSplitError::Shape,
            r matches Ok(trees) ==> trees@.len() == texts@.len() && (forall|i: int|
                0 <= i < texts@.len() ==> (#[trigger] trees@[i]).wf() && trees@[i].text_view()
                    == texts@[i]@ && conforms(
                    trees@[i],
                    texts@[i]@,
                    reduced_matrix(
                        logits@,
                        length as int,
                        channels as int,
                        indices@,
                        i,
                        texts@[i]@.len() as int,
                        self.options.padding as int,
                    ),
                    channels as int,
                    self.split_sequence.levels@,
                    0,
                    0,
                    texts@[i]@.len() as int,
                )),
    {
        if channels < 1 {
            return Err(NNSplitError::Shape);
        }
        if length != self.options.max_length {
            return Err(NNSplitError::Shape);
        }
        if rows < indices.len() {
            return Err(NNSplitError::Shape);
        }
        // The flat tensor size must equal rows * length * channels; checked
        // by division so that nothing overflows.
        let n = logits.len();
        if n % channels != 0 {
            proof {
                lemma_size_mismatch(n as int, rows as int, length as int, channels as int);
            }
            return Err(NNSplitError::Shape);
        }
        let q1 = n / channels;
        if q1 % length != 0 {
            proof {
                lemma_size_mismatch(n as int, rows as int, length as int, channels as int);
            }
            return Err(NNSplitError::Shape);
        }
        let q2 = q1 / length;
        if q2 != rows {
            proof {
                lemma_size_mismatch(n as int, rows as int, length as int, channels as int);
            }
            return Err(NNSplitError::Shape);
        }
        proof {
            vstd::arithmetic::div_mod::lemma_fundamental_div_mod(n as int, channels as int);
            vstd::arithmetic::div_mod::lemma_fundamental_div_mod(q1 as int, length as int);
            assert(n == rows * length * channels) by (nonlinear_arith)
                requires
                    n == (channels as int) * (q1 as int),
                    q1 == (length as int) * (rows as int),
            ;
        }
        // Every schema channel must exist in the tensor.
        let schema: &Vec<Level> = &self.split_sequence.levels;
        let mut l: usize = 0;
        while l < schema.len()
            invariant
                channels >= 1,
                schema == self.split_sequence.levels,
                l <= schema@.len(),
                forall|q: int|
                    0 <= q < l ==> match #[trigger] schema@[q] {
                        Level::Predicted { channel, .. } => channel < channels,
                        Level::Whitespace { .. } => true,
                    },
            decreases schema@.len() - l,
        {
            let ok = match &schema[l] {
                Level::Predicted { channel, .. } => *channel < channels,
                Level::Whitespace { .. } => true,
            };
            if !ok {
                return Err(NNSplitError::Shape);
            }
            l = l + 1;
        }
        // The index table must speak only of the given texts and stay inside
        // their padded sequences, and the sizes must fit the machine.
        let icount: u128 = indices.len() as u128;
        proof {
            assert(icount * (PROB_SCALE as u128) <= (u64::MAX as u128) * (PROB_SCALE as u128))
                by (nonlinear_arith)
                requires
                    icount <= u64::MAX as u128,
            ;
        }
        if icount * (PROB_SCALE as u128) >= u64::MAX as u128 {
            return Err(NNSplitError::Shape);
        }
        let mut w: usize = 0;
        while w < indices.len()
            invariant
                length == self.options.max_length,
                w <= indices@.len(),
                forall|q: int|
                    0 <= q < w ==> (#[trigger] indices@[q]).input_id < texts@.len()
                        && indices@[q].valid_length <= length && indices@[q].start
                        + indices@[q].valid_length <= padded_len(
                        texts@[indices@[q].input_id as int]@,
                        self.options.padding as int,
                    ),
            decreases indices@.len() - w,
        {
            let e = indices[w];
            if e.input_id >= texts.len() {
                return Err(NNSplitError::Shape);
            }
            if e.valid_length > length {
                return Err(NNSplitError::Shape);
            }
            let tlen = texts[e.input_id].len();
            if (e.start as u128) + (e.valid_length as u128) > (tlen as u128) + 2 * (
            self.options.padding as u128) {
                return Err(NNSplitError::Shape);
            }
            w = w + 1;
        }
        let mut i: usize = 0;
        while i < texts.len()
            invariant
                i <= texts@.len(),
                channels >= 1,
                forall|t: int|
                    0 <= t < i ==> (#[trigger] texts@[t])@.len() + 2 * self.options.padding
                        < usize::MAX && texts@[t]@.len() * channels < usize::MAX,
            decreases texts@.len() - i,
        {
            let tlen = texts[i].len();
            if (tlen as u128) + 2 * (self.options.padding as u128) >= usize::MAX as u128 {
                return Err(NNSplitError::Shape);
            }
            proof {
                assert((tlen as u128) * (channels as u128) <= (u64::MAX as u128) * (
                u64::MAX as u128)) by (nonlinear_arith)
                    requires
                        (tlen as u128) <= u64::MAX as u128,
                        (channels as u128) <= u64::MAX as u128,
                ;
            }
            if (tlen as u128) * (channels as u128) >= usize::MAX as u128 {
                return Err(NNSplitError::Shape);
            }
            i = i + 1;
        }
        // Reduce the tensor to per-byte probabilities, then interpret the
        // schema over each input.
        let matrices = reduce(texts, logits, rows, length, channels, indices, self.options.padding);
        let mut trees: Vec<Split> = Vec::new();
        let mut t: usize = 0;
        while t < texts.len()
            invariant
                self.wf(),
                channels >= 1,
                t <= texts@.len(),
                trees@.len() == t,
                matrices@.len() == texts@.len(),
                forall|i0: int|
                    0 <= i0 < texts@.len() ==> (#[trigger] matrices@[i0])@.len()
                        == texts@[i0]@.len() * channels,
                forall|i0: int, b: int, c: int|
                    0 <= i0 < texts@.len() && 0 <= b < texts@[i0]@.len() && 0 <= c < channels
                        ==> #[trigger] matrices@[i0]@[b * channels + c] == reduced_prob(
                        logits@,
                        length as int,
                        channels as int,
                        indices@,
                        i0,
                        b,
                        self.options.padding as int,
                        c,
                    ),
                schema_valid(self.split_sequence.levels@, channels as int),
                forall|i0: int|
                    0 <= i0 < t ==> (#[trigger] trees@[i0]).wf() && trees@[i0].text_view()
                        == texts@[i0]@ && conforms(
                        trees@[i0],
                        texts@[i0]@,
                        reduced_matrix(
                            logits@,
                            length as int,
                            channels as int,
                            indices@,
                            i0,
                            texts@[i0]@.len() as int,
                            self.options.padding as int,
                        ),
                        channels as int,
                        self.split_sequence.levels@,
                        0,
                        0,
                        texts@[i0]@.len() as int,
                    ),
            decreases texts@.len() - t,
        {
            let text: &Vec<u8> = &texts[t];
            let matrix: &Vec<u32> = &matrices[t];
            let tree = interpret(
                text,
                matrix,
                channels,
                &self.split_sequence.levels,
                0,
                0,
                text.len(),
            );
            proof {
                lemma_matrix_as_spec(
                    matrix@,
                    logits@,
                    length as int,
                    channels as int,
                    indices@,
                    t as int,
                    texts@[t as int]@.len() as int,
                    self.options.padding as int,
                );
                assert(texts@[t as int]@.subrange(0, texts@[t as int]@.len() as int) =~= texts@[
                    t as int]@);
            }
            trees.push(tree);
            t = t + 1;
        }
        Ok(trees)
    }
}

/// Determinism of the pipeline: any two tree lists that conform to the same
/// schema over the same texts and the same reduced probabilities — as
/// `split` ensures of its result — are pairwise equivalent, equal in text
/// and shape throughout. Together with the tiler's table being pinned to
/// `window_table`, the split is a pure function of the texts, the options,
/// the schema and the runtime's logits.
pub proof fn lemma_split_deterministic(
    t1: Seq<Split>,
    t2: Seq<Split>,
    texts: Seq<Vec<u8>>,
    logits: Seq<i64>,
    length: int,
    channels: int,
    indices: Seq<WindowIndex>,
    levels: Seq<Level>,
    padding: int,
)
    requires
        t1.len() == texts.len(),
        t2.len() == texts.len(),
        forall|i: int|
            0 <= i < texts.len() ==> conforms(
                #[trigger] t1[i],
                texts[i]@,
                reduced_matrix(logits, length, channels, indices, i, texts[i]@.len() as int, padding),
                channels,
                levels,
                0,
                0,
                texts[i]@.len() as int,
            ),
        forall|i: int|
            0 <= i < texts.len() ==> conforms(
                #[trigger] t2[i],
                texts[i]@,
                reduced_matrix(logits, length, channels, indices, i, texts[i]@.len() as int, padding),
                channels,
                levels,
                0,
                0,
                texts[i]@.len() as int,
            ),
    ensures
        forall|i: int| 0 <= i < texts.len() ==> (#[trigger] t1[i]).equiv(t2[i]),
{
    assert forall|i: int| 0 <= i < texts.len() implies (#[trigger] t1[i]).equiv(t2[i]) by {
        crate::interpret::lemma_conforming_trees_equal(
            t1[i],
            t2[i],
            texts[i]@,
            reduced_matrix(logits, length, channels, indices, i, texts[i]@.len() as int, padding),
            channels,
            levels,
            0,
            0,
            texts[i]@.len() as int,
        );
    };
}

/// When the flat size matches the dimensions, the divisibility checks all
/// pass; taken contrapositively, a failed check refutes the match.
proof fn lemma_size_mismatch(n: int, rows: int, length: int, channels: int)
    requires
        channels >= 1,
        length >= 1,
        rows >= 0,
    ensures
        n == rows * length * channels ==> (n % channels == 0 && (n / channels) % length == 0 && n
            / channels / length == rows),
{
    if n == rows * length * channels {
        vstd::arithmetic::div_mod::lemma_mod_multiples_basic(rows * length, channels);
        assert(rows * length >= 0) by (nonlinear_arith)
            requires
                rows >= 0,
                length >= 1,
        ;
        vstd::arithmetic::div_mod::lemma_div_by_multiple(rows * length, channels);
        assert(n / channels == rows * length);
        vstd::arithmetic::div_mod::lemma_mod_multiples_basic(rows, length);
        vstd::arithmetic::div_mod::lemma_div_by_multiple(rows, length);
        assert((n / channels) % length == 0);
        assert(n / channels / length == rows);
    }
}

} // verus!

verus! {

/// The row ranges the window batch is submitted to the runtime in: each at
/// most `batch_size` rows, consecutive, in order, and together covering
/// `0 .. total` exactly. The caller performs one predict call per range and
/// concatenates the outputs in order.
pub fn chunk_ranges(total: usize, batch_size: usize) -> (r: Vec<(usize, usize)>)
    requires
        batch_size >= 1,
    ensures
        total == 0 ==> r@.len() == 0,
        total > 0 ==> r@.len() >= 1 && r@[r@.len() - 1].1 == total && (r@.len() - 1) * batch_size
            < total <= r@.len() * batch_size,
        forall|k: int| 0 <= k < r@.len() ==> (#[trigger] r@[k]).0 == k * batch_size,
        forall|k: int|
            0 <= k < r@.len() - 1 ==> (#[trigger] r@[k]).1 == (k + 1) * batch_size,
        forall|k: int|
            0 <= k < r@.len() ==> (#[trigger] r@[k]).0 < r@[k].1 && r@[k].1 - r@[k].0
                <= batch_size && r@[k].1 <= total,
{
    let mut r: Vec<(usize, usize)> = Vec::new();
    let mut s: usize = 0;
    proof {
        assert(0 * batch_size == 0) by (nonlinear_arith);
    }
    while s < total
        invariant
            batch_size >= 1,
            s <= total,
            s == r@.len() * batch_size || s == total,
            s == total ==> r@.len() * batch_size >= total,
            r@.len() == 0 || ((r@.len() - 1) * batch_size < total && r@[r@.len() - 1].1 == s),
            forall|k: int| 0 <= k < r@.len() ==> (#[trigger] r@[k]).0 == k * batch_size,
            forall|k: int|
                0 <= k < r@.len() - 1 ==> (#[trigger] r@[k]).1 == (k + 1) * batch_size,
            forall|k: int|
                0 <= k < r@.len() ==> (#[trigger] r@[k]).0 < r@[k].1 && r@[k].1 - r@[k].0
                    <= batch_size && r@[k].1 <= total,
        decreases total - s,
    {
        let e: usize = if total - s < batch_size {
            total
        } else {
            s + batch_size
        };
        proof {
            assert((r@.len() + 1) * batch_size == r@.len() * batch_size + batch_size)
                by (nonlinear_arith);
        }
        r.push((s, e));
        s = e;
    }
    r
}

} // verus!
