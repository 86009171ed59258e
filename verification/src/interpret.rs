use vstd::prelude::*;
use crate::tree::{Split, all_wf, texts_concat, equiv_all, lemma_texts_concat_push, lemma_all_wf_push};

verus! {

/// One level of the split-sequence schema: either a predicted level that
/// reads one probability channel against a threshold, or a whitespace level
/// that cuts after every maximal whitespace run.
pub enum Level {
    Predicted { name: String, channel: usize, threshold: u32 },
    Whitespace { name: String },
}

impl Level {
    pub open spec fn name_view(self) -> Seq<char> {
        match self {
            Level::Predicted { name, .. } => name@,
            Level::Whitespace { name } => name@,
        }
    }
}

/// ASCII whitespace: space, tab, line feed, form feed, carriage return.
pub open spec fn is_ws(b: u8) -> bool {
    b == 32 || b == 9 || b == 10 || b == 12 || b == 13
}

/// Every predicted level of the schema reads a channel the probability
/// matrix has.
pub open spec fn schema_valid(schema: Seq<Level>, channels: int) -> bool {
    forall|l: int|
        0 <= l < schema.len() ==> match #[trigger] schema[l] {
            Level::Predicted { channel, .. } => channel < channels,
            Level::Whitespace { .. } => true,
        }
}

/// A cut falls immediately after byte `q`: for a predicted level, when the
/// byte's probability on the level's channel reaches the threshold; for a
/// whitespace level, when the byte closes a maximal whitespace run.
pub open spec fn is_boundary(
    text: Seq<u8>,
    probs: Seq<u32>,
    channels: int,
    level: Level,
    q: int,
) -> bool {
    match level {
        Level::Predicted { channel, threshold, .. } => probs[q * channels + channel] >= threshold,
        Level::Whitespace { .. } => is_ws(text[q]) && (q + 1 >= text.len() || !is_ws(
            text[q + 1],
        )),
    }
}

/// The segments a level cuts the range `[start, hi)` into, scanning from
/// candidate cut point `p`: a segment ends at every boundary, and the last
/// segment ends at `hi`, so a boundary after the last byte is absorbed
/// rather than yielding a trailing empty segment.
pub open spec fn segs_from(
    text: Seq<u8>,
    probs: Seq<u32>,
    channels: int,
    level: Level,
    start: int,
    p: int,
    hi: int,
) -> Seq<(int, int)>
    decreases hi - p,
{
    if p >= hi {
        seq![(start, hi)]
    } else if is_boundary(text, probs, channels, level, p - 1) {
        seq![(start, p)] + segs_from(text, probs, channels, level, p, p + 1, hi)
    } else {
        segs_from(text, probs, channels, level, start, p + 1, hi)
    }
}

/// The segments a level cuts the range `[lo, hi)` into; an empty range has
/// no segments.
pub open spec fn segments(
    text: Seq<u8>,
    probs: Seq<u32>,
    channels: int,
    level: Level,
    lo: int,
    hi: int,
) -> Seq<(int, int)> {
    if lo >= hi {
        Seq::empty()
    } else {
        segs_from(text, probs, channels, level, lo, lo + 1, hi)
    }
}

/// The tree the schema owes for the byte range `[lo, hi)` of `text` from
/// level `level` on: a leaf holding the range once the schema is exhausted;
/// otherwise an inner node over the range whose parts are, in order, the
/// trees of the level's segments at the next level. This pins the whole
/// tree: any two conforming trees are equal in text and shape.
pub open spec fn conforms(
    t: Split,
    text: Seq<u8>,
    probs: Seq<u32>,
    channels: int,
    schema: Seq<Level>,
    level: int,
    lo: int,
    hi: int,
) -> bool
    decreases schema.len() - level,
{
    if level >= schema.len() {
        t.is_leaf() && t.text_view() == text.subrange(lo, hi)
    } else {
        let sg = segments(text, probs, channels, schema[level], lo, hi);
        &&& !t.is_leaf()
        &&& t.text_view() == text.subrange(lo, hi)
        &&& t.parts_view().len() == sg.len()
        &&& forall|k: int|
            0 <= k < sg.len() ==> conforms(
                #[trigger] t.parts_view()[k],
                text,
                probs,
                channels,
                schema,
                level + 1,
                sg[k].0,
                sg[k].1,
            )
    }
}

/// A copy of the byte range `[lo, hi)` of `text`.
pub fn slice_range(text: &Vec<u8>, lo: usize, hi: usize) -> (r: Vec<u8>)
    requires
        lo <= hi <= text@.len(),
    ensures
        r@ == text@.subrange(lo as int, hi as int),
{
    let mut r: Vec<u8> = Vec::new();
    let mut q: usize = lo;
    while q < hi
        invariant
            lo <= q <= hi <= text@.len(),
            r@.len() == q - lo,
            forall|e: int| 0 <= e < r@.len() ==> #[trigger] r@[e] == text@[lo + e],
        decreases hi - q,
    {
        let byte = text[q];
        r.push(byte);
        q = q + 1;
    }
    proof {
        assert(r@ =~= text@.subrange(lo as int, hi as int));
    }
    r
}

/// Whether byte `b` is ASCII whitespace.
pub fn ws_byte(b: u8) -> (r: bool)
    ensures
        r == is_ws(b),
{
    b == 32 || b == 9 || b == 10 || b == 12 || b == 13
}

/// Whether a cut falls immediately after byte `q` at this level.
fn boundary_at(
    text: &Vec<u8>,
    probs: &Vec<u32>,
    channels: usize,
    level: &Level,
    q: usize,
) -> (r: bool)
    requires
        channels >= 1,
        q < text@.len(),
        probs@.len() == text@.len() * channels,
        match *level {
            Level::Predicted { channel, .. } => channel < channels,
            Level::Whitespace { .. } => true,
        },
    ensures
        r == is_boundary(text@, probs@, channels as int, *level, q as int),
{
    match level {
        Level::Predicted { channel, threshold, .. } => {
            let pl: usize = probs.len();
            proof {
                assert(q * channels + *channel < text@.len() * channels && 0 <= q * channels)
                    by (nonlinear_arith)
                    requires
                        0 <= q < text@.len(),
                        0 <= *channel < channels,
                ;
                assert(pl == text@.len() * channels);
            }
            let flat: usize = q * channels + *channel;
            probs[flat] >= *threshold
        },
        Level::Whitespace { .. } => {
            let b = text[q];
            if !ws_byte(b) {
                false
            } else if q == text.len() - 1 {
                true
            } else {
                let nb = text[q + 1];
                !ws_byte(nb)
            }
        },
    }
}

/// Builds the split tree of the byte range `[lo, hi)` of `text` from level
/// `level` of the schema on. The result is well-formed, spans exactly the
/// requested range, and conforms to the schema: its parts follow the level's
/// boundaries, recursively.
pub fn interpret(
    text: &Vec<u8>,
    probs: &Vec<u32>,
    channels: usize,
    schema: &Vec<Level>,
    level: usize,
    lo: usize,
    hi: usize,
) -> (r: Split)
    requires
        channels >= 1,
        lo <= hi <= text@.len(),
        probs@.len() == text@.len() * channels,
        schema_valid(schema@, channels as int),
    ensures
        r.wf(),
        r.text_view() == text@.subrange(lo as int, hi as int),
        conforms(
            r,
            text@,
            probs@,
            channels as int,
            schema@,
            level as int,
            lo as int,
            hi as int,
        ),
    decreases schema@.len() - level,
{
    if level >= schema.len() {
        let t = Split::Text { text: slice_range(text, lo, hi) };
        return t;
    }
    let lvl: &Level = &schema[level];
    let mut parts: Vec<Split> = Vec::new();
    let ghost sg = segments(text@, probs@, channels as int, schema@[level as int], lo as int, hi as int);
    if lo < hi {
        let mut seg_start: usize = lo;
        let mut p: usize = lo + 1;
        let ghost mut done: int = 0;
        while p < hi
            invariant
                channels >= 1,
                lo <= hi <= text@.len(),
                probs@.len() == text@.len() * channels,
                schema_valid(schema@, channels as int),
                level < schema@.len() <= usize::MAX,
                lvl == schema@[level as int],
                lo <= seg_start < p <= hi,
                sg == segments(
                    text@,
                    probs@,
                    channels as int,
                    schema@[level as int],
                    lo as int,
                    hi as int,
                ),
                0 <= done <= sg.len(),
                parts@.len() == done,
                sg =~= sg.subrange(0, done) + segs_from(
                    text@,
                    probs@,
                    channels as int,
                    schema@[level as int],
                    seg_start as int,
                    p as int,
                    hi as int,
                ),
                forall|k: int|
                    0 <= k < done ==> conforms(
                        #[trigger] parts@[k],
                        text@,
                        probs@,
                        channels as int,
                        schema@,
                        level as int + 1,
                        sg[k].0,
                        sg[k].1,
                    ),
                all_wf(parts@),
                texts_concat(parts@) == text@.subrange(lo as int, seg_start as int),
            decreases hi - p,
        {
            if boundary_at(text, probs, channels, lvl, p - 1) {
                let child = interpret(text, probs, channels, schema, level + 1, seg_start, p);
                proof {
                    assert(segs_from(
                        text@,
                        probs@,
                        channels as int,
                        schema@[level as int],
                        seg_start as int,
                        p as int,
                        hi as int,
                    ) =~= seq![(seg_start as int, p as int)] + segs_from(
                        text@,
                        probs@,
                        channels as int,
                        schema@[level as int],
                        p as int,
                        p as int + 1,
                        hi as int,
                    ));
                    assert(sg[done] == (seg_start as int, p as int));
                    lemma_texts_concat_push(parts@, child);
                    lemma_all_wf_push(parts@, child);
                    assert(text@.subrange(lo as int, seg_start as int) + text@.subrange(
                        seg_start as int,
                        p as int,
                    ) =~= text@.subrange(lo as int, p as int));
                }
                parts.push(child);
                proof {
                    done = done + 1;
                    assert(sg =~= sg.subrange(0, done) + segs_from(
                        text@,
                        probs@,
                        channels as int,
                        schema@[level as int],
                        p as int,
                        p as int + 1,
                        hi as int,
                    ));
                }
                seg_start = p;
            }
            p = p + 1;
        }
        let child = interpret(text, probs, channels, schema, level + 1, seg_start, hi);
        proof {
            assert(segs_from(
                text@,
                probs@,
                channels as int,
                schema@[level as int],
                seg_start as int,
                hi as int,
                hi as int,
            ) =~= seq![(seg_start as int, hi as int)]);
            assert(sg[done] == (seg_start as int, hi as int));
            assert(sg.len() == done + 1);
            lemma_texts_concat_push(parts@, child);
            lemma_all_wf_push(parts@, child);
            assert(text@.subrange(lo as int, seg_start as int) + text@.subrange(
                seg_start as int,
                hi as int,
            ) =~= text@.subrange(lo as int, hi as int));
        }
        parts.push(child);
    } else {
        proof {
            assert(sg =~= Seq::<(int, int)>::empty());
            assert(texts_concat(parts@) =~= Seq::<u8>::empty());
            assert(text@.subrange(lo as int, hi as int) =~= Seq::<u8>::empty());
        }
    }
    let ghost parts_snap = parts@;
    let t = Split::Split { text: slice_range(text, lo, hi), parts };
    proof {
        assert(t.parts_view() == parts_snap);
    }
    t
}

} // verus!

verus! {

/// Determinism of the interpreter: the schema, the text and the probability
/// matrix pin the tree. Any two trees that conform to the same schema over
/// the same text and probabilities are equivalent — equal in text and shape
/// throughout — so the split is a pure function of its inputs.
pub proof fn lemma_conforming_trees_equal(
    t1: Split,
    t2: Split,
    text: Seq<u8>,
    probs: Seq<u32>,
    channels: int,
    schema: Seq<Level>,
    level: int,
    lo: int,
    hi: int,
)
    requires
        conforms(t1, text, probs, channels, schema, level, lo, hi),
        conforms(t2, text, probs, channels, schema, level, lo, hi),
    ensures
        t1.equiv(t2),
    decreases t1,
{
    if level >= schema.len() {
        assert(t1.equiv(t2));
    } else {
        let sg = segments(text, probs, channels, schema[level], lo, hi);
        match t1 {
            Split::Text { .. } => {},
            Split::Split { text: tx, parts } => {
                assert(t1 == Split::Split { text: tx, parts });
                lemma_conforming_parts_equal(
                    parts@,
                    t2.parts_view(),
                    sg,
                    text,
                    probs,
                    channels,
                    schema,
                    level + 1,
                );
            },
        }
    }
}

/// Determinism over a list of segments: parts that conform segment by
/// segment are pairwise equivalent.
proof fn lemma_conforming_parts_equal(
    p1: Seq<Split>,
    p2: Seq<Split>,
    sg: Seq<(int, int)>,
    text: Seq<u8>,
    probs: Seq<u32>,
    channels: int,
    schema: Seq<Level>,
    level: int,
)
    requires
        level <= schema.len(),
        p1.len() == sg.len(),
        p2.len() == sg.len(),
        forall|k: int|
            0 <= k < sg.len() ==> conforms(
                #[trigger] p1[k],
                text,
                probs,
                channels,
                schema,
                level,
                sg[k].0,
                sg[k].1,
            ),
        forall|k: int|
            0 <= k < sg.len() ==> conforms(
                #[trigger] p2[k],
                text,
                probs,
                channels,
                schema,
                level,
                sg[k].0,
                sg[k].1,
            ),
    ensures
        equiv_all(p1, p2),
    decreases p1,
{
    if sg.len() == 0 {
    } else {
        lemma_conforming_trees_equal(
            p1[0],
            p2[0],
            text,
            probs,
            channels,
            schema,
            level,
            sg[0].0,
            sg[0].1,
        );
        assert forall|k: int| 0 <= k < sg.drop_first().len() implies conforms(
            #[trigger] p1.drop_first()[k],
            text,
            probs,
            channels,
            schema,
            level,
            sg.drop_first()[k].0,
            sg.drop_first()[k].1,
        ) by {
            assert(p1.drop_first()[k] == p1[k + 1]);
        };
        assert forall|k: int| 0 <= k < sg.drop_first().len() implies conforms(
            #[trigger] p2.drop_first()[k],
            text,
            probs,
            channels,
            schema,
            level,
            sg.drop_first()[k].0,
            sg.drop_first()[k].1,
        ) by {
            assert(p2.drop_first()[k] == p2[k + 1]);
        };
        lemma_conforming_parts_equal(
            p1.drop_first(),
            p2.drop_first(),
            sg.drop_first(),
            text,
            probs,
            channels,
            schema,
            level,
        );
    }
}

} // verus!
