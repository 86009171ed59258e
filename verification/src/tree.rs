use vstd::prelude::*;

verus! {

/// A node of the hierarchical segmentation result: either a leaf holding a
/// slice of the input bytes, or an inner node whose parts tile its text.
pub enum Split {
    Text { text: Vec<u8> },
    Split { text: Vec<u8>, parts: Vec<Split> },
}

/// Concatenation of the texts of `parts`, in order.
pub open spec fn texts_concat(parts: Seq<Split>) -> Seq<u8>
    decreases parts.len(),
{
    if parts.len() == 0 {
        Seq::empty()
    } else {
        parts[0].text_view() + texts_concat(parts.drop_first())
    }
}

/// Concatenation of the leaves below each node of `parts`, in order.
pub open spec fn leaves_concat_all(parts: Seq<Split>) -> Seq<u8>
    decreases parts,
{
    if parts.len() == 0 {
        Seq::empty()
    } else {
        parts[0].leaves_concat() + leaves_concat_all(parts.drop_first())
    }
}

/// Two lists of trees are pairwise equivalent: equal in text and shape.
pub open spec fn equiv_all(a: Seq<Split>, b: Seq<Split>) -> bool
    decreases a,
{
    a.len() == b.len() && (a.len() == 0 || (a[0].equiv(b[0]) && equiv_all(
        a.drop_first(),
        b.drop_first(),
    )))
}

/// Every tree of `parts` is well-formed.
pub open spec fn all_wf(parts: Seq<Split>) -> bool
    decreases parts,
{
    parts.len() == 0 || (parts[0].wf() && all_wf(parts.drop_first()))
}

impl Split {
    /// The bytes this node spans.
    pub open spec fn text_view(self) -> Seq<u8> {
        match self {
            Split::Text { text } => text@,
            Split::Split { text, .. } => text@,
        }
    }

    pub open spec fn is_leaf(self) -> bool {
        self matches Split::Text { .. }
    }

    pub open spec fn parts_view(self) -> Seq<Split> {
        match self {
            Split::Text { .. } => Seq::empty(),
            Split::Split { parts, .. } => parts@,
        }
    }

    /// Well-formed: at every inner node, the parts' texts concatenate to the
    /// node's own text.
    pub open spec fn wf(self) -> bool
        decreases self,
    {
        match self {
            Split::Text { .. } => true,
            Split::Split { text, parts } => texts_concat(parts@) == text@ && all_wf(parts@),
        }
    }

    /// Structural equality of trees: same text, same kind of node, and
    /// equivalent parts throughout.
    pub open spec fn equiv(self, other: Split) -> bool
        decreases self,
    {
        match self {
            Split::Text { text } => other.is_leaf() && text@ == other.text_view(),
            Split::Split { text, parts } => !other.is_leaf() && text@ == other.text_view()
                && equiv_all(parts@, other.parts_view()),
        }
    }

    /// The concatenation of the leaf texts below this node, in order.
    pub open spec fn leaves_concat(self) -> Seq<u8>
        decreases self,
    {
        match self {
            Split::Text { text } => text@,
            Split::Split { parts, .. } => leaves_concat_all(parts@),
        }
    }

    pub fn text(&self) -> (r: &Vec<u8>)
        ensures
            r@ == self.text_view(),
    {
        match self {
            Split::Text { text } => text,
            Split::Split { text, .. } => text,
        }
    }

    pub fn parts(&self) -> (r: &Vec<Split>)
        requires
            !self.is_leaf(),
        ensures
            r@ == self.parts_view(),
    {
        match self {
            Split::Text { .. } => unreached(),
            Split::Split { parts, .. } => parts,
        }
    }

    pub fn is_text(&self) -> (r: bool)
        ensures
            r == self.is_leaf(),
    {
        match self {
            Split::Text { .. } => true,
            Split::Split { .. } => false,
        }
    }
}

/// Appending one more part extends the concatenation by that part's text.
pub proof fn lemma_texts_concat_push(parts: Seq<Split>, p: Split)
    ensures
        texts_concat(parts.push(p)) == texts_concat(parts) + p.text_view(),
    decreases parts.len(),
{
    if parts.len() == 0 {
        assert(parts.push(p)[0] == p);
        assert(parts.push(p).drop_first() =~= Seq::<Split>::empty());
        assert(texts_concat(Seq::<Split>::empty()) =~= Seq::<u8>::empty());
        assert(texts_concat(parts.push(p)) =~= p.text_view());
        assert(texts_concat(parts) + p.text_view() =~= p.text_view());
    } else {
        assert(parts.push(p)[0] == parts[0]);
        assert(parts.push(p).drop_first() =~= parts.drop_first().push(p));
        lemma_texts_concat_push(parts.drop_first(), p);
        assert(texts_concat(parts.push(p)) =~= texts_concat(parts) + p.text_view());
    }
}

/// Appending one more well-formed part keeps the whole sequence well-formed.
pub proof fn lemma_all_wf_push(parts: Seq<Split>, p: Split)
    requires
        all_wf(parts),
        p.wf(),
    ensures
        all_wf(parts.push(p)),
    decreases parts.len(),
{
    if parts.len() == 0 {
        assert(parts.push(p)[0] == p);
        assert(parts.push(p).drop_first() =~= Seq::<Split>::empty());
        assert(all_wf(Seq::<Split>::empty()));
    } else {
        assert(parts.push(p)[0] == parts[0]);
        assert(parts.push(p).drop_first() =~= parts.drop_first().push(p));
        lemma_all_wf_push(parts.drop_first(), p);
    }
}

/// Every well-formed tree reads back: the leaves below a node concatenate to
/// the node's text. At the root this is the reconstruction law: the leaves of
/// the returned tree concatenate to the input, and at every inner node the
/// parts tile the node's text.
pub proof fn lemma_reconstruction(t: Split)
    requires
        t.wf(),
    ensures
        t.leaves_concat() == t.text_view(),
    decreases t,
{
    match t {
        Split::Text { .. } => {},
        Split::Split { text, parts } => {
            assert(t == Split::Split { text, parts });
            lemma_reconstruction_all(parts@);
        },
    }
}

/// Reconstruction over a sequence of well-formed trees.
pub proof fn lemma_reconstruction_all(parts: Seq<Split>)
    requires
        all_wf(parts),
    ensures
        leaves_concat_all(parts) == texts_concat(parts),
    decreases parts,
{
    if parts.len() == 0 {
    } else {
        lemma_reconstruction(parts[0]);
        lemma_reconstruction_all(parts.drop_first());
    }
}

} // verus!
