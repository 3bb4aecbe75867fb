use vstd::prelude::*;
use crate::model::{
    hull_from, lemma_finish_wf, lemma_stack_is_open, lemma_start_wf, lemma_token_wf,
    lemma_wrap_wf, ArenaView, BuilderView, MAX_ENTRIES,
};
use crate::span::{merge_spec, Span};

verus! {

/// A finished syntax tree: its entries in preorder, each with a kind, a span and the
/// size of its subtree, held in parallel arrays.
pub struct Tree<Kind> {
    kinds: Vec<Kind>,
    spans: Vec<Span>,
    sizes: Vec<u32>,
    inits: Ghost<Seq<Span>>,
}

impl<Kind> View for Tree<Kind> {
    type V = ArenaView<Kind>;

    closed spec fn view(&self) -> ArenaView<Kind> {
        ArenaView {
            kinds: self.kinds@,
            spans: self.spans@,
            sizes: self.sizes@,
            inits: self.inits@,
        }
    }
}

impl<Kind> Tree<Kind> {
    #[verifier::type_invariant]
    spec fn inv(&self) -> bool {
        self@.is_tree()
    }

    pub fn root(&self) -> (r: Node<'_, Kind>)
        ensures
            r.pos() == 0,
            r.tree_view() == self@,
            self@.is_tree(),
    {
        proof {
            use_type_invariant(self);
        }
        Node { index: 0, tree: self }
    }

    /// The positions of the direct children of `parent`, in order.
    fn children(&self, parent: u32) -> (r: Vec<u32>)
        requires
            parent < self@.len(),
        ensures
            r@.map_values(|i: u32| i as int) == self@.children_of(parent as int),
    {
        proof {
            use_type_invariant(self);
        }
        let ghost a = self@;
        let ghost p = parent as int;
        assert(!a.is_open(p));
        let mut next: u32 = parent + 1;
        let end: u32 = parent + self.sizes[parent as usize];
        let mut out: Vec<u32> = Vec::new();
        while next != end
            invariant
                a == self@,
                a.is_tree(),
                p + 1 <= next <= end,
                end == p + a.sizes[p],
                end <= a.len(),
                0 <= p < a.len(),
                out@.map_values(|i: u32| i as int) + a.siblings_from(next as int, end as int)
                    == a.siblings_from(p + 1, end as int),
            decreases end - next,
        {
            let ghost before = out@.map_values(|i: u32| i as int);
            let ghost cur = next as int;
            assert(!a.is_open(cur));
            assert(!a.is_open(p));
            assert(cur + a.sizes[cur] <= p + a.sizes[p]);
            let ghost rest = a.siblings_from(cur + a.sizes[cur], end as int);
            assert(a.siblings_from(cur, end as int) == seq![cur] + rest);
            out.push(next);
            next = next + self.sizes[next as usize];
            assert(out@.map_values(|i: u32| i as int) =~= before.push(cur));
            assert(before.push(cur) + rest =~= before + (seq![cur] + rest));
        }
        assert(a.siblings_from(end as int, end as int) == Seq::<int>::empty());
        assert(out@.map_values(|i: u32| i as int) =~= a.children_of(p));
        out
    }
}

/// A handle on one entry of a tree: its position, and the tree it belongs to.
pub struct Node<'tree, Kind> {
    index: u32,
    tree: &'tree Tree<Kind>,
}

impl<Kind> Clone for Node<'_, Kind> {
    fn clone(&self) -> (r: Self)
        ensures
            r == *self,
    {
        *self
    }
}

impl<Kind> Copy for Node<'_, Kind> {

}

impl<'tree, Kind> Node<'tree, Kind> {
    #[verifier::type_invariant]
    spec fn inv(self) -> bool {
        self.index < self.tree@.len()
    }

    /// The position of this entry in the tree's preorder.
    pub closed spec fn pos(self) -> int {
        self.index as int
    }

    /// The tree this entry belongs to.
    pub closed spec fn tree_view(self) -> ArenaView<Kind> {
        self.tree@
    }

    pub fn kind(self) -> (r: Kind) where Kind: Copy
        ensures
            r == self.tree_view().kinds[self.pos()],
            0 <= self.pos() < self.tree_view().len(),
            self.tree_view().is_tree(),
    {
        proof {
            use_type_invariant(self);
            use_type_invariant(self.tree);
        }
        self.tree.kinds[self.index as usize]
    }

    pub fn span(self) -> (r: Span)
        ensures
            r == self.tree_view().spans[self.pos()],
            0 <= self.pos() < self.tree_view().len(),
            self.tree_view().is_tree(),
    {
        proof {
            use_type_invariant(self);
            use_type_invariant(self.tree);
        }
        self.tree.spans[self.index as usize]
    }

    /// The direct children, in the order they were emitted.
    pub fn children(self) -> (r: Vec<Self>)
        ensures
            r@.len() == self.tree_view().children_of(self.pos()).len(),
            forall|i: int|
                0 <= i < r@.len() ==> #[trigger] r@[i].pos() == self.tree_view().children_of(
                    self.pos(),
                )[i] && r@[i].tree_view() == self.tree_view(),
    {
        proof {
            use_type_invariant(self);
            use_type_invariant(self.tree);
        }
        let tree = self.tree;
        let positions = tree.children(self.index);
        let ghost a = tree@;
        let ghost p = self.index as int;
        proof {
            a.lemma_siblings_bounds(p + 1, p + a.sizes[p]);
            assert forall|i: int| 0 <= i < positions@.len() implies positions@[i] < a.len() by {
                assert(positions@.map_values(|i: u32| i as int)[i] == positions@[i] as int);
            }
        }
        let mut out: Vec<Self> = Vec::new();
        let mut k: usize = 0;
        while k < positions.len()
            invariant
                a == tree@,
                k <= positions@.len(),
                out@.len() == k,
                forall|i: int| 0 <= i < positions@.len() ==> positions@[i] < a.len(),
                forall|i: int|
                    0 <= i < k ==> (#[trigger] out@[i]).index == positions@[i] && out@[i].tree
                        == tree,
            decreases positions@.len() - k,
        {
            out.push(Node { index: positions[k], tree });
            k += 1;
        }
        proof {
            assert forall|i: int| 0 <= i < out@.len() implies #[trigger] out@[i].pos()
                == a.children_of(p)[i] by {
                assert(positions@.map_values(|i: u32| i as int)[i] == positions@[i] as int);
            }
        }
        out
    }

    /// This entry and every entry of its subtree, in preorder.
    pub fn pre_order(self) -> (r: Vec<Self>)
        ensures
            r@.len() == self.tree_view().sizes[self.pos()],
            forall|i: int|
                0 <= i < r@.len() ==> #[trigger] r@[i].pos() == self.pos() + i
                    && r@[i].tree_view() == self.tree_view(),
    {
        proof {
            use_type_invariant(self);
            use_type_invariant(self.tree);
        }
        let tree = self.tree;
        let count = tree.sizes[self.index as usize];
        let end = self.index + count;
        let mut out: Vec<Self> = Vec::new();
        let mut k: u32 = self.index;
        while k < end
            invariant
                self.index <= k <= end,
                end <= tree@.len(),
                out@.len() == k - self.index,
                forall|i: int|
                    0 <= i < out@.len() ==> (#[trigger] out@[i]).index == self.index + i
                        && out@[i].tree == tree,
            decreases end - k,
        {
            out.push(Node { index: k, tree });
            k += 1;
        }
        out
    }
}

/// Merges `s` into the span of every entry listed on `stack`.
fn bubble(spans: &mut Vec<Span>, stack: &Vec<usize>, s: Span)
    requires
        forall|a: int, b: int| 0 <= a < b < stack@.len() ==> stack@[a] < stack@[b],
        forall|t: int| 0 <= t < stack@.len() ==> stack@[t] < old(spans)@.len(),
    ensures
        final(spans)@.len() == old(spans)@.len(),
        forall|j: int|
            0 <= j < old(spans)@.len() ==> #[trigger] final(spans)@[j] == if stack@.contains(
                j as usize,
            ) {
                merge_spec(old(spans)@[j], s)
            } else {
                old(spans)@[j]
            },
{
    let len = spans.len();
    let mut t: usize = 0;
    while t < stack.len()
        invariant
            len == old(spans)@.len(),
            t <= stack@.len(),
            spans@.len() == old(spans)@.len(),
            forall|a: int, b: int| 0 <= a < b < stack@.len() ==> stack@[a] < stack@[b],
            forall|u: int| 0 <= u < stack@.len() ==> stack@[u] < old(spans)@.len(),
            forall|j: int|
                0 <= j < old(spans)@.len() ==> #[trigger] spans@[j] == if stack@.subrange(
                    0,
                    t as int,
                ).contains(j as usize) {
                    merge_spec(old(spans)@[j], s)
                } else {
                    old(spans)@[j]
                },
        decreases stack@.len() - t,
    {
        let p = stack[t];
        let ghost prev = spans@;
        proof {
            if stack@.subrange(0, t as int).contains(p) {
                let u = choose|u: int| 0 <= u < t && stack@.subrange(0, t as int)[u] == p;
                assert(stack@[u] == p);
                assert(stack@[u] < stack@[t as int]);
            }
            assert(!stack@.subrange(0, t as int).contains(p));
        }
        let merged = spans[p].merge(s);
        spans.set(p, merged);
        proof {
            assert forall|j: int| 0 <= j < old(spans)@.len() implies #[trigger] spans@[j] == if stack@.subrange(
                0,
                t + 1,
            ).contains(j as usize) {
                merge_spec(old(spans)@[j], s)
            } else {
                old(spans)@[j]
            } by {
                let lo = stack@.subrange(0, t as int);
                let hi = stack@.subrange(0, t + 1);
                assert(hi =~= lo.push(p));
                if j == p as int {
                    assert(hi[t as int] == p);
                }
                if lo.contains(j as usize) {
                    let u = choose|u: int| 0 <= u < lo.len() && lo[u] == j as usize;
                    assert(hi[u] == j as usize);
                }
                if hi.contains(j as usize) && j as usize != p {
                    let u = choose|u: int| 0 <= u < hi.len() && hi[u] == j as usize;
                    assert(lo[u] == j as usize);
                }
            }
        }
        t += 1;
    }
    assert(stack@.subrange(0, stack@.len() as int) =~= stack@);
}

/// A position in the builder's output, to be wrapped later by `Builder::finish_node_at`.
#[derive(Clone, Copy)]
pub struct Checkpoint {
    index: u32,
    initial_span: Span,
}

impl Checkpoint {
    /// The position of the first entry the wrapping node will hold.
    pub closed spec fn at(self) -> int {
        self.index as int
    }

    /// The span the wrapping node starts from.
    pub closed spec fn initial(self) -> Span {
        self.initial_span
    }
}

/// Builds a tree in one forward pass: tokens are appended as they come, nodes are opened
/// and closed around them, and a node can also be put retroactively around everything
/// emitted since a checkpoint.
///
/// Entries are stored at their final positions as soon as they are emitted; wrapping at
/// a checkpoint inserts the new node in place, which moves every entry after it.
pub struct Builder<Kind> {
    kinds: Vec<Kind>,
    spans: Vec<Span>,
    sizes: Vec<u32>,
    inits: Ghost<Seq<Span>>,
    stack: Vec<usize>,
}

impl<Kind> View for Builder<Kind> {
    type V = BuilderView<Kind>;

    closed spec fn view(&self) -> BuilderView<Kind> {
        BuilderView {
            arena: ArenaView {
                kinds: self.kinds@,
                spans: self.spans@,
                sizes: self.sizes@,
                inits: self.inits@,
            },
            stack: self.stack@,
        }
    }
}

impl<Kind> Default for Builder<Kind> {
    fn default() -> (r: Self)
        ensures
            r@ == BuilderView::<Kind>::empty(),
            r@.wf(),
    {
        let r = Builder {
            kinds: Vec::new(),
            spans: Vec::new(),
            sizes: Vec::new(),
            inits: Ghost(Seq::empty()),
            stack: Vec::new(),
        };
        assert(r@.arena.kinds =~= seq![]);
        assert(r@.arena.spans =~= seq![]);
        assert(r@.arena.sizes =~= seq![]);
        assert(r@.stack =~= seq![]);
        r
    }
}

impl<Kind> Builder<Kind> {

    /// Opens a node. Its span grows as tokens are added inside it, and is completed when
    /// the node is finished.
    pub fn start_node(&mut self, kind: Kind, initial_span: Span)
        requires
            old(self)@.wf(),
            old(self)@.len() < MAX_ENTRIES,
        ensures
            final(self)@ == old(self)@.after_start(kind, initial_span),
            final(self)@.wf(),
    {
        proof {
            lemma_start_wf(self@, kind, initial_span);
        }
        let ghost b = self@;
        let n = self.kinds.len();
        self.stack.push(n);
        self.kinds.push(kind);
        self.spans.push(initial_span);
        self.sizes.push(0);
        self.inits = Ghost(self.inits@.push(initial_span));
        proof {
            assert(self@ =~= b.after_start(kind, initial_span));
        }
    }

    /// Appends a leaf; its span is merged into the span of every open node.
    pub fn token(&mut self, kind: Kind, span: Span)
        requires
            old(self)@.wf(),
            old(self)@.len() < MAX_ENTRIES,
        ensures
            final(self)@ == old(self)@.after_token(kind, span),
            final(self)@.wf(),
    {
        proof {
            lemma_token_wf(self@, kind, span);
        }
        let ghost b = self@;
        bubble(&mut self.spans, &self.stack, span);
        self.kinds.push(kind);
        self.spans.push(span);
        self.sizes.push(1);
        self.inits = Ghost(self.inits@.push(span));
        proof {
            lemma_stack_is_open(b);
            assert(self@.arena.spans =~= b.arena.bubbled(span).push(span));
            assert(self@ =~= b.after_token(kind, span));
        }
    }

    /// Closes the most recently opened node that is still open. Its span becomes the merge
    /// of its span so far with the span of every entry inside it; this takes time in
    /// proportion to the size of its subtree.
    pub fn finish_node(&mut self)
        requires
            old(self)@.wf(),
            old(self)@.stack.len() > 0,
        ensures
            final(self)@ == old(self)@.after_finish(),
            final(self)@.wf(),
    {
        proof {
            lemma_finish_wf(self@);
        }
        let ghost b = self@;
        let entry = self.stack.pop().unwrap();
        let n = self.kinds.len();
        let mut span = self.spans[entry];
        let mut q: usize = entry + 1;
        while q < n
            invariant
                self.spans@ == b.arena.spans,
                b.wf(),
                n == b.len(),
                entry < q <= n,
                span == hull_from(b.arena.spans[entry as int], b.arena.spans, entry + 1, q as int),
            decreases n - q,
        {
            span = span.merge(self.spans[q]);
            q += 1;
        }
        self.spans.set(entry, span);
        self.sizes.set(entry, (n - entry) as u32);
        proof {
            assert(self@ =~= b.after_finish());
        }
    }

    /// Marks the current position, so that a node can later be put around everything
    /// emitted from here on; the node will start from `initial_span`.
    pub fn checkpoint(&self, initial_span: Span) -> (r: Checkpoint)
        requires
            self@.wf(),
        ensures
            r.at() == self@.len(),
            r.initial() == initial_span,
    {
        Checkpoint { index: self.kinds.len() as u32, initial_span }
    }

    /// Inserts a node of kind `kind` at the checkpoint's position and closes it at once:
    /// it holds every entry emitted since the checkpoint, and its span is the merge of the
    /// checkpoint's span with theirs. Every other entry keeps its kind, span and size; the
    /// insertion moves the entries after it, which takes time in proportion to their number.
    pub fn finish_node_at(&mut self, checkpoint: Checkpoint, kind: Kind)
        requires
            old(self)@.wf(),
            old(self)@.len() < MAX_ENTRIES,
            old(self)@.can_wrap_at(checkpoint.at()),
        ensures
            final(self)@ == old(self)@.after_wrap(checkpoint.at(), checkpoint.initial(), kind),
            final(self)@.wf(),
    {
        let ghost b = self@;
        let ghost init = checkpoint.initial_span;
        proof {
            lemma_wrap_wf(b, checkpoint.index as int, init, kind);
        }
        let n = self.kinds.len();
        let c = checkpoint.index as usize;
        // Fold in the span of every entry to wrap.
        let mut span = checkpoint.initial_span;
        let mut q: usize = c;
        while q < n
            invariant
                b == self@,
                b.wf(),
                n == b.len(),
                c <= q <= n,
                span == hull_from(init, b.arena.spans, c as int, q as int),
            decreases n - q,
        {
            span = span.merge(self.spans[q]);
            q += 1;
        }
        self.kinds.insert(c, kind);
        self.spans.insert(c, span);
        self.sizes.insert(c, (n - c + 1) as u32);
        self.inits = Ghost(self.inits@.insert(c as int, init));
        proof {
            assert(self@ =~= b.after_wrap(c as int, init, kind));
        }
    }

    /// Hands over the finished tree.
    pub fn build(self) -> (r: Tree<Kind>)
        requires
            self@.wf(),
            self@.stack.len() == 0,
            self@.len() >= 1,
        ensures
            r@ == self@.arena,
            r@.is_tree(),
    {
        proof {
            lemma_stack_is_open(self@);
        }
        Tree { kinds: self.kinds, spans: self.spans, sizes: self.sizes, inits: self.inits }
    }
}

} // verus!
