use vstd::prelude::*;
use crate::span::{contains_spec, merge_spec, Span};

verus! {

/// The largest number of entries a tree may hold.
pub const MAX_ENTRIES: u32 = 0xFFFF_FFFE;

/// Folds `xs[lo..hi]` into `first`, left to right, with `merge`: the merge-closure of
/// `first` and those spans.
pub open spec fn hull_from(first: Span, xs: Seq<Span>, lo: int, hi: int) -> Span
    decreases hi - lo,
{
    if hi <= lo {
        first
    } else {
        merge_spec(hull_from(first, xs, lo, hi - 1), xs[hi - 1])
    }
}

/// The entries of a tree, or of a tree under construction, in preorder.
///
/// `sizes[p]` is the number of entries in the subtree of `p`, `p` included; an entry
/// whose node is still open has size 0. `inits[p]` is the span the entry started
/// from: the span given to `start_node`, to `token`, or carried by a checkpoint.
pub struct ArenaView<Kind> {
    pub kinds: Seq<Kind>,
    pub spans: Seq<Span>,
    pub sizes: Seq<u32>,
    pub inits: Seq<Span>,
}

impl<Kind> ArenaView<Kind> {
    pub open spec fn len(self) -> int {
        self.kinds.len() as int
    }

    pub open spec fn is_open(self, p: int) -> bool {
        self.sizes[p] == 0
    }

    /// One past the last position of the subtree of `p`; an open node reaches to the end.
    pub open spec fn end(self, p: int) -> int {
        if self.is_open(p) {
            self.len()
        } else {
            p + self.sizes[p]
        }
    }

    pub open spec fn lens_ok(self) -> bool {
        &&& self.spans.len() == self.len()
        &&& self.sizes.len() == self.len()
        &&& self.inits.len() == self.len()
        &&& self.len() <= MAX_ENTRIES
    }

    /// Every finished subtree lies inside the arena, and subtrees nest: preorder contiguity.
    pub open spec fn nested(self) -> bool {
        &&& forall|p: int|
            0 <= p < self.len() && !self.is_open(p) ==> 1 <= #[trigger] self.sizes[p] && p
                + self.sizes[p] <= self.len()
        &&& forall|p: int, q: int|
            0 <= p < q < self.len() && !self.is_open(p) && self.is_open(q) ==> p
                + #[trigger] self.sizes[p] <= q + 0 * #[trigger] self.sizes[q]
        &&& forall|p: int, q: int|
            0 <= p < q < self.len() && !self.is_open(p) && !self.is_open(q) && q < p
                + #[trigger] self.sizes[p] ==> q + #[trigger] self.sizes[q] <= p + self.sizes[p]
    }

    /// The span of a finished entry is the merge-closure of the initial spans in its
    /// subtree. The span of an open node covers its own initial span and lies within the
    /// merge-closure of the initial spans emitted since it was opened.
    pub open spec fn rolled_at(self, p: int) -> bool {
        if self.is_open(p) {
            contains_spec(self.spans[p], self.inits[p]) && contains_spec(
                hull_from(self.inits[p], self.inits, p + 1, self.len()),
                self.spans[p],
            )
        } else {
            self.spans[p] == hull_from(self.inits[p], self.inits, p + 1, p + self.sizes[p])
        }
    }

    /// `q` is finished, its subtree ends by `hi`, and its span is rolled up.
    pub open spec fn finished_within(self, q: int, hi: int) -> bool {
        &&& !self.is_open(q)
        &&& q + self.sizes[q] <= hi
        &&& self.spans[q] == hull_from(self.inits[q], self.inits, q + 1, q + self.sizes[q])
    }

    pub open spec fn spans_rolled_up(self) -> bool {
        forall|p: int| 0 <= p < self.len() ==> #[trigger] self.rolled_at(p)
    }

    /// The well-formed finished trees: non-empty, every node closed.
    pub open spec fn is_tree(self) -> bool {
        &&& self.lens_ok()
        &&& 1 <= self.len()
        &&& forall|p: int| 0 <= p < self.len() ==> !self.is_open(p)
        &&& self.nested()
        &&& self.spans_rolled_up()
    }

    /// The direct children of a node whose subtree ends at `end`, from position `q` on:
    /// each sibling is found by skipping over the subtree of the one before.
    pub open spec fn siblings_from(self, q: int, stop: int) -> Seq<int>
        decreases stop - q,
    {
        if 0 <= q < self.sizes.len() && 0 < self.sizes[q] && q + self.sizes[q] <= stop {
            seq![q] + self.siblings_from(q + self.sizes[q], stop)
        } else {
            seq![]
        }
    }

    /// The siblings found from `q` on lie in `[q, stop)`, in increasing order.
    pub proof fn lemma_siblings_bounds(self, q: int, stop: int)
        ensures
            forall|i: int|
                0 <= i < self.siblings_from(q, stop).len() ==> q <= #[trigger] self.siblings_from(
                    q,
                    stop,
                )[i] < stop,
            forall|i: int, j: int|
                0 <= i < j < self.siblings_from(q, stop).len() ==> #[trigger] self.siblings_from(
                    q,
                    stop,
                )[i] < #[trigger] self.siblings_from(q, stop)[j],
        decreases stop - q,
    {
        if 0 <= q < self.sizes.len() && 0 < self.sizes[q] && q + self.sizes[q] <= stop {
            self.lemma_siblings_bounds(q + self.sizes[q], stop);
            let rest = self.siblings_from(q + self.sizes[q], stop);
            assert(self.siblings_from(q, stop) == seq![q] + rest);
            assert forall|i: int| 0 < i < self.siblings_from(q, stop).len() implies #[trigger] self.siblings_from(q, stop)[i] == rest[i - 1] by {}
        }
    }

    pub open spec fn children_of(self, p: int) -> Seq<int> {
        self.siblings_from(p + 1, p + self.sizes[p])
    }

    /// `a` is a proper ancestor of `d`.
    pub open spec fn is_ancestor(self, a: int, d: int) -> bool {
        0 <= a < d < self.end(a)
    }

    /// The number of proper ancestors of `d` among the positions below `k`.
    pub open spec fn ancestors_below(self, d: int, k: int) -> int
        decreases k,
    {
        if k <= 0 {
            0
        } else {
            self.ancestors_below(d, k - 1) + if self.is_ancestor(k - 1, d) {
                1int
            } else {
                0int
            }
        }
    }

    /// How deep `d` lies: the number of its proper ancestors.
    pub open spec fn depth(self, d: int) -> int {
        self.ancestors_below(d, d)
    }

    /// `merge` of `s` into the span of every open node.
    pub open spec fn bubbled(self, s: Span) -> Seq<Span> {
        Seq::new(
            self.spans.len(),
            |p: int|
                if self.is_open(p) {
                    merge_spec(self.spans[p], s)
                } else {
                    self.spans[p]
                },
        )
    }
}

/// A builder's state: its entries and the stack of positions of its open nodes.
pub struct BuilderView<Kind> {
    pub arena: ArenaView<Kind>,
    pub stack: Seq<usize>,
}

impl<Kind> BuilderView<Kind> {
    pub open spec fn empty() -> Self {
        BuilderView {
            arena: ArenaView { kinds: seq![], spans: seq![], sizes: seq![], inits: seq![] },
            stack: seq![],
        }
    }

    pub open spec fn len(self) -> int {
        self.arena.len()
    }

    /// The stack lists exactly the open nodes, in increasing order.
    pub open spec fn stack_ok(self) -> bool {
        &&& forall|a: int, b: int|
            0 <= a < b < self.stack.len() ==> #[trigger] self.stack[a] < #[trigger] self.stack[b]
        &&& forall|t: int|
            0 <= t < self.stack.len() ==> #[trigger] self.stack[t] < self.len()
                && self.arena.is_open(self.stack[t] as int)
        &&& forall|p: int|
            0 <= p < self.len() && #[trigger] self.arena.is_open(p) ==> exists|t: int|
                0 <= t < self.stack.len() && #[trigger] self.stack[t] == p
    }

    pub open spec fn wf(self) -> bool {
        &&& self.arena.lens_ok()
        &&& self.stack_ok()
        &&& self.arena.nested()
        &&& self.arena.spans_rolled_up()
    }

    /// A checkpoint at position `c` can still be redeemed: it lies after every open node,
    /// and no finished node reaches over it.
    pub open spec fn can_wrap_at(self, c: int) -> bool {
        &&& 0 <= c <= self.len()
        &&& forall|t: int| 0 <= t < self.stack.len() ==> #[trigger] self.stack[t] < c
        &&& forall|p: int|
            0 <= p < c && !self.arena.is_open(p) ==> p + #[trigger] self.arena.sizes[p] <= c
    }

    pub open spec fn after_start(self, kind: Kind, span: Span) -> Self {
        BuilderView {
            arena: ArenaView {
                kinds: self.arena.kinds.push(kind),
                spans: self.arena.spans.push(span),
                sizes: self.arena.sizes.push(0),
                inits: self.arena.inits.push(span),
            },
            stack: self.stack.push(self.len() as usize),
        }
    }

    pub open spec fn after_token(self, kind: Kind, span: Span) -> Self {
        BuilderView {
            arena: ArenaView {
                kinds: self.arena.kinds.push(kind),
                spans: self.arena.bubbled(span).push(span),
                sizes: self.arena.sizes.push(1),
                inits: self.arena.inits.push(span),
            },
            stack: self.stack,
        }
    }

    pub open spec fn after_finish(self) -> Self {
        let p = self.stack.last() as int;
        BuilderView {
            arena: ArenaView {
                spans: self.arena.spans.update(p, self.closed_span(p)),
                sizes: self.arena.sizes.update(p, (self.len() - p) as u32),
                ..self.arena
            },
            stack: self.stack.drop_last(),
        }
    }

    /// The span the open node at `p` gets when it is closed: its span so far, merged with
    /// the span of every entry after it.
    pub open spec fn closed_span(self, p: int) -> Span {
        hull_from(self.arena.spans[p], self.arena.spans, p + 1, self.len())
    }

    /// The span of a node inserted at `c` with initial span `init`, wrapping everything
    /// after it: `init` merged with the span of every wrapped entry.
    pub open spec fn wrap_span(self, c: int, init: Span) -> Span {
        hull_from(init, self.arena.spans, c, self.len())
    }

    pub open spec fn after_wrap(self, c: int, init: Span, kind: Kind) -> Self {
        let w = self.wrap_span(c, init);
        BuilderView {
            arena: ArenaView {
                kinds: self.arena.kinds.insert(c, kind),
                spans: self.arena.spans.insert(c, w),
                sizes: self.arena.sizes.insert(c, (self.len() - c + 1) as u32),
                inits: self.arena.inits.insert(c, init),
            },
            stack: self.stack,
        }
    }
}

// ---- the merge-closure fold ----

pub proof fn lemma_hull_frame(first: Span, xs: Seq<Span>, ys: Seq<Span>, lo: int, hi: int)
    requires
        forall|r: int| lo <= r < hi ==> xs[r] == ys[r],
    ensures
        hull_from(first, xs, lo, hi) == hull_from(first, ys, lo, hi),
    decreases hi - lo,
{
    if hi > lo {
        lemma_hull_frame(first, xs, ys, lo, hi - 1);
    }
}

pub proof fn lemma_hull_shift(first: Span, xs: Seq<Span>, ys: Seq<Span>, lo: int, hi: int)
    requires
        forall|r: int| lo <= r < hi ==> xs[r] == ys[r + 1],
    ensures
        hull_from(first, xs, lo, hi) == hull_from(first, ys, lo + 1, hi + 1),
    decreases hi - lo,
{
    if hi > lo {
        lemma_hull_shift(first, xs, ys, lo, hi - 1);
    }
}

/// What a fold of spans is: it covers its start and every span folded in, and each of its
/// two ends comes from one of them.
pub proof fn lemma_hull_bounds(first: Span, xs: Seq<Span>, lo: int, hi: int)
    ensures
        contains_spec(hull_from(first, xs, lo, hi), first),
        forall|r: int| lo <= r < hi ==> contains_spec(hull_from(first, xs, lo, hi), #[trigger] xs[r]),
        hull_from(first, xs, lo, hi).low == first.low || exists|r: int|
            lo <= r < hi && hull_from(first, xs, lo, hi).low == #[trigger] xs[r].low,
        hull_from(first, xs, lo, hi).high == first.high || exists|r: int|
            lo <= r < hi && hull_from(first, xs, lo, hi).high == #[trigger] xs[r].high,
    decreases hi - lo,
{
    if hi > lo {
        lemma_hull_bounds(first, xs, lo, hi - 1);
        let h = hull_from(first, xs, lo, hi - 1);
        if h.low != first.low && h.low >= xs[hi - 1].low {
            let r = choose|r: int| lo <= r < hi - 1 && h.low == #[trigger] xs[r].low;
        }
        if h.high != first.high && h.high <= xs[hi - 1].high {
            let r = choose|r: int| lo <= r < hi - 1 && h.high == #[trigger] xs[r].high;
        }
    }
}

/// A span that covers the start of a fold and every span folded in covers the fold.
pub proof fn lemma_hull_within(first: Span, xs: Seq<Span>, lo: int, hi: int, outer: Span)
    requires
        contains_spec(outer, first),
        forall|r: int| lo <= r < hi ==> contains_spec(outer, #[trigger] xs[r]),
    ensures
        contains_spec(outer, hull_from(first, xs, lo, hi)),
    decreases hi - lo,
{
    if hi > lo {
        lemma_hull_within(first, xs, lo, hi - 1, outer);
    }
}

/// Starting a fold from a wider span that the fold covers anyway changes nothing.
pub proof fn lemma_hull_absorb(first: Span, wider: Span, xs: Seq<Span>, lo: int, hi: int)
    requires
        contains_spec(wider, first),
        contains_spec(hull_from(first, xs, lo, hi), wider),
    ensures
        hull_from(wider, xs, lo, hi) == hull_from(first, xs, lo, hi),
{
    let f = hull_from(first, xs, lo, hi);
    let g = hull_from(wider, xs, lo, hi);
    lemma_hull_bounds(first, xs, lo, hi);
    lemma_hull_bounds(wider, xs, lo, hi);
    lemma_hull_within(wider, xs, lo, hi, f);
    lemma_hull_within(first, xs, lo, hi, g);
    assert(f.low == g.low && f.high == g.high);
}

/// Over a run of finished subtrees that stay inside it, folding the entries' spans is the
/// same as folding their initial spans.
pub proof fn lemma_fold_finished_spans<Kind>(a: ArenaView<Kind>, first: Span, lo: int, hi: int)
    requires
        a.lens_ok(),
        0 <= lo <= hi <= a.len(),
        forall|q: int| lo <= q < hi ==> #[trigger] a.finished_within(q, hi),
    ensures
        hull_from(first, a.spans, lo, hi) == hull_from(first, a.inits, lo, hi),
{
    let s = hull_from(first, a.spans, lo, hi);
    let i = hull_from(first, a.inits, lo, hi);
    lemma_hull_bounds(first, a.spans, lo, hi);
    lemma_hull_bounds(first, a.inits, lo, hi);
    assert forall|q: int| lo <= q < hi implies contains_spec(i, #[trigger] a.spans[q]) by {
        assert(a.finished_within(q, hi));
        let e = q + a.sizes[q];
        assert forall|r: int| q + 1 <= r < e implies contains_spec(i, #[trigger] a.inits[r]) by {}
        lemma_hull_within(a.inits[q], a.inits, q + 1, e, i);
    }
    lemma_hull_within(first, a.spans, lo, hi, i);
    assert forall|r: int| lo <= r < hi implies contains_spec(s, #[trigger] a.inits[r]) by {
        assert(a.finished_within(r, hi));
        lemma_hull_bounds(a.inits[r], a.inits, r + 1, r + a.sizes[r]);
        assert(contains_spec(s, a.spans[r]));
    }
    lemma_hull_within(first, a.inits, lo, hi, s);
    assert(s.low == i.low && s.high == i.high);
}

/// The stack holds exactly the open entries.
pub proof fn lemma_stack_is_open<Kind>(b: BuilderView<Kind>)
    requires
        b.wf(),
    ensures
        forall|j: int| 0 <= j < b.len() ==> b.stack.contains(j as usize) == b.arena.is_open(j),
{
    assert forall|j: int| 0 <= j < b.len() implies b.stack.contains(j as usize) == b.arena.is_open(
        j,
    ) by {
        if b.arena.is_open(j) {
            let t = choose|t: int| 0 <= t < b.stack.len() && #[trigger] b.stack[t] == j;
        }
    }
}

// ---- each builder step keeps the state well-formed ----

pub proof fn lemma_start_wf<Kind>(b: BuilderView<Kind>, kind: Kind, span: Span)
    requires
        b.wf(),
        b.len() < MAX_ENTRIES,
    ensures
        b.after_start(kind, span).wf(),
{
    let n = b.len();
    let a = b.arena;
    let b2 = b.after_start(kind, span);
    let a2 = b2.arena;
    assert(a2.len() == n + 1);
    assert forall|p: int| 0 <= p < n implies a2.sizes[p] == a.sizes[p] && a2.inits[p] == a.inits[p]
        && a2.is_open(p) == a.is_open(p) by {}
    assert forall|p: int| 0 <= p < n + 1 && #[trigger] a2.is_open(p) implies exists|t: int|
        0 <= t < b2.stack.len() && #[trigger] b2.stack[t] == p by {
        if p == n {
            assert(b2.stack[b.stack.len() as int] == p);
        } else {
            let t = choose|t: int| 0 <= t < b.stack.len() && #[trigger] b.stack[t] == p;
            assert(b2.stack[t] == p);
        }
    }
    assert forall|p: int| 0 <= p < n + 1 implies #[trigger] a2.rolled_at(p) by {
        if p < n {
            assert(a.rolled_at(p));
            lemma_hull_frame(a.inits[p], a.inits, a2.inits, p + 1, a.end(p));
        }
    }
}

pub proof fn lemma_token_wf<Kind>(b: BuilderView<Kind>, kind: Kind, span: Span)
    requires
        b.wf(),
        b.len() < MAX_ENTRIES,
    ensures
        b.after_token(kind, span).wf(),
{
    let n = b.len();
    let a = b.arena;
    let b2 = b.after_token(kind, span);
    let a2 = b2.arena;
    assert(a2.len() == n + 1);
    assert forall|p: int| 0 <= p < n implies a2.sizes[p] == a.sizes[p] && a2.inits[p] == a.inits[p]
        && a2.is_open(p) == a.is_open(p) by {}
    assert forall|p: int| 0 <= p < n + 1 && #[trigger] a2.is_open(p) implies exists|t: int|
        0 <= t < b2.stack.len() && #[trigger] b2.stack[t] == p by {
        assert(a.is_open(p));
        let t = choose|t: int| 0 <= t < b.stack.len() && #[trigger] b.stack[t] == p;
        assert(b2.stack[t] == p);
    }
    assert(b2.stack_ok());
    assert(a2.nested());
    assert forall|p: int| 0 <= p < n + 1 implies #[trigger] a2.rolled_at(p) by {
        if p < n {
            assert(a.rolled_at(p));
            lemma_hull_frame(a.inits[p], a.inits, a2.inits, p + 1, a.end(p));
        }
    }
}

pub proof fn lemma_finish_wf<Kind>(b: BuilderView<Kind>)
    requires
        b.wf(),
        b.stack.len() > 0,
    ensures
        b.after_finish().wf(),
{
    let n = b.len();
    let a = b.arena;
    let last = b.stack.len() - 1;
    let p = b.stack[last] as int;
    let b2 = b.after_finish();
    let a2 = b2.arena;
    assert forall|q: int| 0 <= q < n && a.is_open(q) && q != p implies q < p by {
        let t = choose|t: int| 0 <= t < b.stack.len() && #[trigger] b.stack[t] == q;
        assert(t != last);
    }
    assert forall|q: int| 0 <= q < n && #[trigger] a2.is_open(q) implies exists|t: int|
        0 <= t < b2.stack.len() && #[trigger] b2.stack[t] == q by {
        let t = choose|t: int| 0 <= t < b.stack.len() && #[trigger] b.stack[t] == q;
        assert(t != last);
        assert(b2.stack[t] == q);
    }
    assert forall|q: int| 0 <= q < n implies a2.end(q) == a.end(q) by {}
    assert forall|q: int| p < q < n implies #[trigger] a.finished_within(q, n) by {
        assert(a.rolled_at(q));
    }
    assert(a.rolled_at(p));
    lemma_fold_finished_spans(a, a.spans[p], p + 1, n);
    lemma_hull_absorb(a.inits[p], a.spans[p], a.inits, p + 1, n);
    assert forall|q: int| 0 <= q < n implies #[trigger] a2.rolled_at(q) by {
        assert(a.rolled_at(q));
    }
}

pub proof fn lemma_wrap_wf<Kind>(b: BuilderView<Kind>, c: int, init: Span, kind: Kind)
    requires
        b.wf(),
        b.len() < MAX_ENTRIES,
        b.can_wrap_at(c),
    ensures
        b.after_wrap(c, init, kind).wf(),
{
    let n = b.len();
    let a = b.arena;
    let w = b.wrap_span(c, init);
    let b2 = b.after_wrap(c, init, kind);
    let a2 = b2.arena;
    assert(a2.len() == n + 1);
    assert forall|p: int| 0 <= p < n && a.is_open(p) implies p < c by {
        let t = choose|t: int| 0 <= t < b.stack.len() && #[trigger] b.stack[t] == p;
    }
    assert forall|p: int| 0 <= p < c implies a2.sizes[p] == a.sizes[p] && a2.inits[p] == a.inits[p]
        && a2.kinds[p] == a.kinds[p] by {}
    assert forall|p: int| c < p <= n implies a2.sizes[p] == a.sizes[p - 1] && a2.inits[p]
        == a.inits[p - 1] && a2.spans[p] == a.spans[p - 1] by {}
    assert forall|q: int| c <= q < n implies #[trigger] a.finished_within(q, n) by {
        assert(a.rolled_at(q));
    }
    lemma_fold_finished_spans(a, init, c, n);
    assert forall|p: int| 0 <= p < n + 1 implies #[trigger] a2.rolled_at(p) by {
        if p < c {
            assert(a.rolled_at(p));
            if a.is_open(p) {
                let r2 = hull_from(a2.inits[p], a2.inits, p + 1, n + 1);
                lemma_hull_bounds(a2.inits[p], a2.inits, p + 1, n + 1);
                assert forall|r: int| p + 1 <= r < n implies contains_spec(
                    r2,
                    #[trigger] a.inits[r],
                ) by {
                    if r < c {
                        assert(a2.inits[r] == a.inits[r]);
                    } else {
                        assert(a2.inits[r + 1] == a.inits[r]);
                    }
                }
                lemma_hull_within(a.inits[p], a.inits, p + 1, n, r2);
            } else {
                lemma_hull_frame(a.inits[p], a.inits, a2.inits, p + 1, a.end(p));
            }
        } else if p == c {
            lemma_hull_shift(init, a.inits, a2.inits, c, n);
            assert(a2.end(c) == n + 1);
        } else {
            assert(a.rolled_at(p - 1));
            lemma_hull_shift(a.inits[p - 1], a.inits, a2.inits, p, a.end(p - 1));
        }
    }
    assert(a2.lens_ok());
    assert forall|q: int| 0 <= q < n + 1 && !a2.is_open(q) implies 1 <= #[trigger] a2.sizes[q]
        && q + a2.sizes[q] <= n + 1 by {
        if q > c {
            assert(!a.is_open(q - 1));
        }
    }
    assert forall|q: int| 0 <= q < n + 1 && #[trigger] a2.is_open(q) implies q < c && a.is_open(q) by {
        if q == c {
        } else if q > c {
            assert(a.is_open(q - 1));
        }
    }
    assert forall|t: int| 0 <= t < b2.stack.len() implies #[trigger] b2.stack[t] < n + 1
        && a2.is_open(b2.stack[t] as int) by {
        assert(b.stack[t] < c);
        assert(a.is_open(b.stack[t] as int));
    }
    assert forall|q: int| 0 <= q < n + 1 && #[trigger] a2.is_open(q) implies exists|t: int|
        0 <= t < b2.stack.len() && #[trigger] b2.stack[t] == q by {
        assert(a.is_open(q));
        let t = choose|t: int| 0 <= t < b.stack.len() && #[trigger] b.stack[t] == q;
        assert(b2.stack[t] == q);
    }
    assert(b2.stack_ok());
    assert(a2.nested());
}

} // verus!
