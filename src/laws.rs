use vstd::prelude::*;
use crate::model::{
    hull_from, lemma_finish_wf, lemma_fold_finished_spans, lemma_stack_is_open, lemma_start_wf,
    lemma_token_wf, lemma_wrap_wf, ArenaView,
    BuilderView, MAX_ENTRIES,
};
use crate::span::Span;

verus! {

/// The span of every finished node, in a tree or in a builder that still has open nodes,
/// is the merge-closure of the span it started from and the spans of all its descendants,
/// whether it was closed in place or put in at a checkpoint.
pub proof fn law_span_covers_descendants<Kind>(a: ArenaView<Kind>, p: int)
    requires
        a.lens_ok(),
        a.nested(),
        a.spans_rolled_up(),
        0 <= p < a.len(),
        !a.is_open(p),
    ensures
        a.spans[p] == hull_from(a.inits[p], a.spans, p + 1, p + a.sizes[p]),
{
    let e = p + a.sizes[p];
    assert forall|q: int| p < q < e implies #[trigger] a.finished_within(q, e) by {
        if a.is_open(q) {
            assert(p + a.sizes[p] <= q + 0 * a.sizes[q]);
        }
        assert(a.rolled_at(q));
    }
    assert(a.rolled_at(p));
    lemma_fold_finished_spans(a, a.inits[p], p + 1, e);
}

/// Finishing a node, while other nodes may still be open, leaves it with the merge-closure
/// of its initial span and the spans of all its descendants; no other span changes.
pub proof fn law_finish_rolls_up<Kind>(b: BuilderView<Kind>)
    requires
        b.wf(),
        b.stack.len() > 0,
    ensures
        ({
            let p = b.stack.last() as int;
            let a2 = b.after_finish().arena;
            &&& a2.spans[p] == hull_from(a2.inits[p], a2.spans, p + 1, b.len())
            &&& forall|q: int| 0 <= q < b.len() && q != p ==> a2.spans[q] == b.arena.spans[q]
        }),
{
    let p = b.stack.last() as int;
    lemma_finish_wf(b);
    let a2 = b.after_finish().arena;
    assert(p < b.len());
    law_span_covers_descendants(a2, p);
}

/// Wrapping at a checkpoint gives the new node the merge-closure of the checkpoint's span
/// and the spans of all the entries it wraps, as they stand after the wrap; no other span
/// changes.
pub proof fn law_wrap_rolls_up<Kind>(b: BuilderView<Kind>, c: int, init: Span, kind: Kind)
    requires
        b.wf(),
        b.len() < MAX_ENTRIES,
        b.can_wrap_at(c),
    ensures
        ({
            let a2 = b.after_wrap(c, init, kind).arena;
            &&& a2.spans[c] == hull_from(init, a2.spans, c + 1, b.len() + 1)
            &&& forall|q: int| 0 <= q < c ==> a2.spans[q] == b.arena.spans[q]
            &&& forall|q: int| c < q <= b.len() ==> a2.spans[q] == b.arena.spans[q - 1]
        }),
{
    lemma_wrap_wf(b, c, init, kind);
    let a2 = b.after_wrap(c, init, kind).arena;
    assert(a2.sizes[c] == b.len() - c + 1);
    law_span_covers_descendants(a2, c);
}

/// One call a parser makes on a builder.
pub enum Event<Kind> {
    Start(Kind, Span),
    Token(Kind, Span),
    Finish,
}

/// The number of nodes left open after `events`.
pub open spec fn open_count<Kind>(events: Seq<Event<Kind>>) -> int
    decreases events.len(),
{
    if events.len() == 0 {
        0
    } else {
        open_count(events.drop_last()) + match events.last() {
            Event::Start(_, _) => 1int,
            Event::Token(_, _) => 0int,
            Event::Finish => -1int,
        }
    }
}

/// Every `Finish` closes a node that is open.
pub open spec fn closes_only_open<Kind>(events: Seq<Event<Kind>>) -> bool
    decreases events.len(),
{
    events.len() == 0 || (closes_only_open(events.drop_last()) && (events.last() is Finish
        ==> open_count(events.drop_last()) > 0))
}

/// The entries `events` emit, each with its kind and with the number of nodes open
/// around it when it was emitted.
pub open spec fn emitted<Kind>(events: Seq<Event<Kind>>) -> Seq<(Kind, int)>
    decreases events.len(),
{
    if events.len() == 0 {
        seq![]
    } else {
        let before = emitted(events.drop_last());
        let depth = open_count(events.drop_last());
        match events.last() {
            Event::Start(k, _) => before.push((k, depth)),
            Event::Token(k, _) => before.push((k, depth)),
            Event::Finish => before,
        }
    }
}

/// The state a builder reaches from empty by the calls in `events`.
pub open spec fn replay<Kind>(events: Seq<Event<Kind>>) -> BuilderView<Kind>
    decreases events.len(),
{
    if events.len() == 0 {
        BuilderView::empty()
    } else {
        let b = replay(events.drop_last());
        match events.last() {
            Event::Start(k, s) => b.after_start(k, s),
            Event::Token(k, s) => b.after_token(k, s),
            Event::Finish => b.after_finish(),
        }
    }
}

/// The number of entries on `stack` below `k`.
pub open spec fn count_below(stack: Seq<usize>, k: int) -> int
    decreases stack.len(),
{
    if stack.len() == 0 {
        0
    } else {
        count_below(stack.drop_last(), k) + if stack.last() < k {
            1int
        } else {
            0int
        }
    }
}

pub proof fn lemma_count_below_step(stack: Seq<usize>, k: int)
    requires
        forall|a: int, b: int| 0 <= a < b < stack.len() ==> #[trigger] stack[a] < #[trigger] stack[b],
        0 <= k <= MAX_ENTRIES,
    ensures
        count_below(stack, k + 1) == count_below(stack, k) + if stack.contains(k as usize) {
            1int
        } else {
            0int
        },
        stack.len() > 0 && stack.last() < k ==> count_below(stack, k) == stack.len(),
        count_below(stack, 0) == 0,
    decreases stack.len(),
{
    if stack.len() > 0 {
        let rest = stack.drop_last();
        lemma_count_below_step(rest, k);
        if stack.contains(k as usize) {
            let t = choose|t: int| 0 <= t < stack.len() && stack[t] == k as usize;
            if t < rest.len() {
                assert(rest[t] == k as usize);
            }
        }
        if rest.contains(k as usize) {
            let t = choose|t: int| 0 <= t < rest.len() && rest[t] == k as usize;
            assert(stack[t] == k as usize);
        }
        if stack.last() == k {
            assert(stack[stack.len() - 1] == k as usize);
            if rest.contains(k as usize) {
                let t = choose|t: int| 0 <= t < rest.len() && rest[t] == k as usize;
                assert(stack[t] < stack[stack.len() - 1]);
            }
        }
        if stack.len() > 1 && stack.last() < k {
            assert(rest.last() < stack.last());
        }
    }
}

pub proof fn lemma_ancestors_frame<Kind>(a1: ArenaView<Kind>, a2: ArenaView<Kind>, d: int, k: int)
    requires
        forall|j: int| 0 <= j < k ==> a1.is_ancestor(j, d) == a2.is_ancestor(j, d),
    ensures
        a1.ancestors_below(d, k) == a2.ancestors_below(d, k),
    decreases k,
{
    if k > 0 {
        lemma_ancestors_frame(a1, a2, d, k - 1);
    }
}

/// An entry appended at the end lies inside exactly the nodes that are open.
pub proof fn lemma_new_entry_depth<Kind>(b: BuilderView<Kind>, a2: ArenaView<Kind>, k: int)
    requires
        b.wf(),
        a2.len() == b.len() + 1,
        forall|j: int| 0 <= j < b.len() ==> a2.sizes[j] == b.arena.sizes[j],
        0 <= k <= b.len(),
    ensures
        a2.ancestors_below(b.len(), k) == count_below(b.stack, k),
    decreases k,
{
    lemma_count_below_step(b.stack, 0);
    if k > 0 {
        lemma_new_entry_depth(b, a2, k - 1);
        lemma_count_below_step(b.stack, k - 1);
        lemma_stack_is_open(b);
        assert(a2.is_ancestor(k - 1, b.len()) == b.arena.is_open(k - 1));
    }
}

/// Each entry of the replayed state has the kind and the depth it was emitted with.
pub open spec fn emits_as_replayed<Kind>(events: Seq<Event<Kind>>) -> bool {
    forall|i: int|
        0 <= i < replay(events).len() ==> replay(events).arena.kinds[i] == #[trigger] emitted(
            events,
        )[i].0 && replay(events).arena.depth(i) == emitted(events)[i].1
}

/// Replaying calls that close only open nodes keeps the builder well formed, emits the
/// entries in order, and gives each the depth it was emitted at.
pub proof fn lemma_replay<Kind>(events: Seq<Event<Kind>>)
    requires
        closes_only_open(events),
        emitted(events).len() <= MAX_ENTRIES,
    ensures
        replay(events).wf(),
        replay(events).stack.len() == open_count(events),
        replay(events).len() == emitted(events).len(),
        emits_as_replayed(events),
    decreases events.len(),
{
    if events.len() == 0 {
        let b = replay(events);
        assert(b.arena.kinds =~= seq![]);
        assert(b.arena.spans =~= seq![]);
        assert(b.arena.sizes =~= seq![]);
        assert(b.arena.inits =~= seq![]);
        assert(b.stack =~= seq![]);
    } else {
        lemma_replay(events.drop_last());
        lemma_replay_step(events);
    }
}

/// One more call keeps what `lemma_replay` states.
pub proof fn lemma_replay_step<Kind>(events: Seq<Event<Kind>>)
    requires
        events.len() > 0,
        closes_only_open(events),
        emitted(events).len() <= MAX_ENTRIES,
        replay(events.drop_last()).wf(),
        replay(events.drop_last()).stack.len() == open_count(events.drop_last()),
        replay(events.drop_last()).len() == emitted(events.drop_last()).len(),
        emits_as_replayed(events.drop_last()),
    ensures
        replay(events).wf(),
        replay(events).stack.len() == open_count(events),
        replay(events).len() == emitted(events).len(),
        emits_as_replayed(events),
{
    let prev = events.drop_last();
    let b = replay(prev);
    let b2 = replay(events);
    let n = b.len();
    let a = b.arena;
    let a2 = b2.arena;
    match events.last() {
        Event::Finish => {
            lemma_finish_wf(b);
            let p = b.stack.last() as int;
            assert forall|i: int| 0 <= i < n implies a2.depth(i) == a.depth(i) by {
                assert forall|j: int| 0 <= j < i implies a.is_ancestor(j, i) == a2.is_ancestor(
                    j,
                    i,
                ) by {
                    if j == p {
                        assert(a.is_open(p));
                    }
                }
                lemma_ancestors_frame(a, a2, i, i);
            }
            assert forall|i: int| 0 <= i < replay(events).len() implies replay(
                events,
            ).arena.kinds[i] == #[trigger] emitted(events)[i].0 && replay(
                events,
            ).arena.depth(i) == emitted(events)[i].1 by {
                assert(emitted(events) == emitted(prev));
                assert(a2.kinds == a.kinds);
                assert(a.kinds[i] == emitted(prev)[i].0);
                assert(a.depth(i) == emitted(prev)[i].1);
            }
            assert(b2.len() == emitted(events).len());
            assert(b2.stack.len() == open_count(events));
            assert(b2.wf());
            assert(emits_as_replayed(events));
        },
        _ => {
            match events.last() {
                Event::Start(k, s) => {
                    lemma_start_wf(b, k, s);
                },
                Event::Token(k, s) => {
                    lemma_token_wf(b, k, s);
                },
                Event::Finish => {},
            }
            assert forall|i: int| 0 <= i < n implies a2.depth(i) == a.depth(i) by {
                assert forall|j: int| 0 <= j < i implies a.is_ancestor(j, i) == a2.is_ancestor(
                    j,
                    i,
                ) by {}
                lemma_ancestors_frame(a, a2, i, i);
            }
            lemma_new_entry_depth(b, a2, n);
            if b.stack.len() > 0 {
                lemma_count_below_step(b.stack, n);
            } else {
                assert(count_below(b.stack, n) == 0);
            }
            assert forall|i: int| 0 <= i < replay(events).len() implies replay(
                events,
            ).arena.kinds[i] == #[trigger] emitted(events)[i].0 && replay(
                events,
            ).arena.depth(i) == emitted(events)[i].1 by {
                if i < n {
                    assert(emitted(events)[i] == emitted(prev)[i]);
                }
            }
            assert(b2.len() == emitted(events).len());
            assert(b2.stack.len() == open_count(events));
            assert(b2.wf());
            assert(emits_as_replayed(events));
        },
    }
}

/// Building from calls that nest properly succeeds, and reading the tree back in
/// preorder, each entry with its depth, gives back the kinds and depths the calls
/// emitted: a start or a token emits at the current depth, a start goes one deeper, a
/// finish comes one back.
pub proof fn law_preorder_round_trip<Kind>(events: Seq<Event<Kind>>)
    requires
        closes_only_open(events),
        open_count(events) == 0,
        1 <= emitted(events).len() <= MAX_ENTRIES,
    ensures
        replay(events).wf(),
        replay(events).stack.len() == 0,
        replay(events).arena.is_tree(),
        replay(events).len() == emitted(events).len(),
        forall|i: int|
            0 <= i < replay(events).len() ==> (replay(events).arena.kinds[i], replay(
                events,
            ).arena.depth(i)) == #[trigger] emitted(events)[i],
{
    lemma_replay(events);
    lemma_stack_is_open(replay(events));
}

/// Counting ancestors below `k2` adds, to the count below `k1`, one for each ancestor in
/// between.
pub proof fn lemma_ancestors_grow<Kind>(t: ArenaView<Kind>, d: int, k1: int, k2: int)
    requires
        0 <= k1 <= k2,
    ensures
        t.ancestors_below(d, k1) <= t.ancestors_below(d, k2),
        (forall|j: int| k1 <= j < k2 ==> !t.is_ancestor(j, d)) ==> t.ancestors_below(d, k1)
            == t.ancestors_below(d, k2),
        (exists|j: int| k1 <= j < k2 && t.is_ancestor(j, d)) ==> t.ancestors_below(d, k1)
            < t.ancestors_below(d, k2),
    decreases k2 - k1,
{
    if k2 > k1 {
        lemma_ancestors_grow(t, d, k1, k2 - 1);
        if exists|j: int| k1 <= j < k2 && t.is_ancestor(j, d) {
            let j = choose|j: int| k1 <= j < k2 && t.is_ancestor(j, d);
            if j < k2 - 1 {
                assert(exists|j2: int| k1 <= j2 < k2 - 1 && t.is_ancestor(j2, d));
            }
        }
    }
}

pub proof fn lemma_ancestors_same<Kind>(t: ArenaView<Kind>, d1: int, d2: int, k: int)
    requires
        forall|j: int| 0 <= j < k ==> t.is_ancestor(j, d1) == t.is_ancestor(j, d2),
    ensures
        t.ancestors_below(d1, k) == t.ancestors_below(d2, k),
    decreases k,
{
    if k > 0 {
        lemma_ancestors_same(t, d1, d2, k - 1);
    }
}

/// `x` lies in the subtree of `p` and inside no node that starts between them.
pub open spec fn directly_under<Kind>(t: ArenaView<Kind>, p: int, x: int) -> bool {
    &&& p < x < p + t.sizes[p]
    &&& forall|j: int| p < j < x ==> j + #[trigger] t.sizes[j] <= x
}

/// An entry lies one level below a node that holds it exactly when no node in between
/// holds it.
pub proof fn lemma_depth_under<Kind>(t: ArenaView<Kind>, p: int, q: int)
    requires
        t.is_tree(),
        0 <= p < q < p + t.sizes[p],
        p < t.len(),
    ensures
        t.depth(q) >= t.depth(p) + 1,
        t.depth(q) == t.depth(p) + 1 <==> directly_under(t, p, q),
{
    assert(!t.is_open(p));
    assert forall|j: int| 0 <= j < p implies t.is_ancestor(j, q) == t.is_ancestor(j, p) by {
        assert(!t.is_open(j));
        if p < j + t.sizes[j] {
            assert(p + t.sizes[p] <= j + t.sizes[j]);
        }
    }
    lemma_ancestors_same(t, q, p, p);
    assert(t.is_ancestor(p, q));
    lemma_ancestors_grow(t, q, p + 1, q);
    if directly_under(t, p, q) {
        assert forall|j: int| p + 1 <= j < q implies !t.is_ancestor(j, q) by {
            assert(!t.is_open(j));
            assert(j + t.sizes[j] <= q);
        }
    } else {
        let j = choose|j: int| p < j < q && !(j + #[trigger] t.sizes[j] <= q);
        assert(!t.is_open(j));
        assert(t.is_ancestor(j, q));
    }
}

/// Walking the siblings from a position directly under `p` finds exactly the entries
/// directly under `p` from there on.
pub proof fn lemma_siblings_directly_under<Kind>(t: ArenaView<Kind>, p: int, s: int)
    requires
        t.is_tree(),
        0 <= p < t.len(),
        p < s <= p + t.sizes[p],
        forall|j: int| p < j < s ==> j + #[trigger] t.sizes[j] <= s,
    ensures
        forall|x: int|
            #[trigger] t.siblings_from(s, p + t.sizes[p]).contains(x) <==> s <= x
                && directly_under(t, p, x),
    decreases p + t.sizes[p] - s,
{
    let e = p + t.sizes[p];
    assert(!t.is_open(p));
    if s < e {
        assert(!t.is_open(s));
        assert(s + t.sizes[s] <= e);
        let s2 = s + t.sizes[s];
        assert forall|j: int| p < j < s2 implies j + #[trigger] t.sizes[j] <= s2 by {
            assert(!t.is_open(j));
            if s < j {
                assert(j + t.sizes[j] <= s + t.sizes[s]);
            }
        }
        lemma_siblings_directly_under(t, p, s2);
        let rest = t.siblings_from(s2, e);
        assert(t.siblings_from(s, e) == seq![s] + rest);
        assert forall|x: int| #[trigger] t.siblings_from(s, e).contains(x) <==> s <= x && directly_under(
            t,
            p,
            x,
        ) by {
            let all = t.siblings_from(s, e);
            if all.contains(x) && x != s {
                let i = choose|i: int| 0 <= i < all.len() && all[i] == x;
                assert(rest[i - 1] == x);
            }
            if rest.contains(x) {
                let i = choose|i: int| 0 <= i < rest.len() && rest[i] == x;
                assert(all[i + 1] == x);
            }
            if x == s {
                assert(all[0] == x);
            } else if s < x < s2 {
                assert(!(s + t.sizes[s] <= x));
            }
        }
    } else {
        if s < t.len() {
            assert(!t.is_open(s));
        }
        assert(t.siblings_from(s, e) == Seq::<int>::empty());
        assert forall|x: int| #[trigger] t.siblings_from(s, e).contains(x) <==> s <= x && directly_under(
            t,
            p,
            x,
        ) by {}
    }
}

/// The children of a node are, in increasing order, exactly the entries of its subtree
/// that lie one level below it.
pub proof fn law_children_one_level_down<Kind>(t: ArenaView<Kind>, p: int)
    requires
        t.is_tree(),
        0 <= p < t.len(),
    ensures
        forall|i: int, j: int|
            0 <= i < j < t.children_of(p).len() ==> t.children_of(p)[i] < t.children_of(p)[j],
        forall|x: int|
            #[trigger] t.children_of(p).contains(x) <==> p < x < p + t.sizes[p] && t.depth(x)
                == t.depth(p) + 1,
{
    assert(!t.is_open(p));
    t.lemma_siblings_bounds(p + 1, p + t.sizes[p]);
    lemma_siblings_directly_under(t, p, p + 1);
    assert forall|x: int| t.children_of(p).contains(x) <==> p < x < p + t.sizes[p] && t.depth(x)
        == t.depth(p) + 1 by {
        if p < x < p + t.sizes[p] {
            lemma_depth_under(t, p, x);
        }
    }
}

/// Built from calls in which the first entry holds all the others (each of them is emitted
/// with a node open around it), the root spans the whole tree and its children are, in
/// emission order, the entries emitted directly inside it.
pub proof fn law_root_children_in_emission_order<Kind>(events: Seq<Event<Kind>>)
    requires
        closes_only_open(events),
        open_count(events) == 0,
        1 <= emitted(events).len() <= MAX_ENTRIES,
        forall|i: int| 1 <= i < emitted(events).len() ==> #[trigger] emitted(events)[i].1 >= 1,
    ensures
        replay(events).arena.is_tree(),
        replay(events).arena.sizes[0] == replay(events).len(),
        forall|i: int, j: int|
            0 <= i < j < replay(events).arena.children_of(0).len() ==> replay(
                events,
            ).arena.children_of(0)[i] < replay(events).arena.children_of(0)[j],
        forall|x: int|
            replay(events).arena.children_of(0).contains(x) <==> 0 < x < replay(events).len()
                && emitted(events)[x].1 == 1,
{
    law_preorder_round_trip(events);
    let t = replay(events).arena;
    let n = t.len();
    assert(t.depth(0) == 0);
    assert(!t.is_open(0));
    if t.sizes[0] < n {
        let q = t.sizes[0] as int;
        assert forall|j: int| 0 <= j < q implies !t.is_ancestor(j, q) by {
            assert(!t.is_open(j));
            if 0 < j {
                assert(j + t.sizes[j] <= t.sizes[0]);
            }
        }
        lemma_ancestors_grow(t, q, 0, q);
        assert(emitted(events)[q].1 >= 1);
    }
    law_children_one_level_down(t, 0);
    assert forall|x: int| 0 < x < n implies t.depth(x) == emitted(events)[x].1 by {
        assert((t.kinds[x], t.depth(x)) == emitted(events)[x]);
    }
    assert forall|x: int| t.children_of(0).contains(x) <==> 0 < x < n && emitted(events)[x].1
        == 1 by {
        if 0 < x < n {
            assert(t.depth(x) == emitted(events)[x].1);
        }
    }
}

} // verus!
