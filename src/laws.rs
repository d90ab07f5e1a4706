//! What holds of every build: the properties that the builder's contracts
//! give, stated over the model.
use vstd::prelude::*;

use crate::builder::{
    advance, attr_map, lemma_run_concat, lemma_run_done, outcome, run, start, BuildError, EventModel, Partial,
    Progress,
};
use crate::element::Node;

verus! {

/// The events of a text: one text event, or none.
pub open spec fn text_events(t: Option<Seq<char>>) -> Seq<EventModel> {
    match t {
        Some(s) => seq![EventModel::Text(s)],
        None => Seq::empty(),
    }
}

/// The events of a whole subtree in document order: its start tag, its
/// text, its children one after the other, its closing tag.
pub open spec fn node_events(n: Node) -> Seq<EventModel>
    decreases n, n.children.len() + 1,
{
    seq![EventModel::Start(n.tag, n.attributes)] + text_events(n.text) + children_events(
        n,
        n.children.len() as int,
    ) + seq![EventModel::End]
}

/// The events of the first `k` children of `n`.
pub open spec fn children_events(n: Node, k: int) -> Seq<EventModel>
    decreases n, k,
{
    if k <= 0 || k > n.children.len() {
        Seq::empty()
    } else {
        children_events(n, k - 1) + node_events(n.children[k - 1])
    }
}

proof fn lemma_run_one(g: Progress, e: EventModel)
    ensures
        run(g, seq![e]) == advance(g, e),
{
    reveal_with_fuel(run, 2);
    assert(seq![e].drop_last() =~= Seq::<EventModel>::empty());
    assert(seq![e].last() == e);
}

proof fn lemma_node_events(p: Partial, n: Node)
    ensures
        run(Progress::Open(p), node_events(n)) == Progress::Open(
            Partial { current: p.current.with_children(p.current.children.push(n)), ancestors: p.ancestors },
        ),
    decreases n, n.children.len() + 1,
{
    let a = seq![EventModel::Start(n.tag, n.attributes)];
    let b = text_events(n.text);
    let c = children_events(n, n.children.len() as int);
    let d = seq![EventModel::End];
    let q = Partial { current: Node::fresh(n.tag, n.attributes), ancestors: p.ancestors.push(p.current) };
    lemma_run_one(Progress::Open(p), EventModel::Start(n.tag, n.attributes));
    let q2 = Partial { current: q.current.with_text(n.text), ancestors: q.ancestors };
    lemma_run_concat(Progress::Open(p), a, b);
    match n.text {
        Some(t) => {
            lemma_run_one(Progress::Open(q), EventModel::Text(t));
        },
        None => {
            assert(q2 == q);
        },
    }
    lemma_children_events(q2, n, n.children.len() as int);
    assert(n.children.take(n.children.len() as int) =~= n.children);
    assert(Seq::<Node>::empty() + n.children =~= n.children);
    let q3 = Partial { current: q2.current.with_children(n.children), ancestors: q2.ancestors };
    assert(q3.current == n);
    lemma_run_concat(Progress::Open(p), a + b, c);
    lemma_run_concat(Progress::Open(p), a + b + c, d);
    lemma_run_one(Progress::Open(q3), EventModel::End);
    assert(q3.ancestors.drop_last() =~= p.ancestors);
    assert(p.current.appended(n) == p.current.with_children(p.current.children.push(n)));
}

proof fn lemma_children_events(q: Partial, n: Node, k: int)
    requires
        0 <= k <= n.children.len(),
    ensures
        run(Progress::Open(q), children_events(n, k)) == Progress::Open(
            Partial {
                current: q.current.with_children(q.current.children + n.children.take(k)),
                ancestors: q.ancestors,
            },
        ),
    decreases n, k,
{
    if k == 0 {
        assert(q.current.children + n.children.take(0) =~= q.current.children);
        assert(q.current.with_children(q.current.children) == q.current);
    } else {
        lemma_children_events(q, n, k - 1);
        let r = Partial {
            current: q.current.with_children(q.current.children + n.children.take(k - 1)),
            ancestors: q.ancestors,
        };
        lemma_run_concat(Progress::Open(q), children_events(n, k - 1), node_events(n.children[k - 1]));
        lemma_node_events(r, n.children[k - 1]);
        assert(r.current.children.push(n.children[k - 1]) =~= q.current.children + n.children.take(k));
    }
}

/// Round-trip nesting: building from the events of any tree, followed by the
/// end of the input, gives back that very tree, with its depth, its sibling
/// order, its tags, attributes and text as they were.
pub proof fn law_round_trip(n: Node)
    ensures
        outcome(node_events(n)) == Ok::<Node, BuildError>(n),
        outcome(node_events(n).push(EventModel::Eof)) == Ok::<Node, BuildError>(n),
{
    let s = start();
    lemma_node_events(s, n);
    let p = Partial { current: s.current.with_children(s.current.children.push(n)), ancestors: s.ancestors };
    lemma_run_concat(Progress::Open(s), node_events(n), seq![EventModel::Eof]);
    lemma_run_one(Progress::Open(p), EventModel::Eof);
    assert(node_events(n).push(EventModel::Eof) =~= node_events(n) + seq![EventModel::Eof]);
    assert(p.current.children =~= seq![n]);
    let full = node_events(n).push(EventModel::Eof);
    assert(full.push(EventModel::Eof).drop_last() =~= full);
}

/// Events of other kinds (comments, declarations, ...) change nothing,
/// wherever they stand.
pub proof fn law_other_changes_nothing(g: Progress, a: Seq<EventModel>, b: Seq<EventModel>)
    ensures
        run(g, a.push(EventModel::Other) + b) == run(g, a + b),
{
    lemma_run_concat(g, a.push(EventModel::Other), b);
    lemma_run_concat(g, a, b);
    assert(a.push(EventModel::Other).drop_last() =~= a);
}

/// The build is over at the first end of the input: whatever follows it
/// changes nothing.
pub proof fn law_stops_at_end_of_input(a: Seq<EventModel>, b: Seq<EventModel>)
    ensures
        run(Progress::Open(start()), a.push(EventModel::Eof)) is Done,
        outcome(a.push(EventModel::Eof) + b) == outcome(a),
{
    let g = Progress::Open(start());
    let head = a.push(EventModel::Eof);
    assert(head.drop_last() =~= a);
    let res = match run(g, head) {
        Progress::Done(r) => r,
        Progress::Open(_) => arbitrary(),
    };
    assert(run(g, head) == Progress::Done(res));
    let tail = b.push(EventModel::Eof);
    assert((head + b).push(EventModel::Eof) =~= head + tail);
    lemma_run_concat(g, head, tail);
    lemma_run_done(res, tail);
}

/// Text overwrites: a second text event for the same element replaces the
/// first instead of adding to it.
pub proof fn law_text_overwrites(p: Partial, a: Seq<char>, b: Seq<char>)
    ensures
        run(Progress::Open(p), seq![EventModel::Text(a), EventModel::Text(b)]) == run(
            Progress::Open(p),
            seq![EventModel::Text(b)],
        ),
        run(Progress::Open(p), seq![EventModel::Text(b)]) == Progress::Open(
            Partial { current: p.current.with_text(Some(b)), ..p },
        ),
{
    let two = seq![EventModel::Text(a), EventModel::Text(b)];
    assert(two.drop_last() =~= seq![EventModel::Text(a)]);
    lemma_run_one(Progress::Open(p), EventModel::Text(a));
    lemma_run_one(Progress::Open(p), EventModel::Text(b));
    let q = Partial { current: p.current.with_text(Some(a)), ..p };
    assert(q.current.with_text(Some(b)) == p.current.with_text(Some(b)));
}

/// Detaching is last in, first out: children appended as x, y, z (with
/// `append_child`) come off `pop_child` as z, then y, then x, and what is
/// left is the element as it was before.
pub proof fn law_detach_lifo(m: Node, x: Node, y: Node, z: Node)
    ensures
        ({
            let full = m.appended(x).appended(y).appended(z);
            &&& full.children.len() > 0 && full.last_child() == z
            &&& full.popped().children.len() > 0 && full.popped().last_child() == y
            &&& full.popped().popped().children.len() > 0 && full.popped().popped().last_child() == x
            &&& full.popped().popped().popped() == m
        }),
{
    let full = m.appended(x).appended(y).appended(z);
    assert(full.popped().children =~= m.children.push(x).push(y));
    assert(full.popped().popped().children =~= m.children.push(x));
    assert(full.popped().popped().popped().children =~= m.children);
}

proof fn lemma_no_start(evs: Seq<EventModel>)
    requires
        forall|i: int| 0 <= i < evs.len() ==> !(#[trigger] evs[i] is Start) && !(evs[i] is Empty),
    ensures
        match run(Progress::Open(start()), evs) {
            Progress::Open(p) => p.ancestors.len() == 0 && p.current.children.len() == 0,
            Progress::Done(r) => r == Err::<Node, BuildError>(BuildError::UnmatchedEnd) || r == Err::<
                Node,
                BuildError,
            >(BuildError::EmptyDocument),
        },
    decreases evs.len(),
{
    if evs.len() > 0 {
        assert(!(evs[evs.len() - 1] is Start) && !(evs[evs.len() - 1] is Empty));
        lemma_no_start(evs.drop_last());
    }
}

/// A document without elements gives no tree: the build fails with
/// `EmptyDocument`, or with `UnmatchedEnd` where a closing tag comes first.
pub proof fn law_empty_document_fails(evs: Seq<EventModel>)
    requires
        forall|i: int| 0 <= i < evs.len() ==> !(#[trigger] evs[i] is Start) && !(evs[i] is Empty),
    ensures
        outcome(evs) == Err::<Node, BuildError>(BuildError::EmptyDocument) || outcome(evs) == Err::<
            Node,
            BuildError,
        >(BuildError::UnmatchedEnd),
{
    lemma_no_start(evs);
    assert(evs.push(EventModel::Eof).drop_last() =~= evs);
}

/// A bad attribute is skipped: a name is present exactly where some
/// attribute that could be decoded carries it; attributes that could not be
/// decoded leave nothing behind.
pub proof fn law_bad_attribute_skipped(s: Seq<Option<(String, String)>>, k: Seq<char>)
    ensures
        attr_map(s).contains_key(k) <==> exists|i: int| 0 <= i < s.len() && (#[trigger] s[i] matches Some(p) && p.0@ == k),
    decreases s.len(),
{
    if s.len() > 0 {
        law_bad_attribute_skipped(s.drop_last(), k);
        if exists|i: int| 0 <= i < s.len() - 1 && (#[trigger] s.drop_last()[i] matches Some(p) && p.0@ == k) {
            let i = choose|i: int| 0 <= i < s.len() - 1 && (#[trigger] s.drop_last()[i] matches Some(p) && p.0@ == k);
            assert(s[i] == s.drop_last()[i]);
        }
        if exists|i: int| 0 <= i < s.len() && (#[trigger] s[i] matches Some(p) && p.0@ == k) {
            let i = choose|i: int| 0 <= i < s.len() && (#[trigger] s[i] matches Some(p) && p.0@ == k);
            if i < s.len() - 1 {
                assert(s.drop_last()[i] == s[i]);
            }
        }
    }
}

/// A good attribute keeps its value: where no later attribute that could be
/// decoded has the same name, the element holds the value it gives.
pub proof fn law_good_attribute_kept(s: Seq<Option<(String, String)>>, i: int)
    requires
        0 <= i < s.len(),
        s[i] is Some,
        forall|j: int| i < j < s.len() ==> (#[trigger] s[j] matches Some(q) ==> q.0@ != s[i].unwrap().0@),
    ensures
        attr_map(s).contains_key(s[i].unwrap().0@),
        attr_map(s)[s[i].unwrap().0@] == s[i].unwrap().1@,
    decreases s.len(),
{
    if i < s.len() - 1 {
        assert(s.drop_last()[i] == s[i]);
        assert forall|j: int| i < j < s.drop_last().len() implies (#[trigger] s.drop_last()[j] matches Some(q) ==> q.0@ != s[i].unwrap().0@) by {
            assert(s.drop_last()[j] == s[j]);
        }
        law_good_attribute_kept(s.drop_last(), i);
        assert(s[s.len() - 1] == s.last());
    }
}

} // verus!
