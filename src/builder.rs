//! Folding a flat stream of parse events into one element tree.
use vstd::prelude::*;

use crate::element::{Element, Node};

verus! {

/// One event of a parsed document, its names and text already decoded.
pub enum XmlEvent {
    /// An opening tag: its name and its attributes in document order, with
    /// `None` for an attribute that could not be decoded.
    Start { name: String, attributes: Vec<Option<(String, String)>> },
    /// A self-closing tag: an element with no text and no children.
    Empty { name: String, attributes: Vec<Option<(String, String)>> },
    /// A run of text.
    Text(String),
    /// A closing tag.
    End,
    /// The end of the input.
    Eof,
    /// Anything else (comments, declarations, ...): it changes nothing.
    Other,
}

/// Why no tree could be built.
pub enum BuildError {
    /// The tokenizer could not read the next event.
    Xml(quick_xml::Error),
    /// A closing tag with no element open.
    UnmatchedEnd,
    /// The input ended with an element still open.
    UnclosedElement,
    /// The input holds no element.
    EmptyDocument,
    /// The input holds more than one top-level element.
    MultipleRoots,
}

/// The mathematical model of an event.
pub enum EventModel {
    Start(Seq<char>, Map<Seq<char>, Seq<char>>),
    Empty(Seq<char>, Map<Seq<char>, Seq<char>>),
    Text(Seq<char>),
    End,
    Eof,
    Other,
}

/// The attributes that a start tag gives its element: undecodable ones are
/// skipped, and a later attribute of the same name replaces an earlier one.
pub open spec fn attr_map(s: Seq<Option<(String, String)>>) -> Map<Seq<char>, Seq<char>>
    decreases s.len(),
{
    if s.len() == 0 {
        Map::empty()
    } else {
        let m = attr_map(s.drop_last());
        match s.last() {
            Some(p) => m.insert(p.0@, p.1@),
            None => m,
        }
    }
}

impl View for XmlEvent {
    type V = EventModel;

    open spec fn view(&self) -> EventModel {
        match self {
            XmlEvent::Start { name, attributes } => EventModel::Start(name@, attr_map(attributes@)),
            XmlEvent::Empty { name, attributes } => EventModel::Empty(name@, attr_map(attributes@)),
            XmlEvent::Text(t) => EventModel::Text(t@),
            XmlEvent::End => EventModel::End,
            XmlEvent::Eof => EventModel::Eof,
            XmlEvent::Other => EventModel::Other,
        }
    }
}

/// A tree under construction: the element being filled and, innermost last,
/// the open elements that enclose it.
pub struct Partial {
    pub current: Node,
    pub ancestors: Seq<Node>,
}

/// Where a build stands after some events.
pub enum Progress {
    Open(Partial),
    Done(Result<Node, BuildError>),
}

/// The state before any event: a placeholder element that will hold the
/// document's root as its only child.
pub open spec fn start() -> Partial {
    Partial { current: Node::fresh("root"@, Map::empty()), ancestors: Seq::empty() }
}

/// The outcome at the end of the input.
pub open spec fn finish(p: Partial) -> Result<Node, BuildError> {
    if p.ancestors.len() > 0 {
        Err(BuildError::UnclosedElement)
    } else if p.current.children.len() == 0 {
        Err(BuildError::EmptyDocument)
    } else if p.current.children.len() > 1 {
        Err(BuildError::MultipleRoots)
    } else {
        Ok(p.current.children[0])
    }
}

/// One event applied to a tree under construction.
pub open spec fn step(p: Partial, e: EventModel) -> Progress {
    match e {
        EventModel::Start(name, attrs) => Progress::Open(
            Partial { current: Node::fresh(name, attrs), ancestors: p.ancestors.push(p.current) },
        ),
        EventModel::Empty(name, attrs) => Progress::Open(
            Partial { current: p.current.appended(Node::fresh(name, attrs)), ..p },
        ),
        EventModel::Text(t) => Progress::Open(Partial { current: p.current.with_text(Some(t)), ..p }),
        EventModel::End => if p.ancestors.len() == 0 {
            Progress::Done(Err(BuildError::UnmatchedEnd))
        } else {
            let parent = p.ancestors.last();
            Progress::Open(
                Partial {
                    current: parent.appended(p.current),
                    ancestors: p.ancestors.drop_last(),
                },
            )
        },
        EventModel::Eof => Progress::Done(finish(p)),
        EventModel::Other => Progress::Open(p),
    }
}

/// One event applied to a build; a finished build stays as it is.
pub open spec fn advance(g: Progress, e: EventModel) -> Progress {
    match g {
        Progress::Open(p) => step(p, e),
        Progress::Done(r) => Progress::Done(r),
    }
}

/// A sequence of events applied in order.
pub open spec fn run(g: Progress, evs: Seq<EventModel>) -> Progress
    decreases evs.len(),
{
    if evs.len() == 0 {
        g
    } else {
        advance(run(g, evs.drop_last()), evs.last())
    }
}

/// The outcome of a whole document given as its events: those not yet
/// followed by the end of the input are followed by it.
pub open spec fn outcome(evs: Seq<EventModel>) -> Result<Node, BuildError> {
    match run(Progress::Open(start()), evs.push(EventModel::Eof)) {
        Progress::Done(r) => r,
        Progress::Open(_) => arbitrary(),
    }
}

pub open spec fn result_view(r: Result<Element, BuildError>) -> Result<Node, BuildError> {
    match r {
        Ok(e) => Ok(e@),
        Err(err) => Err(err),
    }
}

pub open spec fn events_view(evs: Seq<XmlEvent>) -> Seq<EventModel> {
    evs.map_values(|e: XmlEvent| e@)
}

/// Builds one element tree from events fed to it one at a time, holding
/// only the element being filled and the open elements around it.
pub struct TreeBuilder {
    current: Element,
    ancestors: Vec<Element>,
}

impl View for TreeBuilder {
    type V = Partial;

    closed spec fn view(&self) -> Partial {
        Partial { current: self.current@, ancestors: self.ancestors@.map_values(|e: Element| e@) }
    }
}

impl TreeBuilder {
    pub fn new() -> (r: TreeBuilder)
        ensures
            r@ == start(),
    {
        let r = TreeBuilder { current: Element::new("root"), ancestors: Vec::new() };
        assert(r@.ancestors =~= Seq::<Node>::empty());
        r
    }

    /// The number of open elements around the one being filled.
    pub fn depth(&self) -> (r: usize)
        ensures
            r == self@.ancestors.len(),
    {
        self.ancestors.len()
    }

    fn open_element(name: &String, attributes: &Vec<Option<(String, String)>>) -> (r: Element)
        ensures
            r@ == Node::fresh(name@, attr_map(attributes@)),
    {
        let mut el = Element::new(name.as_str());
        let mut i: usize = 0;
        while i < attributes.len()
            invariant
                i <= attributes@.len(),
                el@ == Node::fresh(name@, attr_map(attributes@.take(i as int))),
            decreases attributes@.len() - i,
        {
            assert(attributes@.take(i + 1).drop_last() =~= attributes@.take(i as int));
            match &attributes[i] {
                Some(p) => {
                    el.set_attribute(p.0.as_str(), p.1.as_str());
                },
                None => {},
            }
            i = i + 1;
        }
        assert(attributes@.take(i as int) =~= attributes@);
        el
    }

    /// Applies one event. Returns `None` while the build goes on, and the
    /// outcome once it is over.
    pub fn feed(&mut self, event: XmlEvent) -> (r: Option<Result<Element, BuildError>>)
        ensures
            match step(old(self)@, event@) {
                Progress::Open(p) => r is None && final(self)@ == p,
                Progress::Done(res) => r is Some && result_view(r.unwrap()) == res,
            },
    {
        match event {
            XmlEvent::Start { name, attributes } => {
                let mut el = TreeBuilder::open_element(&name, &attributes);
                std::mem::swap(&mut self.current, &mut el);
                self.ancestors.push(el);
                assert(self@.ancestors =~= old(self)@.ancestors.push(old(self)@.current));
                None
            },
            XmlEvent::Empty { name, attributes } => {
                let el = TreeBuilder::open_element(&name, &attributes);
                self.current.append_child(el);
                assert(self@.ancestors =~= old(self)@.ancestors);
                None
            },
            XmlEvent::Text(t) => {
                self.current.set_text(Some(t.as_str()));
                assert(self@.ancestors =~= old(self)@.ancestors);
                None
            },
            XmlEvent::End => {
                match self.ancestors.pop() {
                    None => Some(Err(BuildError::UnmatchedEnd)),
                    Some(mut parent) => {
                        std::mem::swap(&mut self.current, &mut parent);
                        self.current.append_child(parent);
                        assert(self@.ancestors =~= old(self)@.ancestors.drop_last());
                        None
                    },
                }
            },
            XmlEvent::Eof => {
                if self.ancestors.len() > 0 {
                    Some(Err(BuildError::UnclosedElement))
                } else {
                    match self.current.pop_child() {
                        None => Some(Err(BuildError::EmptyDocument)),
                        Some(root) => {
                            if self.current.pop_child().is_some() {
                                Some(Err(BuildError::MultipleRoots))
                            } else {
                                Some(Ok(root))
                            }
                        },
                    }
                }
            },
            XmlEvent::Other => None,
        }
    }
}

pub(crate) proof fn lemma_run_concat(g: Progress, a: Seq<EventModel>, b: Seq<EventModel>)
    ensures
        run(g, a + b) == run(run(g, a), b),
    decreases b.len(),
{
    if b.len() == 0 {
        assert(a + b =~= a);
    } else {
        lemma_run_concat(g, a, b.drop_last());
        assert((a + b).drop_last() =~= a + b.drop_last());
    }
}

pub(crate) proof fn lemma_run_done(r: Result<Node, BuildError>, evs: Seq<EventModel>)
    ensures
        run(Progress::Done(r), evs) == Progress::Done(r),
    decreases evs.len(),
{
    if evs.len() > 0 {
        lemma_run_done(r, evs.drop_last());
    }
}

/// Builds the tree of a document given as its events, as if the end of the
/// input followed them.
pub fn build_from_events(events: Vec<XmlEvent>) -> (r: Result<Element, BuildError>)
    ensures
        result_view(r) == outcome(events_view(events@)),
{
    let ghost orig = events@;
    let ghost n = events@.len();
    let ghost evs = events_view(orig);
    let mut remaining = events;
    let mut pending: Vec<XmlEvent> = Vec::new();
    while remaining.len() > 0
        invariant
            remaining@.len() + pending@.len() == n,
            orig.len() == n,
            remaining@ == orig.take(remaining@.len() as int),
            forall|j: int| 0 <= j < pending@.len() ==> pending@[j] == orig[n - 1 - j],
        decreases remaining@.len(),
    {
        let e = remaining.pop().unwrap();
        proof {
            assert(remaining@ =~= orig.take(remaining@.len() as int));
            assert(e == orig[remaining@.len() as int]);
        }
        pending.push(e);
    }
    let mut builder = TreeBuilder::new();
    let ghost mut k: int = 0;
    assert(evs.take(0) =~= Seq::<EventModel>::empty());
    while pending.len() > 0
        invariant
            pending@.len() + k == n,
            0 <= k <= n,
            orig.len() == n,
            evs.len() == n,
            evs == events_view(orig),
            orig == events@,
            forall|j: int| 0 <= j < pending@.len() ==> pending@[j] == orig[n - 1 - j],
            run(Progress::Open(start()), evs.take(k)) == Progress::Open(builder@),
        decreases pending@.len(),
    {
        let e = pending.pop().unwrap();
        let ghost em = e@;
        proof {
            assert(e == orig[k]);
            assert(em == evs[k]);
            assert(evs.take(k + 1).drop_last() =~= evs.take(k));
            assert(evs.take(k + 1).last() == em);
        }
        let step_result = builder.feed(e);
        proof {
            k = k + 1;
        }
        match step_result {
            Some(res) => {
                proof {
                    assert(run(Progress::Open(start()), evs.take(k)) == Progress::Done(result_view(res)));
                    let rest = evs.skip(k).push(EventModel::Eof);
                    assert(evs.push(EventModel::Eof) =~= evs.take(k) + rest);
                    lemma_run_concat(Progress::Open(start()), evs.take(k), rest);
                    lemma_run_done(result_view(res), rest);
                    assert(outcome(evs) == result_view(res));
                }
                return res;
            },
            None => {},
        }
    }
    proof {
        assert(evs.take(k) =~= evs);
        assert(evs.push(EventModel::Eof).drop_last() =~= evs);
        assert(evs == events_view(events@));
    }
    match builder.feed(XmlEvent::Eof) {
        Some(res) => res,
        None => Err(BuildError::EmptyDocument),
    }
}

} // verus!
