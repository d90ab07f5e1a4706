//! The element tree: tag, attributes, optional text and owned children.
use vstd::prelude::*;

verus! {

/// The value of one attribute.
pub struct AttributeValue {
    pub value: String,
}

impl<'a> From<&'a str> for AttributeValue {
    fn from(s: &'a str) -> (r: AttributeValue)
        ensures
            r.value@ == s@,
    {
        AttributeValue { value: s.to_owned() }
    }
}

impl From<String> for AttributeValue {
    fn from(s: String) -> (r: AttributeValue)
        ensures
            r.value@ == s@,
    {
        AttributeValue { value: s }
    }
}

impl vstd::std_specs::convert::FromSpecImpl<String> for AttributeValue {
    open spec fn obeys_from_spec() -> bool {
        false
    }

    open spec fn from_spec(s: String) -> AttributeValue {
        arbitrary()
    }
}

impl<'a> vstd::std_specs::convert::FromSpecImpl<&'a str> for AttributeValue {
    open spec fn obeys_from_spec() -> bool {
        false
    }

    open spec fn from_spec(s: &'a str) -> AttributeValue {
        arbitrary()
    }
}

/// The map that a sequence of entries denotes: a later entry for a key
/// replaces an earlier one.
pub open spec fn entries_map(s: Seq<(String, AttributeValue)>) -> Map<Seq<char>, Seq<char>>
    decreases s.len(),
{
    if s.len() == 0 {
        Map::empty()
    } else {
        entries_map(s.drop_last()).insert(s.last().0@, s.last().1.value@)
    }
}

/// No two entries share a key.
pub open spec fn unique_keys(s: Seq<(String, AttributeValue)>) -> bool {
    forall|i: int, j: int| 0 <= i < j < s.len() ==> s[i].0@ != s[j].0@
}

proof fn lemma_entries_map_dom(s: Seq<(String, AttributeValue)>, k: Seq<char>)
    ensures
        entries_map(s).contains_key(k) <==> exists|i: int| 0 <= i < s.len() && s[i].0@ == k,
    decreases s.len(),
{
    if s.len() > 0 {
        lemma_entries_map_dom(s.drop_last(), k);
        if entries_map(s).contains_key(k) && s.last().0@ != k {
            let i = choose|i: int| 0 <= i < s.len() - 1 && s.drop_last()[i].0@ == k;
            assert(s[i].0@ == k);
        }
        if exists|i: int| 0 <= i < s.len() && s[i].0@ == k {
            let i = choose|i: int| 0 <= i < s.len() && s[i].0@ == k;
            if i < s.len() - 1 {
                assert(s.drop_last()[i].0@ == k);
            }
        }
    }
}

proof fn lemma_entries_map_get(s: Seq<(String, AttributeValue)>, i: int)
    requires
        unique_keys(s),
        0 <= i < s.len(),
    ensures
        entries_map(s).contains_key(s[i].0@),
        entries_map(s)[s[i].0@] == s[i].1.value@,
    decreases s.len(),
{
    if i < s.len() - 1 {
        assert(s.drop_last()[i] == s[i]);
        lemma_entries_map_get(s.drop_last(), i);
    }
}

proof fn lemma_entries_map_update(s: Seq<(String, AttributeValue)>, i: int, e: (String, AttributeValue))
    requires
        unique_keys(s),
        0 <= i < s.len(),
        e.0@ == s[i].0@,
    ensures
        unique_keys(s.update(i, e)),
        entries_map(s.update(i, e)) == entries_map(s).insert(e.0@, e.1.value@),
{
    let t = s.update(i, e);
    let m = entries_map(s).insert(e.0@, e.1.value@);
    assert forall|k: Seq<char>| entries_map(t).contains_key(k) <==> m.contains_key(k) by {
        lemma_entries_map_dom(s, k);
        lemma_entries_map_dom(t, k);
        if exists|j: int| 0 <= j < s.len() && s[j].0@ == k {
            let j = choose|j: int| 0 <= j < s.len() && s[j].0@ == k;
            assert(t[j].0@ == k);
        }
        if exists|j: int| 0 <= j < t.len() && t[j].0@ == k {
            let j = choose|j: int| 0 <= j < t.len() && t[j].0@ == k;
            assert(s[j].0@ == k);
        }
    }
    assert forall|k: Seq<char>| #[trigger] entries_map(t).contains_key(k) implies entries_map(t)[k] == m[k] by {
        lemma_entries_map_dom(t, k);
        let j = choose|j: int| 0 <= j < t.len() && t[j].0@ == k;
        lemma_entries_map_get(t, j);
        if j != i {
            lemma_entries_map_get(s, j);
        }
    }
    assert(entries_map(t) =~= m);
}

/// The attributes of an element: a map from name to value with unique names.
pub struct Attributes {
    entries: Vec<(String, AttributeValue)>,
}

impl View for Attributes {
    type V = Map<Seq<char>, Seq<char>>;

    closed spec fn view(&self) -> Map<Seq<char>, Seq<char>> {
        entries_map(self.entries@)
    }
}

impl Attributes {
    #[verifier::type_invariant]
    closed spec fn inv(&self) -> bool {
        unique_keys(self.entries@)
    }

    /// An empty attribute map.
    pub fn new() -> (r: Attributes)
        ensures
            r@ == Map::<Seq<char>, Seq<char>>::empty(),
    {
        Attributes { entries: Vec::new() }
    }

    /// The number of attributes.
    pub fn len(&self) -> (r: usize)
        ensures
            r == self@.len(),
    {
        proof {
            use_type_invariant(self);
            self.lemma_len();
        }
        self.entries.len()
    }

    proof fn lemma_len(&self)
        requires
            unique_keys(self.entries@),
        ensures
            self@.len() == self.entries@.len(),
            self@.dom().finite(),
    {
        let s = self.entries@;
        let keys = Seq::new(s.len(), |i: int| s[i].0@);
        assert forall|k: Seq<char>| self@.dom().contains(k) <==> keys.to_set().contains(k) by {
            lemma_entries_map_dom(s, k);
            if keys.contains(k) {
                let i = choose|i: int| 0 <= i < keys.len() && keys[i] == k;
                assert(s[i].0@ == k);
            }
            if exists|i: int| 0 <= i < s.len() && s[i].0@ == k {
                let i = choose|i: int| 0 <= i < s.len() && s[i].0@ == k;
                assert(keys[i] == k);
            }
        }
        assert(self@.dom() =~= keys.to_set());
        assert(keys.no_duplicates());
        keys.unique_seq_to_set();
    }

    fn find(&self, key: &String) -> (r: Option<usize>)
        ensures
            match r {
                Some(i) => i < self.entries@.len() && self.entries@[i as int].0@ == key@,
                None => forall|i: int| 0 <= i < self.entries@.len() ==> self.entries@[i].0@ != key@,
            },
    {
        let mut i: usize = 0;
        while i < self.entries.len()
            invariant
                i <= self.entries@.len(),
                forall|j: int| 0 <= j < i ==> self.entries@[j].0@ != key@,
            decreases self.entries@.len() - i,
        {
            if self.entries[i].0 == *key {
                return Some(i);
            }
            i = i + 1;
        }
        None
    }

    /// Looks up the value of `key`; `None` where no attribute has that name.
    pub fn get(&self, key: &str) -> (r: Option<&AttributeValue>)
        ensures
            r is Some <==> self@.contains_key(key@),
            r is Some ==> r.unwrap().value@ == self@[key@],
    {
        proof {
            use_type_invariant(self);
            lemma_entries_map_dom(self.entries@, key@);
        }
        let k = key.to_owned();
        match self.find(&k) {
            Some(i) => {
                proof {
                    lemma_entries_map_get(self.entries@, i as int);
                }
                Some(&self.entries[i].1)
            },
            None => None,
        }
    }

    /// All attributes as (name, value) entries, each name once, in no
    /// particular order.
    pub fn entries(&self) -> (r: &[(String, AttributeValue)])
        ensures
            entries_map(r@) == self@,
            unique_keys(r@),
    {
        proof {
            use_type_invariant(self);
        }
        self.entries.as_slice()
    }

    /// Whether an attribute named `key` is present.
    pub fn contains_key(&self, key: &str) -> (r: bool)
        ensures
            r == self@.contains_key(key@),
    {
        self.get(key).is_some()
    }

    /// Sets `key` to `value`, replacing the value it had.
    pub fn insert(&mut self, key: String, value: AttributeValue)
        ensures
            final(self)@ == old(self)@.insert(key@, value.value@),
    {
        proof {
            use_type_invariant(&*self);
        }
        let found = self.find(&key);
        let mut entries: Vec<(String, AttributeValue)> = Vec::new();
        std::mem::swap(&mut self.entries, &mut entries);
        match found {
            Some(i) => {
                proof {
                    lemma_entries_map_update(entries@, i as int, (key, value));
                }
                entries.set(i, (key, value));
            },
            None => {
                proof {
                    let s = entries@.push((key, value));
                    assert(s.drop_last() =~= entries@);
                }
                entries.push((key, value));
            },
        }
        self.entries = entries;
    }
}

/// The mathematical model of an element tree.
pub struct Node {
    pub tag: Seq<char>,
    pub attributes: Map<Seq<char>, Seq<char>>,
    pub text: Option<Seq<char>>,
    pub children: Seq<Node>,
}

impl Node {
    /// A node with the given tag and attributes, no text and no children.
    pub open spec fn fresh(tag: Seq<char>, attributes: Map<Seq<char>, Seq<char>>) -> Node {
        Node { tag, attributes, text: None, children: Seq::empty() }
    }

    pub open spec fn with_text(self, text: Option<Seq<char>>) -> Node {
        Node { text, ..self }
    }

    pub open spec fn with_children(self, children: Seq<Node>) -> Node {
        Node { children, ..self }
    }

    /// This node with `child` added after its children.
    pub open spec fn appended(self, child: Node) -> Node {
        self.with_children(self.children.push(child))
    }

    /// This node without its last child.
    pub open spec fn popped(self) -> Node {
        self.with_children(self.children.drop_last())
    }

    /// The last child of this node.
    pub open spec fn last_child(self) -> Node {
        self.children.last()
    }
}

pub open spec fn opt_view(t: Option<String>) -> Option<Seq<char>> {
    match t {
        Some(s) => Some(s@),
        None => None,
    }
}

/// One XML element: it owns its attributes, its text and its children.
pub struct Element {
    tag: String,
    attributes: Attributes,
    text: Option<String>,
    children: Vec<Element>,
}

impl Element {
    /// The tree that this element denotes.
    pub closed spec fn model(&self) -> Node
        decreases self,
    {
        Node {
            tag: self.tag@,
            attributes: self.attributes@,
            text: opt_view(self.text),
            children: Seq::new(
                self.children.len() as nat,
                |i: int|
                    if 0 <= i < self.children.len() {
                        self.children[i].model()
                    } else {
                        arbitrary()
                    },
            ),
        }
    }
}

impl View for Element {
    type V = Node;

    open spec fn view(&self) -> Node {
        self.model()
    }
}

pub open spec fn opt_str_view(t: Option<&str>) -> Option<Seq<char>> {
    match t {
        Some(s) => Some(s@),
        None => None,
    }
}

impl Element {
    proof fn lemma_view(&self)
        ensures
            self@.tag == self.tag@,
            self@.attributes == self.attributes@,
            self@.text == opt_view(self.text),
            self@.children.len() == self.children@.len(),
            forall|i: int| 0 <= i < self.children@.len() ==> #[trigger] self@.children[i] == self.children@[i]@,
    {
    }

    /// A new element with the given tag, no attributes, no text and no children.
    pub fn new(tag: &str) -> (r: Element)
        ensures
            r@ == Node::fresh(tag@, Map::empty()),
    {
        let r = Element { tag: tag.to_owned(), attributes: Attributes::new(), text: None, children: Vec::new() };
        assert(r@.children =~= Seq::<Node>::empty());
        r
    }

    pub fn tag(&self) -> (r: &str)
        ensures
            r@ == self@.tag,
    {
        self.tag.as_str()
    }

    /// Replaces the tag; any text is accepted.
    pub fn set_tag(&mut self, tag: &str)
        ensures
            final(self)@ == (Node { tag: tag@, ..old(self)@ }),
    {
        self.tag = tag.to_owned();
        assert(final(self)@.children =~= old(self)@.children);
    }

    /// Replaces the text, or clears it when given `None`.
    pub fn set_text(&mut self, text: Option<&str>)
        ensures
            final(self)@ == old(self)@.with_text(opt_str_view(text)),
    {
        self.text = match text {
            Some(t) => Some(t.to_owned()),
            None => None,
        };
        assert(final(self)@.children =~= old(self)@.children);
    }

    pub fn text(&self) -> (r: Option<&str>)
        ensures
            opt_str_view(r) == self@.text,
    {
        match &self.text {
            Some(s) => Some(s.as_str()),
            None => None,
        }
    }

    pub fn attributes(&self) -> (r: &Attributes)
        ensures
            r@ == self@.attributes,
    {
        &self.attributes
    }

    /// Sets attribute `key` to `value`, replacing the value it had.
    pub fn set_attribute(&mut self, key: &str, value: &str)
        ensures
            final(self)@ == (Node { attributes: old(self)@.attributes.insert(key@, value@), ..old(self)@ }),
    {
        self.attributes.insert(key.to_owned(), AttributeValue::from(value));
        assert(final(self)@.children =~= old(self)@.children);
    }

    /// Moves `child` to the end of the children.
    pub fn append_child(&mut self, child: Element)
        ensures
            final(self)@ == old(self)@.appended(child@),
    {
        proof {
            self.lemma_view();
        }
        self.children.push(child);
        proof {
            self.lemma_view();
        }
        assert(final(self)@.children =~= old(self)@.children.push(child@));
    }

    /// Detaches the last child and hands it over; `None` where there is none.
    pub fn pop_child(&mut self) -> (r: Option<Element>)
        ensures
            old(self)@.children.len() == 0 ==> r is None && final(self)@ == old(self)@,
            old(self)@.children.len() > 0 ==> r is Some && r.unwrap()@ == old(self)@.last_child()
                && final(self)@ == old(self)@.popped(),
    {
        proof {
            self.lemma_view();
        }
        let r = self.children.pop();
        proof {
            self.lemma_view();
        }
        if r.is_some() {
            assert(final(self)@.children =~= old(self)@.children.drop_last());
        } else {
            assert(final(self)@.children =~= old(self)@.children);
        }
        r
    }
}

} // verus!
