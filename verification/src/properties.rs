//! Syntax-tree nodes and the properties that a language's property sheet
//! attaches to them.

use vstd::prelude::*;
use crate::point::Point;
use crate::text::str_eq;

verus! {

/// The property bag of one node: string keys with string values.
pub struct Properties {
    entries: Vec<(String, String)>,
}

/// The bag that a list of entries stands for; a later entry replaces an
/// earlier one with the same key.
pub closed spec fn bag_of(entries: Seq<(String, String)>) -> Map<Seq<char>, Seq<char>>
    decreases entries.len(),
{
    if entries.len() == 0 {
        Map::empty()
    } else {
        bag_of(entries.drop_last()).insert(entries.last().0@, entries.last().1@)
    }
}

proof fn lemma_bag_absent(entries: Seq<(String, String)>, key: Seq<char>)
    requires
        forall|j: int| 0 <= j < entries.len() ==> entries[j].0@ != key,
    ensures
        !bag_of(entries).contains_key(key),
    decreases entries.len(),
{
    if entries.len() > 0 {
        lemma_bag_absent(entries.drop_last(), key);
    }
}

proof fn lemma_bag_last_match(entries: Seq<(String, String)>, key: Seq<char>, i: int)
    requires
        0 <= i < entries.len(),
        entries[i].0@ == key,
        forall|j: int| i < j < entries.len() ==> entries[j].0@ != key,
    ensures
        bag_of(entries).contains_key(key),
        bag_of(entries)[key] == entries[i].1@,
    decreases entries.len(),
{
    if i < entries.len() - 1 {
        lemma_bag_last_match(entries.drop_last(), key, i);
    }
}

impl View for Properties {
    type V = Map<Seq<char>, Seq<char>>;

    closed spec fn view(&self) -> Map<Seq<char>, Seq<char>> {
        bag_of(self.entries@)
    }
}

impl Properties {
    /// The empty property bag.
    pub fn new() -> (p: Properties)
        ensures
            p@ == Map::<Seq<char>, Seq<char>>::empty(),
    {
        Properties { entries: Vec::new() }
    }

    /// Sets `key` to `value`, replacing an earlier value of `key`.
    pub fn insert(&mut self, key: String, value: String)
        ensures
            final(self)@ == old(self)@.insert(key@, value@),
    {
        self.entries.push((key, value));
        assert(self.entries@.drop_last() =~= old(self).entries@);
    }

    /// The value of `prop`, if the bag holds one.
    pub fn get_property(&self, prop: &str) -> (r: Option<&str>)
        ensures
            r is Some <==> self@.contains_key(prop@),
            r matches Some(v) ==> v@ == self@[prop@],
    {
        let mut i: usize = self.entries.len();
        while i > 0
            invariant
                i <= self.entries@.len(),
                forall|j: int| i <= j < self.entries@.len() ==> self.entries@[j].0@ != prop@,
            decreases i,
        {
            i -= 1;
            if str_eq(self.entries[i].0.as_str(), prop) {
                proof {
                    lemma_bag_last_match(self.entries@, prop@, i as int);
                }
                return Some(self.entries[i].1.as_str());
            }
        }
        proof {
            lemma_bag_absent(self.entries@, prop@);
        }
        None
    }

    /// Whether the bag holds `prop`, whatever its value.
    pub fn has_property(&self, prop: &str) -> (r: bool)
        ensures
            r == self@.contains_key(prop@),
    {
        self.get_property(prop).is_some()
    }

    /// Whether the bag holds `prop` with exactly the value `value`.
    pub fn has_property_value(&self, prop: &str, value: &str) -> (r: bool)
        ensures
            r == (self@.contains_key(prop@) && self@[prop@] == value@),
    {
        match self.get_property(prop) {
            Some(v) => str_eq(v, value),
            None => false,
        }
    }
}

/// One node of a syntax tree: its text, its extent and its properties.
///
/// `depth` places the node in the tree: a tree is the list of its nodes in
/// pre-order, and the parent of a node is the nearest earlier node of smaller
/// depth.
pub struct Node {
    pub depth: usize,
    pub text: String,
    pub start_position: Point,
    pub end_position: Point,
    pub properties: Properties,
}

/// The mathematical content of a [`Node`].
pub struct NodeView {
    pub depth: nat,
    pub text: Seq<char>,
    pub start_position: Point,
    pub end_position: Point,
    pub properties: Map<Seq<char>, Seq<char>>,
}

impl View for Node {
    type V = NodeView;

    open spec fn view(&self) -> NodeView {
        NodeView {
            depth: self.depth as nat,
            text: self.text@,
            start_position: self.start_position,
            end_position: self.end_position,
            properties: self.properties@,
        }
    }
}

impl NodeView {
    /// The value of property `key`, if the node has it.
    pub open spec fn tag(self, key: Seq<char>) -> Option<Seq<char>> {
        if self.properties.contains_key(key) {
            Some(self.properties[key])
        } else {
            None
        }
    }

    /// The node has property `key` with the value `true`.
    pub open spec fn flag(self, key: Seq<char>) -> bool {
        self.tag(key) == Some("true"@)
    }

    /// The node's text is a name introduced in a scope.
    pub open spec fn is_local_definition(self) -> bool {
        self.flag("local-definition"@)
    }

    /// The local definition is visible throughout its scope.
    pub open spec fn is_hoisted(self) -> bool {
        self.properties.contains_key("local-is-hoisted"@)
    }

    /// The node's text is a local use; a node that is also a local
    /// definition counts as a definition only.
    pub open spec fn is_local_reference(self) -> bool {
        self.flag("local-reference"@) && !self.is_local_definition()
    }

    /// The node opens a scope on entry and closes it on leaving.
    pub open spec fn opens_scope(self) -> bool {
        self.flag("local-scope"@)
    }

    /// Kind of the scope that the node opens, or of the scope that its
    /// definition or reference belongs to.
    pub open spec fn scope_type(self) -> Option<Seq<char>> {
        self.tag("scope-type"@)
    }

    /// The node opens a module.
    pub open spec fn opens_module(self) -> bool {
        self.flag("module"@)
    }

    /// The node's text is the name of the innermost open module.
    pub open spec fn names_module(self) -> bool {
        self.tag("module-part"@) == Some("name"@)
    }

    /// The node opens a global definition.
    pub open spec fn opens_definition(self) -> bool {
        self.flag("definition"@)
    }

    /// The node's text is the name of the innermost open definition.
    pub open spec fn names_definition(self) -> bool {
        self.tag("definition-part"@) == Some("name"@)
    }

    /// The node is the value of the innermost open definition.
    pub open spec fn is_definition_value(self) -> bool {
        self.tag("definition-part"@) == Some("value"@)
    }

    /// Kind tag of a definition.
    pub open spec fn definition_type(self) -> Option<Seq<char>> {
        self.tag("definition-type"@)
    }

    /// The node is a global reference.
    pub open spec fn is_reference(self) -> bool {
        self.flag("reference"@)
    }

    /// Kind tag of a global reference.
    pub open spec fn reference_type(self) -> Option<Seq<char>> {
        self.tag("reference-type"@)
    }
}

impl Node {
    /// A node without properties.
    pub fn new(depth: usize, text: String, start_position: Point, end_position: Point) -> (n: Node)
        ensures
            n@ == (NodeView {
                depth: depth as nat,
                text: text@,
                start_position,
                end_position,
                properties: Map::empty(),
            }),
    {
        Node { depth, text, start_position, end_position, properties: Properties::new() }
    }

    /// The value of `prop` on this node, if it has one.
    pub fn get_property(&self, prop: &str) -> (r: Option<&str>)
        ensures
            r is Some <==> self@.tag(prop@) is Some,
            r matches Some(v) ==> self@.tag(prop@) == Some(v@),
    {
        self.properties.get_property(prop)
    }

    /// Whether the node has `prop`, whatever its value.
    pub fn has_property(&self, prop: &str) -> (r: bool)
        ensures
            r == self@.properties.contains_key(prop@),
    {
        self.properties.has_property(prop)
    }

    /// Whether the node has `prop` with exactly the value `value`.
    pub fn has_property_value(&self, prop: &str, value: &str) -> (r: bool)
        ensures
            r == (self@.tag(prop@) == Some(value@)),
    {
        self.properties.has_property_value(prop, value)
    }
}

/// A syntax tree: the nodes below the root, in pre-order.
pub struct SyntaxTree {
    pub nodes: Vec<Node>,
}

impl View for SyntaxTree {
    type V = Seq<NodeView>;

    open spec fn view(&self) -> Seq<NodeView> {
        crate::text::views(self.nodes@)
    }
}

} // verus!
