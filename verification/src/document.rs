//! The document model: a parsed YAML document as a tree of scalars, sequences
//! and mappings, with the parser and the emitter that move between text and
//! tree.

use crate::text::same_text;
use serde_yaml::value::{Tag, TaggedValue};
use serde_yaml::{Number, Value};
use vstd::prelude::*;

verus! {

/// `serde_yaml::Value`, the parser's own tree. It is only handed on between
/// the parser, the emitter and the conversions below.
#[verifier::external_type_specification]
#[verifier::external_body]
pub struct ExValue(Value);

/// `serde_yaml::Number`, a number scalar. It is carried, never read.
#[verifier::external_type_specification]
#[verifier::external_body]
pub struct ExNumber(Number);

/// `serde_yaml::value::Tag`, the tag of a tagged node. It is carried, never
/// read.
#[verifier::external_type_specification]
#[verifier::external_body]
pub struct ExTag(Tag);

/// `serde_yaml::Error`, what the parser and the emitter fail with. Only its
/// message is taken from it.
#[verifier::external_type_specification]
#[verifier::external_body]
pub struct ExYamlError(serde_yaml::Error);

/// A node of a parsed document. Numbers and tags are carried as the parser
/// made them; nothing in this library looks inside one.
#[derive(Debug, PartialEq)]
pub enum Node {
    Null,
    Bool(bool),
    Number(Number),
    Text(String),
    Sequence(Vec<Node>),
    Mapping(Vec<(Node, Node)>),
    Tagged(Tag, Box<Node>),
}

/// The mathematical value of a node.
pub ghost enum Tree {
    Null,
    Bool(bool),
    Number(Number),
    Text(Seq<char>),
    Sequence(Seq<Tree>),
    Mapping(Seq<(Tree, Tree)>),
    Tagged(Tag, Box<Tree>),
}

impl Tree {
    /// The node under all of this node's tags.
    pub open spec fn untagged(self) -> Tree
        decreases self,
    {
        match self {
            Tree::Tagged(_, inner) => inner.untagged(),
            _ => self,
        }
    }

    /// The text of a string scalar, tagged or not.
    pub open spec fn as_text(self) -> Option<Seq<char>> {
        match self.untagged() {
            Tree::Text(text) => Some(text),
            _ => None,
        }
    }
}

/// Position of the first entry whose key is the plain string `key`, or the
/// number of entries if there is none.
pub open spec fn key_index(entries: Seq<(Tree, Tree)>, key: Seq<char>) -> int
    decreases entries.len(),
{
    if entries.len() == 0 || entries[0].0 == Tree::Text(key) {
        0
    } else {
        1 + key_index(entries.skip(1), key)
    }
}

/// `key_index` is a position among the entries, or their number.
pub proof fn lemma_key_index(entries: Seq<(Tree, Tree)>, key: Seq<char>)
    ensures
        0 <= key_index(entries, key) <= entries.len(),
        key_index(entries, key) < entries.len() ==> entries[key_index(entries, key)].0
            == Tree::Text(key),
    decreases entries.len(),
{
    if entries.len() == 0 || entries[0].0 == Tree::Text(key) {
    } else {
        let rest = entries.skip(1);
        lemma_key_index(rest, key);
        if key_index(entries, key) < entries.len() {
            assert(rest[key_index(rest, key)] == entries[key_index(entries, key)]);
        }
    }
}

/// The values of a run of nodes.
pub open spec fn trees(nodes: Seq<Node>) -> Seq<Tree> {
    Seq::new(nodes.len(), |i: int| nodes[i]@)
}

/// The values of a run of key and value pairs.
pub open spec fn entry_trees(entries: Seq<(Node, Node)>) -> Seq<(Tree, Tree)> {
    Seq::new(entries.len(), |i: int| (entries[i].0@, entries[i].1@))
}

impl Node {
    /// The mathematical value of this node.
    pub open spec fn tree(&self) -> Tree
        decreases self,
    {
        match self {
            Node::Null => Tree::Null,
            Node::Bool(b) => Tree::Bool(*b),
            Node::Number(n) => Tree::Number(*n),
            Node::Text(s) => Tree::Text(s@),
            Node::Sequence(items) => Tree::Sequence(
                Seq::new(
                    items@.len(),
                    |i: int|
                        if 0 <= i < items@.len() {
                            items@[i].tree()
                        } else {
                            Tree::Null
                        },
                ),
            ),
            Node::Mapping(entries) => Tree::Mapping(
                Seq::new(
                    entries@.len(),
                    |i: int|
                        if 0 <= i < entries@.len() {
                            (entries@[i].0.tree(), entries@[i].1.tree())
                        } else {
                            (Tree::Null, Tree::Null)
                        },
                ),
            ),
            Node::Tagged(tag, inner) => Tree::Tagged(*tag, Box::new(inner.tree())),
        }
    }

    /// A sequence node is the sequence of its items' values, a mapping node
    /// the sequence of its entries' values.
    pub proof fn lemma_children(&self)
        ensures
            self matches Node::Sequence(items) ==> self@ == Tree::Sequence(trees(items@)),
            self matches Node::Mapping(entries) ==> self@ == Tree::Mapping(entry_trees(entries@)),
    {
        match self {
            Node::Sequence(items) => {
                assert(self@->Sequence_0 =~= trees(items@));
            },
            Node::Mapping(entries) => {
                assert(self@->Mapping_0 =~= entry_trees(entries@));
            },
            _ => {},
        }
    }

    /// The node under all of this node's tags.
    pub fn untagged(&self) -> (inner: &Node)
        ensures
            inner@ == self@.untagged(),
            !(inner is Tagged),
        decreases self,
    {
        match self {
            Node::Tagged(_, inner) => inner.untagged(),
            _ => self,
        }
    }

    /// The text of a string scalar, tagged or not.
    pub fn as_str(&self) -> (text: Option<&String>)
        ensures
            match text {
                Some(s) => self@.as_text() == Some(s@),
                None => self@.as_text() is None,
            },
    {
        match self.untagged() {
            Node::Text(text) => Some(text),
            _ => None,
        }
    }
}

impl View for Node {
    type V = Tree;

    open spec fn view(&self) -> Tree {
        self.tree()
    }
}

/// Position of the first entry of `entries` whose key is the plain string
/// `key`, or the number of entries if there is none.
pub fn find_key(entries: &Vec<(Node, Node)>, key: &str) -> (position: usize)
    ensures
        position == key_index(entry_trees(entries@), key@),
        position <= entries.len(),
{
    let mut i: usize = 0;
    assert(entry_trees(entries@).skip(0) =~= entry_trees(entries@));
    while i < entries.len()
        invariant
            i <= entries.len(),
            key_index(entry_trees(entries@), key@) == i + key_index(
                entry_trees(entries@).skip(i as int),
                key@,
            ),
        decreases entries.len() - i,
    {
        let ghost rest = entry_trees(entries@).skip(i as int);
        assert(rest[0] == entry_trees(entries@)[i as int]);
        assert(rest.skip(1) =~= entry_trees(entries@).skip(i + 1));
        let found = match &entries[i].0 {
            Node::Text(text) => same_text(text.as_str(), key),
            _ => false,
        };
        if found {
            return i;
        }
        i += 1;
    }
    i
}

/// What the YAML parser makes of a text: the tree of the one document it
/// holds, or `None` where the text is not one well-formed document.
pub uninterp spec fn parsed_yaml(text: Seq<char>) -> Option<Tree>;

/// The YAML text that the emitter writes for a tree, or `None` where it
/// refuses the tree.
pub uninterp spec fn emitted_yaml(tree: Tree) -> Option<Seq<char>>;

/// Moves a `serde_yaml::Value` into a `Node`, variant for variant; a mapping's
/// entries keep their order.
#[verifier::external_body]
fn node_of_value(value: Value) -> Node {
    match value {
        Value::Null => Node::Null,
        Value::Bool(b) => Node::Bool(b),
        Value::Number(n) => Node::Number(n),
        Value::String(s) => Node::Text(s),
        Value::Sequence(items) => Node::Sequence(items.into_iter().map(node_of_value).collect()),
        Value::Mapping(entries) => Node::Mapping(
            entries.into_iter().map(|(k, v)| (node_of_value(k), node_of_value(v))).collect(),
        ),
        Value::Tagged(tagged) => Node::Tagged(tagged.tag, Box::new(node_of_value(tagged.value))),
    }
}

/// Copies a `Node` into a `serde_yaml::Value`, variant for variant; a mapping's
/// entries are inserted in their order.
#[verifier::external_body]
fn value_of_node(node: &Node) -> Value {
    match node {
        Node::Null => Value::Null,
        Node::Bool(b) => Value::Bool(*b),
        Node::Number(n) => Value::Number(n.clone()),
        Node::Text(s) => Value::String(s.clone()),
        Node::Sequence(items) => Value::Sequence(items.iter().map(value_of_node).collect()),
        Node::Mapping(entries) => Value::Mapping(
            entries.iter().map(|(k, v)| (value_of_node(k), value_of_node(v))).collect(),
        ),
        Node::Tagged(tag, inner) => Value::Tagged(
            Box::new(TaggedValue { tag: tag.clone(), value: value_of_node(inner) }),
        ),
    }
}

/// Calls `serde_yaml::from_str` for a `Value` and moves what it returns into a
/// `Node`. Trusted: the outcome depends on the text alone.
#[verifier::external_body]
fn yaml_from_str(text: &str) -> (outcome: Result<Node, serde_yaml::Error>)
    ensures
        match outcome {
            Ok(node) => parsed_yaml(text@) == Some(node@),
            Err(_) => parsed_yaml(text@) is None,
        },
{
    serde_yaml::from_str::<Value>(text).map(node_of_value)
}

/// Calls `serde_yaml::to_string` on the `Value` that holds what `node` holds.
/// Trusted: the outcome depends on the node's value alone.
#[verifier::external_body]
fn yaml_to_string(node: &Node) -> (outcome: Result<String, serde_yaml::Error>)
    ensures
        match outcome {
            Ok(text) => emitted_yaml(node@) == Some(text@),
            Err(_) => emitted_yaml(node@) is None,
        },
{
    serde_yaml::to_string(&value_of_node(node))
}

/// The message of a `serde_yaml::Error`, as its `Display` writes it.
#[verifier::external_body]
fn yaml_error_message(error: &serde_yaml::Error) -> String {
    format!("{}", error)
}

/// Why a text could not be read, or a document not be written, as YAML.
#[derive(Debug, PartialEq, Eq)]
pub enum YamlError {
    /// The text is not one well-formed YAML document.
    Parse(String),
    /// The emitter refused the document.
    Emit(String),
}

/// Parses a YAML text into its document.
pub fn parse_document(text: &str) -> (outcome: Result<Node, YamlError>)
    ensures
        match outcome {
            Ok(node) => parsed_yaml(text@) == Some(node@),
            Err(error) => parsed_yaml(text@) is None && error is Parse,
        },
{
    match yaml_from_str(text) {
        Ok(node) => Ok(node),
        Err(error) => Err(YamlError::Parse(yaml_error_message(&error))),
    }
}

/// Writes a document as YAML text.
pub fn emit_document(node: &Node) -> (outcome: Result<String, YamlError>)
    ensures
        match outcome {
            Ok(text) => emitted_yaml(node@) == Some(text@),
            Err(error) => emitted_yaml(node@) is None && error is Emit,
        },
{
    match yaml_to_string(node) {
        Ok(text) => Ok(text),
        Err(error) => Err(YamlError::Emit(yaml_error_message(&error))),
    }
}

} // verus!
