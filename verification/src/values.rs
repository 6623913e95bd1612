//! Structured values, as the system's tools and some image formats write them, and JSON.

use vstd::prelude::*;
use vstd::string::*;
use crate::text::same;

verus! {

/// A value: JSON's kinds, and the data of property lists.
#[derive(Debug)]
pub enum Node {
    Null,
    Bool(bool),
    /// A number: its value, when that is a whole number from 0 up to 64 bits.
    Number(Option<u64>),
    Text(String),
    Data(Vec<u8>),
    List(Vec<Node>),
    /// Members by name. Where a name comes more than once, the last one counts.
    Table(Vec<(String, Node)>),
}

/// What a `Node` is.
pub ghost enum Tree {
    Null,
    Bool(bool),
    Number(Option<u64>),
    Text(Seq<char>),
    Data(Seq<u8>),
    List(Seq<Tree>),
    Table(Seq<(Seq<char>, Tree)>),
}

/// What the first `n` nodes of a list are.
pub open spec fn values_upto(list: Seq<Node>, n: nat) -> Seq<Tree>
    decreases list, n,
{
    if n == 0 || n > list.len() {
        Seq::empty()
    } else {
        values_upto(list, (n - 1) as nat).push(value_of(list[n - 1]))
    }
}

/// What the first `n` members of a table are.
pub open spec fn members_upto(members: Seq<(String, Node)>, n: nat) -> Seq<(Seq<char>, Tree)>
    decreases members, n,
{
    if n == 0 || n > members.len() {
        Seq::empty()
    } else {
        members_upto(members, (n - 1) as nat).push((members[n - 1].0@, value_of(members[n - 1].1)))
    }
}

/// What a node is.
pub open spec fn value_of(v: Node) -> Tree
    decreases v, 0nat,
{
    match v {
        Node::Null => Tree::Null,
        Node::Bool(b) => Tree::Bool(b),
        Node::Number(n) => Tree::Number(n),
        Node::Text(s) => Tree::Text(s@),
        Node::Data(d) => Tree::Data(d@),
        Node::List(list) => Tree::List(values_upto(list@, list@.len())),
        Node::Table(members) => Tree::Table(members_upto(members@, members@.len())),
    }
}

impl View for Node {
    type V = Tree;

    open spec fn view(&self) -> Tree {
        value_of(*self)
    }
}

/// What the nodes of a list are.
pub open spec fn values(list: Seq<Node>) -> Seq<Tree> {
    list.map_values(|v: Node| v@)
}

/// What the members of a table are.
pub open spec fn members(table: Seq<(String, Node)>) -> Seq<(Seq<char>, Tree)> {
    table.map_values(|m: (String, Node)| (m.0@, m.1@))
}

proof fn lemma_values_upto(list: Seq<Node>, n: nat)
    requires
        n <= list.len(),
    ensures
        values_upto(list, n) == values(list).take(n as int),
    decreases n,
{
    if n > 0 {
        lemma_values_upto(list, (n - 1) as nat);
    }
    assert(values_upto(list, n) =~= values(list).take(n as int));
}

proof fn lemma_members_upto(table: Seq<(String, Node)>, n: nat)
    requires
        n <= table.len(),
    ensures
        members_upto(table, n) == members(table).take(n as int),
    decreases n,
{
    if n > 0 {
        lemma_members_upto(table, (n - 1) as nat);
    }
    assert(members_upto(table, n) =~= members(table).take(n as int));
}

/// What lists and tables are: what their nodes are.
pub broadcast proof fn lemma_parts(v: Node)
    ensures
        (#[trigger] v@) == (match v {
            Node::Null => Tree::Null,
            Node::Bool(b) => Tree::Bool(b),
            Node::Number(n) => Tree::Number(n),
            Node::Text(s) => Tree::Text(s@),
            Node::Data(d) => Tree::Data(d@),
            Node::List(list) => Tree::List(values(list@)),
            Node::Table(table) => Tree::Table(members(table@)),
        }),
{
    match v {
        Node::List(list) => {
            lemma_values_upto(list@, list@.len());
            assert(values(list@).take(list@.len() as int) =~= values(list@));
        },
        Node::Table(table) => {
            lemma_members_upto(table@, table@.len());
            assert(members(table@).take(table@.len() as int) =~= members(table@));
        },
        _ => {},
    }
}

/// `serde_json::Value`, a parsed JSON text.
#[verifier::external_type_specification]
#[verifier::external_body]
pub struct ExJson(serde_json::Value);

/// What a parsed JSON text holds.
pub uninterp spec fn json_contents(v: serde_json::Value) -> Tree;

/// The variants of `serde_json::Value`, one for one. A number keeps its value where
/// `serde_json::Number::as_u64` gives one.
#[verifier::external_body]
fn json_value(v: serde_json::Value) -> (r: Node)
    ensures
        r@ == json_contents(v),
{
    match v {
        serde_json::Value::Null => Node::Null,
        serde_json::Value::Bool(b) => Node::Bool(b),
        serde_json::Value::Number(n) => Node::Number(n.as_u64()),
        serde_json::Value::String(s) => Node::Text(s),
        serde_json::Value::Array(a) => Node::List(a.into_iter().map(json_value).collect()),
        serde_json::Value::Object(o) => Node::Table(o.into_iter().map(|(k, v)| (k, json_value(v))).collect()),
    }
}

/// What `serde_json::from_slice` makes of a JSON text, or what it says of it.
pub uninterp spec fn json_in(bytes: Seq<u8>) -> Result<Tree, Seq<char>>;

/// `serde_json::from_slice`: a JSON text in bytes, with nothing but white space after it.
#[verifier::external_body]
fn json_from_slice(bytes: &[u8]) -> (r: Result<serde_json::Value, String>)
    ensures
        match r {
            Ok(v) => json_in(bytes@) == Ok::<Tree, Seq<char>>(json_contents(v)),
            Err(e) => json_in(bytes@) == Err::<Tree, Seq<char>>(e@),
        },
{
    serde_json::from_slice(bytes).map_err(|e| e.to_string())
}

/// What the first item of `serde_json::Deserializer::from_str` is.
pub uninterp spec fn json_at_start(text: Seq<char>) -> Option<Tree>;

/// `serde_json::Deserializer::from_str` and the first item of its stream: a JSON text that
/// other text may follow.
#[verifier::external_body]
fn json_from_start(text: &str) -> (r: Option<serde_json::Value>)
    ensures
        match r {
            Some(v) => json_at_start(text@) == Some(json_contents(v)),
            None => json_at_start(text@) is None,
        },
{
    serde_json::Deserializer::from_str(text).into_iter::<serde_json::Value>().next()?.ok()
}

/// A JSON text in bytes, or what is wrong with it.
pub fn json(bytes: &[u8]) -> (r: Result<Node, String>)
    ensures
        match r {
            Ok(v) => json_in(bytes@) == Ok::<Tree, Seq<char>>(v@),
            Err(e) => json_in(bytes@) == Err::<Tree, Seq<char>>(e@),
        },
{
    match json_from_slice(bytes) {
        Ok(v) => Ok(json_value(v)),
        Err(e) => Err(e),
    }
}

/// The JSON text at the start of `text`, if there is one.
pub fn json_start(text: &str) -> (r: Option<Node>)
    ensures
        match r {
            Some(v) => json_at_start(text@) == Some(v@),
            None => json_at_start(text@) is None,
        },
{
    match json_from_start(text) {
        Some(v) => Some(json_value(v)),
        None => None,
    }
}

/// The member of that name among the first `n`; the last one, where the name comes more than
/// once.
pub open spec fn last_member(members: Seq<(Seq<char>, Tree)>, key: Seq<char>, n: nat) -> Option<Tree>
    decreases n,
{
    if n == 0 || n > members.len() {
        None
    } else if members[n - 1].0 == key {
        Some(members[n - 1].1)
    } else {
        last_member(members, key, (n - 1) as nat)
    }
}

impl Tree {
    /// The member of that name, if it is a table that has one.
    pub open spec fn member(self, key: Seq<char>) -> Option<Tree> {
        match self {
            Tree::Table(members) => last_member(members, key, members.len()),
            _ => None,
        }
    }

    /// The text that it is, if it is one.
    pub open spec fn text_of(self) -> Option<Seq<char>> {
        match self {
            Tree::Text(s) => Some(s),
            _ => None,
        }
    }
}

impl Node {
    pub fn get(&self, key: &str) -> (r: Option<&Node>)
        ensures
            match r {
                Some(v) => self@.member(key@) == Some(v@),
                None => self@.member(key@) is None,
            },
            r matches Some(v) ==> decreases_to!(self => v),
    {
        broadcast use lemma_parts;

        match self {
            Node::Table(table) => {
                let mut i: usize = table.len();
                while i > 0
                    invariant
                        i <= table@.len(),
                        *self == Node::Table(*table),
                        self@.member(key@) == last_member(members(table@), key@, i as nat),
                    decreases i,
                {
                    i = i - 1;
                    if same(table[i].0.as_str(), key) {
                        proof {
                            lemma_table(*self, i as int);
                        }
                        return Some(&table[i].1);
                    }
                }
                None
            },
            _ => None,
        }
    }

    pub fn as_str(&self) -> (r: Option<&str>)
        ensures
            match r {
                Some(s) => self@.text_of() == Some(s@),
                None => self@.text_of() is None,
            },
    {
        match self {
            Node::Text(s) => Some(s.as_str()),
            _ => None,
        }
    }
}

/// The nodes of a list are less than the list.
pub proof fn lemma_listed(list: Vec<Node>, i: int)
    requires
        0 <= i < list@.len(),
    ensures
        decreases_to!(Node::List(list) => list@[i]),
{
    let v = Node::List(list);
    assert(decreases_to!(v => v->List_0));
    assert(decreases_to!(list => list@));
    assert(decreases_to!(list@ => list@[i]));
}

/// The members of a table are less than the table.
proof fn lemma_table(v: Node, i: int)
    requires
        v matches Node::Table(table) && 0 <= i < table@.len(),
    ensures
        v matches Node::Table(table) ==> decreases_to!(v => table@[i].1),
{
    if let Node::Table(table) = v {
        assert(decreases_to!(v => table));
        assert(decreases_to!(table => table@));
        assert(decreases_to!(table@ => table@[i]));
        assert(decreases_to!(table@[i] => table@[i].1));
    }
}

} // verus!
