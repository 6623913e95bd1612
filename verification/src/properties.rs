//! Property lists, as macOS writes them. A reader of the `plist` crate tells one thing after
//! another of what it comes upon; here that becomes a value. Lists and tables may be nested
//! as deep as they like: what lies deeper than anything asks for is left out.

use vstd::prelude::*;
use vstd::string::*;
use vstd::utf8::*;
use plist::stream::Event::{
    Boolean, Data, Date, EndCollection, Integer, Real, StartArray, StartDictionary, String as Words,
};
use plist::stream::{Reader, XmlReader};
use std::io;
use crate::text::{chars, from_utf8, is_text};
use crate::values::{last_member, lemma_parts, members, values, Node, Tree};

verus! {

// ---- What a reader tells ------------------------------------------------------------------

/// What a reader comes upon in a property list.
pub enum Mark {
    /// The start of a list.
    List,
    /// The start of a table: names and values in turn.
    Table,
    /// The end of a list or a table.
    End,
    Bool(bool),
    Data(Vec<u8>),
    Date,
    /// A whole number: its value, when that is from 0 up to 64 bits, and its text.
    Number(Option<u64>, String),
    /// A number with a fraction: its text.
    Real(String),
    Text(String),
    Uid,
}

/// What a `Mark` is.
pub ghost enum Sign {
    List,
    Table,
    End,
    Bool(bool),
    Data(Seq<u8>),
    Date,
    Number(Option<u64>, Seq<char>),
    Real(Seq<char>),
    Text(Seq<char>),
    Uid,
}

impl View for Mark {
    type V = Sign;

    open spec fn view(&self) -> Sign {
        match *self {
            Mark::List => Sign::List,
            Mark::Table => Sign::Table,
            Mark::End => Sign::End,
            Mark::Bool(b) => Sign::Bool(b),
            Mark::Data(d) => Sign::Data(d@),
            Mark::Date => Sign::Date,
            Mark::Number(n, text) => Sign::Number(n, text@),
            Mark::Real(text) => Sign::Real(text@),
            Mark::Text(s) => Sign::Text(s@),
            Mark::Uid => Sign::Uid,
        }
    }
}

/// All that a reader tells: what it comes upon, and what it then says is wrong, if anything is.
#[verifier::ext_equal]
pub ghost struct Telling {
    pub signs: Seq<Sign>,
    pub fault: Option<Seq<char>>,
}

impl Telling {
    /// What is left after the first sign.
    pub open spec fn rest(self) -> Telling {
        Telling { signs: self.signs.skip(1), fault: self.fault }
    }
}

/// What some marks and what is wrong after them come to.
pub open spec fn telling(marks: Seq<Mark>, fault: Option<String>) -> Telling {
    Telling {
        signs: marks.map_values(|m: Mark| m@),
        fault: match fault {
            Some(e) => Some(e@),
            None => None,
        },
    }
}

/// What `plist::stream::XmlReader` tells of a property list in XML.
pub uninterp spec fn xml_telling(bytes: Seq<u8>) -> Telling;

/// `plist::stream::XmlReader::new` and its `next`, up to the end or the first error: the events
/// in order, and the text of the error. The variants of `plist::stream::Event` are told apart
/// one for one. A whole number keeps its value where `plist::Integer::as_unsigned` gives one, and
/// its text; a real keeps its text. Dates and UIDs, which nothing asks for, and the length that
/// may come with a list or a table are left out.
#[verifier::external_body]
fn xml_marks(bytes: &[u8]) -> (r: (Vec<Mark>, Option<String>))
    ensures
        telling(r.0@, r.1) == xml_telling(bytes@),
{
    let mut fault = None;
    let told = XmlReader::new(bytes).map_while(|e| e.map_err(|e| fault = Some(e.to_string())).ok());
    (told.map(|e| match e {
        StartArray(_) => Mark::List,
        StartDictionary(_) => Mark::Table,
        EndCollection => Mark::End,
        Boolean(b) => Mark::Bool(b),
        Data(d) => Mark::Data(d.into_owned()),
        Date(_) => Mark::Date,
        Integer(n) => Mark::Number(n.as_unsigned(), n.to_string()),
        Real(x) => Mark::Real(x.to_string()),
        Words(s) => Mark::Text(s.into_owned()),
        _ => Mark::Uid,
    }).collect(), fault)
}

/// What `plist::stream::Reader` tells of a property list in any of its formats.
pub uninterp spec fn any_telling(bytes: Seq<u8>) -> Telling;

/// `plist::stream::Reader::new` and its `next`: the same of any format.
#[verifier::external_body]
fn any_marks(bytes: &[u8]) -> (r: (Vec<Mark>, Option<String>))
    ensures
        telling(r.0@, r.1) == any_telling(bytes@),
{
    let mut fault = None;
    let told = Reader::new(io::Cursor::new(bytes)).map_while(|e| e.map_err(|e| fault = Some(e.to_string())).ok());
    (told.map(|e| match e {
        StartArray(_) => Mark::List,
        StartDictionary(_) => Mark::Table,
        EndCollection => Mark::End,
        Boolean(b) => Mark::Bool(b),
        Data(d) => Mark::Data(d.into_owned()),
        Date(_) => Mark::Date,
        Integer(n) => Mark::Number(n.as_unsigned(), n.to_string()),
        Real(x) => Mark::Real(x.to_string()),
        Words(s) => Mark::Text(s.into_owned()),
        _ => Mark::Uid,
    }).collect(), fault)
}

// ---- What becomes of it -------------------------------------------------------------------

/// The two ways in which a value is made of what a reader tells. They differ in what is wrong
/// where something is.
#[derive(Clone, Copy)]
pub enum Manner {
    /// The way of `plist::Value::from_reader_xml`, which looks at a value once it is over.
    Late,
    /// The way of `plist::from_bytes`, which looks at a value where it starts.
    Early,
}

/// A part of a property list that is not over yet.
pub ghost enum Part {
    /// The whole value.
    Root(Tree),
    List(Seq<Tree>),
    Table(Seq<(Seq<char>, Tree)>),
    /// A table and the name of its next member.
    Named(Seq<(Seq<char>, Tree)>, Seq<char>),
}

/// What a sign is called.
pub open spec fn called(s: Sign) -> Seq<char> {
    match s {
        Sign::List => "StartArray"@,
        Sign::Table => "StartDictionary"@,
        Sign::End => "EndCollection"@,
        Sign::Bool(_) => "Boolean"@,
        Sign::Data(_) => "Data"@,
        Sign::Date => "Date"@,
        Sign::Number(..) => "Integer"@,
        Sign::Real(_) => "Real"@,
        Sign::Text(_) => "String"@,
        Sign::Uid => "Uid"@,
    }
}

/// The value that a sign is by itself.
pub open spec fn single(s: Sign) -> Tree {
    match s {
        Sign::Bool(b) => Tree::Bool(b),
        Sign::Data(d) => Tree::Data(d),
        Sign::Number(n, _) => Tree::Number(n),
        Sign::Text(t) => Tree::Text(t),
        _ => Tree::Null,
    }
}

pub open spec fn too_many(found: Seq<char>) -> Seq<char> {
    "ExpectedEndOfEventStream { found: "@ + found + " }"@
}

pub open spec fn unexpected(expected: Seq<char>, found: Seq<char>) -> Seq<char> {
    "UnexpectedEventType { expected: "@ + expected + ", found: "@ + found + " }"@
}

/// After a value, which started with a sign of that name.
pub open spec fn with_value(parts: Seq<Part>, v: Tree, found: Seq<char>) -> Result<Seq<Part>, Seq<char>> {
    if parts.len() == 0 {
        Ok(seq![Part::Root(v)])
    } else {
        let under = parts.drop_last();
        match parts.last() {
            Part::Root(_) => Err(too_many(found)),
            Part::List(list) => Ok(under.push(Part::List(list.push(v)))),
            Part::Table(table) => match v {
                Tree::Text(name) => Ok(under.push(Part::Named(table, name))),
                _ => Err(unexpected("DictionaryKeyOrEndCollection"@, found)),
            },
            Part::Named(table, name) => Ok(under.push(Part::Table(table.push((name, v))))),
        }
    }
}

/// The digits of a number with a fraction, as they are shown: `.0` where there is no fraction.
pub open spec fn with_point(text: Seq<char>) -> Seq<char> {
    if text.contains('.') || text == "NaN"@ || text == "inf"@ || text == "-inf"@ {
        text
    } else {
        text + ".0"@
    }
}

/// What a sign is taken for where a name belongs.
pub open spec fn taken_for(s: Sign) -> Seq<char> {
    match s {
        Sign::List => "sequence"@,
        Sign::Table => "map"@,
        Sign::Bool(b) => if b {
            "boolean `true`"@
        } else {
            "boolean `false`"@
        },
        Sign::Number(_, text) => "integer `"@ + text + "`"@,
        Sign::Real(text) => "floating point `"@ + with_point(text) + "`"@,
        _ => "enum"@,
    }
}

pub open spec fn no_name(kind: Seq<char>) -> Seq<char> {
    "Serde(\"invalid type: "@ + kind + ", expected a string\")"@
}

/// After a sign, where that is not as it is when values are looked at late: after the whole
/// value, and where a name belongs, which may be data too.
pub open spec fn with_early(parts: Seq<Part>, s: Sign) -> Option<Result<Seq<Part>, Seq<char>>> {
    if parts.len() == 0 {
        None
    } else {
        match parts.last() {
            Part::Root(_) => Some(Err(too_many(called(s)))),
            Part::Table(_) => match s {
                Sign::End | Sign::Text(_) => None,
                Sign::Data(d) => if valid_utf8(d) {
                    Some(with_value(parts, Tree::Text(decode_utf8(d)), "Data"@))
                } else {
                    Some(Err("Serde(\"invalid value: byte array, expected a string\")"@))
                },
                _ => Some(Err(no_name(taken_for(s)))),
            },
            _ => None,
        }
    }
}

/// After a sign.
pub open spec fn with_sign(how: Manner, parts: Seq<Part>, s: Sign) -> Result<Seq<Part>, Seq<char>> {
    match with_early(parts, s) {
        Some(r) if how is Early => r,
        _ => with_late(parts, s),
    }
}

/// After a sign, when values are looked at late.
pub open spec fn with_late(parts: Seq<Part>, s: Sign) -> Result<Seq<Part>, Seq<char>> {
    match s {
        Sign::List => Ok(parts.push(Part::List(Seq::empty()))),
        Sign::Table => Ok(parts.push(Part::Table(Seq::empty()))),
        Sign::End => if parts.len() == 0 {
            Err(unexpected("ValueOrStartCollection"@, "EndCollection"@))
        } else {
            match parts.last() {
                Part::Root(_) => Err(too_many("EndCollection"@)),
                Part::List(list) => with_value(parts.drop_last(), Tree::List(list), "StartArray"@),
                Part::Table(table) => with_value(parts.drop_last(), Tree::Table(table), "StartDictionary"@),
                Part::Named(..) => Err(unexpected("ValueOrStartCollection"@, "EndCollection"@)),
            }
        },
        _ => with_value(parts, single(s), called(s)),
    }
}

/// What comes of a telling, where `parts` came before it: a value, or what is wrong.
pub open spec fn told(how: Manner, parts: Seq<Part>, t: Telling) -> Result<Tree, Seq<char>>
    decreases t.signs.len(),
{
    if t.signs.len() > 0 {
        match with_sign(how, parts, t.signs[0]) {
            Ok(next) => told(how, next, t.rest()),
            Err(e) => Err(e),
        }
    } else if t.fault is Some {
        Err(t.fault->0)
    } else if parts.len() > 0 && parts.last() is Root {
        Ok(parts.last()->Root_0)
    } else {
        Err("UnexpectedEndOfEventStream"@)
    }
}

/// What a property list in XML holds, or what is wrong with it.
pub open spec fn plist_xml_in(bytes: Seq<u8>) -> Result<Tree, Seq<char>> {
    told(Manner::Late, Seq::empty(), xml_telling(bytes))
}

/// What a property list in any of its formats holds, or what is wrong with it.
pub open spec fn plist_in(bytes: Seq<u8>) -> Result<Tree, Seq<char>> {
    told(Manner::Early, Seq::empty(), any_telling(bytes))
}

// ---- As far as it is asked for ------------------------------------------------------------

/// How many lists and tables may lie around a list or a table that is kept.
pub const NESTING: usize = 128;

/// A value without the lists and tables that lie more than `depth` deep in it.
pub open spec fn kept(v: Tree, depth: nat) -> Tree
    decreases depth,
{
    match v {
        Tree::List(list) => if depth == 0 {
            Tree::Null
        } else {
            Tree::List(list.map_values(|x: Tree| kept(x, (depth - 1) as nat)))
        },
        Tree::Table(table) => if depth == 0 {
            Tree::Null
        } else {
            Tree::Table(table.map_values(|m: (Seq<char>, Tree)| (m.0, kept(m.1, (depth - 1) as nat))))
        },
        _ => v,
    }
}

/// The same of a property list that was read.
pub open spec fn kept_of(r: Result<Tree, Seq<char>>) -> Result<Tree, Seq<char>> {
    match r {
        Ok(v) => Ok(kept(v, NESTING as nat)),
        Err(e) => Err(e),
    }
}

/// How much is kept of a value that lies in `n` others.
spec fn depth_at(n: int) -> nat {
    if n <= NESTING {
        (NESTING - n) as nat
    } else {
        0
    }
}

/// What is kept of the values in a list.
pub open spec fn kept_list(list: Seq<Tree>, depth: nat) -> Seq<Tree> {
    list.map_values(|x: Tree| kept(x, depth))
}

/// What is kept of the members of a table.
pub open spec fn kept_table(table: Seq<(Seq<char>, Tree)>, depth: nat) -> Seq<(Seq<char>, Tree)> {
    table.map_values(|m: (Seq<char>, Tree)| (m.0, kept(m.1, depth)))
}

/// What is kept of a list.
pub proof fn lemma_kept_list(list: Seq<Tree>, depth: nat)
    ensures
        kept(Tree::List(list), depth + 1) == Tree::List(kept_list(list, depth)),
        kept(Tree::List(list), 0) == Tree::Null,
{
    let t = Tree::List(list);
    let k = kept(t, depth + 1)->List_0;
    assert(kept(t, depth + 1) is List);
    assert(k =~= kept_list(list, depth));
}

proof fn lemma_kept_table(table: Seq<(Seq<char>, Tree)>, depth: nat)
    ensures
        kept(Tree::Table(table), depth + 1) == Tree::Table(kept_table(table, depth)),
        kept(Tree::Table(table), 0) == Tree::Null,
{
    let t = Tree::Table(table);
    let k = kept(t, depth + 1)->Table_0;
    assert(kept(t, depth + 1) is Table);
    assert(k =~= kept_table(table, depth));
}

/// What is kept of a value that may be there.
pub open spec fn kept_some(v: Option<Tree>, depth: nat) -> Option<Tree> {
    match v {
        Some(x) => Some(kept(x, depth)),
        None => None,
    }
}

proof fn lemma_last_kept(table: Seq<(Seq<char>, Tree)>, key: Seq<char>, depth: nat, n: nat)
    requires
        n <= table.len(),
    ensures
        last_member(kept_table(table, depth), key, n) == kept_some(last_member(table, key, n), depth),
    decreases n,
{
    if n > 0 {
        lemma_last_kept(table, key, depth, (n - 1) as nat);
    }
}

/// A member of a table that is kept is what is kept of that member.
pub proof fn law_members_are_kept(v: Tree, key: Seq<char>, depth: nat)
    ensures
        kept(v, depth + 1).member(key) == kept_some(v.member(key), depth),
{
    if let Tree::Table(table) = v {
        lemma_kept_table(table, depth);
        lemma_last_kept(table, key, depth, table.len());
    }
}

/// What is kept of a part that `n` others lie around.
spec fn kept_part(p: Part, n: int) -> Part {
    match p {
        Part::Root(v) => Part::Root(kept(v, depth_at(n))),
        Part::List(list) => Part::List(kept_list(list, depth_at(n + 1))),
        Part::Table(table) => Part::Table(kept_table(table, depth_at(n + 1))),
        Part::Named(table, name) => Part::Named(kept_table(table, depth_at(n + 1)), name),
    }
}

/// A part of a property list that is not over yet.
enum Item {
    Root(Node),
    List(Vec<Node>),
    Table(Vec<(String, Node)>),
    Named(Vec<(String, Node)>, String),
}

impl Item {
    spec fn part(self) -> Part {
        match self {
            Item::Root(v) => Part::Root(v@),
            Item::List(list) => Part::List(values(list@)),
            Item::Table(table) => Part::Table(members(table@)),
            Item::Named(table, name) => Part::Named(members(table@), name@),
        }
    }
}

/// Do these items hold what is kept of the parts?
spec fn hold(items: Seq<Item>, parts: Seq<Part>) -> bool {
    &&& items.len() == parts.len()
    &&& forall|i: int| 0 < i < parts.len() ==> !((#[trigger] parts[i]) is Root)
    &&& forall|i: int| 0 <= i < items.len() ==> (#[trigger] items[i]).part() == kept_part(parts[i], i)
}

fn too_many_text(found: &str) -> (s: String)
    ensures
        s@ == too_many(found@),
{
    let mut s: String = "ExpectedEndOfEventStream { found: ".to_owned();
    s.append(found);
    s.append(" }");
    s
}

fn unexpected_text(expected: &str, found: &str) -> (s: String)
    ensures
        s@ == unexpected(expected@, found@),
{
    let mut s: String = "UnexpectedEventType { expected: ".to_owned();
    s.append(expected);
    s.append(", found: ");
    s.append(found);
    s.append(" }");
    s
}

fn named(m: &Mark) -> (s: &'static str)
    ensures
        s@ == called(m@),
{
    match m {
        Mark::List => "StartArray",
        Mark::Table => "StartDictionary",
        Mark::End => "EndCollection",
        Mark::Bool(_) => "Boolean",
        Mark::Data(_) => "Data",
        Mark::Date => "Date",
        Mark::Number(_, _) => "Integer",
        Mark::Real(_) => "Real",
        Mark::Text(_) => "String",
        Mark::Uid => "Uid",
    }
}

fn with_point_text(text: &str) -> (s: String)
    ensures
        s@ == with_point(text@),
{
    let v: Vec<char> = chars(text);
    let mut s: String = text.to_owned();
    let mut i: usize = 0;
    while i < v.len()
        invariant
            v@ == text@,
            s@ == text@,
            i <= v@.len(),
            forall|k: int| 0 <= k < i ==> #[trigger] v@[k] != '.',
        decreases v@.len() - i,
    {
        if v[i] == '.' {
            return s;
        }
        i = i + 1;
    }
    if !is_text(&v, "NaN") && !is_text(&v, "inf") && !is_text(&v, "-inf") {
        s.append(".0");
    }
    s
}

fn taken_text(m: &Mark) -> (s: String)
    ensures
        s@ == taken_for(m@),
{
    match m {
        Mark::List => "sequence".to_owned(),
        Mark::Table => "map".to_owned(),
        Mark::Bool(b) => if *b {
            "boolean `true`".to_owned()
        } else {
            "boolean `false`".to_owned()
        },
        Mark::Number(_, text) => {
            let mut s: String = "integer `".to_owned();
            s.append(text.as_str());
            s.append("`");
            s
        },
        Mark::Real(text) => {
            let mut s: String = "floating point `".to_owned();
            s.append(with_point_text(text.as_str()).as_str());
            s.append("`");
            s
        },
        _ => "enum".to_owned(),
    }
}

fn no_name_text(kind: &str) -> (s: String)
    ensures
        s@ == no_name(kind@),
{
    let mut s: String = "Serde(\"invalid type: ".to_owned();
    s.append(kind);
    s.append(", expected a string\")");
    s
}

/// A property list on its way from what a reader tells to a value.
struct Building {
    items: Vec<Item>,
    parts: Ghost<Seq<Part>>,
}

impl Building {
    spec fn wf(&self) -> bool {
        hold(self.items@, self.parts@)
    }

    fn new() -> (b: Building)
        ensures
            b.wf(),
            b.parts@ == Seq::<Part>::empty(),
    {
        Building { items: Vec::new(), parts: Ghost(Seq::empty()) }
    }

    /// Goes on with a value, of which `node` is what is kept.
    fn value(&mut self, node: Node, found: &str, Ghost(v): Ghost<Tree>) -> (r: Result<(), String>)
        requires
            old(self).wf(),
            node@ == kept(v, depth_at(old(self).items@.len() as int)),
        ensures
            match (r, with_value(old(self).parts@, v, found@)) {
                (Ok(_), Ok(next)) => final(self).wf() && final(self).parts@ == next,
                (Err(e), Err(t)) => e@ == t,
                _ => false,
            },
    {
        let ghost parts = self.parts@;
        let ghost n = self.items@.len() - 1;
        let ghost before = self.items@;
        let item: Item = match self.items.pop() {
            None => {
                self.items.push(Item::Root(node));
                proof {
                    self.parts@ = seq![Part::Root(v)];
                }
                return Ok(());
            },
            Some(item) => item,
        };
        assert(before[n].part() == kept_part(parts[n], n));
        assert(item == before[n]);
        let ghost under = parts.drop_last();
        let next: Item = match item {
            Item::Root(_) => return Err(too_many_text(found)),
            Item::List(list) => {
                let mut list: Vec<Node> = list;
                let ghost had = list@;
                list.push(node);
                proof {
                    let all = parts[n]->List_0;
                    assert(values(list@) =~= values(had).push(node@));
                    assert(kept_list(all.push(v), depth_at(n + 1)) =~= kept_list(all, depth_at(n + 1)).push(node@));
                    self.parts@ = under.push(Part::List(all.push(v)));
                }
                Item::List(list)
            },
            Item::Table(table) => match node {
                Node::Text(name) => {
                    proof {
                        self.parts@ = under.push(Part::Named(parts[n]->Table_0, name@));
                    }
                    Item::Named(table, name)
                },
                _ => return Err(unexpected_text("DictionaryKeyOrEndCollection", found)),
            },
            Item::Named(table, name) => {
                let mut table: Vec<(String, Node)> = table;
                let ghost had = table@;
                let ghost key = name@;
                table.push((name, node));
                proof {
                    let all = parts[n]->Named_0;
                    assert(members(table@) =~= members(had).push((key, node@)));
                    assert(kept_table(all.push((key, v)), depth_at(n + 1)) =~= kept_table(all, depth_at(n + 1)).push(
                        (key, node@),
                    ));
                    self.parts@ = under.push(Part::Table(all.push((key, v))));
                }
                Item::Table(table)
            },
        };
        self.items.push(next);
        Ok(())
    }

    /// Goes on with the end of a list or a table.
    fn end(&mut self) -> (r: Result<(), String>)
        requires
            old(self).wf(),
        ensures
            match (r, with_late(old(self).parts@, Sign::End)) {
                (Ok(_), Ok(next)) => final(self).wf() && final(self).parts@ == next,
                (Err(e), Err(t)) => e@ == t,
                _ => false,
            },
    {
        let ghost parts = self.parts@;
        let ghost n = self.items@.len() - 1;
        let ghost before = self.items@;
        let item: Item = match self.items.pop() {
            None => return Err(unexpected_text("ValueOrStartCollection", "EndCollection")),
            Some(item) => item,
        };
        proof {
            assert(before[n].part() == kept_part(parts[n], n));
            assert(item == before[n]);
            self.parts@ = parts.drop_last();
            assert forall|i: int| 0 <= i < self.items@.len() implies (#[trigger] self.items@[i]).part() == kept_part(
                self.parts@[i],
                i,
            ) by {
                assert(self.items@[i] == before[i]);
            }
        }
        let keep: bool = self.items.len() < NESTING;
        match item {
            Item::Root(_) => Err(too_many_text("EndCollection")),
            Item::List(list) => {
                let node: Node = if keep {
                    Node::List(list)
                } else {
                    Node::Null
                };
                proof {
                    lemma_parts(node);
                    lemma_kept_list(parts[n]->List_0, depth_at(n + 1));
                }
                self.value(node, "StartArray", Ghost(Tree::List(parts[n]->List_0)))
            },
            Item::Table(table) => {
                let node: Node = if keep {
                    Node::Table(table)
                } else {
                    Node::Null
                };
                proof {
                    lemma_parts(node);
                    lemma_kept_table(parts[n]->Table_0, depth_at(n + 1));
                }
                self.value(node, "StartDictionary", Ghost(Tree::Table(parts[n]->Table_0)))
            },
            Item::Named(_, _) => Err(unexpected_text("ValueOrStartCollection", "EndCollection")),
        }
    }

    /// Goes on with what a reader comes upon, if that is not as it is when values are looked at
    /// late.
    fn early(&mut self, m: &Mark) -> (r: Option<Result<(), String>>)
        requires
            old(self).wf(),
        ensures
            match (r, with_early(old(self).parts@, m@)) {
                (Some(Ok(_)), Some(Ok(next))) => final(self).wf() && final(self).parts@ == next,
                (Some(Err(e)), Some(Err(t))) => e@ == t,
                (None, None) => *final(self) == *old(self),
                _ => false,
            },
    {
        let n: usize = self.items.len();
        if n == 0 {
            return None;
        }
        proof {
            assert(self.items@[n - 1].part() == kept_part(self.parts@[n - 1], n - 1));
        }
        match &self.items[n - 1] {
            Item::Root(_) => Some(Err(too_many_text(named(m)))),
            Item::Table(_) => match m {
                Mark::End | Mark::Text(_) => None,
                Mark::Data(d) => match from_utf8(d.as_slice()) {
                    Some(s) => {
                        let name: String = s.to_owned();
                        proof { lemma_parts(Node::Text(name)); }
                        Some(self.value(Node::Text(name), "Data", Ghost(Tree::Text(s@))))
                    },
                    None => Some(
                        Err("Serde(\"invalid value: byte array, expected a string\")".to_owned()),
                    ),
                },
                _ => Some(Err(no_name_text(taken_text(m).as_str()))),
            },
            _ => None,
        }
    }

    /// Goes on with what a reader comes upon.
    fn take(&mut self, how: Manner, m: Mark) -> (r: Result<(), String>)
        requires
            old(self).wf(),
        ensures
            match (r, with_sign(how, old(self).parts@, m@)) {
                (Ok(_), Ok(next)) => final(self).wf() && final(self).parts@ == next,
                (Err(e), Err(t)) => e@ == t,
                _ => false,
            },
    {
        match how {
            Manner::Early => match self.early(&m) {
                Some(r) => r,
                None => self.late(m),
            },
            Manner::Late => self.late(m),
        }
    }

    /// Goes on with what a reader comes upon, when values are looked at late.
    fn late(&mut self, m: Mark) -> (r: Result<(), String>)
        requires
            old(self).wf(),
        ensures
            match (r, with_late(old(self).parts@, m@)) {
                (Ok(_), Ok(next)) => final(self).wf() && final(self).parts@ == next,
                (Err(e), Err(t)) => e@ == t,
                _ => false,
            },
    {
        broadcast use lemma_parts;

        let ghost parts = self.parts@;
        match m {
            Mark::List => {
                let list: Vec<Node> = Vec::new();
                proof {
                    let n = self.items@.len() as int;
                    assert(values(list@) =~= Seq::<Tree>::empty());
                    assert(kept_list(Seq::empty(), depth_at(n + 1)) =~= Seq::<Tree>::empty());
                    self.parts@ = parts.push(Part::List(Seq::empty()));
                }
                self.items.push(Item::List(list));
                Ok(())
            },
            Mark::Table => {
                let table: Vec<(String, Node)> = Vec::new();
                proof {
                    let n = self.items@.len() as int;
                    assert(members(table@) =~= Seq::<(Seq<char>, Tree)>::empty());
                    assert(kept_table(Seq::empty(), depth_at(n + 1)) =~= Seq::<(Seq<char>, Tree)>::empty());
                    self.parts@ = parts.push(Part::Table(Seq::empty()));
                }
                self.items.push(Item::Table(table));
                Ok(())
            },
            Mark::End => self.end(),
            Mark::Bool(b) => self.value(Node::Bool(b), "Boolean", Ghost(Tree::Bool(b))),
            Mark::Data(d) => self.value(Node::Data(d), "Data", Ghost(Tree::Data(d@))),
            Mark::Date => self.value(Node::Null, "Date", Ghost(Tree::Null)),
            Mark::Number(n, _) => self.value(Node::Number(n), "Integer", Ghost(Tree::Number(n))),
            Mark::Real(_) => self.value(Node::Null, "Real", Ghost(Tree::Null)),
            Mark::Text(s) => self.value(Node::Text(s), "String", Ghost(Tree::Text(s@))),
            Mark::Uid => self.value(Node::Null, "Uid", Ghost(Tree::Null)),
        }
    }

    /// The value, at the end of what a reader tells.
    fn finish(self, Ghost(how): Ghost<Manner>) -> (r: Result<Node, String>)
        requires
            self.wf(),
        ensures
            gives(r, told(how, self.parts@, Telling { signs: Seq::empty(), fault: None })),
    {
        let mut b: Building = self;
        let ghost n = b.items@.len() - 1;
        proof {
            if n >= 0 {
                assert(b.items@[n].part() == kept_part(b.parts@[n], n));
            }
        }
        match b.items.pop() {
            Some(Item::Root(v)) => Ok(v),
            _ => Err("UnexpectedEndOfEventStream".to_owned()),
        }
    }
}

/// Does `r` give what is kept of a property list, or say what is wrong with it?
pub open spec fn gives(r: Result<Node, String>, t: Result<Tree, Seq<char>>) -> bool {
    match (r, kept_of(t)) {
        (Ok(v), Ok(k)) => v@ == k,
        (Err(e), Err(w)) => e@ == w,
        _ => false,
    }
}

/// What comes of what a reader told.
fn build(how: Manner, marks: Vec<Mark>, fault: Option<String>) -> (r: Result<Node, String>)
    ensures
        gives(r, told(how, Seq::empty(), telling(marks@, fault))),
{
    let ghost all = told(how, Seq::empty(), telling(marks@, fault));
    let ghost given = marks@;
    let mut left: Vec<Mark> = turned(marks);
    let mut b: Building = Building::new();
    let ghost mut n: int = 0;
    proof {
        assert(given.skip(0) =~= given);
    }
    while left.len() > 0
        invariant
            b.wf(),
            all == told(how, Seq::empty(), telling(marks@, fault)),
            0 <= n <= given.len(),
            left@ == given.skip(n).reverse(),
            all == told(how, b.parts@, telling(given.skip(n), fault)),
        decreases left@.len(),
    {
        let ghost t = telling(given.skip(n), fault);
        let ghost parts = b.parts@;
        match left.pop() {
            Some(m) => {
                proof {
                    assert(m == given[n]);
                    assert(left@ =~= given.skip(n + 1).reverse());
                    assert(t.signs.len() > 0 && t.signs[0] == m@);
                    assert(t.rest() =~= telling(given.skip(n + 1), fault));
                    n = n + 1;
                }
                match b.take(how, m) {
                    Ok(()) => {},
                    Err(e) => {
                        assert(all == told(how, parts, t));
                        return Err(e);
                    },
                }
            },
            None => {},
        }
    }
    proof {
        assert(given.skip(n).len() == 0);
        assert(telling(given.skip(n), fault).signs =~= Seq::<Sign>::empty());
    }
    match fault {
        Some(e) => Err(e),
        None => b.finish(Ghost(how)),
    }
}

/// The same marks, from the last to the first.
fn turned(marks: Vec<Mark>) -> (r: Vec<Mark>)
    ensures
        r@ == marks@.reverse(),
{
    let ghost all = marks@;
    let mut left: Vec<Mark> = marks;
    let mut r: Vec<Mark> = Vec::new();
    while left.len() > 0
        invariant
            left@ == all.take(left@.len() as int),
            left@.len() <= all.len(),
            r@ == all.skip(left@.len() as int).reverse(),
        decreases left@.len(),
    {
        let ghost n = left@.len() as int;
        match left.pop() {
            Some(m) => {
                r.push(m);
                proof {
                    assert(all.take(n)[n - 1] == all[n - 1]);
                    assert(left@ =~= all.take(n - 1));
                    assert(all.skip(n - 1).reverse() =~= all.skip(n).reverse().push(m));
                }
            },
            None => return r,
        }
    }
    r
}

/// A property list in XML, or what is wrong with it.
pub fn plist_xml(bytes: &[u8]) -> (r: Result<Node, String>)
    ensures
        gives(r, plist_xml_in(bytes@)),
{
    let (marks, fault): (Vec<Mark>, Option<String>) = xml_marks(bytes);
    build(Manner::Late, marks, fault)
}

/// A property list in any of its formats, or what is wrong with it.
pub fn property_list(bytes: &[u8]) -> (r: Result<Node, String>)
    ensures
        gives(r, plist_in(bytes@)),
{
    let (marks, fault): (Vec<Mark>, Option<String>) = any_marks(bytes);
    build(Manner::Early, marks, fault)
}

} // verus!
