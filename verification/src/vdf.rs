//! Valve KeyValues ("VDF") text format, used by every Steam config file.
//! Insertion order is preserved: Steam rewrites these files itself.

use vstd::prelude::*;
use crate::text::{chars_of, decimal, eq_ignore_ascii_case, same_ignoring_ascii_case, string_from_chars, wide_decimal_string};
use vstd::string::{StringExecFns, StringSliceAdditionalSpecFns};

verus! {

// ------------------------------------------------------------------ model

/// Mathematical model of a KeyValues value: a text or an ordered list of
/// `(key, value)` entries.
pub enum VdfNode {
    Text(Seq<char>),
    Tree(Seq<(Seq<char>, VdfNode)>),
}

/// Keys are compared without regard to ASCII case.
pub open spec fn key_matches(a: Seq<char>, b: Seq<char>) -> bool {
    same_ignoring_ascii_case(a, b)
}

/// `i` is the first entry whose key matches `key`.
pub open spec fn is_first_match(es: Seq<(Seq<char>, VdfNode)>, key: Seq<char>, i: int) -> bool {
    &&& 0 <= i < es.len()
    &&& key_matches(es[i].0, key)
    &&& forall|j: int| 0 <= j < i ==> !key_matches(#[trigger] es[j].0, key)
}

/// Index of the first entry whose key matches `key`.
pub open spec fn key_position(es: Seq<(Seq<char>, VdfNode)>, key: Seq<char>) -> Option<int> {
    if exists|i: int| is_first_match(es, key, i) {
        Some(choose|i: int| is_first_match(es, key, i))
    } else {
        None
    }
}

/// Value stored under `key`.
pub open spec fn lookup(es: Seq<(Seq<char>, VdfNode)>, key: Seq<char>) -> Option<VdfNode> {
    match key_position(es, key) {
        Some(i) => Some(es[i].1),
        None => None,
    }
}

/// Entries after a case-insensitive insert: an existing key keeps its spelling
/// and place, a new key goes last.
pub open spec fn inserted(es: Seq<(Seq<char>, VdfNode)>, key: Seq<char>, value: VdfNode) -> Seq<(Seq<char>, VdfNode)> {
    match key_position(es, key) {
        Some(i) => es.update(i, (es[i].0, value)),
        None => es.push((key, value)),
    }
}

/// Entries after removing the entry stored under `key`, if any.
pub open spec fn removed(es: Seq<(Seq<char>, VdfNode)>, key: Seq<char>) -> Seq<(Seq<char>, VdfNode)> {
    match key_position(es, key) {
        Some(i) => es.remove(i),
        None => es,
    }
}

/// No two keys of one object match each other.
pub open spec fn keys_distinct(es: Seq<(Seq<char>, VdfNode)>) -> bool {
    forall|i: int, j: int|
        0 <= i < es.len() && 0 <= j < es.len() && i != j ==> !key_matches(#[trigger] es[i].0, #[trigger] es[j].0)
}

/// Every object of the tree has distinct keys.
pub open spec fn node_wf(n: VdfNode) -> bool
    decreases n,
{
    match n {
        VdfNode::Text(_) => true,
        VdfNode::Tree(es) => keys_distinct(es) && entries_wf(es),
    }
}

/// Every value of the entries is well formed.
pub open spec fn entries_wf(es: Seq<(Seq<char>, VdfNode)>) -> bool
    decreases es,
{
    if es.len() == 0 {
        true
    } else {
        node_wf(es[0].1) && entries_wf(es.drop_first())
    }
}

pub open spec fn is_tree(n: VdfNode) -> bool {
    n matches VdfNode::Tree(_)
}

// --------------------------------------------------------------- values

/// A KeyValues value: either a quoted string or a nested object.
#[derive(Debug, PartialEq, Eq)]
pub enum VdfValue {
    String(String),
    Object(VdfObject),
}

/// An ordered KeyValues object.
///
/// Lookups are case-insensitive because Steam is not consistent about key
/// casing between client versions and platforms.
#[derive(Debug, PartialEq, Eq)]
pub struct VdfObject {
    entries: Vec<(String, VdfValue)>,
}

pub closed spec fn value_node(v: VdfValue) -> VdfNode
    decreases v,
{
    match v {
        VdfValue::String(s) => VdfNode::Text(s@),
        VdfValue::Object(o) => VdfNode::Tree(entries_nodes(o.entries@)),
    }
}

pub closed spec fn entries_nodes(es: Seq<(String, VdfValue)>) -> Seq<(Seq<char>, VdfNode)>
    decreases es,
{
    Seq::new(
        es.len(),
        |i: int|
            if 0 <= i < es.len() {
                (es[i].0@, value_node(es[i].1))
            } else {
                (seq![], VdfNode::Text(seq![]))
            },
    )
}

impl View for VdfValue {
    type V = VdfNode;

    closed spec fn view(&self) -> VdfNode {
        value_node(*self)
    }
}

impl View for VdfObject {
    type V = Seq<(Seq<char>, VdfNode)>;

    closed spec fn view(&self) -> Seq<(Seq<char>, VdfNode)> {
        entries_nodes(self.entries@)
    }
}

/// What a value is: a string is its text, an object is its entries.
pub proof fn lemma_value_view(v: VdfValue)
    ensures
        v@ == match v {
            VdfValue::String(s) => VdfNode::Text(s@),
            VdfValue::Object(o) => VdfNode::Tree(o@),
        },
{
}

proof fn lemma_entries_nodes_index(es: Seq<(String, VdfValue)>, i: int)
    requires
        0 <= i < es.len(),
    ensures
        entries_nodes(es).len() == es.len(),
        entries_nodes(es)[i] == (es[i].0@, value_node(es[i].1)),
{
}

proof fn lemma_entries_nodes_len(es: Seq<(String, VdfValue)>)
    ensures
        entries_nodes(es).len() == es.len(),
{
}

proof fn lemma_entries_nodes_update(es: Seq<(String, VdfValue)>, i: int, e: (String, VdfValue))
    requires
        0 <= i < es.len(),
    ensures
        entries_nodes(es.update(i, e)) == entries_nodes(es).update(i, (e.0@, value_node(e.1))),
{
    assert(entries_nodes(es.update(i, e)) =~= entries_nodes(es).update(i, (e.0@, value_node(e.1))));
}

proof fn lemma_entries_nodes_push(es: Seq<(String, VdfValue)>, e: (String, VdfValue))
    ensures
        entries_nodes(es.push(e)) == entries_nodes(es).push((e.0@, value_node(e.1))),
{
    assert(entries_nodes(es.push(e)) =~= entries_nodes(es).push((e.0@, value_node(e.1))));
}

proof fn lemma_entries_nodes_remove(es: Seq<(String, VdfValue)>, i: int)
    requires
        0 <= i < es.len(),
    ensures
        entries_nodes(es.remove(i)) == entries_nodes(es).remove(i),
{
    assert(entries_nodes(es.remove(i)) =~= entries_nodes(es).remove(i));
}

/// Entries of a tree node, empty for a text.
pub open spec fn tree_entries(n: VdfNode) -> Seq<(Seq<char>, VdfNode)> {
    match n {
        VdfNode::Tree(es) => es,
        VdfNode::Text(_) => seq![],
    }
}

/// Entries after making sure `key` holds an object: a missing key gets an
/// empty object appended, a text under the key is replaced by an empty object.
pub open spec fn ensured(es: Seq<(Seq<char>, VdfNode)>, key: Seq<char>) -> Seq<(Seq<char>, VdfNode)> {
    match key_position(es, key) {
        None => es.push((key, VdfNode::Tree(seq![]))),
        Some(i) => if is_tree(es[i].1) {
            es
        } else {
            es.update(i, (es[i].0, VdfNode::Tree(seq![])))
        },
    }
}

/// Where [`ensured`] left the object for `key`.
pub open spec fn ensured_index(es: Seq<(Seq<char>, VdfNode)>, key: Seq<char>) -> int {
    match key_position(es, key) {
        None => es.len() as int,
        Some(i) => i,
    }
}

/// The texts of a slice of string slices.
pub open spec fn texts(parts: Seq<&str>) -> Seq<Seq<char>> {
    parts.map_values(|p: &str| p@)
}

/// The object reached by following `parts` from `es`, each key naming a
/// nested object.
pub open spec fn walk(es: Seq<(Seq<char>, VdfNode)>, parts: Seq<Seq<char>>) -> Option<Seq<(Seq<char>, VdfNode)>>
    decreases parts.len(),
{
    if parts.len() == 0 {
        Some(es)
    } else {
        match lookup(es, parts[0]) {
            Some(VdfNode::Tree(child)) => walk(child, parts.drop_first()),
            _ => None,
        }
    }
}

/// One step of a path walk that creates what is missing.
pub open spec fn step(es: Seq<(Seq<char>, VdfNode)>, key: Seq<char>) -> Seq<(Seq<char>, VdfNode)> {
    if lookup(es, key) matches Some(VdfNode::Tree(_)) {
        es
    } else {
        ensured(es, key)
    }
}

/// The object reached by `path_mut`: missing branches are created when
/// `create` holds, otherwise a missing branch gives nothing.
pub open spec fn reach(es: Seq<(Seq<char>, VdfNode)>, parts: Seq<Seq<char>>, create: bool) -> Option<Seq<(Seq<char>, VdfNode)>>
    decreases parts.len(),
{
    if parts.len() == 0 {
        Some(es)
    } else if !create && !(lookup(es, parts[0]) matches Some(VdfNode::Tree(_))) {
        None
    } else {
        let es1 = step(es, parts[0]);
        let i = ensured_index(es, parts[0]);
        reach(tree_entries(es1[i].1), parts.drop_first(), create)
    }
}

/// The whole tree after `path_mut` created the branches of `parts` and the
/// reached object became `target`.
pub open spec fn rebuild(es: Seq<(Seq<char>, VdfNode)>, parts: Seq<Seq<char>>, target: Seq<(Seq<char>, VdfNode)>) -> Seq<(Seq<char>, VdfNode)>
    decreases parts.len(),
{
    if parts.len() == 0 {
        target
    } else {
        let es1 = step(es, parts[0]);
        let i = ensured_index(es, parts[0]);
        es1.update(i, (es1[i].0, VdfNode::Tree(rebuild(tree_entries(es1[i].1), parts.drop_first(), target))))
    }
}

/// The object `key` names inside `o`, when it names an object.
pub open spec fn child_object(o: Option<Seq<(Seq<char>, VdfNode)>>, key: Seq<char>) -> Option<Seq<(Seq<char>, VdfNode)>> {
    match o {
        Some(es) => match lookup(es, key) {
            Some(VdfNode::Tree(c)) => Some(c),
            _ => None,
        },
        None => None,
    }
}

/// Law: walking an empty path stays put, and walking one key further is
/// walking to the parent, then looking up an object under that key.
pub proof fn law_walk_extends(es: Seq<(Seq<char>, VdfNode)>, parts: Seq<Seq<char>>, key: Seq<char>)
    ensures
        walk(es, seq![]) == Some(es),
        walk(es, parts.push(key)) == child_object(walk(es, parts), key),
    decreases parts.len(),
{
    if parts.len() == 0 {
        let one = parts.push(key);
        assert(one.drop_first() =~= Seq::<Seq<char>>::empty());
        assert(one[0] == key);
        match lookup(es, key) {
            Some(VdfNode::Tree(c)) => {
                assert(walk(c, one.drop_first()) == Some(c));
            },
            _ => {},
        }
    } else {
        assert(parts.push(key)[0] == parts[0]);
        assert(parts.push(key).drop_first() =~= parts.drop_first().push(key));
        match lookup(es, parts[0]) {
            Some(VdfNode::Tree(child)) => {
                law_walk_extends(child, parts.drop_first(), key);
            },
            _ => {},
        }
    }
}

/// Law: a path walk that creates nothing reaches what a plain walk reaches,
/// and handing back what it reached unchanged leaves the object as it was.
pub proof fn law_reach_without_create(es: Seq<(Seq<char>, VdfNode)>, parts: Seq<Seq<char>>)
    ensures
        reach(es, parts, false) == walk(es, parts),
        walk(es, parts) matches Some(t) ==> rebuild(es, parts, t) == es,
    decreases parts.len(),
{
    if parts.len() > 0 {
        match lookup(es, parts[0]) {
            Some(VdfNode::Tree(child)) => {
                let i = key_position(es, parts[0]).unwrap();
                assert(ensured_index(es, parts[0]) == i);
                assert(step(es, parts[0]) == es);
                assert(tree_entries(es[i].1) == child);
                law_reach_without_create(child, parts.drop_first());
                if walk(es, parts) is Some {
                    let t = walk(es, parts).unwrap();
                    assert(es.update(i, (es[i].0, VdfNode::Tree(child))) =~= es);
                }
            },
            _ => {},
        }
    }
}

/// Law: a path walk that creates what is missing always reaches an object.
pub proof fn law_reach_create(es: Seq<(Seq<char>, VdfNode)>, parts: Seq<Seq<char>>)
    ensures
        reach(es, parts, true) is Some,
    decreases parts.len(),
{
    if parts.len() > 0 {
        let es1 = step(es, parts[0]);
        let i = ensured_index(es, parts[0]);
        law_reach_create(tree_entries(es1[i].1), parts.drop_first());
    }
}

proof fn lemma_match_reflexive(key: Seq<char>)
    ensures
        key_matches(key, key),
{
}

proof fn lemma_ensured(es: Seq<(Seq<char>, VdfNode)>, key: Seq<char>)
    ensures
        0 <= ensured_index(es, key) < ensured(es, key).len(),
        key_position(ensured(es, key), key) == Some(ensured_index(es, key)),
        is_tree(ensured(es, key)[ensured_index(es, key)].1),
        ensured(es, key)[ensured_index(es, key)].1 == VdfNode::Tree(tree_entries(ensured(es, key)[ensured_index(es, key)].1)),
        lookup(es, key) matches Some(VdfNode::Tree(_)) ==> ensured(es, key) == es,
        lookup(es, key) matches Some(VdfNode::Tree(_)) ==> key_position(es, key) == Some(ensured_index(es, key)),
{
    let e = ensured(es, key);
    let i = ensured_index(es, key);
    match key_position(es, key) {
        None => {
            assert forall|j: int| 0 <= j < i implies !key_matches(#[trigger] e[j].0, key) by {
                if key_matches(es[j].0, key) {
                    lemma_first_exists(es, key, j);
                }
            }
            lemma_match_reflexive(key);
            assert(is_first_match(e, key, i));
            lemma_first_match_unique(e, key, i);
        },
        Some(k) => {
            let p = choose|p: int| is_first_match(es, key, p);
            assert(is_first_match(es, key, p));
            assert(is_first_match(e, key, i));
            lemma_first_match_unique(e, key, i);
        },
    }
}

proof fn lemma_first_exists(es: Seq<(Seq<char>, VdfNode)>, key: Seq<char>, j: int)
    requires
        0 <= j < es.len(),
        key_matches(es[j].0, key),
    ensures
        key_position(es, key) is Some,
    decreases j,
{
    if exists|k: int| 0 <= k < j && key_matches(#[trigger] es[k].0, key) {
        let k = choose|k: int| 0 <= k < j && key_matches(#[trigger] es[k].0, key);
        lemma_first_exists(es, key, k);
    } else {
        assert(is_first_match(es, key, j));
    }
}

proof fn lemma_first_match_unique(es: Seq<(Seq<char>, VdfNode)>, key: Seq<char>, i: int)
    requires
        is_first_match(es, key, i),
    ensures
        key_position(es, key) == Some(i),
{
    let k = choose|k: int| is_first_match(es, key, k);
    assert(is_first_match(es, key, k));
    if k < i {
        assert(!key_matches(es[k].0, key));
    } else if i < k {
        assert(!key_matches(es[i].0, key));
    }
}

proof fn lemma_no_match_no_position(es: Seq<(Seq<char>, VdfNode)>, key: Seq<char>)
    requires
        forall|j: int| 0 <= j < es.len() ==> !key_matches(#[trigger] es[j].0, key),
    ensures
        key_position(es, key) is None,
{
}

impl VdfValue {
    pub fn as_str(&self) -> (result: Option<&str>)
        ensures
            match self@ {
                VdfNode::Text(t) => result is Some && result.unwrap()@ == t,
                VdfNode::Tree(_) => result is None,
            },
    {
        match self {
            VdfValue::String(value) => Some(value.as_str()),
            VdfValue::Object(_) => None,
        }
    }

    pub fn as_object(&self) -> (result: Option<&VdfObject>)
        ensures
            match self@ {
                VdfNode::Tree(es) => result is Some && result.unwrap()@ == es,
                VdfNode::Text(_) => result is None,
            },
    {
        match self {
            VdfValue::Object(object) => Some(object),
            VdfValue::String(_) => None,
        }
    }

    pub fn as_object_mut(&mut self) -> (result: Option<&mut VdfObject>)
        ensures
            match old(self)@ {
                VdfNode::Tree(es) => {
                    &&& result is Some
                    &&& result.unwrap()@ == es
                    &&& final(self)@ == VdfNode::Tree(final(result.unwrap())@)
                },
                VdfNode::Text(_) => result is None && final(self)@ == old(self)@,
            },
    {
        match self {
            VdfValue::Object(object) => Some(object),
            VdfValue::String(_) => None,
        }
    }

    pub fn is_object(&self) -> (result: bool)
        ensures
            result == is_tree(self@),
    {
        match self {
            VdfValue::Object(_) => true,
            VdfValue::String(_) => false,
        }
    }
}


impl Clone for VdfValue {
    /// A deep copy: the same text, or an object with the same entries.
    fn clone(&self) -> (result: Self)
        ensures
            result@ == self@,
        decreases self,
    {
        match self {
            VdfValue::String(s) => VdfValue::String(s.clone()),
            VdfValue::Object(o) => VdfValue::Object(o.copy_entries()),
        }
    }
}

impl Clone for VdfObject {
    /// A deep copy, with the same entries in the same order.
    fn clone(&self) -> (result: Self)
        ensures
            result@ == self@,
    {
        self.copy_entries()
    }
}

impl VdfObject {
    fn copy_entries(&self) -> (result: VdfObject)
        ensures
            result@ == self@,
        decreases self,
    {
        let mut out: Vec<(String, VdfValue)> = Vec::new();
        let mut index: usize = 0;
        while index < self.entries.len()
            invariant
                index <= self.entries@.len(),
                out@.len() == index,
                forall|k: int|
                    0 <= k < index ==> (#[trigger] out@[k]).0@ == self.entries@[k].0@ && value_node(out@[k].1)
                        == value_node(self.entries@[k].1),
            decreases self.entries@.len() - index,
        {
            let value = self.entries[index].1.clone();
            let key = self.entries[index].0.clone();
            out.push((key, value));
            index += 1;
        }
        let result = VdfObject { entries: out };
        proof {
            lemma_entries_nodes_len(out@);
            lemma_entries_nodes_len(self.entries@);
            assert forall|k: int| 0 <= k < out@.len() implies entries_nodes(out@)[k] == entries_nodes(self.entries@)[k] by {
                lemma_entries_nodes_index(out@, k);
                lemma_entries_nodes_index(self.entries@, k);
            }
            assert(entries_nodes(out@) =~= entries_nodes(self.entries@));
        }
        result
    }
}

impl Default for VdfObject {
    /// The empty object.
    fn default() -> (result: Self)
        ensures
            result@ == Seq::<(Seq<char>, VdfNode)>::empty(),
            result.wf(),
    {
        VdfObject::new()
    }
}

impl VdfObject {
    /// Every nested object of this one has distinct keys.
    pub open spec fn wf(&self) -> bool {
        node_wf(VdfNode::Tree(self@))
    }

    pub fn new() -> (result: Self)
        ensures
            result@ == Seq::<(Seq<char>, VdfNode)>::empty(),
            result.wf(),
    {
        let result = VdfObject { entries: Vec::new() };
        proof {
            assert(result@ =~= Seq::<(Seq<char>, VdfNode)>::empty());
        }
        result
    }

    pub fn is_empty(&self) -> (result: bool)
        ensures
            result == (self@.len() == 0),
    {
        proof {
            lemma_entries_nodes_len(self.entries@);
        }
        self.entries.len() == 0
    }

    pub fn len(&self) -> (result: usize)
        ensures
            result == self@.len(),
    {
        proof {
            lemma_entries_nodes_len(self.entries@);
        }
        self.entries.len()
    }

    /// The entries in order, as `(key, value)` pairs.
    pub fn iter(&self) -> (result: Vec<(&str, &VdfValue)>)
        ensures
            result@.len() == self@.len(),
            forall|i: int|
                0 <= i < self@.len() ==> (#[trigger] result@[i]).0@ == self@[i].0 && result@[i].1@ == self@[i].1,
    {
        let mut result: Vec<(&str, &VdfValue)> = Vec::new();
        let mut index: usize = 0;
        proof {
            lemma_entries_nodes_len(self.entries@);
        }
        while index < self.entries.len()
            invariant
                index <= self.entries@.len(),
                self@.len() == self.entries@.len(),
                result@.len() == index,
                forall|i: int|
                    0 <= i < index ==> (#[trigger] result@[i]).0@ == self@[i].0 && result@[i].1@ == self@[i].1,
            decreases self.entries@.len() - index,
        {
            proof {
                lemma_entries_nodes_index(self.entries@, index as int);
            }
            let entry = &self.entries[index];
            result.push((entry.0.as_str(), &entry.1));
            index += 1;
        }
        result
    }

    /// The keys in order.
    pub fn keys(&self) -> (result: Vec<&str>)
        ensures
            result@.len() == self@.len(),
            forall|i: int| 0 <= i < self@.len() ==> (#[trigger] result@[i])@ == self@[i].0,
    {
        let mut result: Vec<&str> = Vec::new();
        let mut index: usize = 0;
        proof {
            lemma_entries_nodes_len(self.entries@);
        }
        while index < self.entries.len()
            invariant
                index <= self.entries@.len(),
                self@.len() == self.entries@.len(),
                result@.len() == index,
                forall|i: int| 0 <= i < index ==> (#[trigger] result@[i])@ == self@[i].0,
            decreases self.entries@.len() - index,
        {
            proof {
                lemma_entries_nodes_index(self.entries@, index as int);
            }
            result.push(self.entries[index].0.as_str());
            index += 1;
        }
        result
    }

    fn position(&self, key: &str) -> (result: Option<usize>)
        ensures
            result matches Some(i) ==> key_position(self@, key@) == Some(i as int),
            result is None ==> key_position(self@, key@) is None,
            result matches Some(i) ==> i < self.entries@.len(),
    {
        proof {
            lemma_entries_nodes_len(self.entries@);
        }
        let mut index: usize = 0;
        while index < self.entries.len()
            invariant
                index <= self.entries@.len(),
                self@.len() == self.entries@.len(),
                forall|j: int| 0 <= j < index ==> !key_matches(#[trigger] self@[j].0, key@),
            decreases self.entries@.len() - index,
        {
            proof {
                lemma_entries_nodes_index(self.entries@, index as int);
            }
            if eq_ignore_ascii_case(self.entries[index].0.as_str(), key) {
                proof {
                    assert(is_first_match(self@, key@, index as int));
                    lemma_first_match_unique(self@, key@, index as int);
                }
                return Some(index);
            }
            index += 1;
        }
        proof {
            lemma_no_match_no_position(self@, key@);
        }
        None
    }

    pub fn get(&self, key: &str) -> (result: Option<&VdfValue>)
        ensures
            match lookup(self@, key@) {
                Some(v) => result is Some && result.unwrap()@ == v,
                None => result is None,
            },
    {
        match self.position(key) {
            Some(index) => {
                proof {
                    lemma_entries_nodes_index(self.entries@, index as int);
                }
                Some(&self.entries[index].1)
            },
            None => None,
        }
    }

    pub fn get_mut(&mut self, key: &str) -> (result: Option<&mut VdfValue>)
        ensures
            match key_position(old(self)@, key@) {
                Some(i) => {
                    &&& result is Some
                    &&& result.unwrap()@ == old(self)@[i].1
                    &&& final(self)@ == old(self)@.update(i, (old(self)@[i].0, final(result.unwrap())@))
                },
                None => result is None && final(self)@ == old(self)@,
            },
    {
        match self.position(key) {
            Some(index) => {
                proof {
                    lemma_entries_nodes_index(self.entries@, index as int);
                }
                let entry = &mut self.entries[index];
                proof {
                    lemma_entries_nodes_update(old(self).entries@, index as int, *final(entry));
                }
                let value = &mut entry.1;
                Some(value)
            },
            None => None,
        }
    }

    pub fn get_str(&self, key: &str) -> (result: Option<&str>)
        ensures
            match lookup(self@, key@) {
                Some(VdfNode::Text(t)) => result is Some && result.unwrap()@ == t,
                _ => result is None,
            },
    {
        match self.get(key) {
            Some(value) => value.as_str(),
            None => None,
        }
    }

    pub fn get_object(&self, key: &str) -> (result: Option<&VdfObject>)
        ensures
            match lookup(self@, key@) {
                Some(VdfNode::Tree(es)) => result is Some && result.unwrap()@ == es,
                _ => result is None,
            },
    {
        match self.get(key) {
            Some(value) => value.as_object(),
            None => None,
        }
    }

    pub fn get_object_mut(&mut self, key: &str) -> (result: Option<&mut VdfObject>)
        ensures
            match lookup(old(self)@, key@) {
                Some(VdfNode::Tree(es)) => {
                    let i = key_position(old(self)@, key@).unwrap();
                    &&& result is Some
                    &&& result.unwrap()@ == es
                    &&& final(self)@ == old(self)@.update(i, (old(self)@[i].0, VdfNode::Tree(final(result.unwrap())@)))
                },
                _ => result is None && final(self)@ == old(self)@,
            },
    {
        match self.get_mut(key) {
            Some(value) => value.as_object_mut(),
            None => None,
        }
    }

    /// Case-insensitive insert. Keeps the existing key spelling when present.
    pub fn insert(&mut self, key: &str, value: VdfValue)
        ensures
            final(self)@ == inserted(old(self)@, key@, value@),
            keys_distinct(old(self)@) ==> keys_distinct(final(self)@),
            old(self).wf() && node_wf(value@) ==> final(self).wf(),
    {
        proof {
            if old(self).wf() && node_wf(value@) {
                lemma_insert_wf(old(self)@, key@, value@);
            }
            law_insert_keeps_keys_distinct(old(self)@, key@, value@);
        }
        match self.position(key) {
            Some(index) => {
                proof {
                    lemma_entries_nodes_index(self.entries@, index as int);
                }
                let ghost before = self.entries@;
                let existing = &mut self.entries[index];
                existing.1 = value;
                proof {
                    lemma_entries_nodes_update(before, index as int, self.entries@[index as int]);
                    assert(self.entries@ == before.update(index as int, self.entries@[index as int]));
                }
            },
            None => {
                let ghost before = self.entries@;
                let entry = (key.to_owned(), value);
                self.entries.push(entry);
                proof {
                    lemma_entries_nodes_push(before, entry);
                }
            },
        }
    }

    pub fn set_string(&mut self, key: &str, value: &str)
        ensures
            final(self)@ == inserted(old(self)@, key@, VdfNode::Text(value@)),
            old(self).wf() ==> final(self).wf(),
    {
        let text = value.to_owned();
        let node = VdfValue::String(text);
        proof {
            assert(node@ == VdfNode::Text(value@));
        }
        self.insert(key, node);
    }

    /// Returns the nested object for `key`, creating it when missing.
    pub fn ensure_object(&mut self, key: &str) -> (result: &mut VdfObject)
        ensures
            ({
                let es1 = ensured(old(self)@, key@);
                let i = ensured_index(old(self)@, key@);
                &&& result@ == tree_entries(es1[i].1)
                &&& final(self)@ == es1.update(i, (es1[i].0, VdfNode::Tree(final(result)@)))
            }),
    {
        proof {
            lemma_ensured(self@, key@);
        }
        let index = match self.position(key) {
            Some(index) => index,
            None => {
                let ghost before = self.entries@;
                let entry = (key.to_owned(), VdfValue::Object(VdfObject::new()));
                self.entries.push(entry);
                proof {
                    lemma_entries_nodes_push(before, entry);
                }
                self.entries.len() - 1
            },
        };
        proof {
            lemma_entries_nodes_index(self.entries@, index as int);
        }
        if !self.entries[index].1.is_object() {
            let ghost before = self.entries@;
            let existing = &mut self.entries[index];
            existing.1 = VdfValue::Object(VdfObject::new());
            proof {
                lemma_entries_nodes_update(before, index as int, self.entries@[index as int]);
                assert(self.entries@ == before.update(index as int, self.entries@[index as int]));
            }
        }
        proof {
            assert(self@ == ensured(old(self)@, key@));
            lemma_entries_nodes_index(self.entries@, index as int);
        }
        let ghost current = self.entries@;
        let entry = &mut self.entries[index];
        proof {
            lemma_entries_nodes_update(current, index as int, *final(entry));
        }
        let value = &mut entry.1;
        value.as_object_mut().unwrap()
    }

    /// Walks a nested path, creating missing objects when `create` is set.
    pub fn path_mut(&mut self, parts: &[&str], create: bool) -> (result: Option<&mut VdfObject>)
        ensures
            match reach(old(self)@, texts(parts@), create) {
                None => result is None && final(self)@ == old(self)@,
                Some(target) => {
                    &&& result is Some
                    &&& result.unwrap()@ == target
                    &&& final(self)@ == rebuild(old(self)@, texts(parts@), final(result.unwrap())@)
                },
            },
    {
        proof {
            assert(texts(parts@).skip(0) =~= texts(parts@));
        }
        self.path_mut_from(parts, 0, create)
    }

    fn path_mut_from(&mut self, parts: &[&str], start: usize, create: bool) -> (result: Option<&mut VdfObject>)
        requires
            start <= parts@.len(),
        ensures
            match reach(old(self)@, texts(parts@).skip(start as int), create) {
                None => result is None && final(self)@ == old(self)@,
                Some(target) => {
                    &&& result is Some
                    &&& result.unwrap()@ == target
                    &&& final(self)@ == rebuild(old(self)@, texts(parts@).skip(start as int), final(result.unwrap())@)
                },
            },
        decreases parts@.len() - start,
    {
        let ghost path = texts(parts@).skip(start as int);
        if start >= parts.len() {
            return Some(self);
        }
        let part = parts[start];
        proof {
            assert(path[0] == part@);
            assert(path.drop_first() =~= texts(parts@).skip(start + 1));
            lemma_ensured(self@, part@);
        }
        let is_object = match self.get(part) {
            Some(value) => value.is_object(),
            None => false,
        };
        if !is_object {
            if !create {
                return None;
            }
            self.ensure_object(part);
        }
        proof {
            assert(self@ == step(old(self)@, part@));
            let mid = self@;
            let i = ensured_index(old(self)@, part@);
            lemma_ensured(old(self)@, part@);
            law_reach_create(old(self)@, path);
            assert(key_position(mid, part@) == Some(i));
            assert(lookup(mid, part@) matches Some(VdfNode::Tree(_)));
            assert(mid.update(i, (mid[i].0, VdfNode::Tree(tree_entries(mid[i].1)))) =~= mid);
        }
        match self.get_object_mut(part) {
            Some(child) => child.path_mut_from(parts, start + 1, create),
            None => None,
        }
    }

    /// Follows a nested path of objects without changing anything.
    pub fn path(&self, parts: &[&str]) -> (result: Option<&VdfObject>)
        ensures
            match walk(self@, texts(parts@)) {
                None => result is None,
                Some(target) => result is Some && result.unwrap()@ == target,
            },
    {
        let mut current = self;
        let mut index: usize = 0;
        proof {
            assert(texts(parts@).skip(0) =~= texts(parts@));
        }
        while index < parts.len()
            invariant
                index <= parts@.len(),
                walk(self@, texts(parts@)) == walk(current@, texts(parts@).skip(index as int)),
            decreases parts@.len() - index,
        {
            proof {
                let rest = texts(parts@).skip(index as int);
                assert(rest[0] == parts@[index as int]@);
                assert(rest.drop_first() =~= texts(parts@).skip(index + 1));
            }
            match current.get_object(parts[index]) {
                Some(child) => {
                    current = child;
                },
                None => {
                    return None;
                },
            }
            index += 1;
        }
        proof {
            assert(texts(parts@).skip(index as int).len() == 0);
        }
        Some(current)
    }

    pub fn remove(&mut self, key: &str) -> (result: Option<VdfValue>)
        ensures
            match key_position(old(self)@, key@) {
                Some(i) => result is Some && result.unwrap()@ == old(self)@[i].1,
                None => result is None,
            },
            final(self)@ == removed(old(self)@, key@),
            old(self).wf() ==> final(self).wf(),
    {
        proof {
            if old(self).wf() {
                lemma_remove_wf(old(self)@, key@);
            }
        }
        match self.position(key) {
            Some(index) => {
                proof {
                    lemma_entries_nodes_index(self.entries@, index as int);
                    lemma_entries_nodes_remove(self.entries@, index as int);
                }
                let entry = self.entries.remove(index);
                Some(entry.1)
            },
            None => None,
        }
    }
}


#[derive(Debug, Clone, PartialEq, Eq)]
pub struct VdfError {
    pub message: String,
    pub offset: usize,
}

impl VdfError {
    fn at(offset: usize, message: String) -> (result: Self)
        ensures
            result.offset == offset,
            result.message@ == message@,
    {
        VdfError { message, offset }
    }

    /// `invalid KeyValues data at byte <offset>: <message>`.
    pub fn to_string(&self) -> (result: String)
        ensures
            result@ == "invalid KeyValues data at byte "@ + decimal(self.offset as nat) + ": "@ + self.message@,
    {
        proof {
            reveal_strlit("invalid KeyValues data at byte ");
            reveal_strlit(": ");
        }
        let mut out = String::from_str("invalid KeyValues data at byte ");
        out.append(wide_decimal_string(self.offset as u128).as_str());
        out.append(": ");
        out.append(self.message.as_str());
        out
    }
}

// ------------------------------------------------------------ tokenizer

/// Model of a token of the KeyValues text.
pub enum Tok {
    Text(Seq<char>),
    Open,
    Close,
}

/// `u8::is_ascii_whitespace`, on characters.
pub open spec fn is_space(c: char) -> bool {
    c == ' ' || c == '\t' || c == '\n' || c == '\x0C' || c == '\r'
}

/// Characters that end an unquoted token.
pub open spec fn ends_bare(c: char) -> bool {
    is_space(c) || c == '{' || c == '}' || c == '"'
}

/// First newline at or after `i`.
pub open spec fn newline_from(s: Seq<char>, i: int) -> Option<int>
    decreases s.len() - i,
{
    if i < 0 || i >= s.len() {
        None
    } else if s[i] == '\n' {
        Some(i)
    } else {
        newline_from(s, i + 1)
    }
}

/// End of the unquoted token that starts at `i`.
pub open spec fn bare_end(s: Seq<char>, i: int) -> int
    decreases s.len() - i,
{
    if i < 0 || i >= s.len() || ends_bare(s[i]) {
        i
    } else {
        bare_end(s, i + 1)
    }
}

/// Text of a quoted string whose body starts at `j`, with the index just past
/// its closing quote; a backslash keeps the character that follows it.
pub open spec fn quoted(s: Seq<char>, j: int) -> Option<(Seq<char>, int)>
    decreases s.len() - j,
{
    if j < 0 || j >= s.len() {
        None
    } else if s[j] == '\\' && j + 1 < s.len() {
        match quoted(s, j + 2) {
            Some((t, k)) => Some((seq![s[j + 1]] + t, k)),
            None => None,
        }
    } else if s[j] == '"' {
        Some((seq![], j + 1))
    } else {
        match quoted(s, j + 1) {
            Some((t, k)) => Some((seq![s[j]] + t, k)),
            None => None,
        }
    }
}

pub open spec fn prepend(first: Seq<Tok>, rest: Option<Seq<Tok>>) -> Option<Seq<Tok>> {
    match rest {
        Some(t) => Some(first + t),
        None => None,
    }
}

pub proof fn lemma_newline_from(s: Seq<char>, i: int)
    ensures
        newline_from(s, i) matches Some(j) ==> i <= j < s.len() && s[j] == '\n',
    decreases s.len() - i,
{
    if 0 <= i < s.len() && s[i] != '\n' {
        lemma_newline_from(s, i + 1);
    }
}

pub proof fn lemma_bare_end(s: Seq<char>, i: int)
    requires
        0 <= i <= s.len(),
    ensures
        i <= bare_end(s, i) <= s.len(),
        forall|k: int| i <= k < bare_end(s, i) ==> !ends_bare(#[trigger] s[k]),
        bare_end(s, i) < s.len() ==> ends_bare(s[bare_end(s, i)]),
    decreases s.len() - i,
{
    if i < s.len() && !ends_bare(s[i]) {
        lemma_bare_end(s, i + 1);
    }
}

pub proof fn lemma_quoted(s: Seq<char>, j: int)
    ensures
        quoted(s, j) matches Some((t, k)) ==> j < k <= s.len(),
    decreases s.len() - j,
{
    if 0 <= j < s.len() {
        if s[j] == '\\' && j + 1 < s.len() {
            lemma_quoted(s, j + 2);
        } else if s[j] != '"' {
            lemma_quoted(s, j + 1);
        }
    }
}

/// Tokens of the text from index `i`; nothing when a quoted string is left
/// open. `//` starts a comment that runs to the end of the line.
pub open spec fn tokens_from(s: Seq<char>, i: int) -> Option<Seq<Tok>>
    decreases s.len() - i,
{
    if i < 0 || i >= s.len() {
        Some(seq![])
    } else if is_space(s[i]) {
        tokens_from(s, i + 1)
    } else if s[i] == '/' && i + 1 < s.len() && s[i + 1] == '/' {
        match newline_from(s, i) {
            Some(j) => {
                proof {
                    lemma_newline_from(s, i);
                }
                tokens_from(s, j + 1)
            },
            None => Some(seq![]),
        }
    } else if s[i] == '{' {
        prepend(seq![Tok::Open], tokens_from(s, i + 1))
    } else if s[i] == '}' {
        prepend(seq![Tok::Close], tokens_from(s, i + 1))
    } else if s[i] == '"' {
        match quoted(s, i + 1) {
            Some((t, k)) => {
                proof {
                    lemma_quoted(s, i + 1);
                }
                prepend(seq![Tok::Text(t)], tokens_from(s, k))
            },
            None => None,
        }
    } else {
        proof {
            lemma_bare_end(s, i);
        }
        prepend(seq![Tok::Text(s.subrange(i, bare_end(s, i)))], tokens_from(s, bare_end(s, i)))
    }
}

#[derive(Debug)]
enum Token {
    Text(String),
    OpenBrace,
    CloseBrace,
}

spec fn token_view(t: Token) -> Tok {
    match t {
        Token::Text(s) => Tok::Text(s@),
        Token::OpenBrace => Tok::Open,
        Token::CloseBrace => Tok::Close,
    }
}

spec fn tokens_view(ts: Seq<Token>) -> Seq<Tok> {
    ts.map_values(|t: Token| token_view(t))
}

fn is_space_char(c: char) -> (result: bool)
    ensures
        result == is_space(c),
{
    c == ' ' || c == '\t' || c == '\n' || c == '\x0C' || c == '\r'
}

fn tokenize(input: &str) -> (result: Result<Vec<Token>, VdfError>)
    ensures
        match tokens_from(input@, 0) {
            Some(t) => result is Ok && tokens_view(result->Ok_0@) == t,
            None => result is Err && result->Err_0.offset == input.spec_bytes().len() as usize
                && result->Err_0.message@ == "unterminated quoted string"@,
        },
{
    let chars = chars_of(input);
    let length = chars.len();
    let ghost s = input@;
    let mut tokens: Vec<Token> = Vec::new();
    let mut index: usize = 0;
    while index < length
        invariant_except_break
            chars@ == s,
            s == input@,
            length == s.len(),
            index <= length,
            tokens_from(s, 0) == prepend(tokens_view(tokens@), tokens_from(s, index as int)),
        ensures
            tokens_from(input@, 0) == Some(tokens_view(tokens@)),
        decreases length - index,
    {
        let current = chars[index];
        if is_space_char(current) {
            index += 1;
            continue;
        }
        if current == '/' && index + 1 < length && chars[index + 1] == '/' {
            let mut end = index;
            while end < length && chars[end] != '\n'
                invariant
                    chars@ == s,
            s == input@,
                    length == s.len(),
                    index <= end <= length,
                    newline_from(s, index as int) == newline_from(s, end as int),
                    tokens_from(s, 0) == prepend(tokens_view(tokens@), tokens_from(s, index as int)),
                    s[index as int] == '/' && index + 1 < length && s[index + 1] == '/',
                decreases length - end,
            {
                end += 1;
            }
            if end < length {
                index = end + 1;
                continue;
            } else {
                proof {
                    assert(tokens_from(s, index as int) == Some(Seq::<Tok>::empty()));
                    assert(tokens_view(tokens@) + Seq::<Tok>::empty() =~= tokens_view(tokens@));
                }
                break;
            }
        }
        if current == '{' {
            let ghost before = tokens@;
            tokens.push(Token::OpenBrace);
            proof {
                assert(tokens_view(tokens@) =~= tokens_view(before) + seq![Tok::Open]);
                if let Some(rest) = tokens_from(s, index + 1) {
                    assert(tokens_view(before) + (seq![Tok::Open] + rest) =~= tokens_view(tokens@) + rest);
                }
            }
            index += 1;
            continue;
        }
        if current == '}' {
            let ghost before = tokens@;
            tokens.push(Token::CloseBrace);
            proof {
                assert(tokens_view(tokens@) =~= tokens_view(before) + seq![Tok::Close]);
                if let Some(rest) = tokens_from(s, index + 1) {
                    assert(tokens_view(before) + (seq![Tok::Close] + rest) =~= tokens_view(tokens@) + rest);
                }
            }
            index += 1;
            continue;
        }
        if current == '"' {
            let ghost quote_at = index as int;
            let start = index + 1;
            index = start;
            let mut value: Vec<char> = Vec::new();
            let mut terminated = false;
            proof {
                assert(value@ + quoted(s, start as int).unwrap().0 =~= quoted(s, start as int).unwrap().0);
            }
            while index < length
                invariant_except_break
                    chars@ == s,
            s == input@,
                    length == s.len(),
                    start <= index <= length,
                    !terminated,
                    start == quote_at + 1,
                    s[quote_at] == '"',
                    tokens_from(s, 0) == prepend(tokens_view(tokens@), tokens_from(s, quote_at)),
                    quoted(s, start as int) == match quoted(s, index as int) {
                        Some((t, k)) => Some((value@ + t, k)),
                        None => None::<(Seq<char>, int)>,
                    },
                ensures
                    chars@ == s,
            s == input@,
                    length == s.len(),
                    start <= index <= length,
                    start == quote_at + 1,
                    s[quote_at] == '"',
                    tokens_from(s, 0) == prepend(tokens_view(tokens@), tokens_from(s, quote_at)),
                    terminated ==> quoted(s, start as int) == Some((value@, index as int)),
                    !terminated ==> quoted(s, start as int) is None,
                decreases length - index,
            {
                let byte = chars[index];
                if byte == '\\' && index + 1 < length {
                    let ghost previous = value@;
                    value.push(chars[index + 1]);
                    proof {
                        if let Some((t, k)) = quoted(s, index + 2) {
                            assert(previous + (seq![s[index + 1]] + t) =~= value@ + t);
                        }
                    }
                    index += 2;
                    continue;
                }
                if byte == '"' {
                    index += 1;
                    terminated = true;
                    proof {
                        assert(value@ + Seq::<char>::empty() =~= value@);
                    }
                    break;
                }
                let ghost previous = value@;
                value.push(byte);
                proof {
                    if let Some((t, k)) = quoted(s, index + 1) {
                        assert(previous + (seq![s[index as int]] + t) =~= value@ + t);
                    }
                }
                index += 1;
            }
            if !terminated {
                proof {
                    assert(tokens_from(s, quote_at) is None);
                }
                return Err(VdfError::at(input.len(), String::from_str("unterminated quoted string")));
            }
            let ghost before = tokens@;
            let text = string_from_chars(value.as_slice());
            tokens.push(Token::Text(text));
            proof {
                assert(tokens_from(s, quote_at) == prepend(seq![Tok::Text(value@)], tokens_from(s, index as int)));
                assert(tokens_view(tokens@) =~= tokens_view(before) + seq![Tok::Text(value@)]);
                if let Some(rest) = tokens_from(s, index as int) {
                    assert(tokens_view(before) + (seq![Tok::Text(value@)] + rest) =~= tokens_view(tokens@) + rest);
                }
            }
            continue;
        }
        let start = index;
        proof {
            lemma_bare_end(s, start as int);
        }
        let mut value: Vec<char> = Vec::new();
        while index < length
            invariant_except_break
                chars@ == s,
            s == input@,
                length == s.len(),
                start <= index <= length,
                bare_end(s, start as int) == bare_end(s, index as int),
                tokens_from(s, 0) == prepend(tokens_view(tokens@), tokens_from(s, start as int)),
                value@ == s.subrange(start as int, index as int),
            ensures
                chars@ == s,
            s == input@,
                length == s.len(),
                start <= index <= length,
                index == bare_end(s, start as int),
                tokens_from(s, 0) == prepend(tokens_view(tokens@), tokens_from(s, start as int)),
                value@ == s.subrange(start as int, index as int),
            decreases length - index,
        {
            let byte = chars[index];
            if is_space_char(byte) || byte == '{' || byte == '}' || byte == '"' {
                break;
            }
            value.push(byte);
            proof {
                assert(value@ =~= s.subrange(start as int, index + 1));
            }
            index += 1;
        }
        let ghost before = tokens@;
        let text = string_from_chars(value.as_slice());
        tokens.push(Token::Text(text));
        proof {
            assert(tokens_from(s, start as int) == prepend(seq![Tok::Text(value@)], tokens_from(s, index as int)));
            assert(tokens_view(tokens@) =~= tokens_view(before) + seq![Tok::Text(value@)]);
            if let Some(rest) = tokens_from(s, index as int) {
                assert(tokens_view(before) + (seq![Tok::Text(value@)] + rest) =~= tokens_view(tokens@) + rest);
            }
        }
    }
    Ok(tokens)
}

// --------------------------------------------------------------- parser

/// Why the tokens do not form an object.
pub enum ParseFault {
    /// An opening brace where a key belongs.
    KeyExpected,
    /// A key at the very end of the input.
    MissingValue(Seq<char>),
    /// A closing brace right after a key.
    CloseAfterKey(Seq<char>),
    /// Out of steps: never the case with [`parse_canon`].
    Exhausted,
}

/// Entries of the object whose first key is the token at `c`, read until its
/// closing brace (or the end), inserted one by one after `acc`; with the
/// cursor just past what was read. `fuel` bounds the steps.
pub open spec fn parse_seq(t: Seq<Tok>, c: int, acc: Seq<(Seq<char>, VdfNode)>, fuel: nat) -> Result<(Seq<(Seq<char>, VdfNode)>, int), (int, ParseFault)>
    decreases fuel,
{
    if fuel == 0 {
        Err((c, ParseFault::Exhausted))
    } else if c < 0 || c >= t.len() {
        Ok((acc, c))
    } else {
        match t[c] {
            Tok::Close => Ok((acc, c + 1)),
            Tok::Open => Err((c, ParseFault::KeyExpected)),
            Tok::Text(key) => if c + 1 >= t.len() {
                Err((c + 1, ParseFault::MissingValue(key)))
            } else {
                match t[c + 1] {
                    Tok::Open => match parse_seq(t, c + 2, seq![], (fuel - 1) as nat) {
                        Ok((child, c2)) => parse_seq(t, c2, inserted(acc, key, VdfNode::Tree(child)), (fuel - 1) as nat),
                        Err(e) => Err(e),
                    },
                    Tok::Close => Err((c + 1, ParseFault::CloseAfterKey(key))),
                    Tok::Text(value) => parse_seq(t, c + 2, inserted(acc, key, VdfNode::Text(value)), (fuel - 1) as nat),
                }
            },
        }
    }
}

/// [`parse_seq`] with as many steps as there are tokens left, which is always
/// enough.
pub open spec fn parse_canon(t: Seq<Tok>, c: int, acc: Seq<(Seq<char>, VdfNode)>) -> Result<(Seq<(Seq<char>, VdfNode)>, int), (int, ParseFault)> {
    parse_seq(t, c, acc, (t.len() - c + 1) as nat)
}

/// `format!("{:?}", text)` of a key, as the error messages show it.
pub uninterp spec fn debug_text(text: Seq<char>) -> Seq<char>;

/// Message of a parse fault.
pub open spec fn fault_message(fault: ParseFault) -> Seq<char> {
    match fault {
        ParseFault::KeyExpected => "unexpected '{' where a key was expected"@,
        ParseFault::MissingValue(key) => "missing value for key "@ + debug_text(key),
        ParseFault::CloseAfterKey(key) => "unexpected '}' after key "@ + debug_text(key),
        ParseFault::Exhausted => seq![],
    }
}

/// What [`parse`] gives for a text: the entries, or the byte offset and the
/// message of the error.
pub open spec fn parse_outcome(s: Seq<char>) -> Result<Seq<(Seq<char>, VdfNode)>, (int, Seq<char>)> {
    match tokens_from(s, 0) {
        None => Err((vstd::utf8::encode_utf8(s).len() as usize as int, "unterminated quoted string"@)),
        Some(t) => match parse_canon(t, 0, seq![]) {
            Err((offset, fault)) => Err((offset, fault_message(fault))),
            Ok((es, c)) => if c == t.len() {
                Ok(es)
            } else {
                Err((c, "unexpected trailing data after the top level object"@))
            },
        },
    }
}

/// Steps beyond what is needed change nothing, the cursor only moves forward
/// and never past the end.
pub proof fn lemma_parse_fuel(t: Seq<Tok>, c: int, acc: Seq<(Seq<char>, VdfNode)>, f1: nat, f2: nat)
    requires
        0 <= c <= t.len(),
        f1 >= t.len() - c + 1,
        f2 >= t.len() - c + 1,
    ensures
        parse_seq(t, c, acc, f1) == parse_seq(t, c, acc, f2),
        parse_seq(t, c, acc, f1) matches Ok((_, c2)) ==> c <= c2 <= t.len() && (c < t.len() ==> c < c2),
        parse_seq(t, c, acc, f1) matches Err((o, fault)) ==> !(fault is Exhausted) && 0 <= o <= t.len(),
    decreases f1,
{
    if c < t.len() {
        match t[c] {
            Tok::Text(key) => if c + 1 < t.len() {
                match t[c + 1] {
                    Tok::Open => {
                        lemma_parse_fuel(t, c + 2, seq![], (f1 - 1) as nat, (f2 - 1) as nat);
                        match parse_seq(t, c + 2, seq![], (f1 - 1) as nat) {
                            Ok((child, c2)) => {
                                lemma_parse_fuel(t, c2, inserted(acc, key, VdfNode::Tree(child)), (f1 - 1) as nat, (f2 - 1) as nat);
                            },
                            Err(_) => {},
                        }
                    },
                    Tok::Text(value) => {
                        lemma_parse_fuel(t, c + 2, inserted(acc, key, VdfNode::Text(value)), (f1 - 1) as nat, (f2 - 1) as nat);
                    },
                    Tok::Close => {},
                }
            },
            _ => {},
        }
    }
}

/// `format!("{:?}", key)`, the quoted and escaped key shown in messages.
#[verifier::external_body]
pub(crate) fn debug_quoted(key: &str) -> (result: String)
    ensures
        result@ == debug_text(key@),
{
    format!("{key:?}")
}

fn parse_object(tokens: &[Token], cursor: &mut usize) -> (result: Result<VdfObject, VdfError>)
    requires
        *old(cursor) <= tokens@.len(),
    ensures
        match parse_canon(tokens_view(tokens@), *old(cursor) as int, seq![]) {
            Ok((es, c)) => result is Ok && result->Ok_0@ == es && *final(cursor) == c,
            Err((offset, fault)) => result is Err && result->Err_0.offset == offset
                && result->Err_0.message@ == fault_message(fault),
        },
    decreases tokens@.len() - *old(cursor),
{
    let ghost t = tokens_view(tokens@);
    let ghost start = *cursor as int;
    let mut object = VdfObject::new();
    proof {
        lemma_parse_fuel(t, start, seq![], (t.len() - start + 1) as nat, (t.len() - start + 1) as nat);
    }
    while *cursor < tokens.len()
        invariant
            t == tokens_view(tokens@),
            t.len() == tokens@.len(),
            start <= *cursor <= tokens@.len(),
            start == *old(cursor),
            parse_canon(t, start, seq![]) == parse_canon(t, *cursor as int, object@),
        decreases tokens@.len() - *cursor,
    {
        let c = *cursor;
        proof {
            assert(t[c as int] == token_view(tokens@[c as int]));
        }
        let key = match &tokens[c] {
            Token::Text(text) => text.clone(),
            Token::CloseBrace => {
                proof {
                    assert(parse_canon(t, c as int, object@) == Ok::<(Seq<(Seq<char>, VdfNode)>, int), (int, ParseFault)>((object@, c + 1)));
                }
                *cursor = c + 1;
                return Ok(object);
            },
            Token::OpenBrace => {
                proof {
                    assert(parse_canon(t, c as int, object@) == Err::<(Seq<(Seq<char>, VdfNode)>, int), (int, ParseFault)>((c as int, ParseFault::KeyExpected)));
                }
                return Err(VdfError::at(c, String::from_str("unexpected '{' where a key was expected")));
            },
        };
        *cursor = c + 1;
        if c + 1 >= tokens.len() {
            let mut message = String::from_str("missing value for key ");
            message.append(debug_quoted(key.as_str()).as_str());
            return Err(VdfError::at(c + 1, message));
        }
        proof {
            assert(t[c + 1] == token_view(tokens@[c + 1]));
        }
        match &tokens[c + 1] {
            Token::OpenBrace => {
                *cursor = c + 2;
                let ghost acc = object@;
                let child = parse_object(tokens, cursor);
                proof {
                    lemma_parse_fuel(t, c + 2, seq![], (t.len() - c) as nat, (t.len() - c - 1) as nat);
                }
                match child {
                    Ok(child) => {
                        let ghost c2 = *cursor as int;
                        let ghost node = VdfNode::Tree(child@);
                        let value = VdfValue::Object(child);
                        proof {
                            assert(value@ == node);
                            lemma_parse_fuel(t, c2, inserted(acc, key@, node), (t.len() - c) as nat, (t.len() - c2 + 1) as nat);
                        }
                        object.insert(key.as_str(), value);
                    },
                    Err(error) => {
                        return Err(error);
                    },
                }
            },
            Token::CloseBrace => {
                let mut message = String::from_str("unexpected '}' after key ");
                message.append(debug_quoted(key.as_str()).as_str());
                return Err(VdfError::at(c + 1, message));
            },
            Token::Text(text) => {
                let ghost acc = object@;
                let value = VdfValue::String(text.clone());
                proof {
                    lemma_parse_fuel(t, c + 2, inserted(acc, key@, value@), (t.len() - c) as nat, (t.len() - c - 1) as nat);
                }
                object.insert(key.as_str(), value);
                *cursor = c + 2;
            },
        }
    }
    Ok(object)
}

/// Parses KeyValues text into an ordered object tree.
pub fn parse(input: &str) -> (result: Result<VdfObject, VdfError>)
    ensures
        match parse_outcome(input@) {
            Ok(es) => result is Ok && result->Ok_0@ == es,
            Err((offset, message)) => result is Err && result->Err_0.offset == offset && result->Err_0.message@ == message,
        },
        result matches Ok(object) ==> object.wf(),
{
    let tokens = tokenize(input)?;
    let mut cursor: usize = 0;
    let object = parse_object(tokens.as_slice(), &mut cursor)?;
    proof {
        lemma_parse_fuel(tokens_view(tokens@), 0, seq![], (tokens@.len() + 1) as nat, (tokens@.len() + 1) as nat);
        lemma_tree_wf(Seq::<(Seq<char>, VdfNode)>::empty());
        lemma_parse_wf(tokens_view(tokens@), 0, seq![], (tokens@.len() + 1) as nat);
    }
    if cursor != tokens.len() {
        return Err(VdfError::at(cursor, String::from_str("unexpected trailing data after the top level object")));
    }
    Ok(object)
}

// ----------------------------------------------------------------- dump

/// A character as it is written inside quotes.
pub open spec fn escape_char(c: char) -> Seq<char> {
    if c == '\\' {
        seq!['\\', '\\']
    } else if c == '"' {
        seq!['\\', '"']
    } else {
        seq![c]
    }
}

/// A text with backslashes and quotes escaped.
pub open spec fn escaped(s: Seq<char>) -> Seq<char>
    decreases s.len(),
{
    if s.len() == 0 {
        seq![]
    } else {
        escape_char(s[0]) + escaped(s.drop_first())
    }
}

/// A text between quotes, escaped.
pub open spec fn quote(s: Seq<char>) -> Seq<char> {
    seq!['"'] + escaped(s) + seq!['"']
}

/// `n` tab characters.
pub open spec fn tabs(n: nat) -> Seq<char> {
    Seq::new(n, |i: int| '\t')
}

/// How one entry is written at the given depth.
pub open spec fn entry_text(e: (Seq<char>, VdfNode), depth: nat) -> Seq<char>
    decreases e,
{
    match e.1 {
        VdfNode::Text(t) => tabs(depth) + quote(e.0) + seq!['\t', '\t'] + quote(t) + seq!['\n'],
        VdfNode::Tree(c) => tabs(depth) + quote(e.0) + seq!['\n'] + tabs(depth) + seq!['{', '\n'] + entries_text(c, depth + 1)
            + tabs(depth) + seq!['}', '\n'],
    }
}

/// How entries are written at the given depth, one after the other.
pub open spec fn entries_text(es: Seq<(Seq<char>, VdfNode)>, depth: nat) -> Seq<char>
    decreases es,
{
    if es.len() == 0 {
        seq![]
    } else {
        entry_text(es[0], depth) + entries_text(es.drop_first(), depth)
    }
}

proof fn lemma_escaped_concat(a: Seq<char>, b: Seq<char>)
    ensures
        escaped(a + b) == escaped(a) + escaped(b),
    decreases a.len(),
{
    if a.len() == 0 {
        assert(a + b =~= b);
        assert(escaped(a) + escaped(b) =~= escaped(b));
    } else {
        assert((a + b).drop_first() =~= a.drop_first() + b);
        lemma_escaped_concat(a.drop_first(), b);
        assert(escaped(a + b) =~= escaped(a) + escaped(b));
    }
}

proof fn lemma_escaped_single(c: char)
    ensures
        escaped(seq![c]) == escape_char(c),
{
    let one = seq![c];
    assert(one[0] == c);
    assert(one.drop_first() =~= Seq::<char>::empty());
    assert(escaped(Seq::<char>::empty()) == Seq::<char>::empty());
    assert(escaped(one) == escape_char(c) + escaped(one.drop_first()));
    assert(escape_char(c) + Seq::<char>::empty() =~= escape_char(c));
}

proof fn lemma_entries_text_concat(a: Seq<(Seq<char>, VdfNode)>, b: Seq<(Seq<char>, VdfNode)>, depth: nat)
    ensures
        entries_text(a + b, depth) == entries_text(a, depth) + entries_text(b, depth),
    decreases a.len(),
{
    if a.len() == 0 {
        assert(a + b =~= b);
        assert(entries_text(a, depth) + entries_text(b, depth) =~= entries_text(b, depth));
    } else {
        assert((a + b).drop_first() =~= a.drop_first() + b);
        assert((a + b)[0] == a[0]);
        lemma_entries_text_concat(a.drop_first(), b, depth);
        assert(entries_text(a + b, depth) =~= entries_text(a, depth) + entries_text(b, depth));
    }
}

proof fn lemma_entries_text_single(e: (Seq<char>, VdfNode), depth: nat)
    ensures
        entries_text(seq![e], depth) == entry_text(e, depth),
{
    let one = seq![e];
    assert(one[0] == e);
    assert(one.drop_first() =~= Seq::<(Seq<char>, VdfNode)>::empty());
    assert(entries_text(Seq::<(Seq<char>, VdfNode)>::empty(), depth) == Seq::<char>::empty());
    assert(entries_text(one, depth) == entry_text(e, depth) + entries_text(one.drop_first(), depth));
    assert(entry_text(e, depth) + Seq::<char>::empty() =~= entry_text(e, depth));
}

fn escape(value: &str) -> (result: String)
    ensures
        result@ == escaped(value@),
{
    let chars = chars_of(value);
    let mut out: Vec<char> = Vec::new();
    let mut index: usize = 0;
    proof {
        assert(chars@.take(0) =~= Seq::<char>::empty());
    }
    while index < chars.len()
        invariant
            index <= chars@.len(),
            out@ == escaped(chars@.take(index as int)),
        decreases chars@.len() - index,
    {
        let character = chars[index];
        proof {
            assert(chars@.take(index + 1) =~= chars@.take(index as int) + seq![character]);
            lemma_escaped_concat(chars@.take(index as int), seq![character]);
            lemma_escaped_single(character);
        }
        if character == '\\' {
            out.push('\\');
            out.push('\\');
        } else if character == '"' {
            out.push('\\');
            out.push('"');
        } else {
            out.push(character);
        }
        proof {
            assert(out@ =~= escaped(chars@.take(index as int)) + escape_char(character));
        }
        index += 1;
    }
    proof {
        assert(chars@.take(index as int) =~= value@);
    }
    string_from_chars(out.as_slice())
}

fn write_object(object: &VdfObject, indent: &str, Ghost(depth): Ghost<nat>, output: &mut String)
    requires
        indent@ == tabs(depth),
    ensures
        final(output)@ == old(output)@ + entries_text(object@, depth),
    decreases object,
{
    let ghost initial = output@;
    let mut index: usize = 0;
    proof {
        reveal_strlit("\"");
        reveal_strlit("\"\t\t\"");
        reveal_strlit("\"\n");
        reveal_strlit("{\n");
        reveal_strlit("}\n");
        reveal_strlit("\t");
        lemma_entries_nodes_len(object.entries@);
        assert(object@.take(0) =~= Seq::<(Seq<char>, VdfNode)>::empty());
        assert(initial + Seq::<char>::empty() =~= initial);
    }
    while index < object.entries.len()
        invariant
            index <= object.entries@.len(),
            object@.len() == object.entries@.len(),
            indent@ == tabs(depth),
            output@ == initial + entries_text(object@.take(index as int), depth),
            "\""@ == seq!['"'],
            "\"\t\t\""@ == seq!['"', '\t', '\t', '"'],
            "\"\n"@ == seq!['"', '\n'],
            "{\n"@ == seq!['{', '\n'],
            "}\n"@ == seq!['}', '\n'],
            "\t"@ == seq!['\t'],
        decreases object.entries@.len() - index,
    {
        let entry = &object.entries[index];
        let ghost e = object@[index as int];
        let ghost before = output@;
        proof {
            lemma_entries_nodes_index(object.entries@, index as int);
            assert(object@.take(index + 1) =~= object@.take(index as int) + seq![e]);
            lemma_entries_text_concat(object@.take(index as int), seq![e], depth);
            lemma_entries_text_single(e, depth);
        }
        match &entry.1 {
            VdfValue::String(text) => {
                output.append(indent);
                output.append("\"");
                output.append(escape(entry.0.as_str()).as_str());
                output.append("\"\t\t\"");
                output.append(escape(text.as_str()).as_str());
                output.append("\"\n");
                proof {
                    assert(output@ =~= before + entry_text(e, depth));
                }
            },
            VdfValue::Object(child) => {
                output.append(indent);
                output.append("\"");
                output.append(escape(entry.0.as_str()).as_str());
                output.append("\"\n");
                output.append(indent);
                output.append("{\n");
                let ghost middle = output@;
                let mut deeper = indent.to_owned();
                deeper.append("\t");
                proof {
                    assert(deeper@ =~= tabs(depth + 1));
                }
                write_object(child, deeper.as_str(), Ghost(depth + 1), output);
                output.append(indent);
                output.append("}\n");
                proof {
                    assert(output@ =~= before + entry_text(e, depth));
                }
            },
        }
        index += 1;
    }
    proof {
        assert(object@.take(index as int) =~= object@);
    }
}

/// Serializes an object tree the same way Steam does, using tab indentation.
pub fn dump(object: &VdfObject) -> (result: String)
    ensures
        result@ == entries_text(object@, 0),
{
    let mut output = String::new();
    proof {
        reveal_strlit("");
        assert(tabs(0) =~= ""@);
    }
    write_object(object, "", Ghost(0), &mut output);
    proof {
        assert(output@ =~= entries_text(object@, 0));
    }
    output
}

// ----------------------------------------------------------- round trip

/// Tokens of one written entry.
spec fn entry_tokens(e: (Seq<char>, VdfNode)) -> Seq<Tok>
    decreases e,
{
    match e.1 {
        VdfNode::Text(t) => seq![Tok::Text(e.0), Tok::Text(t)],
        VdfNode::Tree(c) => seq![Tok::Text(e.0), Tok::Open] + entries_tokens(c) + seq![Tok::Close],
    }
}

/// Tokens of written entries.
spec fn entries_tokens(es: Seq<(Seq<char>, VdfNode)>) -> Seq<Tok>
    decreases es,
{
    if es.len() == 0 {
        seq![]
    } else {
        entry_tokens(es[0]) + entries_tokens(es.drop_first())
    }
}

proof fn lemma_prepend_assoc(a: Seq<Tok>, b: Seq<Tok>, x: Option<Seq<Tok>>)
    ensures
        prepend(a, prepend(b, x)) == prepend(a + b, x),
{
    if let Some(t) = x {
        assert(a + (b + t) =~= (a + b) + t);
    }
}

proof fn lemma_prepend_empty(x: Option<Seq<Tok>>)
    ensures
        prepend(seq![], x) == x,
{
    if let Some(t) = x {
        assert(Seq::<Tok>::empty() + t =~= t);
    }
}

proof fn lemma_sub(s: Seq<char>, i: int, text: Seq<char>, a: int, b: int)
    requires
        0 <= i,
        i + text.len() <= s.len(),
        s.subrange(i, i + text.len()) == text,
        0 <= a <= b <= text.len(),
    ensures
        s.subrange(i + a, i + b) == text.subrange(a, b),
{
    assert forall|k: int| 0 <= k < b - a implies s.subrange(i + a, i + b)[k] == text.subrange(a, b)[k] by {
        assert(s.subrange(i, i + text.len())[a + k] == s[i + a + k]);
    }
    assert(s.subrange(i + a, i + b) =~= text.subrange(a, b));
}

proof fn lemma_spaces(s: Seq<char>, i: int, n: int)
    requires
        0 <= i,
        0 <= n,
        i + n <= s.len(),
        forall|k: int| i <= k < i + n ==> is_space(#[trigger] s[k]),
    ensures
        tokens_from(s, i) == tokens_from(s, i + n),
    decreases n,
{
    if n > 0 {
        lemma_spaces(s, i + 1, n - 1);
    }
}

proof fn lemma_spaces_text(s: Seq<char>, i: int, piece: Seq<char>)
    requires
        0 <= i,
        i + piece.len() <= s.len(),
        s.subrange(i, i + piece.len()) == piece,
        forall|k: int| 0 <= k < piece.len() ==> is_space(#[trigger] piece[k]),
    ensures
        tokens_from(s, i) == tokens_from(s, i + piece.len()),
{
    assert forall|k: int| i <= k < i + piece.len() implies is_space(#[trigger] s[k]) by {
        assert(s.subrange(i, i + piece.len())[k - i] == s[k]);
        assert(is_space(piece[k - i]));
    }
    lemma_spaces(s, i, piece.len() as int);
}

proof fn lemma_quoted_escaped(s: Seq<char>, j: int, k: Seq<char>)
    requires
        0 <= j,
        j + escaped(k).len() + 1 <= s.len(),
        s.subrange(j, j + escaped(k).len() + 1) == escaped(k) + seq!['"'],
    ensures
        quoted(s, j) == Some((k, j + escaped(k).len() + 1)),
    decreases k.len(),
{
    let body = escaped(k) + seq!['"'];
    assert(s[j] == body[0]) by {
        assert(s.subrange(j, j + escaped(k).len() + 1)[0] == s[j]);
    }
    if k.len() == 0 {
        assert(escaped(k) == Seq::<char>::empty());
    } else {
        let c = k[0];
        let rest = k.drop_first();
        let e = escape_char(c);
        assert(escaped(k) == e + escaped(rest));
        assert(body =~= e + (escaped(rest) + seq!['"']));
        lemma_sub(s, j, body, e.len() as int, body.len() as int);
        assert(body.subrange(e.len() as int, body.len() as int) =~= escaped(rest) + seq!['"']);
        lemma_quoted_escaped(s, j + e.len(), rest);
        if c == '\\' || c == '"' {
            assert(s[j + 1] == body[1]) by {
                assert(s.subrange(j, j + escaped(k).len() + 1)[1] == s[j + 1]);
            }
            assert(seq![s[j + 1]] + rest =~= k);
        } else {
            assert(seq![s[j]] + rest =~= k);
        }
    }
}

proof fn lemma_quote_token(s: Seq<char>, i: int, k: Seq<char>)
    requires
        0 <= i,
        i + quote(k).len() <= s.len(),
        s.subrange(i, i + quote(k).len()) == quote(k),
    ensures
        tokens_from(s, i) == prepend(seq![Tok::Text(k)], tokens_from(s, i + quote(k).len())),
{
    let q = quote(k);
    assert(s[i] == '"') by {
        assert(s.subrange(i, i + q.len())[0] == s[i]);
    }
    lemma_sub(s, i, q, 1, q.len() as int);
    assert(q.subrange(1, q.len() as int) =~= escaped(k) + seq!['"']);
    lemma_quoted_escaped(s, i + 1, k);
}

proof fn lemma_char_token(s: Seq<char>, i: int, c: char)
    requires
        0 <= i < s.len(),
        s[i] == c,
        c == '{' || c == '}',
    ensures
        tokens_from(s, i) == prepend(seq![if c == '{' { Tok::Open } else { Tok::Close }], tokens_from(s, i + 1)),
{
}

proof fn lemma_tabs_space(n: nat)
    ensures
        forall|k: int| 0 <= k < tabs(n).len() ==> is_space(#[trigger] tabs(n)[k]),
{
}

proof fn lemma_entry_tokens(s: Seq<char>, i: int, e: (Seq<char>, VdfNode), depth: nat)
    requires
        0 <= i,
        i + entry_text(e, depth).len() <= s.len(),
        s.subrange(i, i + entry_text(e, depth).len()) == entry_text(e, depth),
    ensures
        tokens_from(s, i) == prepend(entry_tokens(e), tokens_from(s, i + entry_text(e, depth).len())),
    decreases e,
{
    let text = entry_text(e, depth);
    let ind = tabs(depth);
    let qk = quote(e.0);
    lemma_tabs_space(depth);
    let p1 = ind.len() as int;
    let p2 = p1 + qk.len();
    lemma_sub(s, i, text, 0, p1);
    lemma_sub(s, i, text, p1, p2);
    match e.1 {
        VdfNode::Text(t) => {
            let qt = quote(t);
            let p3 = p2 + 2;
            let p4 = p3 + qt.len();
            let p5 = p4 + 1;
            assert(text == ind + qk + seq!['\t', '\t'] + qt + seq!['\n']);
            assert(text.len() == p5);
            assert(text.subrange(0, p1) =~= ind);
            assert(text.subrange(p1, p2) =~= qk);
            lemma_sub(s, i, text, p2, p3);
            assert(text.subrange(p2, p3) =~= seq!['\t', '\t']);
            lemma_sub(s, i, text, p3, p4);
            assert(text.subrange(p3, p4) =~= qt);
            lemma_sub(s, i, text, p4, p5);
            assert(text.subrange(p4, p5) =~= seq!['\n']);
            lemma_spaces_text(s, i, ind);
            lemma_quote_token(s, i + p1, e.0);
            lemma_spaces_text(s, i + p2, seq!['\t', '\t']);
            lemma_quote_token(s, i + p3, t);
            lemma_spaces_text(s, i + p4, seq!['\n']);
            lemma_prepend_assoc(seq![Tok::Text(e.0)], seq![Tok::Text(t)], tokens_from(s, i + p5));
            assert(seq![Tok::Text(e.0)] + seq![Tok::Text(t)] =~= entry_tokens(e));
        },
        VdfNode::Tree(c) => {
            let inner = entries_text(c, depth + 1);
            let p3 = p2 + 1;
            let p4 = p3 + ind.len();
            let p5 = p4 + 1;
            let p6 = p5 + 1;
            let p7 = p6 + inner.len();
            let p8 = p7 + ind.len();
            let p9 = p8 + 1;
            let p10 = p9 + 1;
            assert(text == ind + qk + seq!['\n'] + ind + seq!['{', '\n'] + inner + ind + seq!['}', '\n']);
            assert(text.len() == p10);
            assert(text.subrange(0, p1) =~= ind);
            assert(text.subrange(p1, p2) =~= qk);
            lemma_sub(s, i, text, p2, p4);
            assert(text.subrange(p2, p4) =~= seq!['\n'] + ind);
            lemma_sub(s, i, text, p4, p5);
            assert(text.subrange(p4, p5) =~= seq!['{']);
            lemma_sub(s, i, text, p5, p6);
            assert(text.subrange(p5, p6) =~= seq!['\n']);
            lemma_sub(s, i, text, p6, p7);
            assert(text.subrange(p6, p7) =~= inner);
            lemma_sub(s, i, text, p7, p8);
            assert(text.subrange(p7, p8) =~= ind);
            lemma_sub(s, i, text, p8, p9);
            assert(text.subrange(p8, p9) =~= seq!['}']);
            lemma_sub(s, i, text, p9, p10);
            assert(text.subrange(p9, p10) =~= seq!['\n']);
            assert(s[i + p4] == '{') by {
                assert(s.subrange(i + p4, i + p5)[0] == s[i + p4]);
            }
            assert(s[i + p8] == '}') by {
                assert(s.subrange(i + p8, i + p9)[0] == s[i + p8]);
            }
            let nl_ind = seq!['\n'] + ind;
            assert forall|k: int| 0 <= k < nl_ind.len() implies is_space(#[trigger] nl_ind[k]) by {
                if k > 0 {
                    assert(nl_ind[k] == ind[k - 1]);
                }
            }
            lemma_spaces_text(s, i, ind);
            lemma_quote_token(s, i + p1, e.0);
            lemma_spaces_text(s, i + p2, nl_ind);
            lemma_char_token(s, i + p4, '{');
            lemma_spaces_text(s, i + p5, seq!['\n']);
            lemma_entries_tokens(s, i + p6, c, depth + 1);
            lemma_spaces_text(s, i + p7, ind);
            lemma_char_token(s, i + p8, '}');
            lemma_spaces_text(s, i + p9, seq!['\n']);
            let rest = tokens_from(s, i + p10);
            lemma_prepend_assoc(entries_tokens(c), seq![Tok::Close], rest);
            lemma_prepend_assoc(seq![Tok::Open], entries_tokens(c) + seq![Tok::Close], rest);
            lemma_prepend_assoc(seq![Tok::Text(e.0)], seq![Tok::Open] + (entries_tokens(c) + seq![Tok::Close]), rest);
            assert(seq![Tok::Text(e.0)] + (seq![Tok::Open] + (entries_tokens(c) + seq![Tok::Close])) =~= entry_tokens(e));
        },
    }
}

proof fn lemma_entries_tokens(s: Seq<char>, i: int, es: Seq<(Seq<char>, VdfNode)>, depth: nat)
    requires
        0 <= i,
        i + entries_text(es, depth).len() <= s.len(),
        s.subrange(i, i + entries_text(es, depth).len()) == entries_text(es, depth),
    ensures
        tokens_from(s, i) == prepend(entries_tokens(es), tokens_from(s, i + entries_text(es, depth).len())),
    decreases es,
{
    if es.len() == 0 {
        lemma_prepend_empty(tokens_from(s, i));
    } else {
        let text = entries_text(es, depth);
        let first = entry_text(es[0], depth);
        let others = entries_text(es.drop_first(), depth);
        assert(text == first + others);
        lemma_sub(s, i, text, 0, first.len() as int);
        assert(text.subrange(0, first.len() as int) =~= first);
        lemma_sub(s, i, text, first.len() as int, text.len() as int);
        assert(text.subrange(first.len() as int, text.len() as int) =~= others);
        lemma_entry_tokens(s, i, es[0], depth);
        lemma_entries_tokens(s, i + first.len(), es.drop_first(), depth);
        lemma_prepend_assoc(entry_tokens(es[0]), entries_tokens(es.drop_first()), tokens_from(s, i + text.len()));
    }
}

proof fn lemma_entries_wf(es: Seq<(Seq<char>, VdfNode)>)
    ensures
        entries_wf(es) == forall|i: int| 0 <= i < es.len() ==> #[trigger] node_wf(es[i].1),
    decreases es.len(),
{
    if es.len() > 0 {
        lemma_entries_wf(es.drop_first());
        if forall|i: int| 0 <= i < es.len() ==> #[trigger] node_wf(es[i].1) {
            assert(node_wf(es[0].1));
            assert forall|i: int| 0 <= i < es.drop_first().len() implies #[trigger] node_wf(es.drop_first()[i].1) by {
                assert(es.drop_first()[i] == es[i + 1]);
            }
        }
        if entries_wf(es) {
            assert forall|i: int| 0 <= i < es.len() implies #[trigger] node_wf(es[i].1) by {
                if i > 0 {
                    assert(es.drop_first()[i - 1] == es[i]);
                }
            }
        }
    }
}

/// An object is well formed when its keys are distinct and its values are.
pub proof fn lemma_tree_wf(es: Seq<(Seq<char>, VdfNode)>)
    ensures
        node_wf(VdfNode::Tree(es)) == (keys_distinct(es) && forall|i: int| 0 <= i < es.len() ==> #[trigger] node_wf(es[i].1)),
{
    lemma_entries_wf(es);
}

pub proof fn lemma_no_match(es: Seq<(Seq<char>, VdfNode)>, key: Seq<char>)
    requires
        key_position(es, key) is None,
    ensures
        forall|j: int| 0 <= j < es.len() ==> !key_matches(#[trigger] es[j].0, key),
{
    assert forall|j: int| 0 <= j < es.len() implies !key_matches(#[trigger] es[j].0, key) by {
        if key_matches(es[j].0, key) {
            lemma_first_exists(es, key, j);
        }
    }
}

proof fn lemma_insert_new(es: Seq<(Seq<char>, VdfNode)>, key: Seq<char>, value: VdfNode)
    requires
        forall|j: int| 0 <= j < es.len() ==> !key_matches(#[trigger] es[j].0, key),
    ensures
        inserted(es, key, value) == es.push((key, value)),
{
    lemma_no_match_no_position(es, key);
}

/// Inserting a well-formed value keeps an object well formed.
pub proof fn lemma_insert_wf(es: Seq<(Seq<char>, VdfNode)>, key: Seq<char>, value: VdfNode)
    requires
        node_wf(VdfNode::Tree(es)),
        node_wf(value),
    ensures
        node_wf(VdfNode::Tree(inserted(es, key, value))),
{
    let r = inserted(es, key, value);
    lemma_tree_wf(es);
    lemma_tree_wf(r);
    match key_position(es, key) {
        Some(i) => {
            assert(is_first_match(es, key, choose|p: int| is_first_match(es, key, p)));
            assert forall|a: int| 0 <= a < r.len() implies #[trigger] node_wf(r[a].1) by {
                if a != i {
                    assert(node_wf(es[a].1));
                }
            }
        },
        None => {
            lemma_no_match(es, key);
            assert forall|a: int, b: int|
                0 <= a < r.len() && 0 <= b < r.len() && a != b implies !key_matches(#[trigger] r[a].0, #[trigger] r[b].0) by {
                if a < es.len() && b < es.len() {
                } else if a < es.len() {
                    assert(!key_matches(es[a].0, key));
                } else {
                    assert(!key_matches(es[b].0, key));
                }
            }
            assert forall|a: int| 0 <= a < r.len() implies #[trigger] node_wf(r[a].1) by {
                if a < es.len() {
                    assert(node_wf(es[a].1));
                }
            }
        },
    }
}

/// Removing an entry keeps an object well formed.
#[verifier::spinoff_prover]
pub proof fn lemma_remove_wf(es: Seq<(Seq<char>, VdfNode)>, key: Seq<char>)
    requires
        node_wf(VdfNode::Tree(es)),
    ensures
        node_wf(VdfNode::Tree(removed(es, key))),
{
    let r = removed(es, key);
    lemma_tree_wf(es);
    lemma_tree_wf(r);
    match key_position(es, key) {
        Some(i) => {
            assert(is_first_match(es, key, choose|p: int| is_first_match(es, key, p)));
            assert forall|a: int, b: int|
                0 <= a < r.len() && 0 <= b < r.len() && a != b implies !key_matches(#[trigger] r[a].0, #[trigger] r[b].0) by {
                let a2 = if a < i { a } else { a + 1 };
                let b2 = if b < i { b } else { b + 1 };
                assert(r[a] == es[a2]);
                assert(r[b] == es[b2]);
            }
            assert forall|a: int| 0 <= a < r.len() implies #[trigger] node_wf(r[a].1) by {
                let a2 = if a < i { a } else { a + 1 };
                assert(r[a] == es[a2]);
                assert(node_wf(es[a2].1));
            }
        },
        None => {},
    }
}

/// Objects read by the parser are well formed.
pub proof fn lemma_parse_wf(t: Seq<Tok>, c: int, acc: Seq<(Seq<char>, VdfNode)>, fuel: nat)
    requires
        node_wf(VdfNode::Tree(acc)),
    ensures
        parse_seq(t, c, acc, fuel) matches Ok((es, _)) ==> node_wf(VdfNode::Tree(es)),
    decreases fuel,
{
    if fuel > 0 && 0 <= c < t.len() {
        match t[c] {
            Tok::Text(key) => if c + 1 < t.len() {
                match t[c + 1] {
                    Tok::Open => {
                        assert(node_wf(VdfNode::Tree(Seq::<(Seq<char>, VdfNode)>::empty())));
                        lemma_parse_wf(t, c + 2, seq![], (fuel - 1) as nat);
                        match parse_seq(t, c + 2, seq![], (fuel - 1) as nat) {
                            Ok((child, c2)) => {
                                lemma_insert_wf(acc, key, VdfNode::Tree(child));
                                lemma_parse_wf(t, c2, inserted(acc, key, VdfNode::Tree(child)), (fuel - 1) as nat);
                            },
                            Err(_) => {},
                        }
                    },
                    Tok::Text(value) => {
                        lemma_insert_wf(acc, key, VdfNode::Text(value));
                        lemma_parse_wf(t, c + 2, inserted(acc, key, VdfNode::Text(value)), (fuel - 1) as nat);
                    },
                    Tok::Close => {},
                }
            },
            _ => {},
        }
    }
}

proof fn lemma_parse_entries(t: Seq<Tok>, c: int, acc: Seq<(Seq<char>, VdfNode)>, es: Seq<(Seq<char>, VdfNode)>)
    requires
        0 <= c,
        c + entries_tokens(es).len() <= t.len(),
        t.subrange(c, c + entries_tokens(es).len()) == entries_tokens(es),
        keys_distinct(acc + es),
        node_wf(VdfNode::Tree(es)),
    ensures
        parse_canon(t, c, acc) == parse_canon(t, c + entries_tokens(es).len(), acc + es),
    decreases es,
{
    if es.len() == 0 {
        assert(acc + es =~= acc);
    } else {
        let e = es[0];
        let rest = es.drop_first();
        let et = entry_tokens(e);
        let all = entries_tokens(es);
        assert(all == et + entries_tokens(rest));
        let key = e.0;
        let n = acc.len() as int;
        assert forall|j: int| 0 <= j < acc.len() implies !key_matches(#[trigger] acc[j].0, key) by {
            assert((acc + es)[j] == acc[j]);
            assert((acc + es)[n] == e);
        }
        lemma_insert_new(acc, key, e.1);
        assert(acc.push(e) + rest =~= acc + es);
        lemma_tree_wf(es);
        lemma_tree_wf(rest);
        assert(node_wf(e.1));
        assert(node_wf(VdfNode::Tree(rest))) by {
            assert forall|a: int| 0 <= a < rest.len() implies #[trigger] node_wf(rest[a].1) by {
                assert(rest[a] == es[a + 1]);
            }
            assert forall|a: int, b: int|
                0 <= a < rest.len() && 0 <= b < rest.len() && a != b implies !key_matches(#[trigger] rest[a].0, #[trigger] rest[b].0) by {
                assert(rest[a] == es[a + 1]);
                assert(rest[b] == es[b + 1]);
            }
        }
        assert(t[c] == Tok::Text(key)) by {
            assert(t.subrange(c, c + all.len())[0] == t[c]);
        }
        let len = t.len() as int;
        match e.1 {
            VdfNode::Text(value) => {
                assert(t[c + 1] == Tok::Text(value)) by {
                    assert(t.subrange(c, c + all.len())[1] == t[c + 1]);
                }
                assert(t.subrange(c + 2, c + all.len()) =~= entries_tokens(rest)) by {
                    assert forall|k: int| 0 <= k < all.len() - 2 implies t.subrange(c + 2, c + all.len())[k] == entries_tokens(rest)[k] by {
                        assert(t.subrange(c, c + all.len())[k + 2] == t[c + 2 + k]);
                    }
                }
                lemma_parse_fuel(t, c + 2, acc.push(e), (len - c) as nat, (len - c - 1) as nat);
                lemma_parse_entries(t, c + 2, acc.push(e), rest);
            },
            VdfNode::Tree(child) => {
                let ct = entries_tokens(child);
                let q = c + 2 + ct.len();
                assert(et == seq![Tok::Text(key), Tok::Open] + ct + seq![Tok::Close]);
                assert(t[c + 1] == Tok::Open) by {
                    assert(t.subrange(c, c + all.len())[1] == t[c + 1]);
                }
                assert(t.subrange(c + 2, q) =~= ct) by {
                    assert forall|k: int| 0 <= k < ct.len() implies t.subrange(c + 2, q)[k] == ct[k] by {
                        assert(t.subrange(c, c + all.len())[k + 2] == t[c + 2 + k]);
                        assert(all[k + 2] == ct[k]);
                    }
                }
                assert(t[q] == Tok::Close) by {
                    assert(t.subrange(c, c + all.len())[q - c] == t[q]);
                    assert(all[q - c] == Tok::Close);
                }
                assert(t.subrange(q + 1, c + all.len()) =~= entries_tokens(rest)) by {
                    assert forall|k: int| 0 <= k < all.len() - (q + 1 - c) implies t.subrange(q + 1, c + all.len())[k] == entries_tokens(rest)[k] by {
                        assert(t.subrange(c, c + all.len())[q + 1 - c + k] == t[q + 1 + k]);
                        assert(all[q + 1 - c + k] == entries_tokens(rest)[k]);
                    }
                }
                assert(keys_distinct(Seq::<(Seq<char>, VdfNode)>::empty() + child)) by {
                    assert(Seq::<(Seq<char>, VdfNode)>::empty() + child =~= child);
                }
                lemma_parse_entries(t, c + 2, seq![], child);
                assert(Seq::<(Seq<char>, VdfNode)>::empty() + child =~= child);
                lemma_parse_fuel(t, c + 2, seq![], (len - c) as nat, (len - c - 1) as nat);
                assert(parse_canon(t, q, child) == Ok::<(Seq<(Seq<char>, VdfNode)>, int), (int, ParseFault)>((child, q + 1)));
                lemma_parse_fuel(t, q + 1, acc.push(e), (len - c) as nat, (len - q) as nat);
                lemma_parse_entries(t, q + 1, acc.push(e), rest);
            },
        }
    }
}

/// Law: what `dump` writes, `parse` reads back unchanged, for every
/// well-formed object (one whose keys never repeat, ignoring ASCII case).
pub proof fn law_dump_parse_round_trip(es: Seq<(Seq<char>, VdfNode)>)
    requires
        node_wf(VdfNode::Tree(es)),
    ensures
        parse_outcome(entries_text(es, 0)) == Ok::<Seq<(Seq<char>, VdfNode)>, (int, Seq<char>)>(es),
{
    let s = entries_text(es, 0);
    assert(s.subrange(0, s.len() as int) =~= s);
    lemma_entries_tokens(s, 0, es, 0);
    let toks = entries_tokens(es);
    assert(tokens_from(s, s.len() as int) == Some(Seq::<Tok>::empty()));
    assert(toks + Seq::<Tok>::empty() =~= toks);
    assert(toks.subrange(0, toks.len() as int) =~= toks);
    assert(Seq::<(Seq<char>, VdfNode)>::empty() + es =~= es);
    lemma_parse_entries(toks, 0, seq![], es);
}

/// Law: after `insert(key, value)`, looking `key` up gives `value`.
pub proof fn law_insert_then_lookup(es: Seq<(Seq<char>, VdfNode)>, key: Seq<char>, value: VdfNode)
    ensures
        lookup(inserted(es, key, value), key) == Some(value),
{
    let r = inserted(es, key, value);
    match key_position(es, key) {
        Some(i) => {
            assert(is_first_match(es, key, choose|p: int| is_first_match(es, key, p)));
            assert(is_first_match(r, key, i));
            lemma_first_match_unique(r, key, i);
        },
        None => {
            lemma_no_match(es, key);
            lemma_match_reflexive(key);
            assert(is_first_match(r, key, es.len() as int));
            lemma_first_match_unique(r, key, es.len() as int);
        },
    }
}

/// Law: an insert keeps the keys of an object distinct, whatever the value.
pub proof fn law_insert_keeps_keys_distinct(es: Seq<(Seq<char>, VdfNode)>, key: Seq<char>, value: VdfNode)
    ensures
        keys_distinct(es) ==> keys_distinct(inserted(es, key, value)),
{
    if keys_distinct(es) {
        let r = inserted(es, key, value);
        match key_position(es, key) {
            Some(i) => {
                assert forall|a: int, b: int|
                    0 <= a < r.len() && 0 <= b < r.len() && a != b implies !key_matches(#[trigger] r[a].0, #[trigger] r[b].0) by {
                    assert(r[a].0 == es[a].0);
                    assert(r[b].0 == es[b].0);
                }
            },
            None => {
                lemma_no_match(es, key);
                assert forall|a: int, b: int|
                    0 <= a < r.len() && 0 <= b < r.len() && a != b implies !key_matches(#[trigger] r[a].0, #[trigger] r[b].0) by {
                    if a < es.len() && b < es.len() {
                        assert(r[a] == es[a] && r[b] == es[b]);
                    } else if a < es.len() {
                        assert(r[a] == es[a] && r[b].0 == key);
                        assert(!key_matches(es[a].0, key));
                    } else {
                        assert(r[b] == es[b] && r[a].0 == key);
                        assert(!key_matches(es[b].0, key));
                    }
                }
            },
        }
    }
}

/// Law: an insert keeps the spelling and the order of the keys already there,
/// and a new key goes last.
pub proof fn law_insert_keeps_keys(es: Seq<(Seq<char>, VdfNode)>, key: Seq<char>, value: VdfNode)
    ensures
        key_position(es, key) is Some ==> inserted(es, key, value).map_values(|e: (Seq<char>, VdfNode)| e.0)
            == es.map_values(|e: (Seq<char>, VdfNode)| e.0),
        key_position(es, key) is None ==> inserted(es, key, value).map_values(|e: (Seq<char>, VdfNode)| e.0)
            == es.map_values(|e: (Seq<char>, VdfNode)| e.0).push(key),
{
    let r = inserted(es, key, value);
    match key_position(es, key) {
        Some(i) => {
            assert(is_first_match(es, key, choose|p: int| is_first_match(es, key, p)));
            assert(r.map_values(|e: (Seq<char>, VdfNode)| e.0) =~= es.map_values(|e: (Seq<char>, VdfNode)| e.0));
        },
        None => {
            assert(r.map_values(|e: (Seq<char>, VdfNode)| e.0) =~= es.map_values(|e: (Seq<char>, VdfNode)| e.0).push(key));
        },
    }
}

/// Law: in a well-formed object, once `key` is removed nothing is stored
/// under it any more.
pub proof fn law_remove_then_lookup(es: Seq<(Seq<char>, VdfNode)>, key: Seq<char>)
    requires
        node_wf(VdfNode::Tree(es)),
    ensures
        lookup(removed(es, key), key) is None,
{
    lemma_tree_wf(es);
    let r = removed(es, key);
    match key_position(es, key) {
        Some(i) => {
            assert(is_first_match(es, key, choose|p: int| is_first_match(es, key, p)));
            assert forall|j: int| 0 <= j < r.len() implies !key_matches(#[trigger] r[j].0, key) by {
                let j2 = if j < i { j } else { j + 1 };
                assert(r[j] == es[j2]);
                assert(!key_matches(es[j2].0, es[i].0));
            }
            lemma_no_match_no_position(r, key);
        },
        None => {},
    }
}

/// Law: lookups ignore ASCII case: two keys that differ only in the case of
/// their letters find the same value.
pub proof fn law_lookup_ignores_case(es: Seq<(Seq<char>, VdfNode)>, a: Seq<char>, b: Seq<char>)
    requires
        key_matches(a, b),
    ensures
        lookup(es, a) == lookup(es, b),
        key_position(es, a) == key_position(es, b),
{
    assert forall|i: int| is_first_match(es, a, i) == is_first_match(es, b, i) by {
    }
}

/// Replacing the value of an entry by a well-formed one keeps an object well
/// formed.
pub proof fn lemma_set_value_wf(es: Seq<(Seq<char>, VdfNode)>, i: int, value: VdfNode)
    requires
        node_wf(VdfNode::Tree(es)),
        node_wf(value),
        0 <= i < es.len(),
    ensures
        node_wf(VdfNode::Tree(es.update(i, (es[i].0, value)))),
{
    let r = es.update(i, (es[i].0, value));
    lemma_tree_wf(es);
    lemma_tree_wf(r);
    assert forall|a: int| 0 <= a < r.len() implies #[trigger] node_wf(r[a].1) by {
        if a != i {
            assert(node_wf(es[a].1));
        }
    }
}

/// Making sure a key holds an object keeps an object well formed, and the
/// object it holds is well formed.
pub proof fn lemma_ensured_wf(es: Seq<(Seq<char>, VdfNode)>, key: Seq<char>)
    requires
        node_wf(VdfNode::Tree(es)),
    ensures
        node_wf(VdfNode::Tree(ensured(es, key))),
        node_wf(VdfNode::Tree(step(es, key))),
        node_wf(VdfNode::Tree(tree_entries(ensured(es, key)[ensured_index(es, key)].1))),
{
    lemma_tree_wf(Seq::<(Seq<char>, VdfNode)>::empty());
    lemma_ensured(es, key);
    match key_position(es, key) {
        None => {
            lemma_no_match(es, key);
            lemma_insert_new(es, key, VdfNode::Tree(seq![]));
            lemma_insert_wf(es, key, VdfNode::Tree(seq![]));
        },
        Some(i) => {
            assert(is_first_match(es, key, choose|p: int| is_first_match(es, key, p)));
            if !is_tree(es[i].1) {
                lemma_set_value_wf(es, i, VdfNode::Tree(seq![]));
            }
        },
    }
    let e = ensured(es, key);
    lemma_tree_wf(e);
    assert(node_wf(e[ensured_index(es, key)].1));
}

/// What `path_mut` leaves is well formed when the reached object is.
pub proof fn lemma_rebuild_wf(es: Seq<(Seq<char>, VdfNode)>, parts: Seq<Seq<char>>, target: Seq<(Seq<char>, VdfNode)>)
    requires
        node_wf(VdfNode::Tree(es)),
        node_wf(VdfNode::Tree(target)),
    ensures
        node_wf(VdfNode::Tree(rebuild(es, parts, target))),
    decreases parts.len(),
{
    if parts.len() > 0 {
        let key = parts[0];
        let es1 = step(es, key);
        let i = ensured_index(es, key);
        lemma_ensured(es, key);
        lemma_ensured_wf(es, key);
        lemma_rebuild_wf(tree_entries(es1[i].1), parts.drop_first(), target);
        lemma_set_value_wf(es1, i, VdfNode::Tree(rebuild(tree_entries(es1[i].1), parts.drop_first(), target)));
    }
}


/// In an object with distinct keys, looking up the key of an entry finds that
/// entry.
pub proof fn lemma_distinct_key_position(es: Seq<(Seq<char>, VdfNode)>, i: int)
    requires
        keys_distinct(es),
        0 <= i < es.len(),
    ensures
        key_position(es, es[i].0) == Some(i),
{
    lemma_match_reflexive(es[i].0);
    assert forall|j: int| 0 <= j < i implies !key_matches(#[trigger] es[j].0, es[i].0) by {
        assert(!key_matches(es[j].0, es[i].0));
    }
    lemma_first_match_unique(es, es[i].0, i);
}


/// Changing the value of an entry moves no key.
pub proof fn lemma_update_value_keeps_positions(es: Seq<(Seq<char>, VdfNode)>, i: int, value: VdfNode, key: Seq<char>)
    requires
        0 <= i < es.len(),
    ensures
        key_position(es.update(i, (es[i].0, value)), key) == key_position(es, key),
{
    let r = es.update(i, (es[i].0, value));
    assert forall|j: int| is_first_match(r, key, j) == is_first_match(es, key, j) by {
        assert forall|m: int| 0 <= m < es.len() implies r[m].0 == es[m].0 by {}
    }
}

/// Law: following `parts` through what `path_mut` leaves reaches the object
/// it handed out.
pub proof fn law_walk_rebuild(es: Seq<(Seq<char>, VdfNode)>, parts: Seq<Seq<char>>, target: Seq<(Seq<char>, VdfNode)>)
    ensures
        walk(rebuild(es, parts, target), parts) == Some(target),
    decreases parts.len(),
{
    if parts.len() > 0 {
        let key = parts[0];
        let es1 = step(es, key);
        let i = ensured_index(es, key);
        lemma_ensured(es, key);
        assert(key_position(es1, key) == Some(i));
        let child = rebuild(tree_entries(es1[i].1), parts.drop_first(), target);
        lemma_update_value_keeps_positions(es1, i, VdfNode::Tree(child), key);
        law_walk_rebuild(tree_entries(es1[i].1), parts.drop_first(), target);
    }
}

/// Law: inserting under one key leaves what another key finds unchanged.
pub proof fn law_insert_other_lookup(es: Seq<(Seq<char>, VdfNode)>, key: Seq<char>, value: VdfNode, other: Seq<char>)
    requires
        !key_matches(key, other),
    ensures
        lookup(inserted(es, key, value), other) == lookup(es, other),
{
    let r = inserted(es, key, value);
    match key_position(es, key) {
        Some(i) => {
            assert(is_first_match(es, key, choose|p: int| is_first_match(es, key, p)));
            lemma_update_value_keeps_positions(es, i, value, other);
            match key_position(es, other) {
                Some(j) => {
                    assert(is_first_match(es, other, choose|p: int| is_first_match(es, other, p)));
                    assert(j != i);
                },
                None => {},
            }
        },
        None => {
            lemma_no_match(es, key);
            match key_position(es, other) {
                Some(j) => {
                    assert(is_first_match(es, other, choose|p: int| is_first_match(es, other, p)));
                    assert(is_first_match(r, other, j));
                    lemma_first_match_unique(r, other, j);
                },
                None => {
                    lemma_no_match(es, other);
                    assert forall|m: int| 0 <= m < r.len() implies !key_matches(#[trigger] r[m].0, other) by {
                        if m == es.len() {
                            assert(r[m].0 == key);
                        }
                    }
                    lemma_no_match_no_position(r, other);
                },
            }
        },
    }
}

} // verus!
