//! Filtering YAML documents by the dotted paths of their keys.
//!
//! A document is a tree of [`YamlNode`]s. Every entry of a mapping and every element
//! of a sequence has a path: the path of its parent, a `.`, and its own key (for a
//! mapping entry, the key's text; for a sequence element, its index in decimal). At the
//! top level the path is just the key. Filtering keeps an entry or element only when a
//! predicate accepts its path, and then filters what it holds in turn; scalars are kept
//! as they are.

use vstd::prelude::*;
use yaml_rust::Yaml;
use crate::branch_selection::{key_matches, lemma_match_extends_to_subkeys, lemma_split_dots_join, split_dots};
use crate::numerals::{decimal, decimal_string, signed_decimal, signed_decimal_string};
use crate::output::{documents_text, join_documents};

verus! {

/// A YAML value, as a loader produces it.
///
/// `Hash` holds a mapping's entries in their order; keys are distinct (see
/// [`well_formed`]). `Real` holds a floating-point scalar as the text it was written
/// with.
#[derive(Debug, PartialEq)]
pub enum YamlNode {
    Real(String),
    Integer(i64),
    String(String),
    Boolean(bool),
    Array(Vec<YamlNode>),
    Hash(Vec<(YamlNode, YamlNode)>),
    Alias(usize),
    Null,
    BadValue,
}

/// The mathematical model of a [`YamlNode`]: strings as character sequences,
/// sequences and mappings as `Seq`s.
pub enum YamlValue {
    Real(Seq<char>),
    Integer(i64),
    String(Seq<char>),
    Boolean(bool),
    Array(Seq<YamlValue>),
    Hash(Seq<(YamlValue, YamlValue)>),
    Alias(usize),
    Null,
    BadValue,
}

/// The model of a node.
pub open spec fn node_value(n: YamlNode) -> YamlValue
    decreases n,
{
    match n {
        YamlNode::Real(s) => YamlValue::Real(s@),
        YamlNode::Integer(i) => YamlValue::Integer(i),
        YamlNode::String(s) => YamlValue::String(s@),
        YamlNode::Boolean(b) => YamlValue::Boolean(b),
        YamlNode::Array(items) => YamlValue::Array(nodes_value(items@)),
        YamlNode::Hash(entries) => YamlValue::Hash(entries_value(entries@)),
        YamlNode::Alias(a) => YamlValue::Alias(a),
        YamlNode::Null => YamlValue::Null,
        YamlNode::BadValue => YamlValue::BadValue,
    }
}

/// The models of a sequence of nodes, element by element.
pub open spec fn nodes_value(s: Seq<YamlNode>) -> Seq<YamlValue>
    decreases s,
{
    if s.len() == 0 {
        Seq::empty()
    } else {
        nodes_value(s.drop_last()).push(node_value(s.last()))
    }
}

/// The models of a sequence of mapping entries, entry by entry.
pub open spec fn entries_value(s: Seq<(YamlNode, YamlNode)>) -> Seq<(YamlValue, YamlValue)>
    decreases s,
{
    if s.len() == 0 {
        Seq::empty()
    } else {
        entries_value(s.drop_last()).push((node_value(s.last().0), node_value(s.last().1)))
    }
}

impl View for YamlNode {
    type V = YamlValue;

    open spec fn view(&self) -> YamlValue {
        node_value(*self)
    }
}

/// The text that stands for a mapping key in a path: a string as it is, a float as it
/// was written, an integer in decimal, a boolean as `true` or `false`; any other key
/// stands as the empty text.
pub open spec fn key_text(key: YamlValue) -> Seq<char> {
    match key {
        YamlValue::String(s) => s,
        YamlValue::Boolean(b) => if b {
            seq!['t', 'r', 'u', 'e']
        } else {
            seq!['f', 'a', 'l', 's', 'e']
        },
        YamlValue::Real(s) => s,
        YamlValue::Integer(n) => signed_decimal(n as int),
        _ => Seq::empty(),
    }
}

/// The path of a child `key` under `path`: the key alone at the top level (empty
/// `path`), otherwise `path`, a `.`, and the key.
pub open spec fn join_path(path: Seq<char>, key: Seq<char>) -> Seq<char> {
    if path.len() == 0 {
        key
    } else {
        path + seq!['.'] + key
    }
}

/// `v`, found at `path`, filtered by `keep`: in a sequence, the element at index `i`
/// stays when `keep` accepts the path `path.i`, and is then filtered at that path; in a
/// mapping, the entry with key `k` stays when `keep` accepts `path.k`, with its key as
/// it was and its value filtered at that path; order is kept; scalars stay as they are.
pub open spec fn filter_value(v: YamlValue, path: Seq<char>, keep: spec_fn(Seq<char>) -> bool) -> YamlValue
    decreases v,
{
    match v {
        YamlValue::Array(items) => YamlValue::Array(filter_items(items, path, keep)),
        YamlValue::Hash(entries) => YamlValue::Hash(filter_entries(entries, path, keep)),
        _ => v,
    }
}

/// The elements of a sequence at `path` that `keep` selects, each filtered.
pub open spec fn filter_items(
    items: Seq<YamlValue>,
    path: Seq<char>,
    keep: spec_fn(Seq<char>) -> bool,
) -> Seq<YamlValue>
    decreases items,
{
    if items.len() == 0 {
        Seq::empty()
    } else {
        let kept = filter_items(items.drop_last(), path, keep);
        let p = join_path(path, decimal((items.len() - 1) as nat));
        if keep(p) {
            kept.push(filter_value(items.last(), p, keep))
        } else {
            kept
        }
    }
}

/// The entries of a mapping at `path` that `keep` selects, their values filtered.
pub open spec fn filter_entries(
    entries: Seq<(YamlValue, YamlValue)>,
    path: Seq<char>,
    keep: spec_fn(Seq<char>) -> bool,
) -> Seq<(YamlValue, YamlValue)>
    decreases entries,
{
    if entries.len() == 0 {
        Seq::empty()
    } else {
        let kept = filter_entries(entries.drop_last(), path, keep);
        let k = entries.last().0;
        let p = join_path(path, key_text(k));
        if keep(p) {
            kept.push((k, filter_value(entries.last().1, p, keep)))
        } else {
            kept
        }
    }
}

/// The keys of the entries, in order.
pub open spec fn entry_keys(entries: Seq<(YamlValue, YamlValue)>) -> Seq<YamlValue> {
    entries.map_values(|e: (YamlValue, YamlValue)| e.0)
}

/// A value is well formed when no mapping in it, at any depth and in keys too, has
/// two entries with equal keys.
pub open spec fn well_formed(v: YamlValue) -> bool
    decreases v,
{
    match v {
        YamlValue::Array(items) => forall|i: int|
            0 <= i < items.len() ==> well_formed(#[trigger] items[i]),
        YamlValue::Hash(entries) => {
            &&& entry_keys(entries).no_duplicates()
            &&& forall|i: int|
                0 <= i < entries.len() ==> well_formed(#[trigger] entries[i].0) && well_formed(
                    entries[i].1,
                )
        },
        _ => true,
    }
}

/// The model of a sequence of nodes has one element per node, the node's model.
pub proof fn lemma_nodes_value(s: Seq<YamlNode>)
    ensures
        nodes_value(s).len() == s.len(),
        forall|i: int| 0 <= i < s.len() ==> #[trigger] nodes_value(s)[i] == node_value(s[i]),
    decreases s.len(),
{
    if s.len() > 0 {
        lemma_nodes_value(s.drop_last());
    }
}

/// The model of a sequence of entries has one entry per entry, of the entry's models.
pub proof fn lemma_entries_value(s: Seq<(YamlNode, YamlNode)>)
    ensures
        entries_value(s).len() == s.len(),
        forall|i: int|
            0 <= i < s.len() ==> #[trigger] entries_value(s)[i] == (
                node_value(s[i].0),
                node_value(s[i].1),
            ),
    decreases s.len(),
{
    if s.len() > 0 {
        lemma_entries_value(s.drop_last());
    }
}

proof fn lemma_nodes_value_push(s: Seq<YamlNode>, x: YamlNode)
    ensures
        nodes_value(s.push(x)) == nodes_value(s).push(node_value(x)),
{
    assert(s.push(x).drop_last() =~= s);
}

proof fn lemma_entries_value_push(s: Seq<(YamlNode, YamlNode)>, x: (YamlNode, YamlNode))
    ensures
        entries_value(s.push(x)) == entries_value(s).push((node_value(x.0), node_value(x.1))),
{
    assert(s.push(x).drop_last() =~= s);
}

impl YamlNode {
    /// A copy of this node, equal to it in every part.
    pub fn deep_copy(&self) -> (copy: YamlNode)
        ensures
            copy@ == self@,
        decreases self,
    {
        match self {
            YamlNode::Real(s) => YamlNode::Real(s.clone()),
            YamlNode::Integer(i) => YamlNode::Integer(*i),
            YamlNode::String(s) => YamlNode::String(s.clone()),
            YamlNode::Boolean(b) => YamlNode::Boolean(*b),
            YamlNode::Array(items) => {
                let mut out: Vec<YamlNode> = Vec::new();
                for i in 0..items.len()
                    invariant
                        *self == YamlNode::Array(*items),
                        nodes_value(out@) == nodes_value(items@.take(i as int)),
                {
                    proof {
                        assert(decreases_to!(*self => (*self)->Array_0));
                        assert(decreases_to!(*items => items@));
                        assert(decreases_to!(items@ => items@[i as int]));
                        assert(decreases_to!(*self => items@[i as int]));
                    }
                    let c = items[i].deep_copy();
                    proof {
                        lemma_nodes_value_push(out@, c);
                        lemma_nodes_value_push(items@.take(i as int), items@[i as int]);
                        assert(items@.take(i as int).push(items@[i as int]) =~= items@.take(
                            i + 1,
                        ));
                    }
                    out.push(c);
                }
                assert(items@.take(items.len() as int) =~= items@);
                YamlNode::Array(out)
            },
            YamlNode::Hash(entries) => {
                let mut out: Vec<(YamlNode, YamlNode)> = Vec::new();
                for i in 0..entries.len()
                    invariant
                        *self == YamlNode::Hash(*entries),
                        entries_value(out@) == entries_value(entries@.take(i as int)),
                {
                    proof {
                        assert(decreases_to!(*self => (*self)->Hash_0));
                        assert(decreases_to!(*entries => entries@));
                        assert(decreases_to!(entries@ => entries@[i as int]));
                        assert(decreases_to!(entries@[i as int] => entries@[i as int].0));
                        assert(decreases_to!(entries@[i as int] => entries@[i as int].1));
                        assert(decreases_to!(*self => entries@[i as int].0));
                        assert(decreases_to!(*self => entries@[i as int].1));
                    }
                    let k = entries[i].0.deep_copy();
                    let v = entries[i].1.deep_copy();
                    proof {
                        lemma_entries_value_push(out@, (k, v));
                        lemma_entries_value_push(entries@.take(i as int), entries@[i as int]);
                        assert(entries@.take(i as int).push(entries@[i as int]) =~= entries@.take(
                            i + 1,
                        ));
                    }
                    out.push((k, v));
                }
                assert(entries@.take(entries.len() as int) =~= entries@);
                YamlNode::Hash(out)
            },
            YamlNode::Alias(a) => YamlNode::Alias(*a),
            YamlNode::Null => YamlNode::Null,
            YamlNode::BadValue => YamlNode::BadValue,
        }
    }
}

#[verifier::external_type_specification]
#[verifier::external_body]
pub struct ExYaml(Yaml);

/// One value of yaml-rust's tree as a [`YamlNode`], variant by variant, field by field.
/// It serves the bodies of [`load_documents`] and nothing else; no clause is stated of
/// it, since a `yaml_rust::Yaml` is opaque here.
#[verifier::external_body]
fn node_from_yaml(y: &Yaml) -> YamlNode {
    match y {
        Yaml::Real(s) => YamlNode::Real(s.clone()),
        Yaml::Integer(i) => YamlNode::Integer(*i),
        Yaml::String(s) => YamlNode::String(s.clone()),
        Yaml::Boolean(b) => YamlNode::Boolean(*b),
        Yaml::Array(a) => YamlNode::Array(a.iter().map(node_from_yaml).collect()),
        Yaml::Hash(h) => YamlNode::Hash(
            h.iter().map(|(k, v)| (node_from_yaml(k), node_from_yaml(v))).collect(),
        ),
        Yaml::Alias(a) => YamlNode::Alias(*a),
        Yaml::Null => YamlNode::Null,
        Yaml::BadValue => YamlNode::BadValue,
    }
}

/// A [`YamlNode`] as a value of yaml-rust's tree, variant by variant, field by field.
/// It serves the body of [`emit_document`] and nothing else; no clause is stated of it,
/// since a `yaml_rust::Yaml` is opaque here.
#[verifier::external_body]
fn yaml_from_node(n: &YamlNode) -> Yaml {
    match n {
        YamlNode::Real(s) => Yaml::Real(s.clone()),
        YamlNode::Integer(i) => Yaml::Integer(*i),
        YamlNode::String(s) => Yaml::String(s.clone()),
        YamlNode::Boolean(b) => Yaml::Boolean(*b),
        YamlNode::Array(a) => Yaml::Array(a.iter().map(yaml_from_node).collect()),
        YamlNode::Hash(es) => Yaml::Hash(
            es.iter().map(|(k, v)| (yaml_from_node(k), yaml_from_node(v))).collect(),
        ),
        YamlNode::Alias(a) => Yaml::Alias(*a),
        YamlNode::Null => Yaml::Null,
        YamlNode::BadValue => Yaml::BadValue,
    }
}

/// The documents that yaml-rust's loader reads from `text`, or `None` where it reports
/// a scan error.
pub uninterp spec fn loaded_documents(text: Seq<char>) -> Option<Seq<YamlValue>>;

/// The text that yaml-rust's emitter writes for one document: its `---` line and the
/// document, with no final newline. A mapping with equal keys is written as the
/// emitter's own map holds it, with the equal keys merged into one entry.
pub uninterp spec fn emitted_document(doc: YamlValue) -> Seq<char>;

/// Loads every YAML document of `text`.
///
/// Calls `yaml_rust::YamlLoader::load_from_str`, which parses the text alone; on
/// success each mapping it builds is a `LinkedHashMap` filled by `insert`, so no
/// mapping holds two equal keys. What the documents are is named, not written out.
#[verifier::external_body]
pub fn load_documents(text: &str) -> (docs: Option<Vec<YamlNode>>)
    ensures
        docs is Some <==> loaded_documents(text@) is Some,
        docs matches Some(d) ==> nodes_value(d@) == loaded_documents(text@)->0,
        docs matches Some(d) ==> forall|i: int|
            0 <= i < d.len() ==> well_formed(#[trigger] d@[i]@),
{
    yaml_rust::YamlLoader::load_from_str(text).ok().map(|docs| docs.iter().map(node_from_yaml).collect())
}

/// The text of one document as yaml-rust's emitter writes it.
///
/// Calls `yaml_rust::YamlEmitter::dump` on the document, written into a new string.
/// The emitter fails only where its writer fails, and writing to a `String` never
/// does, so the text is always there; it depends on the document alone and is named,
/// not written out.
#[verifier::external_body]
pub fn emit_document(doc: &YamlNode) -> (text: Option<String>)
    ensures
        text is Some,
        text matches Some(t) ==> t@ == emitted_document(doc@),
{
    let mut out = String::new();
    let dumped = yaml_rust::YamlEmitter::new(&mut out).dump(&yaml_from_node(doc));
    dumped.ok().map(|_| out)
}

/// The emitted texts of all documents, in order.
pub open spec fn emitted_documents(docs: Seq<YamlValue>) -> Seq<Seq<char>> {
    docs.map_values(|d: YamlValue| emitted_document(d))
}

/// All documents emitted and joined into one text, each followed by a newline.
pub fn to_yaml(yaml_docs: &Vec<YamlNode>) -> (text: String)
    ensures
        text@ == documents_text(emitted_documents(nodes_value(yaml_docs@))),
{
    let mut dumped: Vec<String> = Vec::new();
    proof {
        lemma_nodes_value(yaml_docs@);
    }
    let ghost docs = nodes_value(yaml_docs@);
    for i in 0..yaml_docs.len()
        invariant
            docs == nodes_value(yaml_docs@),
            docs.len() == yaml_docs.len(),
            forall|j: int| 0 <= j < docs.len() ==> #[trigger] docs[j] == yaml_docs@[j]@,
            emitted_documents(docs.take(i as int)) == dumped@.map_values(|d: String| d@),
    {
        let t = emit_document(&yaml_docs[i]).unwrap();
        let ghost before = dumped@;
        dumped.push(t);
        assert(dumped@.map_values(|d: String| d@) =~= before.map_values(|d: String| d@).push(t@));
        assert(emitted_documents(docs.take(i + 1)) =~= emitted_documents(docs.take(i as int)).push(
            emitted_document(docs[i as int]),
        ));
    }
    assert(docs.take(yaml_docs.len() as int) =~= docs);
    join_documents(&dumped)
}

/// The path of the child `k` under `path` (see [`join_path`]).
pub fn concat_path(path: &str, k: &str) -> (joined: String)
    ensures
        joined@ == join_path(path@, k@),
{
    if path.is_empty() {
        k.to_owned()
    } else {
        let mut joined = path.to_owned();
        joined.append(".");
        joined.append(k);
        proof {
            reveal_strlit(".");
        }
        joined
    }
}

/// The text that stands for `yaml_element` as a mapping key in a path (see
/// [`key_text`]).
pub fn yaml_to_string(yaml_element: &YamlNode) -> (text: String)
    ensures
        text@ == key_text(yaml_element@),
{
    match yaml_element {
        YamlNode::String(s) => s.clone(),
        YamlNode::Boolean(b) => {
            proof {
                reveal_strlit("true");
                reveal_strlit("false");
            }
            if *b {
                "true".to_owned()
            } else {
                "false".to_owned()
            }
        },
        YamlNode::Real(n) => n.clone(),
        YamlNode::Integer(n) => signed_decimal_string(*n),
        _ => {
            proof {
                reveal_strlit("");
            }
            "".to_owned()
        },
    }
}

/// `f`, called on any string, can only answer what `keep` says of the string's text.
pub open spec fn decides_by<F: Fn(&str) -> bool>(f: F, keep: spec_fn(Seq<char>) -> bool) -> bool {
    forall|s: &str, b: bool| #[trigger] f.ensures((s,), b) ==> b == keep(s@)
}

/// `yaml_element` filtered by the paths that `is_key_whitelisted` accepts (see
/// [`filter_value`]), starting at the top level.
///
/// The result is pinned down whenever the predicate answers as a function of the path's
/// text: for every such function `keep`, it is the filtering by `keep`.
pub fn filter_yaml<F: Fn(&str) -> bool>(yaml_element: &YamlNode, is_key_whitelisted: &F) -> (filtered: YamlNode)
    requires
        forall|s: &str| is_key_whitelisted.requires((s,)),
    ensures
        yaml_element@ is Array ==> filtered@ is Array,
        yaml_element@ is Hash ==> filtered@ is Hash,
        !(yaml_element@ is Array) && !(yaml_element@ is Hash) ==> filtered@ == yaml_element@,
        forall|keep: spec_fn(Seq<char>) -> bool|
            #[trigger] decides_by(*is_key_whitelisted, keep) ==> filtered@ == filter_value(
                yaml_element@,
                Seq::empty(),
                keep,
            ),
{
    let top: &str = "";
    proof {
        reveal_strlit("");
        assert(top@ =~= Seq::<char>::empty());
    }
    filter_yaml_on_subpath(yaml_element, top, is_key_whitelisted)
}

/// One step that filtering takes, in the order it takes them: it asks the predicate
/// about a path (and gets an answer), or it enters a sequence (the sequence as met,
/// before its elements are filtered).
#[derive(Debug, PartialEq)]
pub enum FilterEvent {
    Asked(String, bool),
    Entered(Vec<YamlNode>),
}

/// The model of a [`FilterEvent`].
pub enum FilterStep {
    Asked(Seq<char>, bool),
    Entered(Seq<YamlValue>),
}

/// The model of one event.
pub open spec fn event_step(e: FilterEvent) -> FilterStep {
    match e {
        FilterEvent::Asked(path, answer) => FilterStep::Asked(path@, answer),
        FilterEvent::Entered(items) => FilterStep::Entered(nodes_value(items@)),
    }
}

/// The models of a sequence of events.
pub open spec fn events_steps(events: Seq<FilterEvent>) -> Seq<FilterStep> {
    events.map_values(|e: FilterEvent| event_step(e))
}

/// The steps of filtering `v` at `path` by `keep`: a sequence is entered, and then
/// each of its elements in turn has its path asked about and, when kept, is filtered;
/// each entry of a mapping, in turn, has its path asked about and, when kept, its value
/// is filtered; a scalar takes no step.
pub open spec fn filter_steps(v: YamlValue, path: Seq<char>, keep: spec_fn(Seq<char>) -> bool) -> Seq<FilterStep>
    decreases v,
{
    match v {
        YamlValue::Array(items) => seq![FilterStep::Entered(items)] + filter_items_steps(
            items,
            path,
            keep,
        ),
        YamlValue::Hash(entries) => filter_entries_steps(entries, path, keep),
        _ => Seq::empty(),
    }
}

/// The steps of filtering the elements of a sequence at `path`.
pub open spec fn filter_items_steps(
    items: Seq<YamlValue>,
    path: Seq<char>,
    keep: spec_fn(Seq<char>) -> bool,
) -> Seq<FilterStep>
    decreases items,
{
    if items.len() == 0 {
        Seq::empty()
    } else {
        let p = join_path(path, decimal((items.len() - 1) as nat));
        filter_items_steps(items.drop_last(), path, keep) + seq![FilterStep::Asked(p, keep(p))]
            + if keep(p) {
            filter_steps(items.last(), p, keep)
        } else {
            Seq::empty()
        }
    }
}

/// The steps of filtering the entries of a mapping at `path`.
pub open spec fn filter_entries_steps(
    entries: Seq<(YamlValue, YamlValue)>,
    path: Seq<char>,
    keep: spec_fn(Seq<char>) -> bool,
) -> Seq<FilterStep>
    decreases entries,
{
    if entries.len() == 0 {
        Seq::empty()
    } else {
        let p = join_path(path, key_text(entries.last().0));
        filter_entries_steps(entries.drop_last(), path, keep) + seq![
            FilterStep::Asked(p, keep(p)),
        ] + if keep(p) {
            filter_steps(entries.last().1, p, keep)
        } else {
            Seq::empty()
        }
    }
}

/// Filtering a sequence, empty or not, first takes the step of entering it, and then
/// the steps of its elements.
pub proof fn lemma_sequence_entered_first(
    items: Seq<YamlValue>,
    path: Seq<char>,
    keep: spec_fn(Seq<char>) -> bool,
)
    ensures
        filter_steps(YamlValue::Array(items), path, keep).len() == 1 + filter_items_steps(
            items,
            path,
            keep,
        ).len(),
        filter_steps(YamlValue::Array(items), path, keep)[0] == FilterStep::Entered(items),
{
}

/// Filtering a scalar takes no step.
pub proof fn lemma_scalar_takes_no_steps(v: YamlValue, path: Seq<char>, keep: spec_fn(Seq<char>) -> bool)
    requires
        !(v is Array),
        !(v is Hash),
    ensures
        filter_steps(v, path, keep) == Seq::<FilterStep>::empty(),
{
}

/// The elements of a non-empty sequence are taken in order: the first step asks about
/// the path of the element at index 0, with the answer `keep` gives.
pub proof fn lemma_first_element_asked_first(
    items: Seq<YamlValue>,
    path: Seq<char>,
    keep: spec_fn(Seq<char>) -> bool,
)
    requires
        items.len() > 0,
    ensures
        filter_items_steps(items, path, keep).len() > 0,
        filter_items_steps(items, path, keep)[0] == FilterStep::Asked(
            join_path(path, seq!['0']),
            keep(join_path(path, seq!['0'])),
        ),
    decreases items.len(),
{
    assert(decimal(0) =~= seq!['0']) by {
        assert(((48 + 0nat) as u32) as char == '0');
    }
    let n = items.len() - 1;
    let p = join_path(path, decimal(n as nat));
    let rest = filter_items_steps(items.drop_last(), path, keep);
    let tail: Seq<FilterStep> = if keep(p) {
        filter_steps(items.last(), p, keep)
    } else {
        Seq::empty()
    };
    assert(filter_items_steps(items, path, keep) == rest + seq![FilterStep::Asked(p, keep(p))]
        + tail);
    if items.len() > 1 {
        lemma_first_element_asked_first(items.drop_last(), path, keep);
        assert((rest + seq![FilterStep::Asked(p, keep(p))] + tail)[0] == rest[0]);
    } else {
        assert(rest =~= Seq::<FilterStep>::empty());
        assert(p == join_path(path, seq!['0']));
        assert((rest + seq![FilterStep::Asked(p, keep(p))] + tail)[0] == FilterStep::Asked(
            p,
            keep(p),
        ));
    }
}

/// The entries of a non-empty mapping are taken in order: the first step asks about
/// the path of the first entry's key, with the answer `keep` gives.
pub proof fn lemma_first_entry_asked_first(
    entries: Seq<(YamlValue, YamlValue)>,
    path: Seq<char>,
    keep: spec_fn(Seq<char>) -> bool,
)
    requires
        entries.len() > 0,
    ensures
        filter_steps(YamlValue::Hash(entries), path, keep).len() > 0,
        filter_steps(YamlValue::Hash(entries), path, keep)[0] == FilterStep::Asked(
            join_path(path, key_text(entries[0].0)),
            keep(join_path(path, key_text(entries[0].0))),
        ),
    decreases entries.len(),
{
    let p = join_path(path, key_text(entries.last().0));
    let rest = filter_entries_steps(entries.drop_last(), path, keep);
    let tail: Seq<FilterStep> = if keep(p) {
        filter_steps(entries.last().1, p, keep)
    } else {
        Seq::empty()
    };
    assert(filter_steps(YamlValue::Hash(entries), path, keep) == rest + seq![
        FilterStep::Asked(p, keep(p)),
    ] + tail);
    if entries.len() > 1 {
        lemma_first_entry_asked_first(entries.drop_last(), path, keep);
        assert(entries.drop_last()[0] == entries[0]);
        assert(filter_steps(YamlValue::Hash(entries.drop_last()), path, keep) == rest);
        assert((rest + seq![FilterStep::Asked(p, keep(p))] + tail)[0] == rest[0]);
    } else {
        assert(rest =~= Seq::<FilterStep>::empty());
        assert(entries.last() == entries[0]);
        assert((rest + seq![FilterStep::Asked(p, keep(p))] + tail)[0] == FilterStep::Asked(
            p,
            keep(p),
        ));
    }
}

proof fn lemma_events_steps_push(events: Seq<FilterEvent>, e: FilterEvent)
    ensures
        events_steps(events.push(e)) == events_steps(events).push(event_step(e)),
{
    assert(events_steps(events.push(e)) =~= events_steps(events).push(event_step(e)));
}

fn copy_nodes(items: &Vec<YamlNode>) -> (copy: Vec<YamlNode>)
    ensures
        nodes_value(copy@) == nodes_value(items@),
{
    let mut out: Vec<YamlNode> = Vec::new();
    for i in 0..items.len()
        invariant
            nodes_value(out@) == nodes_value(items@.take(i as int)),
    {
        let c = items[i].deep_copy();
        proof {
            lemma_nodes_value_push(out@, c);
            lemma_nodes_value_push(items@.take(i as int), items@[i as int]);
            assert(items@.take(i as int).push(items@[i as int]) =~= items@.take(i + 1));
        }
        out.push(c);
    }
    assert(items@.take(items.len() as int) =~= items@);
    out
}

/// The filtering of `yaml_element` at `path`, with its steps added to `events`.
fn filter_node_traced<F: Fn(&str) -> bool>(
    yaml_element: &YamlNode,
    path: &str,
    is_key_whitelisted: &F,
    events: &mut Vec<FilterEvent>,
) -> (filtered: YamlNode)
    requires
        forall|s: &str| is_key_whitelisted.requires((s,)),
    ensures
        yaml_element@ is Array ==> filtered@ is Array,
        yaml_element@ is Hash ==> filtered@ is Hash,
        !(yaml_element@ is Array) && !(yaml_element@ is Hash) ==> filtered@ == yaml_element@,
        forall|keep: spec_fn(Seq<char>) -> bool|
            #[trigger] decides_by(*is_key_whitelisted, keep) ==> {
                &&& filtered@ == filter_value(yaml_element@, path@, keep)
                &&& events_steps(final(events)@) == events_steps(old(events)@) + filter_steps(
                    yaml_element@,
                    path@,
                    keep,
                )
            },
    decreases yaml_element,
{
    match yaml_element {
        YamlNode::Array(arr) => {
            proof {
                assert(decreases_to!(*yaml_element => (*yaml_element)->Array_0));
            }
            filter_array_traced(arr, path, is_key_whitelisted, events)
        },
        YamlNode::Hash(arr) => {
            proof {
                assert(decreases_to!(*yaml_element => (*yaml_element)->Hash_0));
            }
            filter_map_traced(arr, path, is_key_whitelisted, events)
        },
        _ => {
            assert(events_steps(events@) + Seq::<FilterStep>::empty() =~= events_steps(events@));
            yaml_element.deep_copy()
        },
    }
}

/// The filtering of the sequence `yaml_array` at `path`, with its steps added to
/// `events`.
fn filter_array_traced<F: Fn(&str) -> bool>(
    yaml_array: &Vec<YamlNode>,
    path: &str,
    is_key_whitelisted: &F,
    events: &mut Vec<FilterEvent>,
) -> (filtered: YamlNode)
    requires
        forall|s: &str| is_key_whitelisted.requires((s,)),
    ensures
        filtered@ is Array,
        filtered@->Array_0.len() <= yaml_array.len(),
        forall|keep: spec_fn(Seq<char>) -> bool|
            #[trigger] decides_by(*is_key_whitelisted, keep) ==> {
                &&& filtered@ == YamlValue::Array(
                    filter_items(nodes_value(yaml_array@), path@, keep),
                )
                &&& events_steps(final(events)@) == events_steps(old(events)@) + seq![
                    FilterStep::Entered(nodes_value(yaml_array@)),
                ] + filter_items_steps(nodes_value(yaml_array@), path@, keep)
            },
    decreases yaml_array,
{
    let ghost start = events_steps(events@);
    let ghost items = nodes_value(yaml_array@);
    let met = copy_nodes(yaml_array);
    proof {
        lemma_events_steps_push(events@, FilterEvent::Entered(met));
    }
    events.push(FilterEvent::Entered(met));
    let mut vec2: Vec<YamlNode> = Vec::new();
    let n = yaml_array.len();
    proof {
        lemma_nodes_value(yaml_array@);
        assert(items.take(0) =~= Seq::<YamlValue>::empty());
        assert(events_steps(events@) =~= start + seq![FilterStep::Entered(items)]
            + filter_items_steps(items.take(0), path@, |p: Seq<char>| true));
    }
    for i in 0..n
        invariant
            n == yaml_array.len(),
            items == nodes_value(yaml_array@),
            vec2.len() <= i,
            items.len() == n,
            forall|j: int| 0 <= j < n ==> #[trigger] items[j] == node_value(yaml_array@[j]),
            forall|s: &str| is_key_whitelisted.requires((s,)),
            forall|keep: spec_fn(Seq<char>) -> bool|
                #[trigger] decides_by(*is_key_whitelisted, keep) ==> {
                    &&& nodes_value(vec2@) == filter_items(items.take(i as int), path@, keep)
                    &&& events_steps(events@) == start + seq![FilterStep::Entered(items)]
                        + filter_items_steps(items.take(i as int), path@, keep)
                },
    {
        let index = decimal_string(i as u64);
        let p = concat_path(path, index.as_str());
        let ghost before = vec2@;
        let ghost events_before = events_steps(events@);
        let ghost prefix = items.take(i + 1);
        proof {
            assert(prefix.drop_last() =~= items.take(i as int));
            assert(prefix.last() == items[i as int]);
        }
        let ps: &str = p.as_str();
        let answer = is_key_whitelisted(ps);
        let asked = FilterEvent::Asked(p.clone(), answer);
        proof {
            lemma_events_steps_push(events@, asked);
        }
        events.push(asked);
        let ghost events_asked = events_steps(events@);
        if answer {
            proof {
                assert(decreases_to!(*yaml_array => yaml_array@));
                assert(decreases_to!(yaml_array@ => yaml_array@[i as int]));
            }
            let y = filter_node_traced(&yaml_array[i], ps, is_key_whitelisted, events);
            proof {
                lemma_nodes_value_push(before, y);
            }
            vec2.push(y);
            assert forall|keep: spec_fn(Seq<char>) -> bool|
                #[trigger] decides_by(*is_key_whitelisted, keep) implies {
                    &&& nodes_value(vec2@) == filter_items(prefix, path@, keep)
                    &&& events_steps(events@) == start + seq![FilterStep::Entered(items)]
                        + filter_items_steps(prefix, path@, keep)
                } by {
                assert(is_key_whitelisted.ensures((ps,), true));
                assert(events_steps(events@) =~= start + seq![FilterStep::Entered(items)]
                    + filter_items_steps(prefix, path@, keep));
            }
        } else {
            assert forall|keep: spec_fn(Seq<char>) -> bool|
                #[trigger] decides_by(*is_key_whitelisted, keep) implies {
                    &&& nodes_value(vec2@) == filter_items(prefix, path@, keep)
                    &&& events_steps(events@) == start + seq![FilterStep::Entered(items)]
                        + filter_items_steps(prefix, path@, keep)
                } by {
                assert(is_key_whitelisted.ensures((ps,), false));
                assert(events_steps(events@) =~= start + seq![FilterStep::Entered(items)]
                    + filter_items_steps(prefix, path@, keep));
            }
        }
    }
    assert(items.take(n as int) =~= items);
    proof {
        lemma_nodes_value(vec2@);
    }
    YamlNode::Array(vec2)
}

/// The filtering of the mapping `yaml_map` at `path`, with its steps added to `events`.
fn filter_map_traced<F: Fn(&str) -> bool>(
    yaml_map: &Vec<(YamlNode, YamlNode)>,
    path: &str,
    is_key_whitelisted: &F,
    events: &mut Vec<FilterEvent>,
) -> (filtered: YamlNode)
    requires
        forall|s: &str| is_key_whitelisted.requires((s,)),
    ensures
        filtered@ is Hash,
        filtered@->Hash_0.len() <= yaml_map.len(),
        forall|keep: spec_fn(Seq<char>) -> bool|
            #[trigger] decides_by(*is_key_whitelisted, keep) ==> {
                &&& filtered@ == YamlValue::Hash(
                    filter_entries(entries_value(yaml_map@), path@, keep),
                )
                &&& events_steps(final(events)@) == events_steps(old(events)@)
                    + filter_entries_steps(entries_value(yaml_map@), path@, keep)
            },
    decreases yaml_map,
{
    let ghost start = events_steps(events@);
    let ghost entries = entries_value(yaml_map@);
    let mut map2: Vec<(YamlNode, YamlNode)> = Vec::new();
    let n = yaml_map.len();
    proof {
        lemma_entries_value(yaml_map@);
        assert(entries.take(0) =~= Seq::<(YamlValue, YamlValue)>::empty());
        assert(start + Seq::<FilterStep>::empty() =~= start);
    }
    for i in 0..n
        invariant
            n == yaml_map.len(),
            entries == entries_value(yaml_map@),
            map2.len() <= i,
            entries.len() == n,
            forall|j: int|
                0 <= j < n ==> #[trigger] entries[j] == (
                    node_value(yaml_map@[j].0),
                    node_value(yaml_map@[j].1),
                ),
            forall|s: &str| is_key_whitelisted.requires((s,)),
            forall|keep: spec_fn(Seq<char>) -> bool|
                #[trigger] decides_by(*is_key_whitelisted, keep) ==> {
                    &&& entries_value(map2@) == filter_entries(entries.take(i as int), path@, keep)
                    &&& events_steps(events@) == start + filter_entries_steps(
                        entries.take(i as int),
                        path@,
                        keep,
                    )
                },
    {
        let key_text_s = yaml_to_string(&yaml_map[i].0);
        let p = concat_path(path, key_text_s.as_str());
        let ghost before = map2@;
        let ghost prefix = entries.take(i + 1);
        proof {
            assert(prefix.drop_last() =~= entries.take(i as int));
            assert(prefix.last() == entries[i as int]);
        }
        let ps: &str = p.as_str();
        let answer = is_key_whitelisted(ps);
        let asked = FilterEvent::Asked(p.clone(), answer);
        proof {
            lemma_events_steps_push(events@, asked);
        }
        events.push(asked);
        if answer {
            proof {
                assert(decreases_to!(*yaml_map => yaml_map@));
                assert(decreases_to!(yaml_map@ => yaml_map@[i as int]));
                assert(decreases_to!(yaml_map@[i as int] => yaml_map@[i as int].1));
            }
            let k = yaml_map[i].0.deep_copy();
            let v = filter_node_traced(&yaml_map[i].1, ps, is_key_whitelisted, events);
            proof {
                lemma_entries_value_push(before, (k, v));
            }
            map2.push((k, v));
            assert forall|keep: spec_fn(Seq<char>) -> bool|
                #[trigger] decides_by(*is_key_whitelisted, keep) implies {
                    &&& entries_value(map2@) == filter_entries(prefix, path@, keep)
                    &&& events_steps(events@) == start + filter_entries_steps(prefix, path@, keep)
                } by {
                assert(is_key_whitelisted.ensures((ps,), true));
                assert(events_steps(events@) =~= start + filter_entries_steps(prefix, path@, keep));
            }
        } else {
            assert forall|keep: spec_fn(Seq<char>) -> bool|
                #[trigger] decides_by(*is_key_whitelisted, keep) implies {
                    &&& entries_value(map2@) == filter_entries(prefix, path@, keep)
                    &&& events_steps(events@) == start + filter_entries_steps(prefix, path@, keep)
                } by {
                assert(is_key_whitelisted.ensures((ps,), false));
                assert(events_steps(events@) =~= start + filter_entries_steps(prefix, path@, keep));
            }
        }
    }
    assert(entries.take(n as int) =~= entries);
    proof {
        lemma_entries_value(map2@);
    }
    YamlNode::Hash(map2)
}

/// `yaml_element`, found at `path`, filtered by the paths that `is_key_whitelisted`
/// accepts (see [`filter_value`]).
pub fn filter_yaml_on_subpath<F: Fn(&str) -> bool>(
    yaml_element: &YamlNode,
    path: &str,
    is_key_whitelisted: &F,
) -> (filtered: YamlNode)
    requires
        forall|s: &str| is_key_whitelisted.requires((s,)),
    ensures
        yaml_element@ is Array ==> filtered@ is Array,
        yaml_element@ is Hash ==> filtered@ is Hash,
        !(yaml_element@ is Array) && !(yaml_element@ is Hash) ==> filtered@ == yaml_element@,
        forall|keep: spec_fn(Seq<char>) -> bool|
            #[trigger] decides_by(*is_key_whitelisted, keep) ==> filtered@ == filter_value(
                yaml_element@,
                path@,
                keep,
            ),
{
    let mut events: Vec<FilterEvent> = Vec::new();
    filter_node_traced(yaml_element, path, is_key_whitelisted, &mut events)
}

/// The sequence `yaml_array`, found at `path`, filtered: the element at index `i` stays
/// when `is_key_whitelisted` accepts `path.i`, and is filtered at that path.
pub fn filter_array<F: Fn(&str) -> bool>(
    yaml_array: &Vec<YamlNode>,
    path: &str,
    is_key_whitelisted: &F,
) -> (filtered: YamlNode)
    requires
        forall|s: &str| is_key_whitelisted.requires((s,)),
    ensures
        filtered@ is Array,
        filtered@->Array_0.len() <= yaml_array.len(),
        forall|keep: spec_fn(Seq<char>) -> bool|
            #[trigger] decides_by(*is_key_whitelisted, keep) ==> filtered@ == YamlValue::Array(
                filter_items(nodes_value(yaml_array@), path@, keep),
            ),
{
    let mut events: Vec<FilterEvent> = Vec::new();
    filter_array_traced(yaml_array, path, is_key_whitelisted, &mut events)
}

/// The mapping `yaml_map`, found at `path`, filtered: the entry with key `k` stays when
/// `is_key_whitelisted` accepts `path.k` (see [`key_text`]), keeping its key, with its
/// value filtered at that path.
pub fn filter_map<F: Fn(&str) -> bool>(
    yaml_map: &Vec<(YamlNode, YamlNode)>,
    path: &str,
    is_key_whitelisted: &F,
) -> (filtered: YamlNode)
    requires
        forall|s: &str| is_key_whitelisted.requires((s,)),
    ensures
        filtered@ is Hash,
        filtered@->Hash_0.len() <= yaml_map.len(),
        forall|keep: spec_fn(Seq<char>) -> bool|
            #[trigger] decides_by(*is_key_whitelisted, keep) ==> filtered@ == YamlValue::Hash(
                filter_entries(entries_value(yaml_map@), path@, keep),
            ),
{
    let mut events: Vec<FilterEvent> = Vec::new();
    filter_map_traced(yaml_map, path, is_key_whitelisted, &mut events)
}

/// Every document of `yaml_docs` filtered at the top level (see [`filter_yaml`]), in
/// order.
pub fn filter_documents<F: Fn(&str) -> bool>(yaml_docs: &Vec<YamlNode>, is_key_whitelisted: &F) -> (filtered: Vec<YamlNode>)
    requires
        forall|s: &str| is_key_whitelisted.requires((s,)),
    ensures
        filtered.len() == yaml_docs.len(),
        forall|i: int|
            0 <= i < yaml_docs.len() ==> {
                &&& (yaml_docs@[i]@ is Array ==> (#[trigger] filtered@[i])@ is Array)
                &&& (yaml_docs@[i]@ is Hash ==> filtered@[i]@ is Hash)
                &&& (!(yaml_docs@[i]@ is Array) && !(yaml_docs@[i]@ is Hash) ==> filtered@[i]@
                    == yaml_docs@[i]@)
            },
        forall|keep: spec_fn(Seq<char>) -> bool|
            #[trigger] decides_by(*is_key_whitelisted, keep) ==> forall|i: int|
                0 <= i < yaml_docs.len() ==> (#[trigger] filtered@[i])@ == filter_value(
                    yaml_docs@[i]@,
                    Seq::empty(),
                    keep,
                ),
{
    let mut filtered: Vec<YamlNode> = Vec::new();
    for i in 0..yaml_docs.len()
        invariant
            filtered.len() == i,
            forall|s: &str| is_key_whitelisted.requires((s,)),
            forall|j: int|
                0 <= j < i ==> {
                    &&& (yaml_docs@[j]@ is Array ==> (#[trigger] filtered@[j])@ is Array)
                    &&& (yaml_docs@[j]@ is Hash ==> filtered@[j]@ is Hash)
                    &&& (!(yaml_docs@[j]@ is Array) && !(yaml_docs@[j]@ is Hash) ==> filtered@[j]@
                        == yaml_docs@[j]@)
                },
            forall|keep: spec_fn(Seq<char>) -> bool|
                #[trigger] decides_by(*is_key_whitelisted, keep) ==> forall|j: int|
                    0 <= j < i ==> (#[trigger] filtered@[j])@ == filter_value(
                        yaml_docs@[j]@,
                        Seq::empty(),
                        keep,
                    ),
    {
        let doc = filter_yaml(&yaml_docs[i], is_key_whitelisted);
        filtered.push(doc);
    }
    filtered
}

/// Below a non-empty path, a child's path splits into the parent's segments followed by
/// the key's segments.
pub proof fn lemma_child_path_segments(path: Seq<char>, key: Seq<char>)
    requires
        path.len() > 0,
    ensures
        split_dots(join_path(path, key)) == split_dots(path) + split_dots(key),
{
    lemma_split_dots_join(path, key);
}

/// A pattern that matches a non-empty path, and has no more segments than it, matches
/// the path of every child below it.
pub proof fn lemma_pattern_selects_children(path: Seq<char>, key: Seq<char>, pattern: Seq<char>)
    requires
        path.len() > 0,
        key_matches(path, pattern),
        split_dots(pattern).len() <= split_dots(path).len(),
    ensures
        key_matches(join_path(path, key), pattern),
{
    lemma_match_extends_to_subkeys(path, key, pattern);
}

/// `yaml_element` filtered at the top level, as [`filter_yaml`] does, together with the
/// steps taken: every path asked about, with its answer, and every sequence entered,
/// in order.
pub fn filter_yaml_traced<F: Fn(&str) -> bool>(yaml_element: &YamlNode, is_key_whitelisted: &F) -> (result: (YamlNode, Vec<FilterEvent>))
    requires
        forall|s: &str| is_key_whitelisted.requires((s,)),
    ensures
        yaml_element@ is Array ==> result.0@ is Array,
        yaml_element@ is Hash ==> result.0@ is Hash,
        !(yaml_element@ is Array) && !(yaml_element@ is Hash) ==> result.0@ == yaml_element@,
        forall|keep: spec_fn(Seq<char>) -> bool|
            #[trigger] decides_by(*is_key_whitelisted, keep) ==> {
                &&& result.0@ == filter_value(yaml_element@, Seq::empty(), keep)
                &&& events_steps(result.1@) == filter_steps(yaml_element@, Seq::empty(), keep)
            },
{
    let top: &str = "";
    proof {
        reveal_strlit("");
        assert(top@ =~= Seq::<char>::empty());
    }
    let mut events: Vec<FilterEvent> = Vec::new();
    let filtered = filter_node_traced(yaml_element, top, is_key_whitelisted, &mut events);
    assert forall|keep: spec_fn(Seq<char>) -> bool|
        #[trigger] decides_by(*is_key_whitelisted, keep) implies events_steps(events@)
            == filter_steps(yaml_element@, Seq::empty(), keep) by {
        assert(events_steps(Seq::<FilterEvent>::empty()) =~= Seq::<FilterStep>::empty());
        assert(events_steps(events@) =~= filter_steps(yaml_element@, Seq::empty(), keep));
    }
    (filtered, events)
}

/// The steps of filtering each document at the top level, one document after another.
pub open spec fn documents_steps(docs: Seq<YamlValue>, keep: spec_fn(Seq<char>) -> bool) -> Seq<FilterStep>
    decreases docs.len(),
{
    if docs.len() == 0 {
        Seq::empty()
    } else {
        documents_steps(docs.drop_last(), keep) + filter_steps(docs.last(), Seq::empty(), keep)
    }
}

/// Every document filtered at the top level, as [`filter_documents`] does, together
/// with the steps taken over all of them, in order.
pub fn filter_documents_traced<F: Fn(&str) -> bool>(yaml_docs: &Vec<YamlNode>, is_key_whitelisted: &F) -> (result: (Vec<YamlNode>, Vec<FilterEvent>))
    requires
        forall|s: &str| is_key_whitelisted.requires((s,)),
    ensures
        result.0.len() == yaml_docs.len(),
        forall|keep: spec_fn(Seq<char>) -> bool|
            #[trigger] decides_by(*is_key_whitelisted, keep) ==> {
                &&& forall|i: int|
                    0 <= i < yaml_docs.len() ==> (#[trigger] result.0@[i])@ == filter_value(
                        yaml_docs@[i]@,
                        Seq::empty(),
                        keep,
                    )
                &&& events_steps(result.1@) == documents_steps(nodes_value(yaml_docs@), keep)
            },
{
    let top: &str = "";
    proof {
        reveal_strlit("");
        assert(top@ =~= Seq::<char>::empty());
        lemma_nodes_value(yaml_docs@);
    }
    let ghost docs = nodes_value(yaml_docs@);
    let mut filtered: Vec<YamlNode> = Vec::new();
    let mut events: Vec<FilterEvent> = Vec::new();
    proof {
        assert(docs.take(0) =~= Seq::<YamlValue>::empty());
        assert(events_steps(events@) =~= Seq::<FilterStep>::empty());
    }
    for i in 0..yaml_docs.len()
        invariant
            filtered.len() == i,
            top@ == Seq::<char>::empty(),
            docs == nodes_value(yaml_docs@),
            docs.len() == yaml_docs.len(),
            forall|j: int| 0 <= j < docs.len() ==> #[trigger] docs[j] == yaml_docs@[j]@,
            forall|s: &str| is_key_whitelisted.requires((s,)),
            forall|keep: spec_fn(Seq<char>) -> bool|
                #[trigger] decides_by(*is_key_whitelisted, keep) ==> {
                    &&& forall|j: int|
                        0 <= j < i ==> (#[trigger] filtered@[j])@ == filter_value(
                            yaml_docs@[j]@,
                            Seq::empty(),
                            keep,
                        )
                    &&& events_steps(events@) == documents_steps(docs.take(i as int), keep)
                },
    {
        let doc = filter_node_traced(&yaml_docs[i], top, is_key_whitelisted, &mut events);
        filtered.push(doc);
        proof {
            assert(docs.take(i + 1).drop_last() =~= docs.take(i as int));
            assert(docs.take(i + 1).last() == docs[i as int]);
        }
    }
    assert(docs.take(yaml_docs.len() as int) =~= docs);
    (filtered, events)
}

/// Filtering with a predicate that accepts every path gives back the value unchanged.
pub proof fn lemma_filter_keeping_everything(
    v: YamlValue,
    path: Seq<char>,
    keep: spec_fn(Seq<char>) -> bool,
)
    requires
        forall|p: Seq<char>| #[trigger] keep(p),
    ensures
        filter_value(v, path, keep) == v,
    decreases v,
{
    match v {
        YamlValue::Array(items) => {
            assert(decreases_to!(v => v->Array_0));
            lemma_filter_items_keeping_everything(items, path, keep);
        },
        YamlValue::Hash(entries) => {
            assert(decreases_to!(v => v->Hash_0));
            lemma_filter_entries_keeping_everything(entries, path, keep);
        },
        _ => {},
    }
}

/// Filtering the elements of a sequence with a predicate that accepts every path keeps
/// them all, unchanged.
pub proof fn lemma_filter_items_keeping_everything(
    items: Seq<YamlValue>,
    path: Seq<char>,
    keep: spec_fn(Seq<char>) -> bool,
)
    requires
        forall|p: Seq<char>| #[trigger] keep(p),
    ensures
        filter_items(items, path, keep) == items,
    decreases items,
{
    if items.len() > 0 {
        assert(decreases_to!(items => items.drop_last()));
        assert(decreases_to!(items => items[items.len() - 1]));
        lemma_filter_items_keeping_everything(items.drop_last(), path, keep);
        let p = join_path(path, decimal((items.len() - 1) as nat));
        lemma_filter_keeping_everything(items.last(), p, keep);
        assert(keep(p));
        assert(items.drop_last().push(items.last()) =~= items);
    }
}

/// Filtering the entries of a mapping with a predicate that accepts every path keeps
/// them all, unchanged.
pub proof fn lemma_filter_entries_keeping_everything(
    entries: Seq<(YamlValue, YamlValue)>,
    path: Seq<char>,
    keep: spec_fn(Seq<char>) -> bool,
)
    requires
        forall|p: Seq<char>| #[trigger] keep(p),
    ensures
        filter_entries(entries, path, keep) == entries,
    decreases entries,
{
    if entries.len() > 0 {
        let last = entries[entries.len() - 1];
        assert(decreases_to!(entries => entries.drop_last()));
        assert(decreases_to!(entries => last));
        assert(decreases_to!(last => last.1));
        lemma_filter_entries_keeping_everything(entries.drop_last(), path, keep);
        let p = join_path(path, key_text(last.0));
        lemma_filter_keeping_everything(last.1, p, keep);
        assert(keep(p));
        assert(entries.drop_last().push(last) =~= entries);
    }
}

/// Filtering with a predicate that accepts no path empties every sequence and mapping,
/// and leaves a scalar as it is.
pub proof fn lemma_filter_keeping_nothing(
    v: YamlValue,
    path: Seq<char>,
    keep: spec_fn(Seq<char>) -> bool,
)
    requires
        forall|p: Seq<char>| !#[trigger] keep(p),
    ensures
        filter_value(v, path, keep) == (match v {
            YamlValue::Array(_) => YamlValue::Array(Seq::empty()),
            YamlValue::Hash(_) => YamlValue::Hash(Seq::empty()),
            _ => v,
        }),
{
    match v {
        YamlValue::Array(items) => lemma_filter_items_keeping_nothing(items, path, keep),
        YamlValue::Hash(entries) => lemma_filter_entries_keeping_nothing(entries, path, keep),
        _ => {},
    }
}

proof fn lemma_filter_items_keeping_nothing(
    items: Seq<YamlValue>,
    path: Seq<char>,
    keep: spec_fn(Seq<char>) -> bool,
)
    requires
        forall|p: Seq<char>| !#[trigger] keep(p),
    ensures
        filter_items(items, path, keep) == Seq::<YamlValue>::empty(),
    decreases items.len(),
{
    if items.len() > 0 {
        lemma_filter_items_keeping_nothing(items.drop_last(), path, keep);
        assert(!keep(join_path(path, decimal((items.len() - 1) as nat))));
    }
}

proof fn lemma_filter_entries_keeping_nothing(
    entries: Seq<(YamlValue, YamlValue)>,
    path: Seq<char>,
    keep: spec_fn(Seq<char>) -> bool,
)
    requires
        forall|p: Seq<char>| !#[trigger] keep(p),
    ensures
        filter_entries(entries, path, keep) == Seq::<(YamlValue, YamlValue)>::empty(),
    decreases entries.len(),
{
    if entries.len() > 0 {
        lemma_filter_entries_keeping_nothing(entries.drop_last(), path, keep);
        assert(!keep(join_path(path, key_text(entries.last().0))));
    }
}

/// Filtering keeps a value well formed: no mapping in the result has two equal keys.
pub proof fn lemma_filter_preserves_well_formed(
    v: YamlValue,
    path: Seq<char>,
    keep: spec_fn(Seq<char>) -> bool,
)
    requires
        well_formed(v),
    ensures
        well_formed(filter_value(v, path, keep)),
    decreases v,
{
    match v {
        YamlValue::Array(items) => {
            assert(decreases_to!(v => v->Array_0));
            assert(forall|i: int| 0 <= i < items.len() ==> well_formed(#[trigger] items[i]));
            lemma_filter_items_well_formed(items, path, keep);
            let r = filter_items(items, path, keep);
            assert(filter_value(v, path, keep) == YamlValue::Array(r));
            assert(forall|i: int| 0 <= i < r.len() ==> well_formed(#[trigger] r[i]));
        },
        YamlValue::Hash(entries) => {
            assert(decreases_to!(v => v->Hash_0));
            assert(forall|i: int|
                0 <= i < entries.len() ==> well_formed(#[trigger] entries[i].0) && well_formed(
                    entries[i].1,
                ));
            lemma_filter_entries_keys(entries, path, keep);
            lemma_filter_entries_components_well_formed(entries, path, keep);
            let r = filter_entries(entries, path, keep);
            assert(filter_value(v, path, keep) == YamlValue::Hash(r));
            assert(forall|i: int|
                0 <= i < r.len() ==> well_formed(#[trigger] r[i].0) && well_formed(r[i].1));
        },
        _ => {},
    }
}

proof fn lemma_filter_items_well_formed(
    items: Seq<YamlValue>,
    path: Seq<char>,
    keep: spec_fn(Seq<char>) -> bool,
)
    requires
        forall|i: int| 0 <= i < items.len() ==> well_formed(#[trigger] items[i]),
    ensures
        forall|i: int|
            0 <= i < filter_items(items, path, keep).len() ==> well_formed(
                #[trigger] filter_items(items, path, keep)[i],
            ),
    decreases items,
{
    if items.len() > 0 {
        let rest = items.drop_last();
        assert(decreases_to!(items => rest));
        assert(decreases_to!(items => items[items.len() - 1]));
        assert(forall|i: int| 0 <= i < rest.len() ==> #[trigger] rest[i] == items[i]);
        lemma_filter_items_well_formed(rest, path, keep);
        let kept = filter_items(rest, path, keep);
        let p = join_path(path, decimal((items.len() - 1) as nat));
        assert(well_formed(items[items.len() - 1]));
        lemma_filter_preserves_well_formed(items.last(), p, keep);
        if keep(p) {
            let r = kept.push(filter_value(items.last(), p, keep));
            assert(filter_items(items, path, keep) == r);
            assert forall|i: int| 0 <= i < r.len() implies well_formed(#[trigger] r[i]) by {
                if i < kept.len() {
                    assert(r[i] == kept[i]);
                }
            }
        }
    }
}

proof fn lemma_entry_keys_push(es: Seq<(YamlValue, YamlValue)>, e: (YamlValue, YamlValue))
    ensures
        entry_keys(es.push(e)) == entry_keys(es).push(e.0),
{
    assert(entry_keys(es.push(e)) =~= entry_keys(es).push(e.0));
}

/// The keys that filtering keeps are keys of the input, and no key is kept twice when
/// the input has no key twice.
proof fn lemma_filter_entries_keys(
    entries: Seq<(YamlValue, YamlValue)>,
    path: Seq<char>,
    keep: spec_fn(Seq<char>) -> bool,
)
    ensures
        forall|k: YamlValue|
            #[trigger] entry_keys(filter_entries(entries, path, keep)).contains(k) ==> entry_keys(
                entries,
            ).contains(k),
        entry_keys(entries).no_duplicates() ==> entry_keys(
            filter_entries(entries, path, keep),
        ).no_duplicates(),
    decreases entries.len(),
{
    if entries.len() > 0 {
        let n = entries.len() - 1;
        let rest = entries.drop_last();
        let last = entries[n];
        let keys = entry_keys(entries);
        let rest_keys = entry_keys(rest);
        assert(rest_keys =~= keys.drop_last());
        lemma_filter_entries_keys(rest, path, keep);
        let kept = filter_entries(rest, path, keep);
        let kept_keys = entry_keys(kept);
        assert forall|k: YamlValue| #[trigger] kept_keys.contains(k) implies keys.contains(k) by {
            let j = choose|j: int| 0 <= j < rest_keys.len() && rest_keys[j] == k;
            assert(keys[j] == k);
        }
        if keys.no_duplicates() {
            assert forall|i: int, j: int|
                0 <= i < rest_keys.len() && 0 <= j < rest_keys.len() && i != j implies rest_keys[i]
                != rest_keys[j] by {
                assert(rest_keys[i] == keys[i]);
                assert(rest_keys[j] == keys[j]);
            }
        }
        let p = join_path(path, key_text(last.0));
        if keep(p) {
            let e = (last.0, filter_value(last.1, p, keep));
            let r = kept.push(e);
            assert(filter_entries(entries, path, keep) == r);
            lemma_entry_keys_push(kept, e);
            assert forall|k: YamlValue| #[trigger] entry_keys(r).contains(k) implies keys.contains(
                k,
            ) by {
                let j = choose|j: int| 0 <= j < entry_keys(r).len() && entry_keys(r)[j] == k;
                if j < kept.len() {
                    assert(kept_keys[j] == k);
                    assert(kept_keys.contains(k));
                } else {
                    assert(keys[n] == k);
                }
            }
            if keys.no_duplicates() {
                assert(!kept_keys.contains(last.0)) by {
                    if kept_keys.contains(last.0) {
                        let j = choose|j: int| 0 <= j < rest_keys.len() && rest_keys[j] == last.0;
                        assert(keys[j] == keys[n]);
                    }
                }
                assert forall|i: int, j: int|
                    0 <= i < entry_keys(r).len() && 0 <= j < entry_keys(r).len() && i != j implies
                    entry_keys(r)[i] != entry_keys(r)[j] by {
                    if i < kept.len() && j < kept.len() {
                    } else if i < kept.len() {
                        assert(entry_keys(r)[i] == kept_keys[i]);
                        assert(kept_keys.contains(kept_keys[i]));
                    } else if j < kept.len() {
                        assert(entry_keys(r)[j] == kept_keys[j]);
                        assert(kept_keys.contains(kept_keys[j]));
                    }
                }
            }
        } else {
            assert(filter_entries(entries, path, keep) == kept);
        }
    }
}

#[verifier::spinoff_prover]
proof fn lemma_filter_entries_components_well_formed(
    entries: Seq<(YamlValue, YamlValue)>,
    path: Seq<char>,
    keep: spec_fn(Seq<char>) -> bool,
)
    requires
        forall|i: int|
            0 <= i < entries.len() ==> well_formed(#[trigger] entries[i].0) && well_formed(
                entries[i].1,
            ),
    ensures
        forall|i: int|
            0 <= i < filter_entries(entries, path, keep).len() ==> well_formed(
                #[trigger] filter_entries(entries, path, keep)[i].0,
            ) && well_formed(filter_entries(entries, path, keep)[i].1),
    decreases entries,
{
    if entries.len() > 0 {
        let n = entries.len() - 1;
        let rest = entries.drop_last();
        let last = entries[n];
        assert(decreases_to!(entries => rest));
        assert(decreases_to!(entries => last));
        assert(decreases_to!(last => last.1));
        assert(forall|i: int| 0 <= i < rest.len() ==> #[trigger] rest[i] == entries[i]);
        lemma_filter_entries_components_well_formed(rest, path, keep);
        let kept = filter_entries(rest, path, keep);
        let p = join_path(path, key_text(last.0));
        assert(well_formed(entries[n].0));
        lemma_filter_preserves_well_formed(last.1, p, keep);
        if keep(p) {
            let r = kept.push((last.0, filter_value(last.1, p, keep)));
            assert(filter_entries(entries, path, keep) == r);
            assert forall|i: int| 0 <= i < r.len() implies well_formed(#[trigger] r[i].0)
                && well_formed(r[i].1) by {
                if i < kept.len() {
                    assert(r[i] == kept[i]);
                }
            }
        } else {
            assert(filter_entries(entries, path, keep) == kept);
        }
    }
}

} // verus!
