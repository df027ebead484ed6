use yaml_filter::branch_selection::key_matches_pattern;
use yaml_filter::yaml_parsing::{concat_path, emit_document, filter_array, filter_documents, filter_documents_traced, filter_map, filter_yaml, filter_yaml_on_subpath, filter_yaml_traced, load_documents, to_yaml, yaml_to_string, FilterEvent, YamlNode};
use yaml_rust::Yaml;

const EXAMPLE_YAML: &str = "key-with-string: 'string'
key-with-float: 3.14
inline-mapping: {'a': 1, 'b': 2}
inline-list: [1, 2]
key-with-subtree:
    nested-key-with-string: \"another string\"
key-with-list:
- item 1
- item 2
- item 3
";

fn to_node(y: &Yaml) -> YamlNode {
    match y {
        Yaml::Real(s) => YamlNode::Real(s.clone()),
        Yaml::Integer(i) => YamlNode::Integer(*i),
        Yaml::String(s) => YamlNode::String(s.clone()),
        Yaml::Boolean(b) => YamlNode::Boolean(*b),
        Yaml::Array(a) => YamlNode::Array(a.iter().map(to_node).collect()),
        Yaml::Hash(h) => YamlNode::Hash(h.iter().map(|(k, v)| (to_node(k), to_node(v))).collect()),
        Yaml::Alias(a) => YamlNode::Alias(*a),
        Yaml::Null => YamlNode::Null,
        Yaml::BadValue => YamlNode::BadValue,
    }
}

fn yaml_doc_from_str(doc: &str) -> YamlNode {
    to_node(
        yaml_rust::YamlLoader::load_from_str(doc)
            .unwrap()
            .first()
            .unwrap(),
    )
}

fn s(text: &str) -> YamlNode {
    YamlNode::String(text.to_string())
}

#[test]
fn test_filter_yaml_without_filter() {
    let yaml_doc = yaml_doc_from_str(EXAMPLE_YAML);
    assert_eq!(filter_yaml(&yaml_doc, &|_: &str| true), yaml_doc);
}

#[test]
fn test_filter_yaml_for_root_key() {
    let yaml_doc = yaml_doc_from_str(EXAMPLE_YAML);
    let expected = yaml_doc_from_str("key-with-string: 'string'\n");
    assert_eq!(
        filter_yaml(&yaml_doc, &|s: &str| s.starts_with("key-with-string")),
        expected
    );
}

#[test]
fn test_filter_yaml_for_nested_key() {
    let yaml_doc = yaml_doc_from_str(EXAMPLE_YAML);
    let expected = yaml_doc_from_str("inline-mapping:\n    a: 1\n");
    assert_eq!(
        filter_yaml(&yaml_doc, &|s: &str| s == "inline-mapping"
            || s == "inline-mapping.a"),
        expected
    );
}

#[test]
fn test_filter_yaml_for_key_with_list() {
    let yaml_doc = yaml_doc_from_str(EXAMPLE_YAML);
    let expected = yaml_doc_from_str("key-with-list:\n- item 1\n- item 2\n- item 3\n");
    assert_eq!(
        filter_yaml(&yaml_doc, &|s: &str| s.starts_with("key-with-list")),
        expected
    );
}

#[test]
fn test_filter_yaml_for_list_item() {
    let yaml_doc = yaml_doc_from_str(EXAMPLE_YAML);
    let expected = yaml_doc_from_str("key-with-list:\n- item 2\n");
    assert_eq!(
        filter_yaml(&yaml_doc, &|s: &str| s == "key-with-list"
            || s == "key-with-list.1"),
        expected
    );
}

#[test]
fn test_filter_yaml_key_before_blocklist() {
    let yaml_doc = yaml_doc_from_str(
        "date: 2012-08-06\nitems:\n- part_no: A4786\n- part_no: E1628\n",
    );
    let expected = yaml_doc_from_str("date: 2012-08-06\n");
    assert_eq!(
        filter_yaml(&yaml_doc, &|s: &str| s.starts_with("date")),
        expected
    );
}

#[test]
fn paths_are_joined_with_dots() {
    assert_eq!(concat_path("", "key"), "key");
    assert_eq!(concat_path("a", "b"), "a.b");
    assert_eq!(concat_path("a.b", "0"), "a.b.0");
    assert_eq!(concat_path("a", ""), "a.");
    assert_eq!(concat_path("", ""), "");
}

#[test]
fn keys_are_written_as_path_text() {
    assert_eq!(yaml_to_string(&s("name")), "name");
    assert_eq!(yaml_to_string(&YamlNode::Integer(-17)), "-17");
    assert_eq!(yaml_to_string(&YamlNode::Integer(0)), "0");
    assert_eq!(yaml_to_string(&YamlNode::Boolean(true)), "true");
    assert_eq!(yaml_to_string(&YamlNode::Boolean(false)), "false");
    assert_eq!(yaml_to_string(&YamlNode::Real("3.14".to_string())), "3.14");
    assert_eq!(yaml_to_string(&YamlNode::Null), "");
    assert_eq!(yaml_to_string(&YamlNode::Alias(3)), "");
    assert_eq!(yaml_to_string(&YamlNode::Array(vec![s("x")])), "");
}

#[test]
fn keeping_nothing_empties_containers_and_keeps_scalars() {
    let yaml_doc = yaml_doc_from_str(EXAMPLE_YAML);
    assert_eq!(filter_yaml(&yaml_doc, &|_: &str| false), YamlNode::Hash(Vec::new()));
    let list = yaml_doc_from_str("- 1\n- 2\n");
    assert_eq!(filter_yaml(&list, &|_: &str| false), YamlNode::Array(Vec::new()));
    assert_eq!(filter_yaml(&s("scalar"), &|_: &str| false), s("scalar"));
    assert_eq!(filter_yaml(&YamlNode::Integer(5), &|_: &str| false), YamlNode::Integer(5));
}

#[test]
fn list_elements_are_selected_by_their_original_index() {
    let list = yaml_doc_from_str("- a\n- b\n- c\n- d\n");
    let kept = filter_yaml(&list, &|p: &str| p == "1" || p == "3");
    assert_eq!(kept, YamlNode::Array(vec![s("b"), s("d")]));
}

#[test]
fn non_string_keys_are_selected_by_their_text() {
    let doc = yaml_doc_from_str("1: one\ntrue: yes\n2.5: half\n~: nothing\nname: n\n");
    let kept = filter_yaml(&doc, &|p: &str| p == "1" || p == "true" || p == "2.5" || p == "");
    assert_eq!(
        kept,
        YamlNode::Hash(vec![
            (YamlNode::Integer(1), s("one")),
            (YamlNode::Boolean(true), s("yes")),
            (YamlNode::Real("2.5".to_string()), s("half")),
            (YamlNode::Null, s("nothing")),
        ])
    );
}

#[test]
fn nested_paths_reach_into_lists_of_mappings() {
    let doc = yaml_doc_from_str("items:\n- part_no: A4786\n  qty: 1\n- part_no: E1628\n  qty: 2\n");
    let kept = filter_yaml(&doc, &|p: &str| {
        p == "items" || p == "items.1" || p == "items.1.qty"
    });
    let expected = yaml_doc_from_str("items:\n- qty: 2\n");
    assert_eq!(kept, expected);
}

#[test]
fn filtering_below_a_path_prefixes_it() {
    let doc = yaml_doc_from_str("a: 1\nb: 2\n");
    let kept = filter_yaml_on_subpath(&doc, "root", &|p: &str| p == "root.b");
    assert_eq!(kept, yaml_doc_from_str("b: 2\n"));
}

#[test]
fn keys_are_kept_unfiltered() {
    let key = YamlNode::Array(vec![s("k1"), s("k2")]);
    let doc = YamlNode::Hash(vec![(key, s("v"))]);
    let kept = filter_yaml(&doc, &|p: &str| p == "");
    assert_eq!(kept, YamlNode::Hash(vec![(YamlNode::Array(vec![s("k1"), s("k2")]), s("v"))]));
}

#[test]
fn filtering_never_duplicates_keys() {
    let yaml_doc = yaml_doc_from_str(EXAMPLE_YAML);
    let kept = filter_yaml(&yaml_doc, &|p: &str| p.starts_with("key") || p.starts_with("inline"));
    if let YamlNode::Hash(entries) = kept {
        for i in 0..entries.len() {
            for j in 0..entries.len() {
                if i != j {
                    assert_ne!(entries[i].0, entries[j].0);
                }
            }
        }
        assert_eq!(entries.len(), 6);
    } else {
        panic!("a mapping filters to a mapping");
    }
}

#[test]
fn every_document_is_filtered() {
    let docs: Vec<YamlNode> = yaml_rust::YamlLoader::load_from_str("a: 1\nb: 2\n---\n- x\n- y\n---\nplain\n")
        .unwrap()
        .iter()
        .map(to_node)
        .collect();
    let kept = filter_documents(&docs, &|p: &str| p == "a" || p == "1");
    assert_eq!(
        kept,
        vec![
            yaml_doc_from_str("a: 1\n"),
            YamlNode::Array(vec![s("y")]),
            s("plain"),
        ]
    );
}

#[test]
fn deep_copies_are_equal() {
    let yaml_doc = yaml_doc_from_str(EXAMPLE_YAML);
    assert_eq!(yaml_doc.deep_copy(), yaml_doc);
}

#[test]
fn child_paths_stay_selected_by_a_parent_pattern() {
    for key in ["a", "0", "nested.key", ""] {
        let child = concat_path("main", key);
        assert!(key_matches_pattern(&child, "main"));
        assert!(key_matches_pattern(&child, "*"));
        assert!(!key_matches_pattern(&child, "other"));
    }
    assert_eq!(concat_path("main", "x.y"), "main.x.y");
}

#[test]
fn documents_load_as_the_yaml_loader_reads_them() {
    let docs = load_documents(EXAMPLE_YAML).unwrap();
    assert_eq!(docs, vec![yaml_doc_from_str(EXAMPLE_YAML)]);
    let two = load_documents("a: 1\n---\n- x\n").unwrap();
    assert_eq!(two, vec![yaml_doc_from_str("a: 1\n"), YamlNode::Array(vec![s("x")])]);
    assert_eq!(load_documents("").unwrap(), Vec::new());
}

#[test]
fn malformed_yaml_does_not_load() {
    assert_eq!(load_documents("key: [1, 2"), None);
    assert_eq!(load_documents("a: b: c"), None);
}

#[test]
fn loaded_mappings_have_distinct_keys() {
    let docs = load_documents("a: 1\na: 2\nb: 3\n").unwrap();
    assert_eq!(
        docs,
        vec![YamlNode::Hash(vec![(s("a"), YamlNode::Integer(2)), (s("b"), YamlNode::Integer(3))])]
    );
}

#[test]
fn documents_are_emitted_and_joined() {
    let doc = yaml_doc_from_str("a: 1\nb:\n  - x\n");
    assert_eq!(emit_document(&doc).unwrap(), "---\na: 1\nb:\n  - x");
    assert_eq!(emit_document(&YamlNode::Hash(Vec::new())).unwrap(), "---\n{}");
    let docs = vec![yaml_doc_from_str("a: 1\n"), YamlNode::Array(vec![s("x")])];
    assert_eq!(to_yaml(&docs), "---\na: 1\n---\n- x\n");
    assert_eq!(to_yaml(&Vec::new()), "");
}

#[test]
fn emitted_documents_load_back() {
    let doc = yaml_doc_from_str(EXAMPLE_YAML);
    let text = to_yaml(&vec![doc]);
    assert_eq!(load_documents(&text).unwrap(), vec![yaml_doc_from_str(EXAMPLE_YAML)]);
}

#[test]
fn filtering_twice_without_lists_is_filtering_by_both() {
    let doc = yaml_doc_from_str("a:\n  x: 1\n  y: 2\nb: 3\nc:\n  z: 4\n");
    let f = |p: &str| p != "b";
    let g = |p: &str| p != "a.y";
    let twice = filter_yaml(&filter_yaml(&doc, &f), &g);
    assert_eq!(twice, filter_yaml(&doc, &|p: &str| f(p) && g(p)));
    assert_eq!(twice, yaml_doc_from_str("a:\n  x: 1\nc:\n  z: 4\n"));
    assert_eq!(filter_yaml(&filter_yaml(&doc, &f), &f), filter_yaml(&doc, &f));
}

#[test]
fn filtering_twice_with_lists_renumbers() {
    let list = yaml_doc_from_str("- a\n- b\n");
    let once = filter_yaml(&list, &|p: &str| p == "1");
    assert_eq!(once, YamlNode::Array(vec![s("b")]));
    assert_eq!(filter_yaml(&once, &|p: &str| p == "1"), YamlNode::Array(Vec::new()));
}

#[test]
fn a_stronger_predicate_only_deletes() {
    let doc = yaml_doc_from_str("items:\n- a: 1\n  b: 2\n- c: 3\nname: n\n");
    let weak = filter_yaml(&doc, &|p: &str| p != "name");
    let strong = filter_yaml(&doc, &|p: &str| p != "name" && p != "items.0.b" && p != "items.1");
    assert_eq!(weak, yaml_doc_from_str("items:\n- a: 1\n  b: 2\n- c: 3\n"));
    assert_eq!(strong, yaml_doc_from_str("items:\n- a: 1\n"));
}

#[test]
fn the_path_only_prefixes_what_is_asked() {
    let doc = yaml_doc_from_str("a:\n  x: 1\n  y: [1, 2]\nb: 3\n");
    let keep = |p: &str| p == "root.a" || p == "root.a.y" || p == "root.a.y.1";
    let at_path = filter_yaml_on_subpath(&doc, "root", &keep);
    let at_top = filter_yaml(&doc, &|p: &str| keep(&concat_path("root", p)));
    assert_eq!(at_path, at_top);
    assert_eq!(at_path, yaml_doc_from_str("a:\n  y: [2]\n"));
}

fn asked(path: &str, answer: bool) -> FilterEvent {
    FilterEvent::Asked(path.to_string(), answer)
}

#[test]
fn the_steps_of_filtering_are_traced_in_order() {
    let doc = yaml_doc_from_str("a:\n- x\n- y\nb: 1\nc:\n  d: 2\n");
    let (filtered, steps) = filter_yaml_traced(&doc, &|p: &str| p != "a.0" && p != "c");
    assert_eq!(filtered, yaml_doc_from_str("a:\n- y\nb: 1\n"));
    assert_eq!(
        steps,
        vec![
            asked("a", true),
            FilterEvent::Entered(vec![s("x"), s("y")]),
            asked("a.0", false),
            asked("a.1", true),
            asked("b", true),
            asked("c", false),
        ]
    );
    let (_, none) = filter_yaml_traced(&s("scalar"), &|_: &str| true);
    assert!(none.is_empty());
}

#[test]
fn nested_sequences_are_entered_only_when_kept() {
    let doc = yaml_doc_from_str("- [1, 2]\n- [3]\n");
    let (filtered, steps) = filter_yaml_traced(&doc, &|p: &str| p == "1" || p == "1.0");
    assert_eq!(filtered, YamlNode::Array(vec![YamlNode::Array(vec![YamlNode::Integer(3)])]));
    assert_eq!(
        steps,
        vec![
            FilterEvent::Entered(vec![
                YamlNode::Array(vec![YamlNode::Integer(1), YamlNode::Integer(2)]),
                YamlNode::Array(vec![YamlNode::Integer(3)]),
            ]),
            asked("0", false),
            asked("1", true),
            FilterEvent::Entered(vec![YamlNode::Integer(3)]),
            asked("1.0", true),
        ]
    );
}

#[test]
fn documents_are_traced_one_after_another() {
    let docs = vec![yaml_doc_from_str("a: 1\n"), YamlNode::Array(vec![s("x")])];
    let (filtered, steps) = filter_documents_traced(&docs, &|p: &str| p == "a");
    assert_eq!(filtered, filter_documents(&docs, &|p: &str| p == "a"));
    assert_eq!(
        steps,
        vec![asked("a", true), FilterEvent::Entered(vec![s("x")]), asked("0", false)]
    );
}

#[test]
fn arrays_and_maps_filter_directly() {
    let items = vec![s("a"), s("b")];
    assert_eq!(filter_array(&items, "l", &|p: &str| p == "l.1"), YamlNode::Array(vec![s("b")]));
    let entries = vec![(s("k"), s("v")), (s("j"), s("w"))];
    assert_eq!(
        filter_map(&entries, "m", &|p: &str| p == "m.j"),
        YamlNode::Hash(vec![(s("j"), s("w"))])
    );
}
