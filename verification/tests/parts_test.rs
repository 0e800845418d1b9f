use specimen::file::File;
use specimen::flag::{read_flag, split_words};
use specimen::focustree::{
    extract_focused_leaf_values, extract_focused_nodes, get_leaf_values, Flag, FlagStat, Shaped,
    Tree,
};
use specimen::nodule::{Fault, Nodule};
use specimen::runner::classify;
use specimen::text::{decimal, join};
use specimen::yaml::{resolve_scalar, same_text, Position, ScalarStyle, Yaml, YamlData, YamlEvent, YamlLoader};
use specimen::{FailStatus, MultiStringMap, Writable};
use std::io::Write;

struct Twig {
    name: &'static str,
    flag: Flag,
    children: Vec<Twig>,
}

impl Shaped for Twig {}

impl Tree<&'static str> for Twig {
    fn is_leaf(&self) -> bool {
        self.children.is_empty()
    }
    fn get_flag(&self) -> Flag {
        self.flag
    }
    fn get_children(&self) -> Vec<&Twig> {
        self.children.iter().collect()
    }
    fn get_value(&self) -> &'static str {
        self.name
    }
    fn warning(&self, message: &str, stdout: &mut Writable) -> Result<(), std::io::Error> {
        stdout.write_text(&format!("{}: {}\n", self.name, message))
    }
}

fn twig(name: &'static str, flag: Flag, children: Vec<Twig>) -> Twig {
    Twig {
        name,
        flag,
        children,
    }
}

fn select(tree: &Twig) -> (Vec<&'static str>, FlagStat, String) {
    let mut leaves = Vec::new();
    let mut stat = FlagStat::default();
    let mut sink = Writable::Vec(Vec::new());
    extract_focused_leaf_values(tree, &mut leaves, &mut stat, &mut sink).unwrap();
    let text = match sink {
        Writable::Vec(bytes) => String::from_utf8(bytes).unwrap(),
        _ => panic!("Expected a Vec"),
    };
    (leaves, stat, text)
}

// Without a focus, every leaf that no skipped node hides is selected, in
// pre-order.
#[test]
fn test_no_focus_selects_every_leaf() {
    let tree = twig(
        "root",
        Flag::Unset,
        vec![
            twig("a", Flag::Unset, vec![]),
            twig("b", Flag::Unset, vec![twig("c", Flag::Unset, vec![]), twig("d", Flag::Unset, vec![])]),
            twig("e", Flag::Unset, vec![]),
        ],
    );
    let (leaves, stat, text) = select(&tree);
    assert_eq!(leaves, vec!["a", "c", "d", "e"]);
    assert_eq!((stat.focus_count, stat.skip_count), (0, 0));
    assert_eq!(text, "");
}

// No leaf comes out of a skipped subtree, focused or not, and what is below
// a skipped node is not counted.
#[test]
fn test_skip_hides_its_subtree() {
    let tree = twig(
        "root",
        Flag::Unset,
        vec![
            twig("a", Flag::Skip, vec![twig("b", Flag::Focus, vec![]), twig("c", Flag::Skip, vec![])]),
            twig("d", Flag::Unset, vec![]),
            twig("e", Flag::Skip, vec![]),
        ],
    );
    let (leaves, stat, text) = select(&tree);
    assert_eq!(leaves, vec!["d"]);
    assert_eq!((stat.focus_count, stat.skip_count), (0, 2));
    assert_eq!(text, "");
}

// A focused node with a focused descendant is passed over with a warning, and
// its focused descendants are selected in its place.
#[test]
fn test_focus_over_focus() {
    let tree = twig(
        "root",
        Flag::Unset,
        vec![
            twig(
                "a",
                Flag::Focus,
                vec![
                    twig("b", Flag::Unset, vec![]),
                    twig("c", Flag::Focus, vec![twig("d", Flag::Unset, vec![]), twig("e", Flag::Skip, vec![])]),
                ],
            ),
            twig("f", Flag::Unset, vec![]),
        ],
    );
    let (leaves, stat, text) = select(&tree);
    assert_eq!(leaves, vec!["d"]);
    assert_eq!((stat.focus_count, stat.skip_count), (2, 1));
    assert_eq!(
        text,
        "a: A node with focused descendants is itself focused. It has been considered not focused in favor of its focused descendants\n"
    );
}

#[test]
fn test_extract_focused_nodes_is_post_order() {
    let tree = twig(
        "root",
        Flag::Unset,
        vec![
            twig("a", Flag::Unset, vec![twig("b", Flag::Focus, vec![])]),
            twig("c", Flag::Focus, vec![]),
        ],
    );
    let mut focused = Vec::new();
    let mut stat = FlagStat {
        focus_count: 5,
        skip_count: u64::MAX,
    };
    let mut sink = Writable::Vec(Vec::new());
    extract_focused_nodes(&tree, &mut focused, &mut stat, &mut sink).unwrap();
    let names: Vec<&str> = focused.iter().map(|node| node.name).collect();
    assert_eq!(names, vec!["b", "c"]);
    assert_eq!(stat.focus_count, 7);
    assert_eq!(stat.skip_count, u64::MAX);
}

#[test]
fn test_get_leaf_values_appends() {
    let tree = twig("a", Flag::Unset, vec![twig("b", Flag::Unset, vec![]), twig("c", Flag::Skip, vec![])]);
    let mut values = vec!["before"];
    get_leaf_values(&tree, &mut values);
    assert_eq!(values, vec!["before", "b"]);
}

fn text_node(text: &str) -> Yaml {
    Yaml::new(YamlData::String(text.to_owned()), Position { line: 1, column: 0 })
}

fn flag_and_notes(text: &str) -> (Flag, Vec<String>) {
    let mut warnings = Vec::new();
    let flag = read_flag(&text_node(text), &mut warnings);
    (flag, warnings)
}

#[test]
fn test_read_flag() {
    assert_eq!(flag_and_notes(""), (Flag::Unset, vec![]));
    assert_eq!(flag_and_notes("FOCUS"), (Flag::Focus, vec![]));
    assert_eq!(flag_and_notes("PENDING"), (Flag::Skip, vec![]));
    assert_eq!(flag_and_notes("slow focus pending"), (Flag::Unset, vec![]));
    assert_eq!(flag_and_notes("FOCUS  FOCUS"), (Flag::Focus, vec![]));
    assert_eq!(flag_and_notes("FOCUS\tPENDING"), (
        Flag::Unset,
        vec!["Warning: Unrecognized all uppercase flag \"FOCUS\tPENDING\". It has been ignored.".to_owned()],
    ));
    assert_eq!(flag_and_notes("42 ?! ÉTÉ été"), (
        Flag::Unset,
        vec!["Warning: Unrecognized all uppercase flag \"ÉTÉ\". It has been ignored.".to_owned()],
    ));
}

#[test]
fn test_read_flag_last_one_wins() {
    let (flag, notes) = flag_and_notes("PENDING SLOW FOCUS");
    assert_eq!(flag, Flag::Focus);
    assert_eq!(
        notes,
        vec![
            "Warning: Unrecognized all uppercase flag \"SLOW\". It has been ignored.".to_owned(),
            "Warning: Both FOCUS and PENDING flags have been found among the flags of a node. FOCUS has been kept.".to_owned(),
        ]
    );
    let (flag, notes) = flag_and_notes("FOCUS PENDING");
    assert_eq!(flag, Flag::Skip);
    assert_eq!(
        notes,
        vec!["Warning: Both FOCUS and PENDING flags have been found among the flags of a node. PENDING has been kept.".to_owned()]
    );
}

#[test]
fn test_split_words() {
    assert_eq!(split_words(""), vec![""]);
    assert_eq!(split_words("one"), vec!["one"]);
    assert_eq!(split_words("one two"), vec!["one", "two"]);
    assert_eq!(split_words(" a  b "), vec!["", "a", "", "b", ""]);
    assert_eq!(split_words("é è"), vec!["é", "è"]);
}

#[test]
fn test_classify() {
    assert_eq!(classify(Ok(())), (FailStatus::Pristine, "".to_owned()));
    assert_eq!(classify(Err("nope".to_owned())), (FailStatus::Failed, "nope".to_owned()));
    assert_eq!(classify(Err("ABORT".to_owned())), (FailStatus::Aborted, "".to_owned()));
    assert_eq!(classify(Err("ABORTed: é".to_owned())), (FailStatus::Aborted, "ed: é".to_owned()));
    assert_eq!(classify(Err("abort".to_owned())), (FailStatus::Failed, "abort".to_owned()));
    assert_eq!(classify(Err("ABOR".to_owned())), (FailStatus::Failed, "ABOR".to_owned()));
    assert_eq!(classify(Err(" ABORT".to_owned())), (FailStatus::Failed, " ABORT".to_owned()));
    assert_eq!(FailStatus::default(), FailStatus::Pristine);
}

#[test]
fn test_decimal() {
    assert_eq!(decimal(0), "0");
    assert_eq!(decimal(7), "7");
    assert_eq!(decimal(10), "10");
    assert_eq!(decimal(1234567890), "1234567890");
    assert_eq!(decimal(u128::MAX), u128::MAX.to_string());
}

#[test]
fn test_join() {
    assert_eq!(join(&vec![], ", "), "");
    assert_eq!(join(&vec!["a".to_owned()], ", "), "a");
    assert_eq!(join(&vec!["a".to_owned(), "".to_owned(), "c".to_owned()], ", "), "a, , c");
}

#[test]
fn test_same_text() {
    assert!(same_text("", ""));
    assert!(same_text("é", "é"));
    assert!(!same_text("a", "A"));
    assert!(!same_text("a", "ab"));
}

#[test]
fn test_writable_buffer() {
    let mut sink = Writable::Vec(vec![1, 2]);
    assert_eq!(sink.write(&[3, 4]).unwrap(), 2);
    sink.flush().unwrap();
    sink.write_text("é\n").unwrap();
    match sink {
        Writable::Vec(bytes) => assert_eq!(bytes, vec![1, 2, 3, 4, 0xc3, 0xa9, b'\n']),
        _ => panic!("Expected a Vec"),
    }
}

#[test]
fn test_resolve_scalar() {
    let core = |suffix: &str| Some(("!!".to_owned(), suffix.to_owned()));
    let plain = ScalarStyle::Plain;
    assert_eq!(resolve_scalar("12".to_owned(), ScalarStyle::DoubleQuoted, &None), YamlData::String("12".to_owned()));
    assert_eq!(resolve_scalar("12".to_owned(), plain, &None), YamlData::Integer(12));
    assert_eq!(resolve_scalar("12".to_owned(), plain, &core("str")), YamlData::String("12".to_owned()));
    assert_eq!(resolve_scalar("12".to_owned(), plain, &Some(("!".to_owned(), "int".to_owned()))), YamlData::String("12".to_owned()));
    assert_eq!(resolve_scalar("-12".to_owned(), plain, &core("int")), YamlData::Integer(-12));
    assert_eq!(resolve_scalar("9223372036854775808".to_owned(), plain, &core("int")), YamlData::BadValue);
    assert_eq!(resolve_scalar("2".to_owned(), plain, &core("float")), YamlData::Real("2".to_owned()));
    assert_eq!(resolve_scalar(".inf".to_owned(), plain, &core("float")), YamlData::Real(".inf".to_owned()));
    assert_eq!(resolve_scalar("two".to_owned(), plain, &core("float")), YamlData::BadValue);
    assert_eq!(resolve_scalar("true".to_owned(), plain, &core("bool")), YamlData::Boolean(true));
    assert_eq!(resolve_scalar("false".to_owned(), plain, &core("bool")), YamlData::Boolean(false));
    assert_eq!(resolve_scalar("True".to_owned(), plain, &core("bool")), YamlData::BadValue);
    assert_eq!(resolve_scalar("~".to_owned(), plain, &core("null")), YamlData::Null);
    assert_eq!(resolve_scalar("null".to_owned(), plain, &core("null")), YamlData::Null);
    assert_eq!(resolve_scalar("nil".to_owned(), plain, &core("null")), YamlData::BadValue);
}

// The loader takes events that close what was never opened without harm.
#[test]
fn test_loader_ignores_stray_events() {
    let here = Position { line: 3, column: 1 };
    let mut loader = YamlLoader::new();
    loader.on_event(&YamlEvent::SequenceEnd, here);
    loader.on_event(&YamlEvent::MappingEnd, here);
    loader.on_event(&YamlEvent::Alias(7), here);
    loader.on_event(&YamlEvent::DocumentEnd, here);
    loader.on_event(&YamlEvent::DocumentEnd, here);
}

fn parse<'a>(
    content: &str,
    store: &'a mut Vec<Yaml>,
    warnings: &mut Vec<String>,
) -> Result<Vec<Nodule<'a>>, specimen::nodule::SchemaError> {
    let file = File {
        path: "spec.yaml".to_owned(),
        content: content.to_owned(),
    };
    Nodule::parse_file(&file, store, warnings)
}

fn entries(map: &MultiStringMap, keys: &[&str]) -> Vec<Vec<String>> {
    keys.iter().map(|key| map.get(key).unwrap().clone()).collect()
}

#[test]
fn test_parse_file_builds_the_tree() {
    let mut store = Vec::new();
    let mut warnings = Vec::new();
    let roots = parse(
        "name: a\ncontent:\n  - name: b\n    flag: FOCUS\n  - flag: PENDING\n    content:\n      - name: hidden\n---\nname: z\n",
        &mut store,
        &mut warnings,
    )
    .unwrap();
    assert!(warnings.is_empty());
    assert_eq!(roots.len(), 2);
    assert!(!roots[0].is_leaf);
    assert_eq!(roots[0].flag, Flag::Unset);
    assert_eq!(roots[0].children.len(), 2);
    assert_eq!(roots[0].children[0].flag, Flag::Focus);
    assert!(roots[0].children[0].is_leaf);
    assert_eq!(roots[0].children[1].flag, Flag::Skip);
    assert!(roots[0].children[1].is_leaf);
    assert_eq!(roots[0].children[1].children.len(), 0);
    assert!(roots[1].is_leaf);
    assert_eq!(roots[1].file_path, "spec.yaml");
    assert_eq!(roots[0].data_matrix.len(), 1);
    assert_eq!(roots[0].data_matrix.get("filepath").unwrap(), &vec!["spec.yaml".to_owned()]);
    assert_eq!(roots[0].children[0].data_matrix.len(), 0);
    assert_eq!(roots[1].get_location(), "spec.yaml:9:4");
}

#[test]
fn test_parse_file_reports_what_it_cannot_read() {
    let mut store = Vec::new();
    let mut warnings = Vec::new();
    let roots = parse("a: [", &mut store, &mut warnings).unwrap();
    assert_eq!(roots.len(), 0);
    assert_eq!(warnings.len(), 1);
    assert!(warnings[0].starts_with("spec.yaml: "));
}

#[test]
fn test_parse_file_faults() {
    let mut warnings = Vec::new();
    let mut store = Vec::new();
    assert_eq!(parse("just text", &mut store, &mut warnings).unwrap_err().fault, Fault::RootNotMapping);
    let mut store = Vec::new();
    assert_eq!(parse("flag: 12", &mut store, &mut warnings).unwrap_err().fault, Fault::FlagNotString);
    let mut store = Vec::new();
    assert_eq!(parse("content: {a: b}", &mut store, &mut warnings).unwrap_err().fault, Fault::ContentNotList);
    let mut store = Vec::new();
    assert_eq!(parse("content: [[a]]", &mut store, &mut warnings).unwrap_err().fault, Fault::NodeNotMapping);
    // A flag that is a bad value is no flag, and what a skipped slab holds
    // is not looked into.
    let mut store = Vec::new();
    let roots = parse("flag: !!int x\ncontent:\n  - flag: PENDING\n    content: 12\n", &mut store, &mut warnings).unwrap();
    assert_eq!(roots[0].flag, Flag::Unset);
    assert_eq!(roots[0].children[0].flag, Flag::Skip);
}

// The matrix of a slab is the one handed down to it, overlaid by its own
// entries; a key that is set again keeps its place.
#[test]
fn test_populate_hands_the_matrix_down() {
    let mut store = Vec::new();
    let mut warnings = Vec::new();
    let mut roots = parse(
        "about: the whole\nb: [\"1\", \"2\"]\na: x\ncontent:\n  - a: [y, z]\n    c: w\n  - flag: PENDING\n    about: [12]\n    content: [not looked at]\n    b: only\n",
        &mut store,
        &mut warnings,
    )
    .unwrap();
    let mut inherited = MultiStringMap::new();
    inherited.insert("filepath".to_owned(), vec!["spec.yaml".to_owned()]);
    inherited.insert("a".to_owned(), vec!["from above".to_owned()]);
    roots[0].populate(&inherited).unwrap();

    let root = &roots[0];
    assert_eq!(root.data_matrix.len(), 3);
    assert_eq!(
        entries(&root.data_matrix, &["filepath", "a", "b"]),
        vec![vec!["spec.yaml".to_owned()], vec!["x".to_owned()], vec!["1".to_owned(), "2".to_owned()]]
    );
    let first = &root.children[0];
    assert_eq!(first.data_matrix.len(), 4);
    assert_eq!(first.data_matrix.get("a").unwrap(), &vec!["y".to_owned(), "z".to_owned()]);
    assert_eq!(first.data_matrix.get("c").unwrap(), &vec!["w".to_owned()]);
    let second = &root.children[1];
    assert_eq!(second.data_matrix.len(), 3);
    assert_eq!(second.data_matrix.get("b").unwrap(), &vec!["only".to_owned()]);

    // The order of the keys is that of their first insertion: filepath, a, b, c.
    let mut iterator = first.data_matrix.clone().into_product_iterator();
    let mut seen = Vec::new();
    while let Some(tile) = iterator.next() {
        seen.push(format!("{}{}", tile.get("a").unwrap(), tile.get("b").unwrap()));
    }
    assert_eq!(seen, vec!["y1", "y2", "z1", "z2"]);
}

#[test]
fn test_populate_faults() {
    let mut warnings = Vec::new();
    let inherited = MultiStringMap::new();
    for (content, fault, key) in [
        ("[a, b]: c", Fault::KeyNotString, ""),
        ("k: []", Fault::EmptySequence, "k"),
        ("k: [a, [b]]", Fault::ItemNotString, "k"),
        ("k: {a: b}", Fault::ValueNotText, "k"),
        ("k: ~", Fault::ValueNotText, "k"),
        ("fine: a\ncontent:\n  - fine: b\n  - k: 1.5\n", Fault::ValueNotText, "k"),
    ] {
        let mut store = Vec::new();
        let mut roots = parse(content, &mut store, &mut warnings).unwrap();
        let error = roots[0].populate(&inherited).unwrap_err();
        assert_eq!(error.fault, fault, "{}", content);
        assert_eq!(error.key, key, "{}", content);
        assert_eq!(error.file_path, "spec.yaml");
    }
}

#[test]
fn test_nodule_clone() {
    let mut store = Vec::new();
    let mut warnings = Vec::new();
    let roots = parse("a: b\ncontent:\n  - c: d\n", &mut store, &mut warnings).unwrap();
    let copy = roots[0].clone();
    assert_eq!(copy.children.len(), 1);
    assert_eq!(copy.file_path, "spec.yaml");
    assert_eq!(copy.get_location(), roots[0].get_location());
    assert_eq!(copy.data_matrix.len(), roots[0].data_matrix.len());
}
