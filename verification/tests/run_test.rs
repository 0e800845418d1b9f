use specimen::file::File;
use specimen::nodule::Fault;
use specimen::{ioless_run, Dict, RunError, Writable};

fn file(path: &str, content: &str) -> File {
    File {
        path: path.to_owned(),
        content: content.to_owned(),
    }
}

// Runs the files through the test box and hands back the verdict with what
// was written, the duration replaced by `<N>`.
fn run_to_text(
    test_box: &mut dyn FnMut(&Dict) -> Result<(), String>,
    files: &[File],
) -> (bool, String) {
    let mut sink = Writable::Vec(Vec::new());
    let passed = ioless_run(&mut |tile: &Dict| test_box(tile), files, &mut sink).unwrap();
    let buffer = match sink {
        Writable::Vec(vec) => vec,
        _ => panic!("Expected a Vec"),
    };
    let output = String::from_utf8(buffer).unwrap();
    (passed, without_duration(&output))
}

fn without_duration(output: &str) -> String {
    let start = match output.rfind(" tiles in ") {
        Some(at) => at + " tiles in ".len(),
        None => return output.to_owned(),
    };
    let end = start + output[start..].find("ms\n").unwrap();
    assert!(output[start..end].chars().all(|c| c.is_ascii_digit()));
    assert!(end > start);
    format!("{}<N>{}", &output[..start], &output[end..])
}

const COUNTER_DATA: &str = "
content:
  - expected_count: \"0\"
  - expected_count: \"1\"
  - expected_count: \"2\"
  - expected_count: \"3\"
  - expected_count: \"4\"
";

#[test]
fn test_counter() {
    let mut counter = 0;

    let (passed, output) = run_to_text(
        &mut |tile: &Dict| -> Result<(), String> {
            match tile.get("expected_count") {
                Some(expected_count) => {
                    let expected_count = expected_count.parse().unwrap();
                    if counter != expected_count {
                        return Err(format!(
                            "Counter ({counter}) did not match expected count ({expected_count})",
                        ));
                    }
                }
                None => {}
            };
            counter += 1;
            Ok(())
        },
        &[file("../test/counter/counter_data.yaml", COUNTER_DATA)],
    );
    assert!(passed);
    assert_eq!(counter, 5);
    assert_eq!(
        output,
        "Ran 5 tiles in <N>ms\nSUCCESS -- 5 Passed | 0 Failed | 0 Aborted | 0 Panicked\n"
    );
}

const DANGER_DATA: &str = "
content:
  - flag: PENDING
    name: first
  - flag: PENDING
    content:
      - name: second
  - flag: PENDING
    name: third
";

#[test]
fn test_danger() {
    let (passed, output) = run_to_text(
        &mut |_tile: &Dict| -> Result<(), String> { panic!("This code should never be run") },
        &[file("../test/danger/danger_data.yaml", DANGER_DATA)],
    );
    assert!(passed);
    assert_eq!(
        output,
        "Encountered 3 pending node(s)\nRan 0 tiles in <N>ms\nSUCCESS -- 0 Passed | 0 Failed | 0 Aborted | 0 Panicked\n"
    );
}

#[derive(Debug, Default)]
struct Book {
    left_page: i32,
    size: i32,
}

impl Book {
    fn turn_page(&mut self, count: i32) {
        self.left_page += 2 * count;

        if self.left_page < 0 {
            self.left_page = 0;
        } else if self.left_page >= self.size {
            self.left_page = self.size - 1;
        }
    }

    fn get_page(&self) -> i32 {
        self.left_page
    }
}

fn deserialize_book(data: &String) -> Book {
    let documents = yaml_rust::YamlLoader::load_from_str(data).unwrap();
    Book {
        left_page: documents[0]["left_page"].as_i64().unwrap() as i32,
        size: documents[0]["size"].as_i64().unwrap() as i32,
    }
}

fn turn_page(input: &Dict) -> Result<(), String> {
    let mut book = deserialize_book(input.get("book").unwrap());
    let count = input.get("turn_page_count").unwrap().parse().unwrap();
    book.turn_page(count);
    Ok(())
}

fn turn_page_expect_page(input: &Dict) -> Result<(), String> {
    let mut book = deserialize_book(input.get("book").unwrap());
    let count = input.get("turn_page_count").unwrap().parse().unwrap();
    book.turn_page(count);
    let expected_page = input.get("expected_left_page").unwrap().parse().unwrap();
    match book.left_page == expected_page {
        true => Ok(()),
        false => Err(format!(
            "Expected page: {}, Actual page: {}",
            expected_page, book.left_page
        )),
    }
}

fn get_page(input: &Dict) -> Result<(), String> {
    let book = deserialize_book(input.get("book").unwrap());
    let expected = input.get("expected_result").unwrap().parse().unwrap();
    match book.get_page() == expected {
        true => Ok(()),
        false => Err(format!(
            "Expected page: {}, Actual page: {}",
            book.get_page(),
            book.left_page
        )),
    }
}

const NOVEL_DATA: &str = "
book: \"{left_page: 0, size: 10}\"
content:
  - box: get_page
    expected_result: \"0\"
  - box: turn_page
    turn_page_count: [\"1\", \"2\", \"-1\"]
  - box: turn_page_expect_page
    content:
      - turn_page_count: \"2\"
        expected_left_page: \"4\"
      - turn_page_count: \"-3\"
        expected_left_page: \"0\"
      - turn_page_count: \"7\"
        expected_left_page: \"9\"
";

#[test]
fn test_novel() {
    let (passed, output) = run_to_text(
        &mut |tile: &Dict| -> Result<(), String> {
            match tile.get("box").unwrap().as_str() {
                "get_page" => get_page(tile),
                "turn_page_expect_page" => turn_page_expect_page(tile),
                "turn_page" => turn_page(tile),
                _ => Err(format!("Unknown box: {}", tile.get("box").unwrap())),
            }
        },
        &[file("../test/novel/novel_data.yaml", NOVEL_DATA)],
    );
    assert!(passed);
    assert_eq!(
        output,
        "Ran 7 tiles in <N>ms\nSUCCESS -- 7 Passed | 0 Failed | 0 Aborted | 0 Panicked\n"
    );
}

#[derive(Debug, Default)]
struct Zoo(Vec<String>);

impl Zoo {
    // Zoo implementation
    fn add_animal(&mut self, animal: String) -> String {
        self.0.push(animal);
        self.0.join(" ")
    }

    // Test util functions
    fn zoo(&mut self, tile: &Dict) -> bool {
        let animal = tile.get("animal");
        let expected = tile.get("expected_result");

        if let Some(animal) = animal {
            let output = self.add_animal(animal.to_owned());

            if let Some(expected) = expected {
                return output == *expected;
            }
        }

        return true;
    }

    fn animal_kind(&mut self, tile: &Dict) -> bool {
        let name = tile.get("name").unwrap();
        let horn: i32 = tile.get("horn").unwrap().parse().unwrap();
        let leg: i32 = tile.get("leg").unwrap().parse().unwrap();
        if name == "deer" {
            horn == 2 && leg == 4
        } else if name == "earthpony" {
            horn == 0 && leg == 4
        } else {
            false
        }
    }
}

const ZOO_DATA: &str = "
content:
  - box: zoo
    flag: FOCUS
    content:
      - animal: deer
        expected_result: deer
      - animal: earthpony
        expected_result: deer earthpony
      - animal: crocodile
        flag: PENDING
        expected_result: never
      - animal: gorilla
        expected_result: deer earthpony gorilla
  - box: animalkind
    content:
      - name: deer
        horn: \"2\"
        leg: \"4\"
      - name: earthpony
        flag: FOCUS
        horn: \"0\"
        leg: \"4\"
      - name: snake
        horn: \"0\"
        leg: \"0\"
";

#[test]
fn test_focus_zoo() {
    let mut zoo = Zoo(Vec::new());

    let (passed, output) = run_to_text(
        &mut |tile: &Dict| -> Result<(), String> {
            let result = if tile.get("box").is_none() {
                false
            } else if tile.get("box").unwrap() == "zoo" {
                zoo.zoo(tile)
            } else if tile.get("box").unwrap() == "animalkind" {
                zoo.animal_kind(tile)
            } else {
                false
            };
            match result {
                true => Ok(()),
                false => Err("Failed".to_owned()),
            }
        },
        &[file("../test/zoo/zoo_data.yaml", ZOO_DATA)],
    );
    assert!(passed);
    assert_eq!(
        output,
        "Encountered 2 focused node(s) and 1 pending node(s)\nRan 4 tiles in <N>ms\nSUCCESS -- 4 Passed | 0 Failed | 0 Aborted | 0 Panicked\n"
    );
}

fn to_pairs(data: &yaml_rust::Yaml) -> Vec<(String, String)> {
    return match data {
        yaml_rust::Yaml::Hash(key_value_vec) => {
            let mut pairs = Vec::new();
            for (yaml_key, yaml_value) in key_value_vec {
                let key = match yaml_key {
                    yaml_rust::Yaml::String(key) => key,
                    _ => panic!("Expected the key to be a YAML string"),
                };
                let value = match yaml_value {
                    yaml_rust::Yaml::String(value) => value,
                    _ => panic!("Expected the value to be a YAML string"),
                };
                pairs.push((key.clone(), value.clone()));
            }
            pairs
        }
        _ => panic!("Expected a YAML mapping"),
    };
}

fn same_tile(expected: &Vec<(String, String)>, tile: &Dict) -> bool {
    expected.len() == tile.len()
        && expected
            .iter()
            .all(|(key, value)| tile.get(key) == Some(value))
}

fn call_logger(tile: &Dict) -> Result<(), String> {
    let call_string = tile.get("calls").unwrap();
    let call_yaml = &yaml_rust::YamlLoader::load_from_str(call_string).unwrap()[0];
    let call_vec = match call_yaml {
        yaml_rust::Yaml::Array(vec) => vec,
        _ => panic!("Expected a YAML array"),
    };
    let mut index = 0;
    let mut error = "".to_string();
    let result = ioless_run(
        &mut |spec_tile: &Dict| -> Result<(), String> {
            let mut expected_tile = to_pairs(&call_vec[index]);
            expected_tile.push((
                "filepath".to_owned(),
                spec_tile.get("filepath").unwrap().clone(),
            ));

            if error.len() == 0 && !same_tile(&expected_tile, spec_tile) {
                error = format!(
                    "[Call {}]\nExpected: {:?}\nActual__: {:?}",
                    index, expected_tile, spec_tile,
                );
            }
            index += 1;
            Ok(())
        },
        &[File {
            path: tile.get("filepath").unwrap().clone(),
            content: tile.get("spec").unwrap().clone(),
        }],
        &mut Writable::Vec(Vec::new()),
    );

    if let Err(err) = result {
        return Err(format!("{:?}", err));
    }

    if index != call_vec.len() {
        return Err(format!("Expected {} calls, but got {}", call_vec.len(), index).into());
    }

    return if error != "" {
        return Err(error.into());
    } else {
        Ok(())
    };
}

fn report(tile: &Dict) -> Result<(), String> {
    let behavior_yaml =
        &yaml_rust::YamlLoader::load_from_str(tile.get("behavior").unwrap()).unwrap()[0];
    let behavior = to_pairs(behavior_yaml);
    let mut writable_buffer = Writable::Vec(Vec::new());

    let result = ioless_run(
        &mut |spec_tile: &Dict| -> Result<(), String> {
            let letter = spec_tile.get("letter").unwrap();
            let outcome = &behavior.iter().find(|pair| pair.0 == *letter).unwrap().1;
            return match outcome.as_str() {
                "pass" => Ok(()),
                "fail" => Err("failure".into()),
                "abort" => Err("ABORTaborted".into()),
                other => Err(format!("ABORT: unknown outcome: {}", other).into()),
            };
        },
        &[File {
            path: tile.get("filepath").unwrap().clone(),
            content: tile.get("spec").unwrap().clone(),
        }],
        &mut writable_buffer,
    );

    if let Err(error) = result {
        return Err(format!("{:?}", error));
    }

    let buffer = match writable_buffer {
        Writable::Vec(vec) => vec,
        _ => panic!("Expected a Vec"),
    };
    let output = without_duration(&String::from_utf8(buffer).unwrap());
    if output != *tile.get("report").unwrap() {
        Err(format!(
            "Expected:\n{}\nActual:\n{}",
            tile.get("report").unwrap(),
            output
        ))
    } else {
        Ok(())
    }
}

const MATRIX_SPEC: &str = "
box: call-logger
content:
  - spec: |
      letter: [a, b]
      digit: [\"1\", \"2\"]
    calls: |
      - {letter: a, digit: \"1\"}
      - {letter: a, digit: \"2\"}
      - {letter: b, digit: \"1\"}
      - {letter: b, digit: \"2\"}
  - spec: |
      letter: a
      content:
        - digit: \"1\"
        - digit: \"2\"
          letter: z
    calls: |
      - {letter: a, digit: \"1\"}
      - {letter: z, digit: \"2\"}
";

const ABOUT_SPEC: &str = "
box: call-logger
content:
  - spec: |
      about: this entry says what the file is about
      content:
        - about: [and, so, does, this]
          letter: a
    calls: |
      - {letter: a}
";

const FLAG_SPEC: &str = "
box: call-logger
content:
  - spec: |
      content:
        - letter: a
        - letter: b
          flag: FOCUS
        - letter: c
    calls: |
      - {letter: b}
  - spec: |
      content:
        - letter: a
          flag: PENDING
        - letter: b
    calls: |
      - {letter: b}
";

const REPORT_SPEC: &str = "
box: report
content:
  - spec: |
      content:
        - letter: a
        - letter: b
    behavior: |
      {a: pass, b: pass}
    report: |
      Ran 2 tiles in <N>ms
      SUCCESS -- 2 Passed | 0 Failed | 0 Aborted | 0 Panicked
  - filepath: report.yaml
    spec: |
      content:
        - letter: a
        - letter: b
        - letter: c
    behavior: |
      {a: fail, b: abort, c: pass}
    report: |
      FAIL[report.yaml:2:10][0]: failure
      ABORT[report.yaml:3:10][0]: aborted
      Ran 3 tiles in <N>ms
      FAILURE -- 1 Passed | 1 Failed | 1 Aborted | 0 Panicked
";

#[test]
fn test_spec() {
    let (test_passed, output) = run_to_text(
        &mut |tile: &Dict| -> Result<(), String> {
            return match tile.get("box") {
                Some(box_name) if box_name == "call-logger" => call_logger(tile),
                Some(box_name) if box_name == "report" => report(tile),
                Some(box_name) => Err(format!("Unknown box: {}", box_name).into()),
                None => Err("No box specified".into()),
            };
        },
        &[
            file("../spec/about.yaml", ABOUT_SPEC),
            file("../spec/flag.yaml", FLAG_SPEC),
            file("../spec/matrix.yaml", MATRIX_SPEC),
            file("../spec/report.yaml", REPORT_SPEC),
        ],
    );

    assert!(test_passed, "{}", output);
}

// A leaf with the matrix {A: [a, b], B: [x, y]} yields its four tiles with
// the last key turning fastest, and the test box sees them in that order.
#[test]
fn test_matrix_product_order() {
    let mut seen: Vec<(String, String)> = Vec::new();
    let (passed, _) = run_to_text(
        &mut |tile: &Dict| -> Result<(), String> {
            assert_eq!(tile.len(), 3);
            seen.push((tile.get("A").unwrap().clone(), tile.get("B").unwrap().clone()));
            Ok(())
        },
        &[file("order.yaml", "A: [a, b]\nB: [x, y]\n")],
    );
    assert!(passed);
    let expected: Vec<(String, String)> = [("a", "x"), ("a", "y"), ("b", "x"), ("b", "y")]
        .iter()
        .map(|(a, b)| (a.to_string(), b.to_string()))
        .collect();
    assert_eq!(seen, expected);
}

// A two-leaf file where the first leaf passes and the second fails.
#[test]
fn test_report_format() {
    let (passed, output) = run_to_text(
        &mut |tile: &Dict| -> Result<(), String> {
            if tile.get("name").unwrap() == "second" {
                Err("nope".to_owned())
            } else {
                Ok(())
            }
        },
        &[file("two.yaml", "content:\n  - name: first\n  - name: second\n")],
    );
    assert!(!passed);
    assert_eq!(
        output,
        "FAIL[two.yaml:3:8][0]: nope\nRan 2 tiles in <N>ms\nFAILURE -- 1 Passed | 1 Failed | 0 Aborted | 0 Panicked\n"
    );
}

// A slab that is flagged both ways is warned about, and the last flag wins.
#[test]
fn test_focus_both_warning() {
    let mut calls = 0;
    let (passed, output) = run_to_text(
        &mut |_tile: &Dict| -> Result<(), String> {
            calls += 1;
            Ok(())
        },
        &[file(
            "both.yaml",
            "content:\n  - name: first\n    flag: FOCUS PENDING\n  - name: second\n",
        )],
    );
    assert!(passed);
    assert_eq!(calls, 1);
    assert_eq!(
        output,
        "Warning: Both FOCUS and PENDING flags have been found among the flags of a node. PENDING has been kept.\nEncountered 1 pending node(s)\nRan 1 tiles in <N>ms\nSUCCESS -- 1 Passed | 0 Failed | 0 Aborted | 0 Panicked\n"
    );
}

// A word in upper case that is no flag is warned about and changes nothing.
#[test]
fn test_unrecognized_flag_warning() {
    let (passed, output) = run_to_text(
        &mut |_tile: &Dict| -> Result<(), String> { Ok(()) },
        &[file("shout.yaml", "flag: SLOW quiet Mixed X1\nname: only\n")],
    );
    assert!(passed);
    assert_eq!(
        output,
        "Warning: Unrecognized all uppercase flag \"SLOW\". It has been ignored.\nWarning: Unrecognized all uppercase flag \"X1\". It has been ignored.\nRan 1 tiles in <N>ms\nSUCCESS -- 1 Passed | 0 Failed | 0 Aborted | 0 Panicked\n"
    );
}

// A focused slab with a focused descendant is passed over with a warning.
#[test]
fn test_focus_over_focus_warning() {
    let mut seen: Vec<String> = Vec::new();
    let (passed, output) = run_to_text(
        &mut |tile: &Dict| -> Result<(), String> {
            seen.push(tile.get("name").unwrap().clone());
            Ok(())
        },
        &[file(
            "deep.yaml",
            "flag: FOCUS\ncontent:\n  - name: a\n  - name: b\n    flag: FOCUS\n",
        )],
    );
    assert!(passed);
    assert_eq!(seen, vec!["b".to_owned()]);
    assert_eq!(
        output,
        "Warning(deep.yaml:1:4): A node with focused descendants is itself focused. It has been considered not focused in favor of its focused descendants\nEncountered 2 focused node(s)\nRan 1 tiles in <N>ms\nSUCCESS -- 1 Passed | 0 Failed | 0 Aborted | 0 Panicked\n"
    );
}

// An abort is reported as such and the tiles after it are still run.
#[test]
fn test_abort_does_not_stop_the_run() {
    let mut calls = 0;
    let (passed, output) = run_to_text(
        &mut |tile: &Dict| -> Result<(), String> {
            calls += 1;
            match tile.get("n").unwrap().as_str() {
                "1" => Err("ABORT: no more".to_owned()),
                "2" => Err("ABOR".to_owned()),
                _ => Ok(()),
            }
        },
        &[file("abort.yaml", "n: [\"1\", \"2\", \"3\"]\n")],
    );
    assert!(!passed);
    assert_eq!(calls, 3);
    assert_eq!(
        output,
        "ABORT[abort.yaml:1:1][0]: : no more\nFAIL[abort.yaml:1:1][1]: ABOR\nRan 3 tiles in <N>ms\nFAILURE -- 1 Passed | 1 Failed | 1 Aborted | 0 Panicked\n"
    );
}

// A file that cannot be read as YAML is reported and dropped; the others run.
#[test]
fn test_parse_error_drops_the_file() {
    let mut calls = 0;
    let (passed, output) = run_to_text(
        &mut |_tile: &Dict| -> Result<(), String> {
            calls += 1;
            Ok(())
        },
        &[file("bad.yaml", "{-"), file("good.yaml", "name: fine\n")],
    );
    assert!(passed);
    assert_eq!(calls, 1);
    assert!(output.starts_with("bad.yaml: "), "{}", output);
    assert!(output.ends_with(
        "\nRan 1 tiles in <N>ms\nSUCCESS -- 1 Passed | 0 Failed | 0 Aborted | 0 Panicked\n"
    ));
    assert_eq!(output.lines().count(), 3);
}

// The path of the file is in every tile, unless the file says otherwise.
#[test]
fn test_filepath_is_injected() {
    let mut seen: Vec<String> = Vec::new();
    let (passed, _) = run_to_text(
        &mut |tile: &Dict| -> Result<(), String> {
            seen.push(tile.get("filepath").unwrap().clone());
            Ok(())
        },
        &[file(
            "here.yaml",
            "content:\n  - name: a\n  - name: b\n    filepath: elsewhere\n",
        )],
    );
    assert!(passed);
    assert_eq!(seen, vec!["here.yaml".to_owned(), "elsewhere".to_owned()]);
}

// Two runs over the same files with the same answers write the same bytes,
// but for the time that they took.
#[test]
fn test_runs_are_repeatable() {
    let files = [file("zoo.yaml", ZOO_DATA), file("novel.yaml", NOVEL_DATA)];
    let first = run_to_text(&mut |_tile: &Dict| Err("no".to_owned()), &files);
    let second = run_to_text(&mut |_tile: &Dict| Err("no".to_owned()), &files);
    assert_eq!(first, second);
    assert!(!first.0);
}

// No file at all: nothing is selected, and nothing fails.
#[test]
fn test_no_files() {
    let (passed, output) = run_to_text(&mut |_tile: &Dict| Ok(()), &[]);
    assert!(passed);
    assert_eq!(
        output,
        "Ran 0 tiles in <N>ms\nSUCCESS -- 0 Passed | 0 Failed | 0 Aborted | 0 Panicked\n"
    );
}

fn fault_of(content: &str) -> (Fault, String, usize, usize, String) {
    let mut sink = Writable::Vec(Vec::new());
    let result = ioless_run(
        &mut |_tile: &Dict| -> Result<(), String> { panic!("no tile should be run") },
        &[file("fault.yaml", content)],
        &mut sink,
    );
    match sink {
        Writable::Vec(vec) => assert!(vec.is_empty()),
        _ => panic!("Expected a Vec"),
    }
    match result {
        Err(RunError::Schema(e)) => (
            e.fault,
            e.file_path,
            e.position.line,
            e.position.column,
            e.key,
        ),
        other => panic!("Expected a fault, got {:?}", other),
    }
}

#[test]
fn test_fault_root_not_mapping() {
    let (fault, path, line, _, _) = fault_of("- a\n- b\n");
    assert_eq!(fault, Fault::RootNotMapping);
    assert_eq!(path, "fault.yaml");
    assert_eq!(line, 1);
}

#[test]
fn test_fault_node_not_mapping() {
    let (fault, _, line, column, _) = fault_of("content:\n  - name: a\n  - just text\n");
    assert_eq!(fault, Fault::NodeNotMapping);
    assert_eq!((line, column), (3, 4));
}

#[test]
fn test_fault_flag_not_string() {
    let (fault, _, line, _, _) = fault_of("name: a\nflag: [FOCUS]\n");
    assert_eq!(fault, Fault::FlagNotString);
    assert_eq!(line, 2);
}

#[test]
fn test_fault_content_not_list() {
    let (fault, _, line, _, _) = fault_of("name: a\ncontent: text\n");
    assert_eq!(fault, Fault::ContentNotList);
    assert_eq!(line, 2);
}

#[test]
fn test_fault_key_not_string() {
    let (fault, _, line, _, key) = fault_of("name: a\n12: twelve\n");
    assert_eq!(fault, Fault::KeyNotString);
    assert_eq!(line, 1);
    assert_eq!(key, "");
}

#[test]
fn test_fault_empty_sequence() {
    let (fault, _, _, _, key) = fault_of("name: a\nempty: []\n");
    assert_eq!(fault, Fault::EmptySequence);
    assert_eq!(key, "empty");
}

#[test]
fn test_fault_item_not_string() {
    let (fault, _, _, _, key) = fault_of("name: a\nmixed: [a, 2]\n");
    assert_eq!(fault, Fault::ItemNotString);
    assert_eq!(key, "mixed");
}

#[test]
fn test_fault_value_not_text() {
    let (fault, _, _, _, key) = fault_of("name: a\nnumber: 12\n");
    assert_eq!(fault, Fault::ValueNotText);
    assert_eq!(key, "number");
}

// A fault in a later file is met before a matrix fault in an earlier one:
// all slabs are built before any matrix is handed down.
#[test]
fn test_fault_order() {
    let mut sink = Writable::Vec(Vec::new());
    let result = ioless_run(
        &mut |_tile: &Dict| -> Result<(), String> { Ok(()) },
        &[
            file("first.yaml", "number: 12\n"),
            file("second.yaml", "content: text\n"),
        ],
        &mut sink,
    );
    match result {
        Err(RunError::Schema(e)) => {
            assert_eq!(e.fault, Fault::ContentNotList);
            assert_eq!(e.file_path, "second.yaml");
        }
        other => panic!("Expected a fault, got {:?}", other),
    }
}
