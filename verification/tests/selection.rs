use snippets_everywhere::selection::{BackendSelection, Overwrite, Source, Targets};

fn path(s: &str) -> Option<String> {
    Some(s.to_string())
}

#[test]
fn first_input_reads_and_all_outputs_write() {
    let inputs = vec![None, path("in.json"), path("later.snippets")];
    let outputs = vec![path("a"), None, path("b")];
    let selection = BackendSelection::from_matches(&inputs, &outputs).unwrap();
    assert_eq!(
        selection,
        BackendSelection {
            input: Source {
                backend: 1,
                path: "in.json".to_string()
            },
            outputs: Targets {
                mapping: vec![("a".to_string(), 0), ("b".to_string(), 2)]
            },
        }
    );
}

#[test]
fn no_outputs_is_an_empty_mapping() {
    let selection = BackendSelection::from_matches(&vec![path("x")], &vec![None]).unwrap();
    assert_eq!(selection.input.backend, 0);
    assert!(selection.outputs.mapping.is_empty());
}

#[test]
fn same_output_path_twice_is_refused() {
    let inputs = vec![path("in")];
    let outputs = vec![path("a"), path("b"), None, path("a"), path("b")];
    assert_eq!(
        BackendSelection::from_matches(&inputs, &outputs).unwrap_err(),
        Overwrite {
            previous: 0,
            backend: 3,
            path: "a".to_string()
        }
    );
}

#[test]
fn input_path_may_equal_an_output_path() {
    let selection =
        BackendSelection::from_matches(&vec![path("same"), None], &vec![None, path("same")])
            .unwrap();
    assert_eq!(selection.input.path, "same");
    assert_eq!(selection.outputs.mapping, vec![("same".to_string(), 1)]);
}
