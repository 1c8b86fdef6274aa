use lextok::{LoadError, Tagger};

fn lines(ls: &[&str]) -> Vec<String> {
    ls.iter().map(|s| s.to_string()).collect()
}

#[test]
fn lookup_single_entry() {
    let t = Tagger::from_lines(&lines(&["run\trun\tVB"])).unwrap();
    assert_eq!(t.get_tags("run"), vec![("run".to_string(), "VB".to_string())]);
}

#[test]
fn lookup_unknown_word_is_empty() {
    let t = Tagger::from_lines(&lines(&["run\trun\tVB"])).unwrap();
    assert!(t.get_tags("walk").is_empty());
}

#[test]
fn lookup_preserves_file_order() {
    let t = Tagger::from_lines(&lines(&["run\trun\tVB", "walk\twalk\tVB", "run\trunning\tNN"]))
        .unwrap();
    assert_eq!(
        t.get_tags("run"),
        vec![
            ("run".to_string(), "VB".to_string()),
            ("running".to_string(), "NN".to_string())
        ]
    );
    assert_eq!(
        t.get_tags("walk"),
        vec![("walk".to_string(), "VB".to_string())]
    );
}

#[test]
fn word_form_is_lowercased() {
    let t = Tagger::from_lines(&lines(&["Run\trun\tVB"])).unwrap();
    assert_eq!(t.get_tags("run"), vec![("run".to_string(), "VB".to_string())]);
    assert!(t.get_tags("Run").is_empty());
}

#[test]
fn comment_lines_contribute_nothing() {
    let t = Tagger::from_lines(&lines(&["# run\trun\tVB", "walk\twalk\tVB"])).unwrap();
    assert!(t.get_tags("run").is_empty());
    assert!(t.get_tags("#").is_empty());
    assert_eq!(
        t.get_tags("walk"),
        vec![("walk".to_string(), "VB".to_string())]
    );
}

#[test]
fn extra_fields_are_ignored() {
    let t = Tagger::from_lines(&lines(&["run\trun\tVB\textra"])).unwrap();
    assert_eq!(t.get_tags("run"), vec![("run".to_string(), "VB".to_string())]);
}

#[test]
fn short_line_is_fatal() {
    let r = Tagger::from_lines(&lines(&["run\trun"]));
    assert_eq!(r.err().unwrap(), LoadError { line: 0 });
}

#[test]
fn first_bad_line_is_reported() {
    let r = Tagger::from_lines(&lines(&["run\trun\tVB", "# fine", "bad line", "walk\twalk\tVB"]));
    assert_eq!(r.err().unwrap(), LoadError { line: 2 });
}

#[test]
fn empty_line_is_fatal() {
    let r = Tagger::from_lines(&lines(&[""]));
    assert_eq!(r.err().unwrap(), LoadError { line: 0 });
}

#[test]
fn empty_dump_is_empty_dictionary() {
    let t = Tagger::from_lines(&lines(&[])).unwrap();
    assert!(t.get_tags("run").is_empty());
}
