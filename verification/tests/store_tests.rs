use nasal_ls::Library;
use nasal_ls::ScopeError;
use nasal_ls::ScopeSpan;

#[test]
fn add_file_stores_text_and_scopes() {
    let mut lib = Library::new();
    let res = lib.add_file(String::from("file:///a"), String::from("{\n{\n}\n}\n"));
    assert!(res.is_ok());
    let file = lib.get_file(String::from("file:///a")).unwrap();
    assert_eq!(file.uri().as_str(), "file:///a");
    assert_eq!(file.text().as_str(), "{\n{\n}\n}\n");
    assert_eq!(
        file.scopes(),
        &vec![
            ScopeSpan { start_line: 0, end_line: 3 },
            ScopeSpan { start_line: 1, end_line: 2 },
        ]
    );
}

#[test]
fn add_file_keeps_a_malformed_document_indexable() {
    let mut lib = Library::new();
    let res = lib.add_file(String::from("file:///a"), String::from("}"));
    assert_eq!(res, Err(ScopeError::Unmatched));
    let file = lib.get_file(String::from("file:///a")).unwrap();
    assert_eq!(file.text().as_str(), "}");
    assert!(file.scopes().is_empty());
}

#[test]
fn add_file_replaces_the_whole_record() {
    let mut lib = Library::new();
    lib.add_file(String::from("file:///a"), String::from("{")).unwrap_err();
    lib.add_file(String::from("file:///a"), String::from("{}")).unwrap();
    let file = lib.get_file(String::from("file:///a")).unwrap();
    assert_eq!(file.text().as_str(), "{}");
    assert_eq!(file.scopes(), &vec![ScopeSpan { start_line: 0, end_line: 0 }]);
}

#[test]
fn get_file_of_an_unopened_uri_is_none() {
    let lib = Library::new();
    assert!(lib.get_file(String::from("file:///missing")).is_none());
}

#[test]
fn get_file_or_blank_falls_back_to_a_blank_record() {
    let lib = Library::new();
    let file = lib.get_file_or_blank(String::from("file:///missing"));
    assert_eq!(file.uri().as_str(), "");
    assert_eq!(file.text().as_str(), "");
    assert!(file.scopes().is_empty());
}

#[test]
fn get_scopes_reads_the_stored_spans() {
    let mut lib = Library::new();
    lib.add_file(String::from("file:///a"), String::from("{}\n")).unwrap();
    let spans = lib.get_scopes(String::from("file:///a")).unwrap();
    assert_eq!(spans, vec![ScopeSpan { start_line: 0, end_line: 0 }]);
    assert!(lib.get_scopes(String::from("file:///b")).is_none());
}

#[test]
fn files_are_kept_apart_by_uri() {
    let mut lib = Library::new();
    lib.add_file(String::from("file:///a"), String::from("{}")).unwrap();
    lib.add_file(String::from("file:///b"), String::from("# nothing")).unwrap();
    assert_eq!(lib.get_file(String::from("file:///a")).unwrap().scopes().len(), 1);
    assert_eq!(lib.get_file(String::from("file:///b")).unwrap().scopes().len(), 0);
}
