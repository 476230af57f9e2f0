use nasal_ls::compute_scopes;
use nasal_ls::File;
use nasal_ls::Library;
use nasal_ls::ScopeError;
use nasal_ls::ScopeSpan;

#[test]
fn scope_test() {
    let mut file = File::with_text(String::from(
        "
                               {
                                   {
                                       {
                                
                                       }
                                       #{
                                           {
                                           }
                                       
                                   }
                               }
                                   ",
    ));
    assert_eq!(Library::process_scopes(&mut file).is_ok(), true);
}

#[test]
fn empty_text_has_no_scopes() {
    assert_eq!(compute_scopes(""), Ok(vec![]));
}

#[test]
fn comment_only_text_has_no_scopes() {
    assert_eq!(compute_scopes("# {\n   #}\n#\n"), Ok(vec![]));
}

#[test]
fn balanced_pairs_yield_one_span_per_opening_brace() {
    let spans = compute_scopes("{ } { }\n{\n}\n").unwrap();
    assert_eq!(spans.len(), 3);
    for sp in &spans {
        assert!(sp.start_line <= sp.end_line);
    }
    assert_eq!(spans[0], ScopeSpan { start_line: 0, end_line: 0 });
    assert_eq!(spans[1], ScopeSpan { start_line: 0, end_line: 0 });
    assert_eq!(spans[2], ScopeSpan { start_line: 1, end_line: 2 });
}

#[test]
fn nested_pairs_come_in_opening_order() {
    let spans = compute_scopes("{\n{\n}\n}\n").unwrap();
    assert_eq!(
        spans,
        vec![
            ScopeSpan { start_line: 0, end_line: 3 },
            ScopeSpan { start_line: 1, end_line: 2 },
        ]
    );
}

#[test]
fn closing_brace_with_nothing_pending_is_unmatched() {
    assert_eq!(compute_scopes("}"), Err(ScopeError::Unmatched));
    assert_eq!(compute_scopes("{ }\n}\n"), Err(ScopeError::Unmatched));
}

#[test]
fn unmatched_is_reported_before_unterminated() {
    assert_eq!(compute_scopes("}{"), Err(ScopeError::Unmatched));
}

#[test]
fn trailing_open_brace_is_unterminated() {
    assert_eq!(compute_scopes("{"), Err(ScopeError::Unterminated));
    assert_eq!(compute_scopes("{ { }\n"), Err(ScopeError::Unterminated));
}

#[test]
fn open_brace_followed_by_comment_line_is_unterminated() {
    assert_eq!(compute_scopes("{\n#{\n"), Err(ScopeError::Unterminated));
}

#[test]
fn brace_after_comment_line_closes_the_pending_scope() {
    let spans = compute_scopes("{\n#{\n}\n").unwrap();
    assert_eq!(spans, vec![ScopeSpan { start_line: 0, end_line: 2 }]);
}

#[test]
fn commenting_every_line_makes_unbalanced_text_succeed_empty() {
    assert_eq!(compute_scopes("}\n{"), Err(ScopeError::Unmatched));
    assert_eq!(compute_scopes("#}\n#{"), Ok(vec![]));
}

#[test]
fn indented_comment_lines_contribute_nothing() {
    assert_eq!(compute_scopes("{\n   \t# } } }\n}\n"), Ok(vec![ScopeSpan {
        start_line: 0,
        end_line: 2,
    }]));
}

#[test]
fn hash_after_code_does_not_comment_the_line() {
    // Only a `#` as the first non-whitespace character starts a comment,
    // so the brace after the inline `#` still opens a scope.
    let spans = compute_scopes("x # {\n}\n");
    assert_eq!(spans, Ok(vec![ScopeSpan { start_line: 0, end_line: 1 }]));
}
