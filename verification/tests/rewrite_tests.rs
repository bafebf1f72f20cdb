use querybot::policy::RewritePolicy;
use querybot::rewrite::{format_query, RewriteError};

fn policy() -> RewritePolicy {
    RewritePolicy::from_args("10", "CSVWithNames".to_owned()).unwrap()
}

#[test]
fn test_format_query() {
    let p = policy();

    assert_eq!(
        format_query("SELECT Count() FROM nxthdr.bgp_updates", &p).unwrap(),
        "SELECT Count() FROM nxthdr.bgp_updates LIMIT 10 FORMAT CSVWithNames".to_string()
    );

    assert_eq!(
        format_query("SELECT Count() FROM nxthdr.bgp_updates LIMIT 5", &p).unwrap(),
        "SELECT Count() FROM nxthdr.bgp_updates LIMIT 5 FORMAT CSVWithNames".to_string()
    );

    assert_eq!(
        format_query("SELECT Count() FROM nxthdr.bgp_updates LIMIT 50", &p).unwrap(),
        "SELECT Count() FROM nxthdr.bgp_updates LIMIT 10 FORMAT CSVWithNames".to_string()
    );

    assert!(format_query("SELECT Count() FROM nxthdr.bgp_updates FORMAT Pretty", &p).is_err());
}

#[test]
fn limit_at_ceiling_is_preserved() {
    let p = policy();
    assert_eq!(
        format_query("SELECT a FROM t LIMIT 10", &p).unwrap(),
        "SELECT a FROM t LIMIT 10 FORMAT CSVWithNames".to_string()
    );
}

#[test]
fn limit_just_above_ceiling_is_clamped() {
    let p = policy();
    assert_eq!(
        format_query("SELECT a FROM t LIMIT 11", &p).unwrap(),
        "SELECT a FROM t LIMIT 10 FORMAT CSVWithNames".to_string()
    );
}

#[test]
fn huge_limit_is_clamped() {
    let p = policy();
    assert_eq!(
        format_query("SELECT a FROM t LIMIT 99999999999999999999", &p).unwrap(),
        "SELECT a FROM t LIMIT 10 FORMAT CSVWithNames".to_string()
    );
}

#[test]
fn small_limit_keeps_its_spelling() {
    let p = policy();
    assert_eq!(
        format_query("SELECT a FROM t LIMIT 007", &p).unwrap(),
        "SELECT a FROM t LIMIT 007 FORMAT CSVWithNames".to_string()
    );
}

#[test]
fn last_limit_clause_is_the_one_rewritten() {
    let p = policy();
    assert_eq!(
        format_query("SELECT a FROM (SELECT b FROM t LIMIT 3) LIMIT 50", &p).unwrap(),
        "SELECT a FROM (SELECT b FROM t LIMIT 3) LIMIT 10 FORMAT CSVWithNames".to_string()
    );
}

#[test]
fn whitespace_is_canonicalized() {
    let p = policy();
    assert_eq!(
        format_query("SELECT *\n FROM t\tLIMIT  99", &p).unwrap(),
        "SELECT * FROM t LIMIT 10 FORMAT CSVWithNames".to_string()
    );
}

#[test]
fn multi_statement_is_rejected() {
    let p = policy();
    assert_eq!(
        format_query("SELECT 1; SELECT 2", &p),
        Err(RewriteError::MultiStatement)
    );
}

#[test]
fn empty_input_is_rejected() {
    let p = policy();
    assert_eq!(format_query("", &p), Err(RewriteError::MultiStatement));
    assert_eq!(format_query("   \n", &p), Err(RewriteError::MultiStatement));
    assert_eq!(format_query(";", &p), Err(RewriteError::MultiStatement));
}

#[test]
fn trailing_semicolon_is_allowed() {
    let p = policy();
    assert_eq!(
        format_query("SELECT 1;", &p).unwrap(),
        "SELECT 1 LIMIT 10 FORMAT CSVWithNames".to_string()
    );
}

#[test]
fn non_numeric_limit_is_rejected() {
    let p = policy();
    assert_eq!(
        format_query("SELECT a FROM t LIMIT abc", &p),
        Err(RewriteError::UnsupportedLimit)
    );
    assert_eq!(
        format_query("SELECT a FROM t LIMIT", &p),
        Err(RewriteError::UnsupportedLimit)
    );
    assert_eq!(
        format_query("SELECT a FROM t LIMIT 5x", &p),
        Err(RewriteError::UnsupportedLimit)
    );
}

#[test]
fn explicit_format_is_rejected() {
    let p = policy();
    assert_eq!(
        format_query("SELECT a FROM t FORMAT Pretty", &p),
        Err(RewriteError::ExplicitFormat)
    );
    // even the forced format may not be written out by the caller
    assert_eq!(
        format_query("SELECT a FROM t FORMAT CSVWithNames", &p),
        Err(RewriteError::ExplicitFormat)
    );
}

#[test]
fn rewriting_a_rewritten_query_is_rejected() {
    let p = policy();
    let once = format_query("SELECT a FROM t", &p).unwrap();
    assert_eq!(
        format_query(once.as_str(), &p),
        Err(RewriteError::ExplicitFormat)
    );
}

#[test]
fn rejection_messages() {
    assert_eq!(
        RewriteError::MultiStatement.message(),
        "Only one query is allowed".to_string()
    );
    assert_eq!(
        RewriteError::UnsupportedLimit.message(),
        "LIMIT must be a plain number".to_string()
    );
    assert_eq!(
        RewriteError::ExplicitFormat.message(),
        "Please don't put any FORMAT".to_string()
    );
}
