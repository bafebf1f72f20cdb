use querybot::endpoint::{endpoint_url, EndpointError};
use querybot::plan::{plan_command, CommandPlan};
use querybot::policy::{PolicyError, RewritePolicy};
use querybot::render::pretty_print;

#[test]
fn policy_accepts_positive_ceiling() {
    let p = RewritePolicy::new(10, "CSVWithNames".to_owned()).unwrap();
    assert_eq!(p.max_rows, 10);
    assert_eq!(p.forced_format, "CSVWithNames".to_string());
}

#[test]
fn policy_rejects_zero_ceiling() {
    match RewritePolicy::new(0, "CSVWithNames".to_owned()) {
        Err(e) => assert_eq!(e, PolicyError::InvalidPolicyValue),
        Ok(_) => panic!("a zero ceiling must be rejected"),
    }
}

#[test]
fn policy_rejects_bad_format_words() {
    assert!(RewritePolicy::new(10, "".to_owned()).is_err());
    assert!(RewritePolicy::new(10, "two words".to_owned()).is_err());
    assert!(RewritePolicy::new(10, "LIMIT".to_owned()).is_err());
    assert!(RewritePolicy::new(10, "FORMAT".to_owned()).is_err());
}

#[test]
fn policy_from_args_parses_the_ceiling() {
    let p = RewritePolicy::from_args("10", "CSVWithNames".to_owned()).unwrap();
    assert_eq!(p.max_rows, 10);

    let p = RewritePolicy::from_args("4294967295", "CSVWithNames".to_owned()).unwrap();
    assert_eq!(p.max_rows, u32::MAX);
}

#[test]
fn policy_from_args_rejects_bad_ceilings() {
    assert!(RewritePolicy::from_args("abc", "CSVWithNames".to_owned()).is_err());
    assert!(RewritePolicy::from_args("", "CSVWithNames".to_owned()).is_err());
    assert!(RewritePolicy::from_args("0", "CSVWithNames".to_owned()).is_err());
    assert!(RewritePolicy::from_args("-1", "CSVWithNames".to_owned()).is_err());
    assert!(RewritePolicy::from_args("4294967296", "CSVWithNames".to_owned()).is_err());
}

#[test]
fn missing_query_text_draws_a_prompt() {
    let p = RewritePolicy::new(10, "CSVWithNames".to_owned()).unwrap();
    match plan_command(None, &p) {
        CommandPlan::Reply(m) => assert_eq!(m, "Please provide a query".to_string()),
        CommandPlan::Execute(_) => panic!("nothing may be executed without a query"),
    }
}

#[test]
fn good_query_is_planned_for_execution() {
    let p = RewritePolicy::new(10, "CSVWithNames".to_owned()).unwrap();
    match plan_command(Some("SELECT 1".to_owned()), &p) {
        CommandPlan::Execute(q) => {
            assert_eq!(q, "SELECT 1 LIMIT 10 FORMAT CSVWithNames".to_string())
        }
        CommandPlan::Reply(_) => panic!("a good query must be executed"),
    }
}

#[test]
fn rejected_query_draws_its_message() {
    let p = RewritePolicy::new(10, "CSVWithNames".to_owned()).unwrap();
    match plan_command(Some("SELECT 1 FORMAT Pretty".to_owned()), &p) {
        CommandPlan::Reply(m) => assert_eq!(m, "Please don't put any FORMAT".to_string()),
        CommandPlan::Execute(_) => panic!("an explicit FORMAT must not be executed"),
    }
}

#[test]
fn pretty_print_draws_a_table_in_a_code_block() {
    let csv = "a,b\n1,2\n";
    let out = pretty_print(csv).unwrap();
    assert!(out.starts_with("```"));
    assert!(out.ends_with("```"));
    // the body is a drawn table, not the CSV handed back unchanged
    assert_ne!(out, format!("```{}```", csv));
    assert!(out.contains('1'));
    assert!(out.contains('2'));
}

#[test]
fn pretty_print_rejects_ragged_csv() {
    // records of unequal length are not readable as CSV
    assert!(pretty_print("a,b\n1,2,3\n").is_none());
}

#[test]
fn endpoint_url_embeds_credentials() {
    let u = endpoint_url("https://clickhouse.example.com", "u", "p").unwrap();
    assert_eq!(u, "https://clickhouse.example.com/?user=u&password=p".to_string());
}

#[test]
fn endpoint_url_rejects_a_bad_base() {
    assert_eq!(
        endpoint_url("not a url", "u", "p"),
        Err(EndpointError::InvalidBaseUrl)
    );
}
