use server::error::Error;
use server::tokens::{
    check_ballot_update, check_redeem, first_send_result, has_ended, plan_sends, plan_tokens, results_published,
    successful_ids, CreateTokensBody, SendEmailResult, Timestamp, TokenRecord,
};

fn at(seconds: i64) -> Timestamp {
    Timestamp { seconds, nanos: 0 }
}

fn bad_request<T>(r: Result<T, Error>) -> String {
    match r {
        Err(Error::BadRequest(m)) => m,
        _ => panic!("expected a bad request"),
    }
}

#[test]
fn token_count_or_recipients() {
    let (n, v) = plan_tokens(CreateTokensBody { count: Some(19), recipients: None }).ok().unwrap();
    assert_eq!(n, 19);
    assert!(v.is_empty());
    let emails = vec!["a@x".to_string(), "b@x".to_string(), "c@x".to_string()];
    let (n, v) = plan_tokens(CreateTokensBody { count: None, recipients: Some(emails.clone()) }).ok().unwrap();
    assert_eq!(n, 3);
    assert_eq!(v, emails);
}

#[test]
fn token_requests_that_are_refused() {
    assert_eq!(
        bad_request(plan_tokens(CreateTokensBody { count: Some(1), recipients: Some(vec![]) })),
        "Provide either 'count' or 'recipients', not both"
    );
    assert_eq!(
        bad_request(plan_tokens(CreateTokensBody { count: None, recipients: None })),
        "Provide either 'count' or 'recipients'"
    );
    let dup = vec!["a@b.com".to_string(), "c@d.com".to_string(), "a@b.com".to_string()];
    assert_eq!(
        bad_request(plan_tokens(CreateTokensBody { count: None, recipients: Some(dup) })),
        "Duplicate recipient email: a@b.com"
    );
}

#[test]
fn only_sent_tokens_are_marked() {
    let results = vec![
        SendEmailResult { token_id: "t1".to_string(), error: None },
        SendEmailResult { token_id: "t2".to_string(), error: Some("SMTP send failed".to_string()) },
        SendEmailResult { token_id: "t3".to_string(), error: None },
    ];
    assert_eq!(successful_ids(&results), vec!["t1", "t3"]);
}

#[test]
fn single_send_result() {
    let r = first_send_result(vec![SendEmailResult { token_id: "t".to_string(), error: None }]);
    assert_eq!(r.token_id, "t");
    assert!(r.error.is_none());
    let missing = first_send_result(vec![]);
    assert_eq!(missing.token_id, "");
    assert_eq!(missing.error.as_deref(), Some("Token not found"));
}

#[test]
fn tokens_redeem_once_while_open() {
    assert!(check_redeem(at(10), at(20), Some(false)).is_ok());
    assert_eq!(bad_request(check_redeem(at(10), at(20), Some(true))), "Token already redeemed");
    assert!(matches!(check_redeem(at(10), at(20), None), Err(Error::NotFound)));
    assert_eq!(
        bad_request(check_redeem(at(20), at(20), Some(false))),
        "Election is closed. Tokens can no longer be redeemed."
    );
    assert_eq!(
        bad_request(check_redeem(Timestamp { seconds: 20, nanos: 1 }, at(20), None)),
        "Election is closed. Tokens can no longer be redeemed."
    );
}

#[test]
fn ballots_are_filled_in_while_voting_is_open() {
    let ranks = vec![Some(0), None, Some(1)];
    assert!(check_ballot_update(&ranks, 3, at(15), at(10), at(20)).is_ok());
    assert_eq!(bad_request(check_ballot_update(&ranks, 3, at(5), at(10), at(20))), "Voting has not started");
    assert_eq!(bad_request(check_ballot_update(&ranks, 3, at(20), at(10), at(20))), "Voting has ended");
    assert_eq!(
        bad_request(check_ballot_update(&[Some(3)], 3, at(15), at(10), at(20))),
        "Invalid candidate index"
    );
}

#[test]
fn results_only_after_the_end() {
    assert!(!has_ended(Timestamp { seconds: 9, nanos: 999 }, at(10)));
    assert!(has_ended(at(10), at(10)));
    assert!(results_published(at(11), at(10), 1));
    assert!(!results_published(at(11), at(10), 0));
    assert!(!results_published(at(9), at(10), 5));
}

fn token(id: &str, email: Option<&str>, sent: bool) -> TokenRecord {
    TokenRecord { id: id.to_string(), email: email.map(|e| e.to_string()), sent }
}

fn stored_tokens() -> Vec<TokenRecord> {
    vec![
        token("t1", Some("a@example.com"), false),
        token("t2", None, false),
        token("t3", Some("c@example.com"), true),
        token("t4", Some("d@example.com"), false),
    ]
}

fn ids_of(v: &[TokenRecord]) -> Vec<String> {
    v.iter().map(|t| t.id.clone()).collect()
}

#[test]
fn mailing_without_configuration_is_refused() {
    let ids: Vec<String> = vec![];
    assert_eq!(
        bad_request(plan_sends(&ids, &stored_tokens(), false)),
        "Email not configured for this election. Set up SMTP configuration first."
    );
}

#[test]
fn mailing_all_takes_unsent_tokens_with_an_address() {
    let ids: Vec<String> = vec![];
    let v = plan_sends(&ids, &stored_tokens(), true).ok().unwrap();
    assert_eq!(ids_of(&v), vec!["t1", "t4"]);
    assert_eq!(v[1].email.as_deref(), Some("d@example.com"));
}

#[test]
fn mailing_named_tokens() {
    let ids = vec!["t4".to_string()];
    let v = plan_sends(&ids, &stored_tokens(), true).ok().unwrap();
    assert_eq!(ids_of(&v), vec!["t4"]);
}

#[test]
fn mailing_a_sent_or_unaddressed_token_is_not_found() {
    for id in ["t2", "t3", "t9"] {
        let ids = vec!["t1".to_string(), id.to_string()];
        assert!(matches!(plan_sends(&ids, &stored_tokens(), true), Err(Error::NotFound)));
    }
}

#[test]
fn mailing_with_nothing_to_send_is_empty() {
    let ids: Vec<String> = vec![];
    let stored = vec![token("t1", Some("a@example.com"), true), token("t2", None, false)];
    assert!(plan_sends(&ids, &stored, true).ok().unwrap().is_empty());
}

#[test]
fn redeeming_makes_a_blank_ballot_under_a_fresh_id() {
    let b = server::tokens::redeem_token(at(10), at(20), Some(false), "ballot-7".to_string()).ok().unwrap();
    assert_eq!(b.id, "ballot-7");
    assert!(b.ranks.is_none());
    assert!(matches!(server::tokens::redeem_token(at(10), at(20), None, "x".to_string()), Err(Error::NotFound)));
    assert_eq!(
        bad_request(server::tokens::redeem_token(at(10), at(20), Some(true), "x".to_string())),
        "Token already redeemed"
    );
    assert_eq!(
        bad_request(server::tokens::redeem_token(at(20), at(20), Some(false), "x".to_string())),
        "Election is closed. Tokens can no longer be redeemed."
    );
}
