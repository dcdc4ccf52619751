use server::email::{parse_recipients, prepare_test_email, prepare_token_email, SmtpConfig};

fn config(from_name: &str, from_email: &str) -> SmtpConfig {
    SmtpConfig {
        smtp_host: "smtp.example.com".to_string(),
        smtp_username: "user".to_string(),
        smtp_password: "secret".to_string(),
        from_name: from_name.to_string(),
        from_email: from_email.to_string(),
    }
}

#[test]
fn recipients_split_on_commas_and_lines() {
    let (emails, errors) = parse_recipients("a@x.org, b@x.org\nc@x.org\r\nd@x.org,,");
    assert_eq!(emails, vec!["a@x.org", "b@x.org", "c@x.org", "d@x.org"]);
    assert!(errors.is_empty());
}

#[test]
fn recipients_are_deduplicated_in_order() {
    let (emails, errors) = parse_recipients("b@x.org,a@x.org, b@x.org ,a@x.org");
    assert_eq!(emails, vec!["b@x.org", "a@x.org"]);
    assert!(errors.is_empty());
}

#[test]
fn recipients_without_at_are_errors() {
    let (emails, errors) = parse_recipients("  not-an-email , ok@x.org\n\tbad ");
    assert_eq!(emails, vec!["ok@x.org"]);
    assert_eq!(errors, vec!["Invalid email: not-an-email", "Invalid email: bad"]);
}

#[test]
fn recipients_of_blank_input() {
    let (emails, errors) = parse_recipients(" \n , \r\n");
    assert!(emails.is_empty());
    assert!(errors.is_empty());
}

#[test]
fn token_email_texts() {
    let d = prepare_token_email(
        &config("Election Admin", "admin@example.com"),
        "voter@example.com",
        "Board 2026",
        "e1",
        "t1",
        "https://vote.example.com",
    )
    .ok()
    .unwrap();
    assert_eq!(d.subject, "Your ballot for: Board 2026");
    let expected = format!(
        "You have been invited to vote in the election \"{}\".\n\n\
         Use the link below to access your ballot:\n{}\n\n\
         This link is unique to you. Do not share it with anyone.\n\n\
         If you did not expect this invitation, please ignore this message.",
        "Board 2026", "https://vote.example.com/elections/e1/tokens/t1"
    );
    assert_eq!(d.body, expected);
    assert_eq!(d.to, "voter@example.com");
    assert_eq!(d.from, "Election Admin <admin@example.com>");
}

#[test]
fn token_email_with_bad_recipient() {
    let r = prepare_token_email(&config("Admin", "admin@example.com"), "not an address", "T", "e", "t", "u");
    match r {
        Err(m) => assert!(m.starts_with("Invalid to address 'not an address': "), "{}", m),
        Ok(_) => panic!("the address must be refused"),
    }
}

#[test]
fn token_email_with_bad_sender() {
    let r = prepare_token_email(&config("Admin", "nope"), "voter@example.com", "T", "e", "t", "u");
    match r {
        Err(m) => assert!(m.starts_with("Invalid from address: "), "{}", m),
        Ok(_) => panic!("the sender must be refused"),
    }
}

#[test]
fn test_email_texts() {
    let d = prepare_test_email(&config("Admin", "admin@example.com"), "me@example.com", "Board", "e9", "https://h")
        .ok()
        .unwrap();
    assert_eq!(d.subject, "Board — SMTP Test");
    assert_eq!(d.to, "me@example.com");
    assert_eq!(d.from, "Admin <admin@example.com>");
    let expected = format!(
        "This is a test email from the STVote election system.\n\
         Your SMTP configuration is working correctly.\n\n\
         When you send ballot tokens, voters will receive an email with a link like:\n\
         {base_url}/elections/{election_id}/tokens/<TOKEN>\n\n\
         SMTP Host: {host}\n\
         From: {from_name} <{from_email}>\n\n\
         You can safely disregard this message.",
        base_url = "https://h",
        election_id = "e9",
        host = "smtp.example.com",
        from_name = "Admin",
        from_email = "admin@example.com",
    );
    assert_eq!(d.body, expected);
}

#[test]
fn parsed_recipients_read_back_joined() {
    let (emails, errors) = parse_recipients(" a@x.org,\n\nb@y.org ,, nope\r\na@x.org ");
    assert_eq!(emails, vec!["a@x.org", "b@y.org"]);
    assert_eq!(errors, vec!["Invalid email: nope"]);
    let (again, none) = parse_recipients(&emails.join(","));
    assert_eq!(again, emails);
    assert!(none.is_empty());
}

#[test]
fn recipients_given_twice_add_no_address() {
    let s = "a@x.org\nb@y.org, c";
    let (once, _) = parse_recipients(s);
    let (twice, errors) = parse_recipients(&format!("{s},{s}"));
    assert_eq!(twice, once);
    assert_eq!(errors, vec!["Invalid email: c", "Invalid email: c"]);
}
