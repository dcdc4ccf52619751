use server::counting::ElectionType;
use server::elections::{check_election_update, election_type_to_string, parse_election_type};
use server::error::Error;

#[test]
fn election_type_names_round_trip() {
    for t in [ElectionType::StvMd, ElectionType::StvMdCoperland, ElectionType::StvMdGrouped] {
        let name = election_type_to_string(t);
        assert!(matches!(parse_election_type(&name), Ok(u) if u == t));
        assert_eq!(server::parse_election_type(&name), t);
    }
    assert_eq!(election_type_to_string(ElectionType::StvMdCoperland), "stv-md-coperland");
}

#[test]
fn unknown_election_type_is_an_internal_error() {
    match parse_election_type("borda") {
        Err(Error::Internal(m)) => assert_eq!(m, "Invalid election_type 'borda'"),
        _ => panic!("unknown types must be refused"),
    }
}

fn strings(v: &[&str]) -> Vec<String> {
    v.iter().map(|x| x.to_string()).collect()
}

#[test]
fn unlocked_elections_can_change() {
    let r = check_election_update(
        "Old",
        &None,
        &strings(&["A", "B"]),
        "New",
        &Some("d".to_string()),
        &strings(&["A", "B", "C"]),
        false,
    );
    assert!(r.is_ok());
}

#[test]
fn locked_elections_keep_title_description_candidates() {
    let cands = strings(&["A", "B"]);
    let same = check_election_update("T", &None, &cands, "T", &None, &cands, true);
    assert!(same.is_ok());
    for r in [
        check_election_update("T", &None, &cands, "T2", &None, &cands, true),
        check_election_update("T", &None, &cands, "T", &Some("x".to_string()), &cands, true),
        check_election_update("T", &None, &cands, "T", &None, &strings(&["A", "D"]), true),
    ] {
        match r {
            Err(Error::BadRequest(m)) => assert!(m.starts_with("Cannot modify election title, description, or candidates")),
            _ => panic!("a locked election must not change"),
        }
    }
}

use server::counting::GroupConfig;
use server::elections::CreateElectionRequest;
use server::election_yaml::{ElectionConfig as YamlConfig, ElectionConfigFile};
use server::tokens::Timestamp;
use server::ElectionConfig;

fn ts(seconds: i64) -> Timestamp {
    Timestamp { seconds, nanos: 0 }
}

#[test]
fn create_request_fields() {
    let r = CreateElectionRequest::StvMdGrouped {
        title: "T".to_string(),
        description: Some("D".to_string()),
        candidates: strings(&["A", "B"]),
        num_seats: 2,
        start_time: ts(1),
        end_time: ts(2),
        groups: vec![GroupConfig { name: "g".to_string(), seats: 2 }],
        candidate_groups: strings(&["g", "g"]),
    };
    assert_eq!(r.election_type(), ElectionType::StvMdGrouped);
    assert_eq!(r.title(), "T");
    assert_eq!(r.description().as_deref(), Some("D"));
    assert_eq!(r.candidates().len(), 2);
    assert_eq!(r.num_seats(), 2);
    assert_eq!(r.start_time().seconds, 1);
    assert_eq!(r.end_time().seconds, 2);
    assert_eq!(r.groups()[0].name, "g");
    assert_eq!(r.candidate_groups().len(), 2);
    let plain = CreateElectionRequest::StvMd {
        title: "P".to_string(),
        description: None,
        candidates: vec![],
        num_seats: 1,
        start_time: ts(1),
        end_time: ts(2),
    };
    assert!(plain.groups().is_empty());
    assert!(plain.candidate_groups().is_empty());
}

#[test]
fn election_config_fields() {
    let c = ElectionConfig::StvMdCoperland {
        id: "e".to_string(),
        title: "T".to_string(),
        description: None,
        candidates: strings(&["A"]),
        seats: 1,
        start_time: ts(0),
        end_time: ts(5),
        number_of_ballots: 3,
        ballots: Some(strings(&["b1"])),
    };
    assert_eq!(c.id(), "e");
    assert_eq!(c.candidates(), &strings(&["A"])[..]);
    assert_eq!(c.seats(), 1);
    assert_eq!(c.ballots().as_ref().unwrap().len(), 1);
    assert!(c.groups().is_empty());
    assert!(c.candidate_groups().is_empty());
}

#[test]
fn yaml_file_drops_ballot_ids() {
    let f = ElectionConfigFile {
        id: "e".to_string(),
        name: "N".to_string(),
        candidates: strings(&["A", "B"]),
        seats: 1,
        ballots: strings(&["x", "y"]),
    };
    let c = YamlConfig::from(f);
    assert_eq!(c.id, "e");
    assert_eq!(c.name, "N");
    assert_eq!(c.candidates.len(), 2);
    assert_eq!(c.seats, 1);
}
