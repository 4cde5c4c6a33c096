use super_secret_santa::exchange::{lines_of, seal_pairings};
use super_secret_santa::{decrypt_secret_santa, get_secret_santas};

#[test]
fn test_get_secret_santa() {
    let instructions = "Amy\nTom !Amy\nBen =Amy\n";

    let pairings = get_secret_santas(instructions).unwrap();
    assert_eq!(pairings.len(), 3);
    let names: Vec<&str> = pairings.iter().map(|(n, _)| n.as_str()).collect();
    assert_eq!(names, vec!["Amy", "Tom", "Ben"]);
    let revealed: Vec<String> = pairings
        .iter()
        .map(|(_, e)| decrypt_secret_santa(&e.key, &e.nonce, &e.pairing).unwrap())
        .collect();
    assert_eq!(revealed, vec!["Tom", "Ben", "Amy"]);
}

#[test]
fn lines_are_split_at_line_feeds() {
    assert_eq!(lines_of(""), vec![""]);
    assert_eq!(lines_of("Amy"), vec!["Amy"]);
    assert_eq!(lines_of("Amy\nTom !Amy"), vec!["Amy", "Tom !Amy"]);
    assert_eq!(lines_of("\nAmy\n\nTom\n"), vec!["", "Amy", "", "Tom", ""]);
    assert_eq!(lines_of("Amy\r\nTom"), vec!["Amy\r", "Tom"]);
}

#[test]
fn first_line_that_cannot_be_added_ends_the_run() {
    let e = get_secret_santas("").unwrap_err();
    assert_eq!(e.msg, "Could not determine participant from: ");
    let e = get_secret_santas("Amy\n\nTom").unwrap_err();
    assert_eq!(e.msg, "Could not determine participant from: ");
    let e = get_secret_santas("Amy\nTom\nAmy !Tom\n=Zed").unwrap_err();
    assert_eq!(e.msg, "recipient Amy already exists");
    let e = get_secret_santas("Amy\n!Tom\nAmy").unwrap_err();
    assert_eq!(e.msg, "Could not determine participant from: !Tom");
}

#[test]
fn restrictive_instructions_end_the_run() {
    let e = get_secret_santas("Amy !Chris !Kara\nChris !Amy !Kara\nKara").unwrap_err();
    assert_eq!(e.msg, "Instructions are too restrictive for Amy");
    let e = get_secret_santas("Amy\nBen =Zed").unwrap_err();
    assert_eq!(e.msg, "Instructions are too restrictive for Ben");
}

#[test]
fn carriage_returns_are_white_space() {
    let pairings = get_secret_santas("  Amy\r\nTom\r\n").unwrap();
    let names: Vec<&str> = pairings.iter().map(|(n, _)| n.as_str()).collect();
    assert_eq!(names, vec!["Amy", "Tom"]);
    let e = &pairings[0].1;
    assert_eq!(decrypt_secret_santa(&e.key, &e.nonce, &e.pairing).unwrap(), "Tom");
}

#[test]
fn seal_pairings_keeps_names_and_order() {
    let pairs = vec![
        ("Amy".to_string(), "Tom".to_string()),
        ("Tom".to_string(), "Undefined".to_string()),
    ];
    let out = seal_pairings(&pairs).unwrap();
    assert_eq!(out.len(), 2);
    assert_eq!(out[0].0, "Amy");
    assert_eq!(out[1].0, "Tom");
    let e = &out[1].1;
    assert_eq!(decrypt_secret_santa(&e.key, &e.nonce, &e.pairing).unwrap(), "Undefined");
    assert!(seal_pairings(&Vec::new()).unwrap().is_empty());
}

#[test]
fn every_run_ends_as_the_engine_does() {
    for _ in 0..50 {
        let text = "Amy\nChris\nKara\nTom !Amy\nNoel !Tom !Chris\nGary !Tom\nBen =Amy #Comment  ";
        match get_secret_santas(text) {
            Ok(out) => {
                let names: Vec<&str> = out.iter().map(|(n, _)| n.as_str()).collect();
                assert_eq!(names, vec!["Amy", "Chris", "Kara", "Tom", "Noel", "Gary", "Ben"]);
                let mut givers: Vec<String> = out
                    .iter()
                    .map(|(_, e)| decrypt_secret_santa(&e.key, &e.nonce, &e.pairing).unwrap())
                    .collect();
                assert_eq!(givers[6], "Amy");
                givers.sort();
                assert_eq!(givers, vec!["Amy", "Ben", "Chris", "Gary", "Kara", "Noel", "Tom"]);
            }
            Err(e) => assert!(e.msg.starts_with("Instructions are too restrictive for ")),
        }
    }
}

#[test]
fn nobody_left_to_pair_succeeds() {
    let out = get_secret_santas("Amy =Ben\nBen =Amy").unwrap();
    let revealed: Vec<String> = out
        .iter()
        .map(|(_, e)| decrypt_secret_santa(&e.key, &e.nonce, &e.pairing).unwrap())
        .collect();
    assert_eq!(revealed, vec!["Ben", "Amy"]);
}
