use super_secret_santa::SecretSanta;

fn test_secret_santa() -> SecretSanta {
    let mut santa = SecretSanta::new();
    santa.add_instruction("Amy").unwrap();
    santa.add_instruction("Chris").unwrap();
    santa.add_instruction("Kara").unwrap();
    santa.add_instruction("Tom !Amy").unwrap();
    santa.add_instruction("Noel !Tom !Chris").unwrap();
    santa.add_instruction("Gary !Tom").unwrap();
    santa.add_instruction("Ben =Amy #Comment  ").unwrap();
    santa
}

fn broken_secret_santa() -> SecretSanta {
    let mut santa = SecretSanta::new();
    santa.add_instruction("Amy !Chris !Kara").unwrap();
    santa.add_instruction("Chris !Amy !Kara").unwrap();
    santa.add_instruction("Kara").unwrap();
    santa
}

#[test]
fn test_contains() {
    let mut ssanta = SecretSanta::new();
    ssanta.add_instruction("Amy").unwrap();
    assert_eq!(true, ssanta.contains("Amy"));
    let mut ssanta = SecretSanta::new();
    ssanta.add_instruction("Bob # with comments").unwrap();
    assert_eq!(false, ssanta.contains("Amy"));
    assert_eq!(true, ssanta.contains("Bob"));
    assert_eq!(false, ssanta.contains("bob"));
}

#[test]
fn registry_can_parse_instructions() {
    let amy = "Amy".to_string();
    let tom = "Tom".to_string();
    let ben = "Ben".to_string();

    let mut santa = SecretSanta::new();
    santa.add_instruction("Amy").unwrap();
    assert!(santa.contains(&amy));

    santa.add_instruction("Tom !Amy").unwrap();
    assert!(santa.contains(&tom));

    santa.add_instruction("Ben =Amy #Comment  ").unwrap();
    assert!(santa.contains(&ben));
}

#[test]
fn test_generate_pairings() {
    let mut santa = test_secret_santa();
    santa.generate_pairings().unwrap();
    assert!(true)
}

#[test]
fn test_broken_generate_pairings() {
    let mut santa = broken_secret_santa();
    let res = santa.generate_pairings();
    assert!(res.is_err());
}

#[test]
fn test_get_pairings() {
    let mut santa = test_secret_santa();
    santa.generate_pairings().unwrap();
    let pairings = santa.get_pairings();
    assert_eq!(pairings.len(), 7)
}

#[test]
fn get_name_and_names() {
    let santa = test_secret_santa();
    let tom = santa.get_name("Tom").unwrap();
    assert_eq!(tom.name, "Tom");
    assert_eq!(tom.blocklist, Some(vec!["Amy".to_string()]));
    assert!(santa.get_name("Zed").is_none());
    assert_eq!(santa.get_name("Ben").unwrap().paired_with, Some("Amy".to_string()));
    assert_eq!(santa.names(), vec!["Amy", "Chris", "Kara", "Tom", "Noel", "Gary", "Ben"]);
    assert!(SecretSanta::new().names().is_empty());
}

#[test]
fn second_instruction_on_a_name_is_refused() {
    let mut santa = SecretSanta::new();
    santa.add_instruction("Amy !Tom").unwrap();
    santa.add_instruction("Tom").unwrap();
    let e = santa.add_instruction(" Amy =Tom # again").unwrap_err();
    assert_eq!(e.msg, "recipient Amy already exists");
    assert_eq!(santa.names().len(), 2);
    let amy = santa.get_name("Amy").unwrap();
    assert_eq!(amy.blocklist, Some(vec!["Tom".to_string()]));
    assert!(amy.paired_with.is_none());
    santa.add_instruction("amy").unwrap();
    assert_eq!(santa.names().len(), 3);
}

#[test]
fn line_without_name_leaves_the_registry() {
    let mut santa = SecretSanta::new();
    santa.add_instruction("Amy").unwrap();
    let e = santa.add_instruction("# nothing").unwrap_err();
    assert_eq!(e.msg, "Could not determine participant from: ");
    let e = santa.add_instruction("").unwrap_err();
    assert_eq!(e.msg, "Could not determine participant from: ");
    assert_eq!(santa.names(), vec!["Amy"]);
}

#[test]
fn pairings_before_the_engine_ran() {
    let mut santa = SecretSanta::new();
    santa.add_instruction("Amy").unwrap();
    santa.add_instruction("Ben =Amy").unwrap();
    assert_eq!(
        santa.get_pairings(),
        vec![
            ("Amy".to_string(), "Undefined".to_string()),
            ("Ben".to_string(), "Amy".to_string())
        ]
    );
}

#[test]
fn infeasible_instructions_name_the_participant() {
    let mut santa = broken_secret_santa();
    let e = santa.generate_pairings().unwrap_err();
    assert_eq!(e.msg, "Instructions are too restrictive for Amy");
    let mut santa = SecretSanta::new();
    santa.add_instruction("Amy").unwrap();
    let e = santa.generate_pairings().unwrap_err();
    assert_eq!(e.msg, "Instructions are too restrictive for Amy");
}

#[test]
fn forced_pairing_is_respected() {
    for _ in 0..50 {
        let mut santa = SecretSanta::new();
        santa.add_instruction("Amy").unwrap();
        santa.add_instruction("Tom !Amy").unwrap();
        santa.add_instruction("Ben =Amy").unwrap();
        santa.generate_pairings().unwrap();
        assert_eq!(santa.get_name("Ben").unwrap().paired_with, Some("Amy".to_string()));
        assert_eq!(santa.get_name("Tom").unwrap().paired_with, Some("Ben".to_string()));
        assert_eq!(santa.get_name("Amy").unwrap().paired_with, Some("Tom".to_string()));
    }
}

#[test]
fn unknown_forced_giver_is_infeasible() {
    let mut santa = SecretSanta::new();
    santa.add_instruction("Amy").unwrap();
    santa.add_instruction("Ben =Zed").unwrap();
    assert_eq!(santa.unresolved_reference(), Some(1));
    let e = santa.generate_pairings().unwrap_err();
    assert_eq!(e.msg, "Instructions are too restrictive for Ben");
    assert!(santa.get_name("Amy").unwrap().paired_with.is_none());
}

#[test]
fn empty_registry_is_complete() {
    let mut santa = SecretSanta::new();
    santa.generate_pairings().unwrap();
    assert!(santa.get_pairings().is_empty());
    assert!(santa.next_choice().is_none());
}

#[test]
fn next_choice_is_the_most_constrained() {
    let santa = test_secret_santa();
    assert_eq!(
        santa.open_names(),
        vec!["Chris", "Kara", "Tom", "Noel", "Gary", "Ben"]
    );
    let (giver, candidates) = santa.next_choice().unwrap();
    assert_eq!(giver, 4);
    assert_eq!(candidates, vec!["Kara", "Gary", "Ben"]);
    let broken = broken_secret_santa();
    let (giver, candidates) = broken.next_choice().unwrap();
    assert_eq!(giver, 0);
    assert!(candidates.is_empty());
}

#[test]
fn assign_sets_one_pairing() {
    let mut santa = test_secret_santa();
    santa.assign(4, "Kara".to_string());
    assert_eq!(santa.get_name("Noel").unwrap().paired_with, Some("Kara".to_string()));
    assert_eq!(santa.get_name("Noel").unwrap().blocklist, Some(vec!["Tom".to_string(), "Chris".to_string()]));
    assert!(santa.get_name("Tom").unwrap().paired_with.is_none());
    assert_eq!(santa.open_names(), vec!["Chris", "Tom", "Noel", "Gary", "Ben"]);
}

#[test]
fn completed_assignment_is_a_bijection() {
    let mut done = 0;
    for _ in 0..200 {
        let mut santa = test_secret_santa();
        if santa.generate_pairings().is_err() {
            continue;
        }
        done += 1;
        let names = santa.names();
        let mut givers: Vec<String> = Vec::new();
        for name in names.iter() {
            let p = santa.get_name(name).unwrap();
            let g = p.paired_with.clone().unwrap();
            assert_ne!(&g, name);
            if let Some(b) = &p.blocklist {
                assert!(!b.contains(&g));
            }
            givers.push(g);
        }
        let mut a = names.clone();
        a.sort();
        givers.sort();
        assert_eq!(a, givers);
    }
    assert!(done > 0);
}

#[test]
fn random_choice_varies() {
    let mut seen = std::collections::HashSet::new();
    for _ in 0..200 {
        let mut santa = SecretSanta::new();
        for name in ["A", "B", "C", "D", "E"] {
            santa.add_instruction(name).unwrap();
        }
        if santa.generate_pairings().is_ok() {
            seen.insert(santa.get_pairings());
        }
    }
    assert!(seen.len() > 1);
}

fn three() -> SecretSanta {
    let mut santa = SecretSanta::new();
    for name in ["A", "B", "C"] {
        santa.add_instruction(name).unwrap();
    }
    santa
}

fn pair(a: &str, b: &str) -> (String, String) {
    (a.to_string(), b.to_string())
}

#[test]
fn picks_decide_the_pairings() {
    let mut santa = three();
    santa.generate_pairings_with(&vec![1]).unwrap();
    assert_eq!(santa.get_pairings(), vec![pair("A", "C"), pair("B", "A"), pair("C", "B")]);

    let mut santa = three();
    santa.generate_pairings_with(&vec![0]).unwrap();
    assert_eq!(santa.get_pairings(), vec![pair("A", "B"), pair("B", "C"), pair("C", "A")]);

    let mut santa = three();
    santa.generate_pairings_with(&Vec::new()).unwrap();
    assert_eq!(santa.get_pairings(), vec![pair("A", "B"), pair("B", "C"), pair("C", "A")]);

    let mut santa = three();
    santa.generate_pairings_with(&vec![5, 7, 9]).unwrap();
    assert_eq!(santa.get_pairings(), vec![pair("A", "C"), pair("B", "A"), pair("C", "B")]);
}

#[test]
fn same_picks_give_the_same_pairings() {
    let picks = vec![3, 1, 4, 1, 5, 9, 2, 6];
    let mut first = test_secret_santa();
    let r1 = first.generate_pairings_with(&picks).map_err(|e| e.msg);
    let mut second = test_secret_santa();
    let r2 = second.generate_pairings_with(&picks).map_err(|e| e.msg);
    assert_eq!(r1, r2);
    assert_eq!(first.get_pairings(), second.get_pairings());
}

#[test]
fn a_choice_is_never_undone() {
    let mut santa = SecretSanta::new();
    santa.add_instruction("A").unwrap();
    santa.add_instruction("B").unwrap();
    santa.add_instruction("C !A").unwrap();
    santa.add_instruction("D !A !B").unwrap();
    let (giver, candidates) = santa.next_choice().unwrap();
    assert_eq!(giver, 3);
    assert_eq!(candidates, vec!["C"]);
    let mut stuck = SecretSanta::new();
    stuck.add_instruction("A").unwrap();
    stuck.add_instruction("B !A").unwrap();
    stuck.add_instruction("C !A !B").unwrap();
    let e = stuck.generate_pairings_with(&Vec::new()).unwrap_err();
    assert_eq!(e.msg, "Instructions are too restrictive for C");
    assert!(stuck.get_name("A").unwrap().paired_with.is_none());
}

#[test]
fn forced_pairing_is_respected_with_picks() {
    for pick in 0..6 {
        let mut santa = SecretSanta::new();
        santa.add_instruction("Amy").unwrap();
        santa.add_instruction("Tom !Amy").unwrap();
        santa.add_instruction("Ben =Amy").unwrap();
        santa.generate_pairings_with(&vec![pick]).unwrap();
        assert_eq!(
            santa.get_pairings(),
            vec![pair("Amy", "Tom"), pair("Tom", "Ben"), pair("Ben", "Amy")]
        );
    }
}
