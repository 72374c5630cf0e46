//! Names.

use nixcon_quiz::names::{generate, name_from, Taken, ADJECTIVES, NOUNS};

fn draws(first: &str) -> Vec<String> {
    let mut draws = vec!["Pure Flake".to_string(); 33];
    draws[0] = first.to_string();
    draws
}

#[test]
fn names_are_an_adjective_and_a_noun() {
    let name = generate(&Taken::new());
    assert!(
        ADJECTIVES
            .iter()
            .any(|a| NOUNS.iter().any(|n| name == format!("{a} {n}"))),
        "{name}"
    );
}

#[test]
fn the_first_free_name_is_taken() {
    let mut taken = Taken::new();
    assert_eq!(name_from(&taken, &draws("Lazy Hash")), "Lazy Hash");
    taken.insert("Lazy Hash".to_string());
    assert_eq!(name_from(&taken, &draws("Lazy Hash")), "Pure Flake");
    taken.remove("Lazy Hash");
    assert!(!taken.contains("Lazy Hash"));
    assert_eq!(name_from(&taken, &draws("Lazy Hash")), "Lazy Hash");
}

/// All plain names but those given are taken.
fn all_but(free: &[&str]) -> Taken {
    let mut taken = Taken::new();
    for a in ADJECTIVES {
        for n in NOUNS {
            let name = format!("{a} {n}");
            if !free.contains(&name.as_str()) {
                taken.insert(name);
            }
        }
    }
    taken
}

#[test]
fn a_number_is_appended_once_names_run_out() {
    let mut taken = all_but(&[]);
    assert_eq!(name_from(&taken, &draws("Pure Flake")), "Pure Flake 2");
    taken.insert("Pure Flake 2".to_string());
    taken.insert("Pure Flake 4".to_string());
    assert_eq!(name_from(&taken, &draws("Pure Flake")), "Pure Flake 3");
    let name = generate(&taken);
    assert!(name.ends_with(" 2") || name == "Pure Flake 3", "{name}");
    assert!(!taken.contains(&name));
}

#[test]
fn a_free_plain_name_is_found_before_a_number_is_appended() {
    let taken = all_but(&["Overridden Output"]);
    assert_eq!(name_from(&taken, &draws("Pure Flake")), "Overridden Output");
    for _ in 0..20 {
        assert_eq!(generate(&taken), "Overridden Output");
    }
    let taken = all_but(&["Lazy Output", "Pure Derivation"]);
    assert_eq!(
        name_from(&taken, &draws("Pure Flake")),
        "Lazy Output",
        "the first in the row"
    );
}
