use pair_mutations::models::{Data, Member, PairingHistory};
use pair_mutations::pairs_handler::{generate_pairs, get_days_since_last_pair, get_optimal_pairing, pairs_to_string};

fn s(x: &str) -> String {
    x.to_string()
}

fn history_of(entries: Vec<(&str, Vec<Vec<&str>>)>) -> PairingHistory {
    let mut h = PairingHistory::new();
    for (date, groups) in entries {
        let groups: Vec<Vec<String>> = groups
            .into_iter()
            .map(|g| g.into_iter().map(|n| n.to_string()).collect())
            .collect();
        h.insert_entry(date.to_string(), groups);
    }
    h
}

fn roster(names: &[&str]) -> Vec<Member> {
    names.iter().map(|n| Member::new(n)).collect()
}

fn assert_valid_partition(assignment: &Vec<Vec<String>>, names: &[&str]) {
    let n = names.len();
    assert_eq!(assignment.len(), (n + 1) / 2, "group count must be ceil(n/2)");
    let mut seen: Vec<String> = Vec::new();
    let mut singles = 0;
    for group in assignment {
        assert!(group.len() == 1 || group.len() == 2, "groups have 1 or 2 members");
        if group.len() == 1 {
            singles += 1;
        }
        for member in group {
            assert!(!seen.contains(member), "member appears once: {}", member);
            assert!(names.contains(&member.as_str()), "member from roster: {}", member);
            seen.push(member.clone());
        }
    }
    assert_eq!(seen.len(), n, "every roster member is placed");
    assert_eq!(singles, n % 2, "one singleton iff roster size is odd");
}

#[test]
fn recency_scenario() {
    let h = history_of(vec![
        ("2024-01-01", vec![vec!["A", "B"]]),
        ("2024-01-03", vec![vec!["A", "C"]]),
    ]);
    assert_eq!(get_days_since_last_pair(&h, "A", Some("C")), 0);
    assert_eq!(get_days_since_last_pair(&h, "A", Some("B")), 1);
    assert_eq!(get_days_since_last_pair(&h, "B", Some("C")), 2);
}

#[test]
fn recency_insertion_order_irrelevant() {
    let h = history_of(vec![
        ("2024-01-03", vec![vec!["A", "C"]]),
        ("2024-01-01", vec![vec!["A", "B"]]),
    ]);
    assert_eq!(get_days_since_last_pair(&h, "A", Some("C")), 0);
    assert_eq!(get_days_since_last_pair(&h, "A", Some("B")), 1);
}

#[test]
fn recency_singleton_lookup() {
    let h = history_of(vec![
        ("2024-01-01", vec![vec!["A", "B"]]),
        ("2024-01-03", vec![vec!["C"]]),
    ]);
    assert_eq!(get_days_since_last_pair(&h, "A", None), 1);
    assert_eq!(get_days_since_last_pair(&h, "C", None), 0);
    assert_eq!(get_days_since_last_pair(&h, "D", None), 2);
}

#[test]
fn recency_empty_history() {
    let h = PairingHistory::new();
    assert_eq!(get_days_since_last_pair(&h, "A", Some("B")), 0);
    assert_eq!(get_days_since_last_pair(&h, "A", None), 0);
}

#[test]
fn maximization_witness() {
    let h = history_of(vec![("2024-05-01", vec![vec!["A", "B"], vec!["C", "D"]])]);
    let members = roster(&["A", "B", "C", "D"]);
    let assignment = generate_pairs(&members, &h);
    assert_valid_partition(&assignment, &["A", "B", "C", "D"]);
    for group in &assignment {
        let has = |n: &str| group.contains(&n.to_string());
        assert!(!(has("A") && has("B")), "must not re-pair A with B");
        assert!(!(has("C") && has("D")), "must not re-pair C with D");
    }
}

#[test]
fn empty_history_bootstrap() {
    let h = PairingHistory::new();
    let members = roster(&["A", "B", "C"]);
    let assignment = generate_pairs(&members, &h);
    assert_valid_partition(&assignment, &["A", "B", "C"]);
}

#[test]
fn partition_completeness_various_sizes() {
    let h = history_of(vec![("2024-02-02", vec![vec!["A", "D"], vec!["B"]])]);
    let names: [&str; 6] = ["A", "B", "C", "D", "E", "F"];
    for n in 0..=6usize {
        let members = roster(&names[..n]);
        let assignment = generate_pairs(&members, &h);
        assert_valid_partition(&assignment, &names[..n]);
    }
}

#[test]
fn determinism_repeated_runs() {
    let h = history_of(vec![
        ("2024-01-01", vec![vec!["A", "B"], vec!["C", "D"]]),
        ("2024-01-08", vec![vec!["A", "C"], vec!["B", "D"]]),
    ]);
    let members = roster(&["A", "B", "C", "D", "E"]);
    let first = generate_pairs(&members, &h);
    let second = generate_pairs(&members, &h);
    assert_eq!(first, second, "identical inputs give an identical assignment");
}

#[test]
fn optimal_pairing_keeps_accumulated_groups() {
    let h = PairingHistory::new();
    let remaining = vec![s("C"), s("D")];
    let pairs = vec![vec![s("A"), s("B")]];
    let out = get_optimal_pairing(&h, &remaining, &pairs);
    assert_eq!(out.len(), 2);
    assert_eq!(out[0], vec![s("A"), s("B")]);
    assert_eq!(out[1], vec![s("C"), s("D")]);
}

#[test]
fn optimal_pairing_trivial_inputs() {
    let h = PairingHistory::new();
    let none: Vec<String> = Vec::new();
    let acc: Vec<Vec<String>> = Vec::new();
    assert_eq!(get_optimal_pairing(&h, &none, &acc), Vec::<Vec<String>>::new());
    let one = vec![s("Z")];
    assert_eq!(get_optimal_pairing(&h, &one, &acc), vec![vec![s("Z")]]);
}

#[test]
fn rendering_delimiters() {
    let assignment = vec![vec![s("A"), s("B")], vec![s("C")]];
    assert_eq!(pairs_to_string(assignment), "A+B C");
}

#[test]
fn rendering_single_pair_and_empty() {
    assert_eq!(pairs_to_string(vec![vec![s("A"), s("B")]]), "A+B");
    assert_eq!(pairs_to_string(Vec::new()), "");
    assert_eq!(pairs_to_string(vec![vec![s("Solo")]]), "Solo");
}

#[test]
fn data_roster_and_history() {
    let mut data = Data::new();
    data.add_member(s("A"));
    data.add_member(s("B"));
    data.add_member(s("A"));
    assert_eq!(data.members, vec![s("A"), s("B")]);

    data.add_entry(s("2024-03-01"), vec![vec![s("A"), s("B")]]);
    assert_eq!(get_days_since_last_pair(&data.history, "A", Some("B")), 0);

    // Re-running on the same date overwrites that date's groups.
    data.add_entry(s("2024-03-01"), vec![vec![s("A")], vec![s("B")]]);
    assert_eq!(data.history.entries.len(), 1);
    assert_eq!(get_days_since_last_pair(&data.history, "A", Some("B")), 1);
    assert_eq!(get_days_since_last_pair(&data.history, "A", None), 0);
}

#[test]
fn member_flags_start_clear() {
    let m = Member::new("A");
    assert_eq!(m.name, "A");
    assert!(!m.ooo && !m.carry && !m.solo && !m.new);
}

#[test]
fn maximization_avoids_all_recent_pairs() {
    let h = history_of(vec![(
        "2024-06-01",
        vec![vec!["A", "B"], vec!["C", "D"], vec!["E", "F"]],
    )]);
    let names = ["A", "B", "C", "D", "E", "F"];
    let assignment = generate_pairs(&roster(&names), &h);
    assert_valid_partition(&assignment, &names);
    for group in &assignment {
        let has = |n: &str| group.contains(&n.to_string());
        assert!(!(has("A") && has("B")));
        assert!(!(has("C") && has("D")));
        assert!(!(has("E") && has("F")));
    }
}
