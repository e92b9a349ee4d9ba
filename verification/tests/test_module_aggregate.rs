use cultist::precedent::TestModuleOccurrence;
use cultist::test_module_aggregate::TestModulePrecedent;

fn occurrence(name: &str, path: &str, line: usize) -> TestModuleOccurrence {
    TestModuleOccurrence {
        name: name.to_string(),
        path: path.to_string(),
        line,
    }
}

#[test]
fn overlay_arithmetic_matches_direct_counting() {
    let occurrences = vec![
        occurrence("tests", "/repo/src/a.rs", 1),
        occurrence("tests", "/repo/src/b.rs", 2),
        occurrence("unit_tests", "/repo/src/c.rs", 3),
    ];
    let precedent = TestModulePrecedent::from_occurrences(&occurrences);
    assert_eq!(precedent.total, 3);

    let (excluding_target, total) = precedent.excluding("tests");
    assert_eq!(excluding_target.get("tests"), Some(1));
    assert_eq!(excluding_target.get("unit_tests"), Some(1));
    assert_eq!(total, 2);

    let (absent, total) = precedent.excluding("missing");
    assert_eq!(absent.get("missing"), None);
    assert_eq!(total, 2);
}

#[test]
fn excluding_the_last_occurrence_removes_the_name() {
    let precedent = TestModulePrecedent::from_occurrences(&vec![occurrence("tests", "/r/a.rs", 1)]);
    let (counts, total) = precedent.excluding("tests");
    assert_eq!(counts.get("tests"), None);
    assert!(counts.entries.is_empty());
    assert_eq!(total, 0);

    let empty = TestModulePrecedent::empty();
    let (counts, total) = empty.excluding("tests");
    assert!(counts.entries.is_empty());
    assert_eq!(total, 0);
}

#[test]
fn adding_occurrences_counts_each_name() {
    let mut precedent = TestModulePrecedent::empty();
    precedent.add("tests");
    precedent.add("it");
    precedent.add("tests");
    assert_eq!(precedent.total, 3);
    assert_eq!(precedent.name_counts.get("tests"), Some(2));
    assert_eq!(precedent.name_counts.get("it"), Some(1));
    assert_eq!(precedent.name_counts.get("other"), None);
}
