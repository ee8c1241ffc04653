use dockerops::document::YamlError;
use dockerops::ledger::{Image, ImageTable, SweepStep};

fn image(name: &str, reference_count: u64) -> Image {
    Image::new(name.to_string(), reference_count)
}

fn table_of(images: &[(&str, u64)]) -> ImageTable {
    let mut table = ImageTable::new();
    for (name, count) in images {
        assert!(table.create_image(image(name, *count)));
    }
    table
}

#[test]
fn new_ledger_is_empty() {
    assert!(ImageTable::new().get_all_images().is_empty());
}

#[test]
fn first_sighting_creates_a_record_with_count_one() {
    let mut table = ImageTable::new();
    table.update_image_reference("nginx");
    assert_eq!(table.get_all_images(), vec![image("nginx", 1)]);
}

#[test]
fn further_sightings_add_one_each() {
    let mut table = ImageTable::new();
    table.update_image_reference("nginx");
    table.update_image_reference("redis");
    table.update_image_reference("nginx");
    table.update_image_reference("nginx");
    assert_eq!(table.get_all_images(), vec![image("nginx", 3), image("redis", 1)]);
    assert_eq!(table.get_image_by_name("nginx"), Some(&image("nginx", 3)));
    assert_eq!(table.get_image_by_name("postgres"), None);
}

#[test]
fn names_are_matched_exactly() {
    let mut table = ImageTable::new();
    table.update_image_reference("nginx");
    table.update_image_reference("nginx:latest");
    table.update_image_reference("Nginx");
    assert_eq!(
        table.get_all_images(),
        vec![image("Nginx", 1), image("nginx", 1), image("nginx:latest", 1)]
    );
}

#[test]
fn counter_holds_at_its_largest_value() {
    let mut table = table_of(&[("nginx", u64::MAX - 1)]);
    table.update_image_reference("nginx");
    assert_eq!(table.get_all_images(), vec![image("nginx", u64::MAX)]);
    table.update_image_reference("nginx");
    assert_eq!(table.get_all_images(), vec![image("nginx", u64::MAX)]);
}

#[test]
fn creating_an_image_twice_keeps_the_first_record() {
    let mut table = ImageTable::new();
    assert!(table.create_image(image("nginx", 2)));
    assert!(!table.create_image(image("nginx", 9)));
    assert_eq!(table.get_all_images(), vec![image("nginx", 2)]);
}

#[test]
fn setting_a_count_touches_one_record() {
    let mut table = table_of(&[("a", 1), ("b", 2)]);
    table.update_image_reference_count("b", 7);
    table.update_image_reference_count("missing", 5);
    assert_eq!(table.get_all_images(), vec![image("a", 1), image("b", 7)]);
}

#[test]
fn reset_sets_every_count_to_zero() {
    let mut table = table_of(&[("a", 3), ("b", 0), ("c", 8)]);
    table.reset_image_reference_counts();
    assert_eq!(table.get_all_images(), vec![image("a", 0), image("b", 0), image("c", 0)]);
}

#[test]
fn records_with_count_zero_are_dropped() {
    let mut table = table_of(&[("a", 0), ("b", 2), ("c", 0), ("d", 1)]);
    table.delete_images_with_zero_count();
    assert_eq!(table.get_all_images(), vec![image("b", 2), image("d", 1)]);
}

#[test]
fn document_images_are_counted() {
    let mut table = ImageTable::new();
    let found = table
        .process_yaml_file("services:\n  a:\n    image: nginx\n  b:\n    image: redis\n  c:\n    image: nginx\n")
        .unwrap();
    assert_eq!(found, vec!["nginx", "redis", "nginx"]);
    assert_eq!(table.get_all_images(), vec![image("nginx", 2), image("redis", 1)]);
}

#[test]
fn unreadable_document_counts_for_nothing() {
    let mut table = table_of(&[("nginx", 1)]);
    assert!(matches!(table.process_yaml_file("a: [b"), Err(YamlError::Parse(_))));
    assert_eq!(table.get_all_images(), vec![image("nginx", 1)]);
}

#[test]
fn counts_are_those_of_the_current_pass_only() {
    let mut table = table_of(&[("old", 4), ("nginx", 9)]);
    table.reset_image_reference_counts();
    table.process_yaml_file("services:\n  a:\n    image: nginx\n").unwrap();
    table.process_yaml_file("services:\n  b:\n    image: nginx\n  c:\n    image: redis\n").unwrap();
    table.process_yaml_file("services:\n  d:\n    image: redis\n").unwrap();
    let sweep = table.process_images();
    assert_eq!(
        sweep,
        vec![
            ("nginx".to_string(), SweepStep::Check),
            ("old".to_string(), SweepStep::Evict),
            ("redis".to_string(), SweepStep::Check),
        ]
    );
    assert_eq!(table.get_all_images(), vec![image("nginx", 2), image("redis", 2)]);
    assert_eq!(table.get_image_by_name("old"), None);
}

#[test]
fn sweep_of_an_empty_ledger_is_empty() {
    let mut table = ImageTable::new();
    assert!(table.process_images().is_empty());
}

#[test]
fn images_are_listed_by_name() {
    let mut table = ImageTable::new();
    for name in ["b", "a", "c", "ab", "", "B", "\u{e9}", "a/b:1"] {
        table.update_image_reference(name);
    }
    let listed: Vec<String> = table.get_all_images().into_iter().map(|i| i.name).collect();
    assert_eq!(listed, vec!["", "B", "a", "a/b:1", "ab", "b", "c", "\u{e9}"]);
    let mut sorted = listed.clone();
    sorted.sort();
    assert_eq!(listed, sorted);
}

#[test]
fn sweep_takes_the_images_by_name() {
    let mut table = table_of(&[("b", 1), ("a", 0), ("c", 2)]);
    assert_eq!(
        table.process_images(),
        vec![
            ("a".to_string(), SweepStep::Evict),
            ("b".to_string(), SweepStep::Check),
            ("c".to_string(), SweepStep::Check),
        ]
    );
    assert_eq!(table.get_all_images(), vec![image("b", 1), image("c", 2)]);
}

#[test]
fn text_order_is_that_of_strings() {
    let samples = ["", "a", "A", "ab", "b", "a:", "a/", "\u{e9}", "\u{4e16}", "z", "\u{1f600}", "aa", "a\u{0}"];
    for a in samples {
        for b in samples {
            assert_eq!(dockerops::text::comes_before(a, b), a <= b, "{:?} {:?}", a, b);
        }
    }
}
