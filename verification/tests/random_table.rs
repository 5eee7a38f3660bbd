use rltk::RandomNumberGenerator;
use roguelike_mapgen::random_table::{RandomEntry, RandomTable};

#[test]
fn empty_table_rolls_none() {
    let table = RandomTable::new();
    assert_eq!(table.len(), 0);
    assert_eq!(table.total_weight(), 0);
    let mut rng = RandomNumberGenerator::seeded(1);
    for _ in 0..20 {
        assert_eq!(table.roll(&mut rng), "None");
    }
    assert_eq!(table.pick(0), "None");
    assert_eq!(table.pick_index(0), None);
}

#[test]
fn entry_new_keeps_what_it_is_given() {
    let entry = RandomEntry::new("Orc".to_string(), 3);
    let table = RandomTable::new().add("Orc", 3);
    assert_eq!(table.pick(0), "Orc");
    assert_eq!(table.pick(2), "Orc");
    assert_eq!(table.pick(3), "None");
    drop(entry);
}

#[test]
fn pick_finds_the_bucket_of_the_roll() {
    let table = RandomTable::new().add("A", 1).add("B", 3).add("C", 2);
    assert_eq!(table.len(), 3);
    assert_eq!(table.total_weight(), 6);
    assert_eq!(table.pick(0), "A");
    assert_eq!(table.pick(1), "B");
    assert_eq!(table.pick(2), "B");
    assert_eq!(table.pick(3), "B");
    assert_eq!(table.pick(4), "C");
    assert_eq!(table.pick(5), "C");
    assert_eq!(table.pick(6), "None");
    assert_eq!(table.pick(-1), "None");
    assert_eq!(table.pick_index(0), Some(0));
    assert_eq!(table.pick_index(3), Some(1));
    assert_eq!(table.pick_index(5), Some(2));
    assert_eq!(table.pick_index(6), None);
    assert_eq!(table.pick_index(-1), None);
}

#[test]
fn entries_without_weight_are_kept_and_never_rolled() {
    let table = RandomTable::new().add("Never", 0).add("A", 2).add("Less", -5).add("B", 1);
    assert_eq!(table.len(), 4);
    assert_eq!(table.total_weight(), 3);
    assert_eq!(table.pick(0), "A");
    assert_eq!(table.pick(1), "A");
    assert_eq!(table.pick(2), "B");
    assert_eq!(table.pick(3), "None");
    let mut rng = RandomNumberGenerator::seeded(77);
    for _ in 0..2000 {
        let name = table.roll(&mut rng);
        assert!(name == "A" || name == "B");
    }
}

#[test]
fn table_of_entries_without_weight_rolls_none() {
    let table = RandomTable::new().add("Never", 0).add("Less", -1);
    assert_eq!(table.total_weight(), 0);
    let mut rng = RandomNumberGenerator::seeded(3);
    assert_eq!(table.roll(&mut rng), "None");
}

#[test]
fn roll_is_fair_to_the_weights() {
    let table = RandomTable::new().add("A", 1).add("B", 3);
    let mut rng = RandomNumberGenerator::seeded(12345);
    let mut a = 0;
    let mut b = 0;
    for _ in 0..10000 {
        let name = table.roll(&mut rng);
        if name == "A" {
            a += 1;
        } else if name == "B" {
            b += 1;
        } else {
            panic!("rolled {}", name);
        }
    }
    assert_eq!(a + b, 10000);
    assert!(a > 2200 && a < 2800, "A came {} times", a);
    assert!(b > 7200 && b < 7800, "B came {} times", b);
}

#[test]
fn roll_shows_every_face_of_the_die() {
    let table = RandomTable::new().add("One", 1).add("Two", 1).add("Three", 1);
    let mut rng = RandomNumberGenerator::seeded(8);
    let mut seen = [false; 3];
    for _ in 0..300 {
        let name = table.roll(&mut rng);
        if name == "One" {
            seen[0] = true;
        } else if name == "Two" {
            seen[1] = true;
        } else if name == "Three" {
            seen[2] = true;
        } else {
            panic!("rolled {}", name);
        }
    }
    assert!(seen[0] && seen[1] && seen[2]);
}
