use monkeygang_server::database::{add_record, get_records, Database};

fn empty_board() -> Database {
    Database::new("board.txt".to_string(), b"").unwrap()
}

fn entries(db: &Database) -> Vec<(String, u32, u32)> {
    db.top(db.len()).iter().map(|r| (r.name.clone(), r.wave, r.time)).collect()
}

fn entry(name: &str, wave: u32, time: u32) -> (String, u32, u32) {
    (name.to_string(), wave, time)
}

fn is_ranked(all: &[(String, u32, u32)]) -> bool {
    all.windows(2).all(|w| w[0].1 > w[1].1 || (w[0].1 == w[1].1 && w[0].2 <= w[1].2))
}

fn is_one_per_player(all: &[(String, u32, u32)]) -> bool {
    (0..all.len()).all(|i| (i + 1..all.len()).all(|j| all[i].0 != all[j].0))
}

#[test]
fn same_wave_keeps_the_shorter_time() {
    let mut db = empty_board();
    add_record(&mut db, "A".to_string(), 5, 10);
    add_record(&mut db, "A".to_string(), 5, 7);
    assert_eq!(entries(&db), vec![entry("A", 5, 7)]);
}

#[test]
fn same_wave_ignores_a_longer_time() {
    let mut db = empty_board();
    add_record(&mut db, "A".to_string(), 5, 7);
    add_record(&mut db, "A".to_string(), 5, 10);
    assert_eq!(entries(&db), vec![entry("A", 5, 7)]);
}

#[test]
fn lower_wave_does_not_regress_the_record() {
    let mut db = empty_board();
    add_record(&mut db, "A".to_string(), 5, 10);
    add_record(&mut db, "A".to_string(), 3, 1);
    assert_eq!(entries(&db), vec![entry("A", 5, 10)]);
}

#[test]
fn higher_wave_replaces_wave_and_time() {
    let mut db = empty_board();
    add_record(&mut db, "A".to_string(), 5, 10);
    add_record(&mut db, "A".to_string(), 6, 99);
    assert_eq!(entries(&db), vec![entry("A", 6, 99)]);
}

#[test]
fn entries_stand_by_wave_then_time() {
    let mut db = empty_board();
    add_record(&mut db, "slow".to_string(), 4, 30);
    add_record(&mut db, "deep".to_string(), 9, 80);
    add_record(&mut db, "fast".to_string(), 4, 12);
    add_record(&mut db, "last".to_string(), 1, 1);
    assert_eq!(
        entries(&db),
        vec![entry("deep", 9, 80), entry("fast", 4, 12), entry("slow", 4, 30), entry("last", 1, 1)]
    );
}

#[test]
fn an_equal_entry_goes_before_the_one_it_ties_with() {
    let mut db = empty_board();
    add_record(&mut db, "first".to_string(), 4, 30);
    add_record(&mut db, "second".to_string(), 4, 30);
    assert_eq!(entries(&db), vec![entry("second", 4, 30), entry("first", 4, 30)]);
}

#[test]
fn an_improved_entry_moves_up() {
    let mut db = empty_board();
    add_record(&mut db, "a".to_string(), 7, 10);
    add_record(&mut db, "b".to_string(), 5, 10);
    add_record(&mut db, "c".to_string(), 3, 10);
    add_record(&mut db, "c".to_string(), 6, 50);
    assert_eq!(entries(&db), vec![entry("a", 7, 10), entry("c", 6, 50), entry("b", 5, 10)]);
    add_record(&mut db, "b".to_string(), 7, 9);
    assert_eq!(entries(&db), vec![entry("b", 7, 9), entry("a", 7, 10), entry("c", 6, 50)]);
}

#[test]
fn every_submission_leaves_the_board_ranked_with_one_entry_per_player() {
    let mut db = empty_board();
    let calls: [(&str, u32, u32); 12] = [
        ("ann", 3, 40),
        ("bob", 3, 40),
        ("cy", 8, 5),
        ("ann", 3, 12),
        ("dee", 0, 0),
        ("bob", 9, 100),
        ("cy", 2, 1),
        ("eve", 8, 5),
        ("ann", 8, 4),
        ("dee", 0, 0),
        ("fay", 4294967295, 4294967295),
        ("fay", 4294967295, 0),
    ];
    for (name, wave, time) in calls {
        add_record(&mut db, name.to_string(), wave, time);
        let all = entries(&db);
        assert!(is_ranked(&all));
        assert!(is_one_per_player(&all));
    }
    assert_eq!(
        entries(&db),
        vec![
            entry("fay", 4294967295, 0),
            entry("bob", 9, 100),
            entry("ann", 8, 4),
            entry("eve", 8, 5),
            entry("cy", 8, 5),
            entry("dee", 0, 0),
        ]
    );
}

#[test]
fn top_of_an_empty_board_is_empty() {
    let db = empty_board();
    assert_eq!(get_records(&db).len(), 0);
    assert_eq!(db.top(10).len(), 0);
    assert_eq!(db.len(), 0);
}

#[test]
fn top_of_fifteen_entries_is_the_first_ten() {
    let mut db = empty_board();
    for i in 0..15u32 {
        add_record(&mut db, format!("q{}", i), i, 100 - i);
    }
    assert_eq!(db.len(), 15);
    let best = get_records(&db);
    assert_eq!(best.len(), 10);
    for (k, record) in best.iter().enumerate() {
        let i = 14 - k as u32;
        assert_eq!((record.name.as_str(), record.wave, record.time), (format!("q{}", i).as_str(), i, 100 - i));
    }
}

#[test]
fn top_returns_as_many_as_asked_for() {
    let mut db = empty_board();
    for i in 0..5u32 {
        add_record(&mut db, format!("q{}", i), i, 0);
    }
    assert_eq!(db.top(0).len(), 0);
    assert_eq!(db.top(3).len(), 3);
    assert_eq!(db.top(3)[0].name, "q4");
    assert_eq!(db.top(3)[2].name, "q2");
    assert_eq!(db.top(5).len(), 5);
    assert_eq!(db.top(usize::MAX).len(), 5);
    assert_eq!(get_records(&db).len(), 5);
}

#[test]
fn top_does_not_change_the_board() {
    let mut db = empty_board();
    add_record(&mut db, "a".to_string(), 1, 1);
    add_record(&mut db, "b".to_string(), 2, 2);
    let before = entries(&db);
    let _ = get_records(&db);
    let _ = db.top(1);
    assert_eq!(entries(&db), before);
}

#[test]
fn two_players_both_survive_in_either_order() {
    let mut one = empty_board();
    add_record(&mut one, "x".to_string(), 2, 9);
    add_record(&mut one, "a".to_string(), 5, 10);
    add_record(&mut one, "b".to_string(), 6, 3);
    let mut other = empty_board();
    add_record(&mut other, "x".to_string(), 2, 9);
    add_record(&mut other, "b".to_string(), 6, 3);
    add_record(&mut other, "a".to_string(), 5, 10);
    let expected = vec![entry("b", 6, 3), entry("a", 5, 10), entry("x", 2, 9)];
    assert_eq!(entries(&one), expected);
    assert_eq!(entries(&other), expected);
    let names: Vec<String> = get_records(&one).iter().map(|r| r.name.clone()).collect();
    assert_eq!(names, vec!["b".to_string(), "a".to_string(), "x".to_string()]);
}

#[test]
fn names_differ_by_every_character() {
    let mut db = empty_board();
    add_record(&mut db, "A".to_string(), 1, 1);
    add_record(&mut db, "a".to_string(), 1, 1);
    add_record(&mut db, "A ".to_string(), 1, 1);
    add_record(&mut db, "".to_string(), 1, 1);
    assert_eq!(db.len(), 4);
}

#[test]
fn the_path_is_kept() {
    let mut db = Database::new("some/where.txt".to_string(), b"").unwrap();
    add_record(&mut db, "a".to_string(), 1, 1);
    assert_eq!(db.path(), "some/where.txt");
}

#[test]
fn only_the_first_of_two_entries_of_a_player_is_merged() {
    let mut db = Database::new("p".to_string(), b"a\n5\n1\nb\n4\n1\na\n3\n1\n").unwrap();
    add_record(&mut db, "a".to_string(), 5, 0);
    assert_eq!(entries(&db), vec![entry("a", 5, 0), entry("b", 4, 1), entry("a", 3, 1)]);
}
