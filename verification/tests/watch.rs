use sentinel::watch::ChangeSet;

fn path_parts(p: &[&str]) -> Vec<String> {
    p.iter().map(|s| s.to_string()).collect()
}

#[test]
fn changes_keep_watchable_paths_once_in_order() {
    let mut c = ChangeSet::new();
    c.note_event(true, &vec![path_parts(&["/", "app", "b.rb"]), path_parts(&["/", "app", ".!9!b.rb"]), path_parts(&["/", "app", "a.rb"])]);
    c.note_event(true, &vec![path_parts(&["/", "app", "b.rb"]), path_parts(&["/", "app", "c.rb~"]), path_parts(&["/", "app", "c.rb"])]);
    assert_eq!(
        c.paths(),
        &vec![path_parts(&["/", "app", "b.rb"]), path_parts(&["/", "app", "a.rb"]), path_parts(&["/", "app", "c.rb"])]
    );
}

#[test]
fn changes_ignore_other_event_kinds() {
    let mut c = ChangeSet::new();
    c.note_event(false, &vec![path_parts(&["/", "app", "b.rb"])]);
    assert!(c.paths().is_empty());
    c.note_event(true, &vec![path_parts(&["/", "app", "notes.txt"]), path_parts(&["/", ".."])]);
    assert!(c.paths().is_empty());
}
