use template_editor::store::TemplateStore;

fn store_from(texts: &[&str]) -> TemplateStore {
    let items: Vec<String> = texts.iter().map(|t| t.to_string()).collect();
    TemplateStore::load(items)
}

fn texts_of(store: &TemplateStore) -> Vec<String> {
    let mut out = Vec::new();
    let mut k = 0;
    while k < store.len() {
        out.push(store.text_at(k).clone());
        k += 1;
    }
    out
}

fn ids_of(store: &TemplateStore) -> Vec<usize> {
    let mut out = Vec::new();
    let mut k = 0;
    while k < store.len() {
        out.push(store.id_at(k));
        k += 1;
    }
    out
}

#[test]
fn load_assigns_positions_as_ids() {
    let store = store_from(&["a", "b", "c"]);
    assert_eq!(texts_of(&store), vec!["a", "b", "c"]);
    assert_eq!(ids_of(&store), vec![0, 1, 2]);
    assert_eq!(store.next_id, 3);
    assert_eq!(store.new_template.as_str(), "");
}

#[test]
fn append_assigns_fresh_ids() {
    let mut store = store_from(&[]);
    store.append("first".to_string());
    store.append("second".to_string());
    store.append("third".to_string());
    assert_eq!(ids_of(&store), vec![0, 1, 2]);
    assert_eq!(texts_of(&store), vec!["first", "second", "third"]);
}

#[test]
fn push_template_commits_and_clears_input() {
    let mut store = store_from(&["a"]);
    store.new_template = "hello".to_string();
    store.push_template();
    assert_eq!(texts_of(&store), vec!["a", "hello"]);
    assert_eq!(ids_of(&store), vec![0, 1]);
    assert_eq!(store.new_template.as_str(), "");
    assert_eq!(store.next_id, 2);
}

#[test]
fn identity_over_position() {
    // Items with ids [0, 1, 2] in order [A, B, C]; after reordering to
    // [C, A, B], removing id 1 (B) must follow the identity, not a position.
    let mut store = store_from(&["A", "B", "C"]);
    let order = vec![2usize, 0, 1];
    store.reorder(&order);
    assert_eq!(texts_of(&store), vec!["C", "A", "B"]);
    assert_eq!(ids_of(&store), vec![2, 0, 1]);
    store.remove(1);
    assert_eq!(texts_of(&store), vec!["C", "A"]);
    assert_eq!(ids_of(&store), vec![2, 0]);
}

#[test]
fn noop_safety_on_absent_id() {
    let mut store = store_from(&["x", "y"]);
    store.remove(999);
    store.update_text(999, "z".to_string());
    assert_eq!(texts_of(&store), vec!["x", "y"]);
    assert_eq!(ids_of(&store), vec![0, 1]);
    assert_eq!(store.next_id, 2);
}

#[test]
fn update_text_keeps_position_and_ids() {
    let mut store = store_from(&["a", "b", "c"]);
    store.update_text(1, "edited".to_string());
    assert_eq!(texts_of(&store), vec!["a", "edited", "c"]);
    assert_eq!(ids_of(&store), vec![0, 1, 2]);
}

#[test]
fn remove_moves_last_into_freed_slot() {
    let mut store = store_from(&["a", "b", "c"]);
    store.remove(0);
    assert_eq!(texts_of(&store), vec!["c", "b"]);
    assert_eq!(ids_of(&store), vec![2, 1]);
    assert_eq!(store.next_id, 3);
}

#[test]
fn remove_does_not_free_ids() {
    let mut store = store_from(&["a", "b"]);
    store.remove(1);
    store.append("c".to_string());
    assert_eq!(ids_of(&store), vec![0, 2]);
}

#[test]
fn ids_stay_distinct_through_operations() {
    let mut store = store_from(&["a", "b", "c"]);
    store.remove(1);
    store.append("d".to_string());
    store.append("e".to_string());
    store.remove(0);
    store.append("f".to_string());
    let ids = ids_of(&store);
    for i in 0..ids.len() {
        for j in 0..ids.len() {
            if i != j {
                assert_ne!(ids[i], ids[j]);
            }
        }
    }
}

#[test]
fn reorder_keeps_pairs_together() {
    let mut store = store_from(&["a", "b", "c", "d"]);
    let order = vec![3usize, 1, 0, 2];
    store.reorder(&order);
    assert_eq!(texts_of(&store), vec!["d", "b", "a", "c"]);
    assert_eq!(ids_of(&store), vec![3, 1, 0, 2]);
    assert_eq!(store.next_id, 4);
}
