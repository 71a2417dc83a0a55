use template_editor::gateway::load_from_raw;
use template_editor::gateway::save_payload;
use template_editor::shell::MyApp;
use template_editor::store::TemplateStore;

#[test]
fn write_through_survives_reload() {
    // A fresh store, one committed template, then a reload of what the
    // gateway would have written: the text is back at its position.
    let mut store = TemplateStore::load(Vec::new());
    store.new_template = "hello".to_string();
    store.push_template();
    store.append("world".to_string());
    let doc = save_payload(&store.texts_vec());

    let reloaded = TemplateStore::load(load_from_raw(Some(doc)));
    assert_eq!(reloaded.len(), 2);
    assert_eq!(reloaded.text_at(0).as_str(), "hello");
    assert_eq!(reloaded.text_at(1).as_str(), "world");
    assert_eq!(reloaded.id_at(0), 0);
    assert_eq!(reloaded.id_at(1), 1);
}

#[test]
fn load_from_raw_collapses_failures_to_empty() {
    assert_eq!(load_from_raw(None), Vec::<String>::new());
    assert_eq!(load_from_raw(Some("".to_string())), Vec::<String>::new());
    assert_eq!(load_from_raw(Some("not json".to_string())), Vec::<String>::new());
    assert_eq!(load_from_raw(Some("{}".to_string())), Vec::<String>::new());
    assert_eq!(
        load_from_raw(Some("{\"templates\": [1, 2]}".to_string())),
        Vec::<String>::new(),
    );
}

#[test]
fn load_from_raw_reads_a_good_document() {
    let items = load_from_raw(Some("{\"templates\": [\"a\", \"b\"]}".to_string()));
    assert_eq!(items, vec!["a".to_string(), "b".to_string()]);
}

#[test]
fn save_payload_is_the_encoding() {
    let items = vec!["a".to_string(), "b".to_string()];
    assert_eq!(save_payload(&items), "{\"templates\":[\"a\",\"b\"]}");
}

#[test]
fn data_file_follows_data_dir() {
    // Path resolution degrades together: the file is available exactly when
    // the directory is.
    assert_eq!(MyApp::get_data_dir().is_some(), MyApp::get_data_file().is_some());
}
