use fennel_ls::config::{settings, watch_action, Config, FileChange, WatchAction};
use fennel_ls::docs::Platform;
use fennel_ls::names::NameMap;
use fennel_ls::navigation::GlobalDoc;

fn doc(signature: &str) -> GlobalDoc {
    GlobalDoc { signature: signature.to_string(), doc: None }
}

#[test]
fn default_settings() {
    let s = settings(Config::new());
    assert!(s.platform.is_none());
    assert!(s.extra_globals.is_empty());
    assert!(s.global_docs.is_empty());
    assert!(!s.warn_unhooked_macros);
}

#[test]
fn platform_of_the_configuration() {
    let mut c = Config::new();
    c.platform = Some("luajit".to_string());
    assert!(matches!(settings(c).platform, Some(Platform::LuaJIT)));
    let mut c = Config::new();
    c.platform = Some("lua99".to_string());
    assert!(settings(c).platform.is_none());
}

#[test]
fn roots_of_documented_symbols_are_known() {
    let mut docs = NameMap::new();
    docs.insert("godot.print", doc("(godot.print x)"));
    docs.insert("godot.load", doc("(godot.load path)"));
    docs.insert("..", doc("(.. a b)"));
    let mut c = Config::new();
    c.known_globals = Some(vec!["love".to_string(), "love".to_string()]);
    c.global_docs = Some(docs);
    c.warn_unhooked_macros = Some(true);
    let s = settings(c);
    assert_eq!(s.extra_globals, vec!["love", "godot"]);
    assert_eq!(s.global_docs.get("godot.load").unwrap().signature, "(godot.load path)");
    assert!(s.warn_unhooked_macros);
}

#[test]
fn watched_files() {
    assert_eq!(watch_action(true, FileChange::Deleted), WatchAction::Invalidate);
    assert_eq!(watch_action(false, FileChange::Created), WatchAction::Reload);
    assert_eq!(watch_action(false, FileChange::Changed), WatchAction::Reload);
    assert_eq!(watch_action(false, FileChange::Deleted), WatchAction::Forget);
    assert_eq!(watch_action(false, FileChange::Other), WatchAction::Nothing);
}
