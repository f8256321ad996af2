use docpager::db::{next_fetch_step, Context, DocumentStore, FetchOutcome, FetchStep, Session, SessionStore};
use docpager::model::Documentation;
use docpager::path::{DocPath, DocPathParseError};

#[test]
fn parse_std_path() {
    let p = DocPath::parse("  std::vec::Vec ").unwrap();
    assert_eq!(p.crate_name, "std");
    assert_eq!(p.modules, vec!["std".to_string(), "vec".to_string()]);
    assert_eq!(p.item_name, "Vec");
}

#[test]
fn parse_single_segment() {
    let p = DocPath::parse("serde-json").unwrap();
    assert_eq!(p.crate_name, "serde-json");
    assert!(p.modules.is_empty());
    assert_eq!(p.item_name, "serde-json");
}

#[test]
fn dashes_become_underscores_past_the_crate() {
    let p = DocPath::parse("my-crate::sub-mod::do-it").unwrap();
    assert_eq!(p.modules, vec!["my-crate".to_string(), "sub_mod".to_string()]);
    assert_eq!(p.item_name, "do_it");
}

#[test]
fn blank_path_is_the_empty_crate() {
    let p = DocPath::parse("   ").unwrap();
    assert_eq!(p.crate_name, "");
    assert!(p.modules.is_empty());
    assert_eq!(p.item_name, "");
    assert!(DocPath::parse("").is_ok());
}

#[test]
fn parse_errors() {
    assert_eq!(DocPath::parse("std::ve c").unwrap_err(), DocPathParseError::InvalidCharAt(2));
    assert_eq!(DocPath::parse("st.d").unwrap_err(), DocPathParseError::InvalidCharAt(2));
}

#[test]
fn std_candidates_for_a_type() {
    let p = DocPath::parse("std::vec::Vec").unwrap();
    let urls = p.docs_url();
    assert_eq!(urls.len(), 11);
    assert_eq!(urls[0], "https://doc.rust-lang.org/std/vec/struct.Vec.html");
    assert_eq!(urls[5], "https://doc.rust-lang.org/std/vec/Vec");
    assert_eq!(urls[10], "https://doc.rust-lang.org/std/vec/primitive.Vec.html");
}

#[test]
fn crate_candidates_for_a_function() {
    let p = DocPath::parse("serde::de::from_str").unwrap();
    let urls = p.docs_url();
    assert_eq!(urls.len(), 9);
    assert_eq!(urls[0], "https://docs.rs/serde/*/serde/de/from_str");
    assert_eq!(urls[1], "https://docs.rs/serde/*/serde/de/fn.from_str.html");
    assert_eq!(urls[8], "https://docs.rs/serde/*/serde/de/union.from_str.html");
}

#[test]
fn sessions_are_found_by_chat_and_message() {
    let mut store = SessionStore::new();
    assert!(store.get(1, 2).is_none());
    store.insert(1, 2, Session { path: DocPath::parse("std").unwrap(), page: 0 });
    store.insert(1, 2, Session { path: DocPath::parse("core").unwrap(), page: 3 });
    let s = store.get(1, 2).unwrap();
    assert_eq!(s.page, 3);
    assert_eq!(s.path.crate_name, "core");
    assert!(store.get(2, 1).is_none());
}

#[test]
fn documents_are_found_by_path() {
    let mut store = DocumentStore::new();
    let p = DocPath::parse("std::vec::Vec").unwrap();
    store.insert(p.clone(), Documentation { pages: vec![] });
    assert!(store.get(&DocPath::parse("std::vec::Vec").unwrap()).is_some());
    assert!(store.get(&DocPath::parse("std::vec::Drain").unwrap()).is_none());
}

#[test]
fn fetch_steps_follow_the_answers() {
    assert_eq!(next_fetch_step(0, 3, FetchOutcome::Status(200)), FetchStep::Build);
    assert_eq!(next_fetch_step(0, 3, FetchOutcome::Status(404)), FetchStep::Next(1));
    assert_eq!(next_fetch_step(2, 3, FetchOutcome::Status(404)), FetchStep::NotFound);
    assert_eq!(next_fetch_step(1, 3, FetchOutcome::Transport), FetchStep::Fail);
}

#[test]
fn a_new_context_is_empty() {
    let ctx = Context::new();
    assert!(ctx.sessions.get(0, 0).is_none());
    assert!(ctx.cached_docs.get(&DocPath::parse("std").unwrap()).is_none());
}
