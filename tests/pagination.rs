use docpager::docs::{build_documentation, text_parts_to_plain};
use docpager::model::{
    Button, Description, Document, ItemRow, Listing, Page, Paragraph, TextPart, TextStyle,
};
use docpager::nav::{callback_action, parse_callback, Callback, CallbackAction};

const BASE: &str = "https://docs.rs/demo/latest/demo/";

fn text(s: &str) -> Vec<TextPart> {
    vec![TextPart::Text(s.to_string())]
}

fn doc(paragraphs: Vec<Paragraph>, items: Vec<Listing>) -> Document {
    Document {
        title: text("Title"),
        declaration: None,
        description: vec![Description { heading: None, contents: paragraphs }],
        items,
    }
}

fn labels(row: &[Button]) -> Vec<(String, String)> {
    row.iter().map(|b| (b.text.clone(), b.callback_data.clone())).collect()
}

fn pair(a: &str, b: &str) -> (String, String) {
    (a.to_string(), b.to_string())
}

#[test]
fn short_paragraphs_make_one_page() {
    let d = doc(
        vec![
            Paragraph::Text(text("first")),
            Paragraph::Text(text("second")),
            Paragraph::Text(text("third")),
        ],
        vec![],
    );
    let out = build_documentation(&d, BASE);
    assert_eq!(out.pages.len(), 1);
    assert_eq!(out.pages[0].text, "Title\n\nfirst\nsecond\nthird");
    assert!(out.pages[0].page_keyboard.is_none());
    assert!(out.pages[0].additionals.is_empty());
    assert!(out.pages[0].build_keyboard(0).is_none());
}

#[test]
fn budget_crossed_after_second_paragraph() {
    let a = "a".repeat(400);
    let b = "b".repeat(400);
    let c = "c".repeat(300);
    let d = doc(
        vec![
            Paragraph::Text(text(&a)),
            Paragraph::Text(text(&b)),
            Paragraph::Text(text(&c)),
        ],
        vec![],
    );
    let out = build_documentation(&d, BASE);
    assert_eq!(out.pages.len(), 2);
    assert_eq!(out.pages[0].text, format!("Title\n\n{}\n{}", a, b));
    assert_eq!(out.pages[1].text, format!("Title\n\n{}", c));
    let first = out.pages[0].page_keyboard.as_ref().unwrap();
    assert_eq!(labels(first), vec![pair("\u{1F3E0} 1 / 2", "dummy"), pair("2 >", "1")]);
    let second = out.pages[1].page_keyboard.as_ref().unwrap();
    assert_eq!(labels(second), vec![pair("< 1", "0"), pair("\u{1F3E0} 2 / 2", "dummy")]);
}

#[test]
fn oversized_paragraph_stays_whole() {
    let big = "x".repeat(1500);
    let d = doc(
        vec![Paragraph::Text(text("small")), Paragraph::Text(text(&big)), Paragraph::Text(text("tail"))],
        vec![],
    );
    let out = build_documentation(&d, BASE);
    assert_eq!(out.pages.len(), 3);
    assert_eq!(out.pages[0].text, "Title\n\nsmall");
    assert_eq!(out.pages[1].text, format!("Title\n\n{}", big));
    assert_eq!(out.pages[2].text, "Title\n\ntail");
    let middle = out.pages[1].page_keyboard.as_ref().unwrap();
    assert_eq!(
        labels(middle),
        vec![pair("< 1", "0"), pair("\u{1F3E0} 2 / 3", "dummy"), pair("3 >", "2")]
    );
}

fn listing(name: &str) -> Listing {
    Listing {
        heading: text(name),
        rows: vec![ItemRow { name: text("item"), summary: text("what it does") }],
    }
}

#[test]
fn four_listings_make_two_link_groups() {
    let d = doc(
        vec![Paragraph::Text(text("body"))],
        vec![listing("Structs"), listing("Enums"), listing("Traits"), listing("Functions")],
    );
    let out = build_documentation(&d, BASE);
    assert_eq!(out.pages.len(), 5);
    let main = &out.pages[0];
    assert_eq!(main.additionals.len(), 2);
    assert_eq!(main.additionals[0].len(), 4);
    assert_eq!(labels(&main.additionals[0][0]), vec![pair("Structs", "1")]);
    assert_eq!(labels(&main.additionals[0][1]), vec![pair("Enums", "2")]);
    assert_eq!(labels(&main.additionals[0][2]), vec![pair("Traits", "3")]);
    assert_eq!(labels(&main.additionals[0][3]), vec![pair("\u{2193}", "x1")]);
    assert_eq!(main.additionals[1].len(), 2);
    assert_eq!(labels(&main.additionals[1][0]), vec![pair("Functions", "4")]);
    assert_eq!(labels(&main.additionals[1][1]), vec![pair("\u{2191}", "x0")]);
    for page in &out.pages[1..] {
        assert_eq!(page.additionals.len(), 1);
        assert_eq!(labels(&page.additionals[0][0]), vec![pair("\u{BB} Main", "0")]);
        assert!(page.page_keyboard.is_none());
    }
    assert_eq!(out.pages[1].text, "Structs\n\nitem\nwhat it does");
    let kb = main.build_keyboard(1).unwrap();
    assert_eq!(kb.len(), 2);
    assert!(main.build_keyboard(7).is_none());
}

#[test]
fn three_groups_have_both_controls_in_the_middle() {
    let names = ["a", "b", "c", "d", "e", "f", "g"];
    let d = doc(vec![Paragraph::Text(text("body"))], names.iter().map(|n| listing(n)).collect());
    let out = build_documentation(&d, BASE);
    let groups = &out.pages[0].additionals;
    assert_eq!(groups.len(), 3);
    assert_eq!(labels(groups[1].last().unwrap()), vec![pair("\u{2193}", "x2"), pair("\u{2191}", "x0")]);
    assert_eq!(labels(groups[2].last().unwrap()), vec![pair("\u{2191}", "x1")]);
}

#[test]
fn styles_are_closed_on_every_page() {
    let run = vec![
        TextPart::BeginStyle(TextStyle::Bold),
        TextPart::Text("bold".to_string()),
        TextPart::BeginStyle(TextStyle::Monospaced),
        TextPart::Text("a  <b>".to_string()),
        TextPart::EndStyle,
        TextPart::Text("after".to_string()),
    ];
    let d = doc(vec![Paragraph::Text(run)], vec![]);
    let out = build_documentation(&d, BASE);
    assert_eq!(out.pages[0].text, "Title\n\n<b>bold</b><code>a  &lt;b&gt;</code><b>after</b>");
}

#[test]
fn links_resolve_against_the_base() {
    let run = vec![
        TextPart::BeginStyle(TextStyle::Link("struct.Foo.html".to_string())),
        TextPart::Text("Foo".to_string()),
        TextPart::EndStyle,
    ];
    let d = doc(vec![Paragraph::Text(run)], vec![]);
    let out = build_documentation(&d, BASE);
    assert_eq!(
        out.pages[0].text,
        "Title\n\n<a href=\"https://docs.rs/demo/latest/demo/struct.Foo.html\">Foo</a>"
    );
}

#[test]
fn unresolvable_link_renders_plain_text() {
    let run = vec![
        TextPart::BeginStyle(TextStyle::Italic),
        TextPart::BeginStyle(TextStyle::Link("http://[bad".to_string())),
        TextPart::Text("x".to_string()),
        TextPart::EndStyle,
        TextPart::Text("y".to_string()),
        TextPart::EndStyle,
    ];
    let d = doc(vec![Paragraph::Text(run)], vec![]);
    let out = build_documentation(&d, BASE);
    assert_eq!(out.pages[0].text, "Title\n\n<i>xy</i>");
}

#[test]
fn lists_and_code_blocks() {
    let d = doc(
        vec![
            Paragraph::List(vec![text("one"), text("two")]),
            Paragraph::Code(text("let x  = 1;")),
        ],
        vec![],
    );
    let out = build_documentation(&d, BASE);
    assert_eq!(out.pages[0].text, "Title\n\n\u{2022} one\n\u{2022} two\n<code>let x  = 1;</code>");
}

#[test]
fn whitespace_folds_outside_code() {
    let d = doc(vec![Paragraph::Text(text("a \n\t b"))], vec![]);
    let out = build_documentation(&d, BASE);
    assert_eq!(out.pages[0].text, "Title\n\na b");
}

#[test]
fn declaration_page_comes_first() {
    let d = Document {
        title: text("Vec"),
        declaration: Some(text("pub struct Vec<T>")),
        description: vec![],
        items: vec![],
    };
    let out = build_documentation(&d, BASE);
    assert_eq!(out.pages.len(), 1);
    assert_eq!(out.pages[0].text, "Vec\n\npub struct Vec&lt;T&gt;");
}

#[test]
fn empty_document_shows_its_title() {
    let d = Document { title: text("Empty"), declaration: None, description: vec![], items: vec![] };
    let out = build_documentation(&d, BASE);
    assert_eq!(out.pages.len(), 1);
    assert_eq!(out.pages[0].text, "Empty");
}

#[test]
fn plain_text_of_a_heading() {
    let run = vec![
        TextPart::Text("Trait \n Impls".to_string()),
        TextPart::BeginStyle(TextStyle::Monospaced),
        TextPart::Text(" a  b".to_string()),
        TextPart::EndStyle,
        TextPart::Image("x.png".to_string()),
    ];
    assert_eq!(text_parts_to_plain(&run), "Trait Impls a  b");
}

#[test]
fn payloads_read_back() {
    assert_eq!(parse_callback("12"), Callback::Jump(12));
    assert_eq!(parse_callback("x3"), Callback::SwitchGroup(3));
    assert_eq!(parse_callback("dummy"), Callback::Ignore);
    assert_eq!(parse_callback(""), Callback::Ignore);
    assert_eq!(parse_callback("x"), Callback::Ignore);
    assert_eq!(parse_callback("99999999999999999999999"), Callback::Ignore);
}

#[test]
fn keyboard_joins_navigation_and_group() {
    let page = Page {
        text: String::new(),
        page_keyboard: Some(vec![Button::new("n".to_string(), "1".to_string())]),
        additionals: vec![vec![vec![Button::new("g".to_string(), "2".to_string())]]],
    };
    let kb = page.build_keyboard(0).unwrap();
    assert_eq!(kb.len(), 2);
    assert_eq!(kb[1][0].text, "g");
    let only_nav = page.build_keyboard(3).unwrap();
    assert_eq!(only_nav.len(), 1);
}

#[test]
fn each_description_block_is_numbered_on_its_own() {
    let d = Document {
        title: text("Title"),
        declaration: Some(text("pub fn f()")),
        description: vec![
            Description { heading: None, contents: vec![Paragraph::Text(text("one"))] },
            Description { heading: Some(text("Examples")), contents: vec![Paragraph::Text(text("two"))] },
        ],
        items: vec![],
    };
    let out = build_documentation(&d, BASE);
    assert_eq!(out.pages.len(), 3);
    assert_eq!(out.pages[0].text, "Title\n\npub fn f()");
    assert_eq!(out.pages[1].text, "Title\n\none");
    assert_eq!(out.pages[2].text, "Examples\n\ntwo");
    for page in &out.pages {
        assert!(page.page_keyboard.is_none());
    }
}

#[test]
fn callbacks_pick_the_page_or_group() {
    assert_eq!(callback_action(0, 3, Callback::Jump(2)), CallbackAction::ShowPage(2));
    assert_eq!(callback_action(0, 3, Callback::Jump(3)), CallbackAction::Nothing);
    assert_eq!(callback_action(1, 3, Callback::SwitchGroup(4)), CallbackAction::ShowGroup(1, 4));
    assert_eq!(callback_action(1, 3, Callback::Ignore), CallbackAction::Nothing);
}

#[test]
fn no_break_space_folds_too() {
    let d = doc(vec![Paragraph::Text(text("a\u{a0} b"))], vec![]);
    let out = build_documentation(&d, BASE);
    assert_eq!(out.pages[0].text, "Title\n\na b");
}

#[test]
fn image_and_table_are_links() {
    let run = vec![TextPart::Image("pic.png".to_string()), TextPart::Table];
    let d = doc(vec![Paragraph::Text(run)], vec![]);
    let out = build_documentation(&d, BASE);
    assert_eq!(
        out.pages[0].text,
        "Title\n\n<a href=\"https://docs.rs/demo/latest/demo/pic.png\">(image)</a><a href=\"https://docs.rs/demo/latest/demo/\">(table)</a>"
    );
}
