use dialog_tree::engine::{
    DialogBuilder, DialogError, DialogLink, DialogLinkCondition, DialogNode, DialogNodeId,
    LinkErrorInfo,
};
use dialog_tree::parser::{is_alphanumeric, is_whitespace, parse, DialogParseError};
use dialog_tree::writer::serialize_dialog;

fn id(s: &str) -> DialogNodeId {
    DialogNodeId::new(s)
}

const SIMPLE: &str = "Name: Start
Hello, World!
---
{End} Hi! | {End} Bye!
===

Name: End
Goodbye!
===
";

#[test]
fn one_dialog_step() {
    let parse_result = parse(SIMPLE);
    assert!(parse_result.is_ok(), "{:?}", parse_result.err());
    let dialog = parse_result.unwrap();
    assert_eq!(dialog.start_node().id(), &id("Start"));
    assert_eq!(dialog.start_node().text().as_plain_str(), "Hello, World!");
    let links = dialog.start_node().links();
    assert_eq!(links.len(), 2);
    assert_eq!(links[0].text().as_plain_str(), "Hi!");
    assert_eq!(links[0].from(), &id("Start"));
    assert_eq!(links[0].to(), &id("End"));
    assert_eq!(links[1].text().as_plain_str(), "Bye!");
    assert_eq!(links[1].from(), &id("Start"));
    assert_eq!(links[1].to(), &id("End"));
    let end_node = dialog.get_node(&id("End"));
    assert_eq!(end_node.links().len(), 0);
}

#[test]
fn error_in_links() {
    let parse_result = parse(
        "Name: Start\nHello, World!\n---\n{En} Hi!\n===\n\nName: End\nBye!\n===\n",
    );
    assert!(parse_result.is_err());
    if let Err(error) = parse_result {
        assert_eq!(
            DialogParseError::DialogBuildError(DialogError::InvalidLink(LinkErrorInfo {
                missing_source: None,
                missing_target: Some(id("En")),
            })),
            error
        );
    }
}

#[test]
fn render_simple_dialog() {
    let mut builder = DialogBuilder::new(DialogNode::new_with_links(
        "Start",
        "Hello, World!",
        vec![DialogLink::new("Start", "End", "Hi!", DialogLinkCondition::Always)],
    ));
    builder = builder.add_node(DialogNode::new("End", "Bye!"));
    let dialog = builder.build().unwrap();
    assert_eq!(
        serialize_dialog(&dialog),
        "Name: Start
Hello, World!
---
{End} Hi!
===

Name: End
Bye!
===

"
    );
}

#[test]
fn parsed_texts_are_trimmed() {
    let dialog = parse(SIMPLE).unwrap();
    assert_eq!(dialog.get_node(&id("End")).text().as_plain_str(), "Goodbye!");
    let links = dialog.start_node().links();
    assert_eq!(links[0].condition(), &DialogLinkCondition::Always);
}

#[test]
fn parses_crlf_line_breaks() {
    let text = "Name: Start\r\nHello\r\n---\r\n{End} Go\r\n===\r\n\r\nName: End\r\nBye\r\n===\r\n";
    let dialog = parse(text).unwrap();
    assert_eq!(dialog.start_node().text().as_plain_str(), "Hello");
    let links = dialog.start_node().links();
    assert_eq!(links.len(), 1);
    assert_eq!(links[0].to(), &id("End"));
    assert_eq!(links[0].text().as_plain_str(), "Go");
    assert_eq!(dialog.get_node(&id("End")).text().as_plain_str(), "Bye");
}

#[test]
fn syntax_error_on_bad_header() {
    assert_eq!(
        parse("Nme: Start\nHello\n===\n").err(),
        Some(DialogParseError::SyntaxError(0))
    );
    assert_eq!(
        parse("Name: {x}\nHello\n===\n").err(),
        Some(DialogParseError::SyntaxError(6))
    );
}

#[test]
fn syntax_error_on_missing_terminator() {
    assert_eq!(
        parse("Name: A\nhello").err(),
        Some(DialogParseError::SyntaxError(13))
    );
}

#[test]
fn syntax_error_on_malformed_choice() {
    assert_eq!(
        parse("Name: A\nhi\n---\nEnd hi\n===\n").err(),
        Some(DialogParseError::SyntaxError(15))
    );
    assert_eq!(
        parse("Name: A\nhi\n---\n{} hi\n===\n").err(),
        Some(DialogParseError::SyntaxError(16))
    );
}

#[test]
fn syntax_error_on_malformed_second_block() {
    assert_eq!(
        parse("Name: A\nhi\n===\n\nName B\n").err(),
        Some(DialogParseError::SyntaxError(16))
    );
}

#[test]
fn writer_then_parser_keeps_the_graph() {
    let dialog = parse(SIMPLE).unwrap();
    let written = serialize_dialog(&dialog);
    assert_eq!(
        written,
        "Name: Start\nHello, World!\n---\n{End} Hi! | {End} Bye!\n===\n\nName: End\nGoodbye!\n===\n\n"
    );
    let again = parse(&written).unwrap();
    assert_eq!(serialize_dialog(&again), written);
}

#[test]
fn writer_puts_start_node_first() {
    let dialog = DialogBuilder::new(DialogNode::new("Z", "last"))
        .add_node(DialogNode::new("A", "first"))
        .add_link(DialogLink::new("A", "Z", "to z", DialogLinkCondition::OnlyIfNotYetChosen))
        .build()
        .unwrap();
    assert_eq!(
        serialize_dialog(&dialog),
        "Name: Z\nlast\n===\n\nName: A\nfirst\n---\n{Z} to z\n===\n\n"
    );
}

#[test]
fn character_classes() {
    assert!(is_alphanumeric('a'));
    assert!(is_alphanumeric('Z'));
    assert!(is_alphanumeric('7'));
    assert!(!is_alphanumeric('_'));
    assert!(!is_alphanumeric('{'));
    assert!(is_whitespace(' '));
    assert!(is_whitespace('\t'));
    assert!(is_whitespace('\r'));
    assert!(is_whitespace('\n'));
    assert!(!is_whitespace('x'));
}

#[test]
fn writer_orders_other_nodes_by_id() {
    let first = DialogBuilder::new(DialogNode::new("S", "start"))
        .add_node(DialogNode::new("B", "bee"))
        .add_node(DialogNode::new("A", "ay"))
        .add_node(DialogNode::new("AB", "ay bee"))
        .build()
        .unwrap();
    let second = DialogBuilder::new(DialogNode::new("S", "start"))
        .add_node(DialogNode::new("AB", "ay bee"))
        .add_node(DialogNode::new("A", "ay"))
        .add_node(DialogNode::new("B", "bee"))
        .build()
        .unwrap();
    let expected = "Name: S\nstart\n===\n\nName: A\nay\n===\n\nName: AB\nay bee\n===\n\nName: B\nbee\n===\n\n";
    assert_eq!(serialize_dialog(&first), expected);
    assert_eq!(serialize_dialog(&second), expected);
}
