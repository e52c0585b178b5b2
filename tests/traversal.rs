use dialog_tree::engine::{
    DialogBuilder, DialogError, DialogExecutor, DialogLink, DialogLinkCondition, DialogNode,
    DialogNodeId, LinkErrorInfo,
};

fn id(s: &str) -> DialogNodeId {
    DialogNodeId::new(s)
}

fn pick(run: &mut DialogExecutor, index: usize) {
    run.choices().get(index).unwrap().select(run).unwrap();
}

#[test]
fn straight_dialog() {
    let dialog = DialogBuilder::new(DialogNode::new("Start", "Hello, World!"))
        .add_node(DialogNode::new("Second", "Goodbye, World!"))
        .add_link(DialogLink::new(
            "Start",
            "Second",
            "Hi and bye!",
            DialogLinkCondition::Always,
        ))
        .build()
        .unwrap();
    assert_eq!(dialog.start_node().id(), &id("Start"));
    assert_eq!(dialog.start_node().text().as_plain_str(), "Hello, World!");
    let mut dialog_in_progress = dialog.start();
    assert_eq!(dialog_in_progress.current_node().id(), &id("Start"));
    assert_eq!(
        dialog_in_progress.current_node().text().as_plain_str(),
        "Hello, World!"
    );
    pick(&mut dialog_in_progress, 0);
    assert_eq!(dialog_in_progress.current_node().id(), &id("Second"));
    assert_eq!(
        dialog_in_progress.current_node().text().as_plain_str(),
        "Goodbye, World!"
    );
    let choices = dialog_in_progress.choices();
    let no_choices = choices.all();
    assert_eq!(no_choices.len(), 0);
}

#[test]
fn branched_dialog() {
    let dialog = DialogBuilder::new(DialogNode::new("Start", "Hello, World!"))
        .add_node(DialogNode::new("End", "Goodbye, World!"))
        .add_node(DialogNode::new("Branch", "Nice to meet you!"))
        .add_link(DialogLink::new("Start", "End", "Hi and bye!", DialogLinkCondition::Always))
        .add_link(DialogLink::new("Start", "Branch", "Hi!", DialogLinkCondition::Always))
        .add_link(DialogLink::new("Branch", "End", "Goodbye", DialogLinkCondition::Always))
        .build()
        .unwrap();
    let mut dialog_in_progress = dialog.start();
    pick(&mut dialog_in_progress, 1);
    assert_eq!(dialog_in_progress.current_node().id(), &id("Branch"));
    pick(&mut dialog_in_progress, 0);
    assert_eq!(dialog_in_progress.current_node().id(), &id("End"));
}

fn cyclic() -> dialog_tree::engine::Dialog {
    DialogBuilder::new(DialogNode::new("Start", "Hello, World!"))
        .add_node(DialogNode::new("End", "Goodbye, World!"))
        .add_node(DialogNode::new("Branch", "Nice to meet you!"))
        .add_link(DialogLink::new("Start", "End", "Hi and bye!", DialogLinkCondition::Always))
        .add_link(DialogLink::new(
            "Start",
            "Branch",
            "Hi!",
            DialogLinkCondition::OnlyIfNotYetChosen,
        ))
        .add_link(DialogLink::new("Branch", "End", "Goodbye", DialogLinkCondition::Always))
        .add_link(DialogLink::new("Branch", "Start", "Go Back", DialogLinkCondition::Always))
        .build()
        .unwrap()
}

#[test]
fn cyclic_dialog() {
    let dialog = cyclic();
    let mut dialog_in_progress = dialog.start();
    pick(&mut dialog_in_progress, 1);
    assert_eq!(dialog_in_progress.current_node().id(), &id("Branch"));
    pick(&mut dialog_in_progress, 1);
    assert_eq!(dialog_in_progress.current_node().id(), &id("Start"));
    let choices = dialog_in_progress.choices();
    let single_choice = choices.all();
    assert_eq!(single_choice.len(), 1);
}

#[test]
fn cyclic_dialog_keeps_only_the_unconditional_link() {
    let dialog = cyclic();
    let mut run = dialog.start();
    let first = run.choices();
    assert_eq!(first.all().len(), 2);
    pick(&mut run, 1);
    pick(&mut run, 1);
    let again = run.choices();
    let entries = again.all();
    assert_eq!(entries.len(), 1);
    assert_eq!(entries[0].0, 0);
    assert_eq!(entries[0].1.as_plain_str(), "Hi and bye!");
    assert!(again.get(1).is_none());
    assert_eq!(again.get(0).unwrap().index(), 0);
}

#[test]
fn unconditional_links_are_always_offered_in_order() {
    let dialog = DialogBuilder::new(DialogNode::new("A", "a"))
        .add_link(DialogLink::new("A", "A", "stay", DialogLinkCondition::Always))
        .add_link(DialogLink::new("A", "A", "again", DialogLinkCondition::Always))
        .build()
        .unwrap();
    let mut run = dialog.start();
    for _ in 0..3 {
        let choices = run.choices();
        let entries = choices.all();
        assert_eq!(entries.len(), 2);
        assert_eq!(entries[0].0, 0);
        assert_eq!(entries[0].1.as_plain_str(), "stay");
        assert_eq!(entries[1].0, 1);
        assert_eq!(entries[1].1.as_plain_str(), "again");
        pick(&mut run, 1);
        pick(&mut run, 0);
    }
    assert_eq!(run.history().len(), 6);
}

#[test]
fn choosing_records_history_and_moves() {
    let dialog = cyclic();
    let mut run = dialog.start();
    assert_eq!(run.history().len(), 0);
    run.select(1).unwrap();
    assert_eq!(run.current(), &id("Branch"));
    assert_eq!(run.history().len(), 1);
    assert_eq!(run.history()[0].0, id("Start"));
    assert_eq!(run.history()[0].1, 1);
    run.select(0).unwrap();
    assert_eq!(run.current(), &id("End"));
    assert_eq!(run.history().len(), 2);
    assert_eq!(run.history()[1].0, id("Branch"));
    assert_eq!(run.history()[1].1, 0);
}

#[test]
fn choosing_a_missing_link_changes_nothing() {
    let dialog = cyclic();
    let mut run = dialog.start();
    assert_eq!(run.select(2), Err(DialogError::NoSuchChoice(2)));
    assert_eq!(run.current(), &id("Start"));
    assert_eq!(run.history().len(), 0);
    run.select(0).unwrap();
    assert_eq!(run.select(0), Err(DialogError::NoSuchChoice(0)));
    assert_eq!(run.current(), &id("End"));
    assert_eq!(run.history().len(), 1);
}

#[test]
fn gated_link_hidden_after_it_was_chosen() {
    let dialog = cyclic();
    let mut run = dialog.start();
    assert!(run.choices().get(1).is_some());
    run.select(1).unwrap();
    run.select(1).unwrap();
    assert!(run.choices().get(1).is_none());
    run.select(0).unwrap();
    assert_eq!(run.current(), &id("End"));
}

#[test]
fn build_fails_on_missing_target() {
    let result = DialogBuilder::new(DialogNode::new("Start", "Hello"))
        .add_node(DialogNode::new("End", "Bye"))
        .add_link(DialogLink::new("Start", "End", "ok", DialogLinkCondition::Always))
        .add_link(DialogLink::new("End", "Nowhere", "lost", DialogLinkCondition::Always))
        .add_link(DialogLink::new("Start", "Elsewhere", "lost", DialogLinkCondition::Always))
        .build();
    assert_eq!(
        result.err(),
        Some(DialogError::InvalidLink(LinkErrorInfo {
            missing_source: None,
            missing_target: Some(id("Elsewhere")),
        }))
    );
}

#[test]
fn build_fails_on_missing_source() {
    let result = DialogBuilder::new(DialogNode::new("Start", "Hello"))
        .add_link(DialogLink::new("Ghost", "Start", "boo", DialogLinkCondition::Always))
        .build();
    assert_eq!(
        result.err(),
        Some(DialogError::InvalidLink(LinkErrorInfo {
            missing_source: Some(id("Ghost")),
            missing_target: None,
        }))
    );
    let both = DialogBuilder::new(DialogNode::new("Start", "Hello"))
        .add_link(DialogLink::new("Ghost", "Void", "boo", DialogLinkCondition::Always))
        .build();
    assert_eq!(
        both.err(),
        Some(DialogError::InvalidLink(LinkErrorInfo {
            missing_source: Some(id("Ghost")),
            missing_target: Some(id("Void")),
        }))
    );
}

#[test]
fn forward_reference_is_accepted() {
    let dialog = DialogBuilder::new(DialogNode::new("Start", "Hello"))
        .add_link(DialogLink::new("Start", "Later", "go", DialogLinkCondition::Always))
        .add_node(DialogNode::new("Later", "Here"))
        .build()
        .unwrap();
    assert_eq!(dialog.get_node(&id("Later")).text().as_plain_str(), "Here");
    assert_eq!(dialog.start_node().links().len(), 1);
}

#[test]
fn add_node_replaces_same_id() {
    let dialog = DialogBuilder::new(DialogNode::new("Start", "Hello"))
        .add_node(DialogNode::new("Other", "first"))
        .add_node(DialogNode::new("Other", "second"))
        .build()
        .unwrap();
    assert_eq!(dialog.all_nodes().len(), 2);
    assert_eq!(dialog.get_node(&id("Other")).text().as_plain_str(), "second");
}

#[test]
fn link_accessors() {
    let link = DialogLink::new("A", "B", "text", DialogLinkCondition::OnlyIfNotYetChosen);
    assert_eq!(link.from(), &id("A"));
    assert_eq!(link.to(), &id("B"));
    assert_eq!(link.text().as_plain_str(), "text");
    assert_eq!(link.condition(), &DialogLinkCondition::OnlyIfNotYetChosen);
    let mut node = DialogNode::new("A", "body");
    node.add_link(link);
    assert_eq!(node.links().len(), 1);
    assert_eq!(node.id().as_str(), "A");
}

#[test]
fn link_added_before_its_source_is_attached_at_build() {
    let dialog = DialogBuilder::new(DialogNode::new("Start", "Hello"))
        .add_link(DialogLink::new("Late", "Start", "back", DialogLinkCondition::Always))
        .add_link(DialogLink::new("Late", "Start", "again", DialogLinkCondition::Always))
        .add_node(DialogNode::new("Late", "Here"))
        .add_link(DialogLink::new("Start", "Late", "go", DialogLinkCondition::Always))
        .build()
        .unwrap();
    let late = dialog.get_node(&id("Late"));
    assert_eq!(late.links().len(), 2);
    assert_eq!(late.links()[0].text().as_plain_str(), "back");
    assert_eq!(late.links()[1].text().as_plain_str(), "again");
    assert_eq!(dialog.start_node().links().len(), 1);
}
