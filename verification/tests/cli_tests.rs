use ranger::cli::{
    backlog_action, comment_action, global_flag, group, required, tag_action, task_action, unrecognized, BacklogAction,
    CommentAction, GlobalFlag, Group, TagAction, TaskAction,
};

#[test]
fn required_passes_a_present_value_through() {
    assert_eq!(required(Some(7), "<N>").unwrap(), 7);
}

#[test]
fn required_names_a_missing_argument() {
    let err = required::<String>(None, "<TITLE>").unwrap_err();
    assert_eq!(err.message, "missing required argument <TITLE>");
}

#[test]
fn groups_and_their_aliases() {
    assert_eq!(group("backlog"), Some(Group::Backlog));
    assert_eq!(group("b"), Some(Group::Backlog));
    assert_eq!(group("t"), Some(Group::Task));
    assert_eq!(group("c"), Some(Group::Comment));
    assert_eq!(group("g"), Some(Group::Tag));
    assert_eq!(group("serve"), Some(Group::Serve));
    assert_eq!(group("blocker"), None);
    assert_eq!(group("Task"), None);
}

#[test]
fn commands_and_their_aliases() {
    assert_eq!(backlog_action("new"), Some(BacklogAction::Create));
    assert_eq!(backlog_action("rm"), Some(BacklogAction::Delete));
    assert_eq!(backlog_action("rebalance"), Some(BacklogAction::Rebalance));
    assert_eq!(task_action("mv"), Some(TaskAction::Move));
    assert_eq!(task_action("del"), Some(TaskAction::Delete));
    assert_eq!(task_action("rm"), None);
    assert_eq!(task_action("unarchive"), Some(TaskAction::Unarchive));
    assert_eq!(comment_action("a"), Some(CommentAction::Add));
    assert_eq!(comment_action("ls"), Some(CommentAction::List));
    assert_eq!(tag_action("rm"), Some(TagAction::Remove));
    assert_eq!(tag_action("prune"), Some(TagAction::Prune));
    assert_eq!(tag_action("a"), None);
}

#[test]
fn global_flags() {
    assert_eq!(global_flag("json"), Some(GlobalFlag::Json));
    assert_eq!(global_flag("color"), Some(GlobalFlag::Color));
    assert_eq!(global_flag("db"), Some(GlobalFlag::Db));
    assert_eq!(global_flag("help"), Some(GlobalFlag::Help));
    assert_eq!(global_flag("version"), None);
}

#[test]
fn unrecognized_message() {
    assert_eq!(unrecognized("task command", "fly"), "unrecognized task command 'fly'");
}
