//! Command-line decisions that do not depend on how arguments are read.
use vstd::prelude::*;

use vstd::string::StringExecFns;

use crate::models::str_eq;
use crate::text::concat3;

verus! {

/// A usage error: what the command line lacks or cannot accept.
#[derive(Debug)]
pub struct UsageError {
    pub message: String,
}

/// Unwrap a required argument or fail with a usage error naming it.
pub fn required<T>(value: Option<T>, name: &str) -> (r: Result<T, UsageError>)
    ensures
        match value {
            Some(v) => r == Ok::<T, UsageError>(v),
            None => r matches Err(e) && e.message@ == "missing required argument "@ + name@,
        },
{
    match value {
        Some(v) => Ok(v),
        None => {
            let mut message = String::from_str("missing required argument ");
            message.append(name);
            Err(UsageError { message })
        },
    }
}

/// The command groups, by the names and aliases they answer to.
#[derive(Debug, Clone, Copy, PartialEq, Eq, Structural)]
pub enum Group {
    Backlog,
    Task,
    Comment,
    Tag,
    Serve,
}

/// The group a command name names: `backlog` (`b`), `task` (`t`),
/// `comment` (`c`), `tag` (`g`) or `serve`.
pub open spec fn group_spec(name: Seq<char>) -> Option<Group> {
    if name == "backlog"@ || name == "b"@ {
        Some(Group::Backlog)
    } else if name == "task"@ || name == "t"@ {
        Some(Group::Task)
    } else if name == "comment"@ || name == "c"@ {
        Some(Group::Comment)
    } else if name == "tag"@ || name == "g"@ {
        Some(Group::Tag)
    } else if name == "serve"@ {
        Some(Group::Serve)
    } else {
        None
    }
}

/// The group a command name names, if any.
pub fn group(name: &str) -> (g: Option<Group>)
    ensures
        g == group_spec(name@),
{
    if str_eq(name, "backlog") || str_eq(name, "b") {
        Some(Group::Backlog)
    } else if str_eq(name, "task") || str_eq(name, "t") {
        Some(Group::Task)
    } else if str_eq(name, "comment") || str_eq(name, "c") {
        Some(Group::Comment)
    } else if str_eq(name, "tag") || str_eq(name, "g") {
        Some(Group::Tag)
    } else if str_eq(name, "serve") {
        Some(Group::Serve)
    } else {
        None
    }
}

/// The backlog commands.
#[derive(Debug, Clone, Copy, PartialEq, Eq, Structural)]
pub enum BacklogAction {
    Create,
    List,
    Show,
    Delete,
    Rebalance,
}

/// The backlog command a name names: `create` (`new`), `list` (`ls`),
/// `show` (`s`), `delete` (`rm`) or `rebalance`.
pub open spec fn backlog_action_spec(name: Seq<char>) -> Option<BacklogAction> {
    if name == "create"@ || name == "new"@ {
        Some(BacklogAction::Create)
    } else if name == "list"@ || name == "ls"@ {
        Some(BacklogAction::List)
    } else if name == "show"@ || name == "s"@ {
        Some(BacklogAction::Show)
    } else if name == "delete"@ || name == "rm"@ {
        Some(BacklogAction::Delete)
    } else if name == "rebalance"@ {
        Some(BacklogAction::Rebalance)
    } else {
        None
    }
}

/// The backlog command a name names, if any.
pub fn backlog_action(name: &str) -> (a: Option<BacklogAction>)
    ensures
        a == backlog_action_spec(name@),
{
    if str_eq(name, "create") || str_eq(name, "new") {
        Some(BacklogAction::Create)
    } else if str_eq(name, "list") || str_eq(name, "ls") {
        Some(BacklogAction::List)
    } else if str_eq(name, "show") || str_eq(name, "s") {
        Some(BacklogAction::Show)
    } else if str_eq(name, "delete") || str_eq(name, "rm") {
        Some(BacklogAction::Delete)
    } else if str_eq(name, "rebalance") {
        Some(BacklogAction::Rebalance)
    } else {
        None
    }
}

/// The task commands.
#[derive(Debug, Clone, Copy, PartialEq, Eq, Structural)]
pub enum TaskAction {
    Create,
    List,
    Show,
    Edit,
    Move,
    Delete,
    Archive,
    Unarchive,
}

/// The task command a name names: `create` (`new`), `list` (`ls`), `show`
/// (`s`), `edit` (`e`), `move` (`mv`), `delete` (`del`), `archive` or
/// `unarchive`.
pub open spec fn task_action_spec(name: Seq<char>) -> Option<TaskAction> {
    if name == "create"@ || name == "new"@ {
        Some(TaskAction::Create)
    } else if name == "list"@ || name == "ls"@ {
        Some(TaskAction::List)
    } else if name == "show"@ || name == "s"@ {
        Some(TaskAction::Show)
    } else if name == "edit"@ || name == "e"@ {
        Some(TaskAction::Edit)
    } else if name == "move"@ || name == "mv"@ {
        Some(TaskAction::Move)
    } else if name == "delete"@ || name == "del"@ {
        Some(TaskAction::Delete)
    } else if name == "archive"@ {
        Some(TaskAction::Archive)
    } else if name == "unarchive"@ {
        Some(TaskAction::Unarchive)
    } else {
        None
    }
}

/// The task command a name names, if any.
pub fn task_action(name: &str) -> (a: Option<TaskAction>)
    ensures
        a == task_action_spec(name@),
{
    if str_eq(name, "create") || str_eq(name, "new") {
        Some(TaskAction::Create)
    } else if str_eq(name, "list") || str_eq(name, "ls") {
        Some(TaskAction::List)
    } else if str_eq(name, "show") || str_eq(name, "s") {
        Some(TaskAction::Show)
    } else if str_eq(name, "edit") || str_eq(name, "e") {
        Some(TaskAction::Edit)
    } else if str_eq(name, "move") || str_eq(name, "mv") {
        Some(TaskAction::Move)
    } else if str_eq(name, "delete") || str_eq(name, "del") {
        Some(TaskAction::Delete)
    } else if str_eq(name, "archive") {
        Some(TaskAction::Archive)
    } else if str_eq(name, "unarchive") {
        Some(TaskAction::Unarchive)
    } else {
        None
    }
}

/// The comment commands.
#[derive(Debug, Clone, Copy, PartialEq, Eq, Structural)]
pub enum CommentAction {
    Add,
    List,
}

/// The comment command a name names: `add` (`a`) or `list` (`ls`).
pub open spec fn comment_action_spec(name: Seq<char>) -> Option<CommentAction> {
    if name == "add"@ || name == "a"@ {
        Some(CommentAction::Add)
    } else if name == "list"@ || name == "ls"@ {
        Some(CommentAction::List)
    } else {
        None
    }
}

/// The comment command a name names, if any.
pub fn comment_action(name: &str) -> (a: Option<CommentAction>)
    ensures
        a == comment_action_spec(name@),
{
    if str_eq(name, "add") || str_eq(name, "a") {
        Some(CommentAction::Add)
    } else if str_eq(name, "list") || str_eq(name, "ls") {
        Some(CommentAction::List)
    } else {
        None
    }
}

/// The tag commands.
#[derive(Debug, Clone, Copy, PartialEq, Eq, Structural)]
pub enum TagAction {
    Add,
    Remove,
    List,
    Prune,
}

/// The tag command a name names: `add`, `remove` (`rm`), `list` (`ls`) or
/// `prune`.
pub open spec fn tag_action_spec(name: Seq<char>) -> Option<TagAction> {
    if name == "add"@ {
        Some(TagAction::Add)
    } else if name == "remove"@ || name == "rm"@ {
        Some(TagAction::Remove)
    } else if name == "list"@ || name == "ls"@ {
        Some(TagAction::List)
    } else if name == "prune"@ {
        Some(TagAction::Prune)
    } else {
        None
    }
}

/// The tag command a name names, if any.
pub fn tag_action(name: &str) -> (a: Option<TagAction>)
    ensures
        a == tag_action_spec(name@),
{
    if str_eq(name, "add") {
        Some(TagAction::Add)
    } else if str_eq(name, "remove") || str_eq(name, "rm") {
        Some(TagAction::Remove)
    } else if str_eq(name, "list") || str_eq(name, "ls") {
        Some(TagAction::List)
    } else if str_eq(name, "prune") {
        Some(TagAction::Prune)
    } else {
        None
    }
}

/// The flags accepted anywhere on the command line.
#[derive(Debug, Clone, Copy, PartialEq, Eq, Structural)]
pub enum GlobalFlag {
    Json,
    Color,
    Db,
    Help,
}

/// The global flag a long option names: `json`, `color`, `db` or `help`.
pub open spec fn global_flag_spec(name: Seq<char>) -> Option<GlobalFlag> {
    if name == "json"@ {
        Some(GlobalFlag::Json)
    } else if name == "color"@ {
        Some(GlobalFlag::Color)
    } else if name == "db"@ {
        Some(GlobalFlag::Db)
    } else if name == "help"@ {
        Some(GlobalFlag::Help)
    } else {
        None
    }
}

/// The global flag a long option names, if any.
pub fn global_flag(name: &str) -> (f: Option<GlobalFlag>)
    ensures
        f == global_flag_spec(name@),
{
    if str_eq(name, "json") {
        Some(GlobalFlag::Json)
    } else if str_eq(name, "color") {
        Some(GlobalFlag::Color)
    } else if str_eq(name, "db") {
        Some(GlobalFlag::Db)
    } else if str_eq(name, "help") {
        Some(GlobalFlag::Help)
    } else {
        None
    }
}

/// The error for a command name a group does not know: `unrecognized
/// <what> '<name>'`.
pub fn unrecognized(what: &str, name: &str) -> (m: String)
    ensures
        m@ == "unrecognized "@ + what@ + " '"@ + name@ + "'"@,
{
    let head = concat3("unrecognized ", what, " '");
    concat3(head.as_str(), name, "'")
}


// -- The names each command answers to, as the help texts list them --

/// The name a group is listed under.
pub open spec fn group_name(g: Group) -> Seq<char> {
    match g {
        Group::Backlog => "backlog"@,
        Group::Task => "task"@,
        Group::Comment => "comment"@,
        Group::Tag => "tag"@,
        Group::Serve => "serve"@,
    }
}

/// The alias a group is listed with, if any.
pub open spec fn group_alias(g: Group) -> Option<Seq<char>> {
    match g {
        Group::Backlog => Some("b"@),
        Group::Task => Some("t"@),
        Group::Comment => Some("c"@),
        Group::Tag => Some("g"@),
        Group::Serve => None,
    }
}

/// Every group answers to its name and to its alias, and a name that
/// selects a group is one of those two.
pub proof fn lemma_group_names(g: Group, name: Seq<char>)
    ensures
        group_spec(group_name(g)) == Some(g),
        group_alias(g) matches Some(a) ==> group_spec(a) == Some(g),
        group_spec(name) == Some(g) ==> name == group_name(g) || group_alias(g) == Some(name),
{
    reveal_strlit("backlog");
    assert("backlog"@ =~= seq!['b', 'a', 'c', 'k', 'l', 'o', 'g']);
    reveal_strlit("b");
    assert("b"@ =~= seq!['b']);
    reveal_strlit("task");
    assert("task"@ =~= seq!['t', 'a', 's', 'k']);
    reveal_strlit("t");
    assert("t"@ =~= seq!['t']);
    reveal_strlit("comment");
    assert("comment"@ =~= seq!['c', 'o', 'm', 'm', 'e', 'n', 't']);
    reveal_strlit("c");
    assert("c"@ =~= seq!['c']);
    reveal_strlit("tag");
    assert("tag"@ =~= seq!['t', 'a', 'g']);
    reveal_strlit("g");
    assert("g"@ =~= seq!['g']);
    reveal_strlit("serve");
    assert("serve"@ =~= seq!['s', 'e', 'r', 'v', 'e']);
    assert("t"@[0] != "b"@[0]);
    assert("c"@[0] != "b"@[0] && "c"@[0] != "t"@[0]);
    assert("g"@[0] != "b"@[0] && "g"@[0] != "t"@[0] && "g"@[0] != "c"@[0]);
}

/// The name a backlog command is listed under.
pub open spec fn backlog_action_name(a: BacklogAction) -> Seq<char> {
    match a {
        BacklogAction::Create => "create"@,
        BacklogAction::List => "list"@,
        BacklogAction::Show => "show"@,
        BacklogAction::Delete => "delete"@,
        BacklogAction::Rebalance => "rebalance"@,
    }
}

/// The alias a backlog command is listed with, if any.
pub open spec fn backlog_action_alias(a: BacklogAction) -> Option<Seq<char>> {
    match a {
        BacklogAction::Create => Some("new"@),
        BacklogAction::List => Some("ls"@),
        BacklogAction::Show => Some("s"@),
        BacklogAction::Delete => Some("rm"@),
        BacklogAction::Rebalance => None,
    }
}

/// Every backlog command answers to its name and to its alias, and a name
/// that selects a command is one of those two.
pub proof fn lemma_backlog_action_names(a: BacklogAction, name: Seq<char>)
    ensures
        backlog_action_spec(backlog_action_name(a)) == Some(a),
        backlog_action_alias(a) matches Some(x) ==> backlog_action_spec(x) == Some(a),
        backlog_action_spec(name) == Some(a) ==> name == backlog_action_name(a) || backlog_action_alias(a) == Some(
            name,
        ),
{
    reveal_strlit("create");
    assert("create"@ =~= seq!['c', 'r', 'e', 'a', 't', 'e']);
    reveal_strlit("new");
    assert("new"@ =~= seq!['n', 'e', 'w']);
    reveal_strlit("list");
    assert("list"@ =~= seq!['l', 'i', 's', 't']);
    reveal_strlit("ls");
    assert("ls"@ =~= seq!['l', 's']);
    reveal_strlit("show");
    assert("show"@ =~= seq!['s', 'h', 'o', 'w']);
    reveal_strlit("s");
    assert("s"@ =~= seq!['s']);
    reveal_strlit("delete");
    assert("delete"@ =~= seq!['d', 'e', 'l', 'e', 't', 'e']);
    reveal_strlit("rm");
    assert("rm"@ =~= seq!['r', 'm']);
    reveal_strlit("rebalance");
    assert("rebalance"@ =~= seq!['r', 'e', 'b', 'a', 'l', 'a', 'n', 'c', 'e']);
}

/// The name a task command is listed under.
pub open spec fn task_action_name(a: TaskAction) -> Seq<char> {
    match a {
        TaskAction::Create => "create"@,
        TaskAction::List => "list"@,
        TaskAction::Show => "show"@,
        TaskAction::Edit => "edit"@,
        TaskAction::Move => "move"@,
        TaskAction::Delete => "delete"@,
        TaskAction::Archive => "archive"@,
        TaskAction::Unarchive => "unarchive"@,
    }
}

/// The alias a task command is listed with, if any.
pub open spec fn task_action_alias(a: TaskAction) -> Option<Seq<char>> {
    match a {
        TaskAction::Create => Some("new"@),
        TaskAction::List => Some("ls"@),
        TaskAction::Show => Some("s"@),
        TaskAction::Edit => Some("e"@),
        TaskAction::Move => Some("mv"@),
        TaskAction::Delete => Some("del"@),
        TaskAction::Archive => None,
        TaskAction::Unarchive => None,
    }
}

/// Every task command answers to its name and to its alias, and a name
/// that selects a command is one of those two.
pub proof fn lemma_task_action_names(a: TaskAction, name: Seq<char>)
    ensures
        task_action_spec(task_action_name(a)) == Some(a),
        task_action_alias(a) matches Some(x) ==> task_action_spec(x) == Some(a),
        task_action_spec(name) == Some(a) ==> name == task_action_name(a) || task_action_alias(a) == Some(name),
{
    reveal_strlit("create");
    assert("create"@ =~= seq!['c', 'r', 'e', 'a', 't', 'e']);
    reveal_strlit("new");
    assert("new"@ =~= seq!['n', 'e', 'w']);
    reveal_strlit("list");
    assert("list"@ =~= seq!['l', 'i', 's', 't']);
    reveal_strlit("ls");
    assert("ls"@ =~= seq!['l', 's']);
    reveal_strlit("show");
    assert("show"@ =~= seq!['s', 'h', 'o', 'w']);
    reveal_strlit("s");
    assert("s"@ =~= seq!['s']);
    reveal_strlit("edit");
    assert("edit"@ =~= seq!['e', 'd', 'i', 't']);
    reveal_strlit("e");
    assert("e"@ =~= seq!['e']);
    reveal_strlit("move");
    assert("move"@ =~= seq!['m', 'o', 'v', 'e']);
    reveal_strlit("mv");
    assert("mv"@ =~= seq!['m', 'v']);
    reveal_strlit("delete");
    assert("delete"@ =~= seq!['d', 'e', 'l', 'e', 't', 'e']);
    reveal_strlit("del");
    assert("del"@ =~= seq!['d', 'e', 'l']);
    reveal_strlit("archive");
    assert("archive"@ =~= seq!['a', 'r', 'c', 'h', 'i', 'v', 'e']);
    reveal_strlit("unarchive");
    assert("unarchive"@ =~= seq!['u', 'n', 'a', 'r', 'c', 'h', 'i', 'v', 'e']);
    assert("ls"@[0] != "new"@[0]);
    assert("e"@[0] != "s"@[0]);
    assert("mv"@[0] != "ls"@[0]);
    assert("del"@[0] != "new"@[0]);
}

/// The name a comment command is listed under.
pub open spec fn comment_action_name(a: CommentAction) -> Seq<char> {
    match a {
        CommentAction::Add => "add"@,
        CommentAction::List => "list"@,
    }
}

/// The alias a comment command is listed with.
pub open spec fn comment_action_alias(a: CommentAction) -> Seq<char> {
    match a {
        CommentAction::Add => "a"@,
        CommentAction::List => "ls"@,
    }
}

/// Every comment command answers to its name and to its alias, and a name
/// that selects a command is one of those two.
pub proof fn lemma_comment_action_names(a: CommentAction, name: Seq<char>)
    ensures
        comment_action_spec(comment_action_name(a)) == Some(a),
        comment_action_spec(comment_action_alias(a)) == Some(a),
        comment_action_spec(name) == Some(a) ==> name == comment_action_name(a) || name == comment_action_alias(a),
{
    reveal_strlit("add");
    assert("add"@ =~= seq!['a', 'd', 'd']);
    reveal_strlit("a");
    assert("a"@ =~= seq!['a']);
    reveal_strlit("list");
    assert("list"@ =~= seq!['l', 'i', 's', 't']);
    reveal_strlit("ls");
    assert("ls"@ =~= seq!['l', 's']);
}

/// The name a tag command is listed under.
pub open spec fn tag_action_name(a: TagAction) -> Seq<char> {
    match a {
        TagAction::Add => "add"@,
        TagAction::Remove => "remove"@,
        TagAction::List => "list"@,
        TagAction::Prune => "prune"@,
    }
}

/// The alias a tag command is listed with, if any.
pub open spec fn tag_action_alias(a: TagAction) -> Option<Seq<char>> {
    match a {
        TagAction::Add => None,
        TagAction::Remove => Some("rm"@),
        TagAction::List => Some("ls"@),
        TagAction::Prune => None,
    }
}

/// Every tag command answers to its name and to its alias, and a name that
/// selects a command is one of those two.
pub proof fn lemma_tag_action_names(a: TagAction, name: Seq<char>)
    ensures
        tag_action_spec(tag_action_name(a)) == Some(a),
        tag_action_alias(a) matches Some(x) ==> tag_action_spec(x) == Some(a),
        tag_action_spec(name) == Some(a) ==> name == tag_action_name(a) || tag_action_alias(a) == Some(name),
{
    reveal_strlit("add");
    assert("add"@ =~= seq!['a', 'd', 'd']);
    reveal_strlit("remove");
    assert("remove"@ =~= seq!['r', 'e', 'm', 'o', 'v', 'e']);
    reveal_strlit("rm");
    assert("rm"@ =~= seq!['r', 'm']);
    reveal_strlit("list");
    assert("list"@ =~= seq!['l', 'i', 's', 't']);
    reveal_strlit("ls");
    assert("ls"@ =~= seq!['l', 's']);
    reveal_strlit("prune");
    assert("prune"@ =~= seq!['p', 'r', 'u', 'n', 'e']);
}

/// The long option a global flag is spelled as.
pub open spec fn global_flag_name(f: GlobalFlag) -> Seq<char> {
    match f {
        GlobalFlag::Json => "json"@,
        GlobalFlag::Color => "color"@,
        GlobalFlag::Db => "db"@,
        GlobalFlag::Help => "help"@,
    }
}

/// Every global flag answers to its long option, and only to it.
pub proof fn lemma_global_flag_names(f: GlobalFlag, name: Seq<char>)
    ensures
        global_flag_spec(global_flag_name(f)) == Some(f),
        global_flag_spec(name) == Some(f) ==> name == global_flag_name(f),
{
    reveal_strlit("json");
    assert("json"@ =~= seq!['j', 's', 'o', 'n']);
    reveal_strlit("color");
    assert("color"@ =~= seq!['c', 'o', 'l', 'o', 'r']);
    reveal_strlit("db");
    assert("db"@ =~= seq!['d', 'b']);
    reveal_strlit("help");
    assert("help"@ =~= seq!['h', 'e', 'l', 'p']);
}

} // verus!
