//! A process of the monitored system and the container it runs.

use vstd::prelude::*;
use crate::json::{
    decode_lossy, json_as_array, json_as_str, json_document, json_from_str, json_get, json_tree,
    lossy_utf8, JsonTree,
};
use crate::text::{
    chars_eq, chars_of, next_after_first, views, position_after_first, split_whitespace, string_of,
    lemma_next_after_first_at, lemma_next_after_first_none, lemma_tokens_clean, lemma_trim_start_char, no_whitespace, trim, trim_start_char, trim_start_matches, trim_whitespace, tokens,
};

verus! {

/// A process as the kernel module reports it. The two usage figures are
/// reported as decimals; here each stands as an order key, an integer that
/// orders processes as the figure does (equal figures, equal keys).
pub struct Process {
    pub pid: u32,
    pub name: String,
    pub cmd_line: String,
    pub memory_key: u64,
    pub cpu_key: u64,
}

/// How a command that was asked to run ended.
pub enum CommandOutcome {
    /// The command could not be started.
    NotStarted,
    /// The command ran; whether it reported success, and what it printed.
    Finished { success: bool, stdout: Vec<u8> },
}

/// The text `N/A`.
pub open spec fn text_na() -> Seq<char> {
    seq!['N', '/', 'A']
}

/// The text `python`.
pub open spec fn text_python() -> Seq<char> {
    seq!['p', 'y', 't', 'h', 'o', 'n']
}

/// The text `cpu`.
pub open spec fn text_cpu() -> Seq<char> {
    seq!['c', 'p', 'u']
}

/// The text `-id`.
pub open spec fn text_id_flag() -> Seq<char> {
    seq!['-', 'i', 'd']
}

/// The text `stress`.
pub open spec fn text_stress() -> Seq<char> {
    seq!['s', 't', 'r', 'e', 's', 's']
}

/// The text `true`.
pub open spec fn text_true() -> Seq<char> {
    seq!['t', 'r', 'u', 'e']
}

/// The container id that a command line names: the token after the first
/// `-id` token, or `N/A`.
pub open spec fn container_id_of(cmd_line: Seq<char>) -> Seq<char> {
    match next_after_first(tokens(cmd_line), text_id_flag()) {
        Some(id) => id,
        None => text_na(),
    }
}

/// The member of an object under `key`.
pub open spec fn member(t: JsonTree, key: Seq<char>) -> Option<JsonTree> {
    match t {
        JsonTree::Object(m) => if m.contains_key(key) {
            Some(m[key])
        } else {
            None
        },
        _ => None,
    }
}

/// The texts among `items`, in order; items of other kinds are passed over.
pub open spec fn string_items(items: Seq<JsonTree>) -> Seq<Seq<char>>
    decreases items.len(),
{
    if items.len() == 0 {
        seq![]
    } else {
        string_items(items.drop_last()) + match items.last() {
            JsonTree::Text(t) => seq![t],
            _ => Seq::<Seq<char>>::empty(),
        }
    }
}

/// The items of `Config.Cmd` in a container's configuration, where that
/// member is an array.
pub open spec fn config_cmd(config: JsonTree) -> Option<Seq<JsonTree>> {
    match member(config, "Config"@) {
        Some(c) => match member(c, "Cmd"@) {
            Some(JsonTree::Array(items)) => Some(items),
            _ => None,
        },
        None => None,
    }
}

/// The kind of load a container was started with, read from its
/// configuration: the argument after the first `stress` in its command,
/// without leading dashes; `python` where there is none.
pub open spec fn type_of_config(config: JsonTree) -> Seq<char> {
    match config_cmd(config) {
        Some(items) => match next_after_first(string_items(items), text_stress()) {
            Some(arg) => trim_start_char(arg, '-'),
            None => text_python(),
        },
        None => text_python(),
    }
}

/// The name recorded in a container's configuration, without leading
/// slashes; `N/A` where there is none.
pub open spec fn name_of_config(config: JsonTree) -> Seq<char> {
    match member(config, "Name"@) {
        Some(JsonTree::Text(n)) => trim_start_char(n, '/'),
        _ => text_na(),
    }
}

/// The configuration text that a finished read printed.
pub open spec fn read_document(stdout: Seq<u8>) -> Option<JsonTree> {
    json_document(lossy_utf8(stdout))
}

/// The kind of load, given how the read of the container's configuration
/// ended: `python` where the read could not start or the text is no JSON,
/// `cpu` where the read reported failure.
pub open spec fn type_of_outcome(outcome: CommandOutcome) -> Seq<char> {
    match outcome {
        CommandOutcome::NotStarted => text_python(),
        CommandOutcome::Finished { success, stdout } => if !success {
            text_cpu()
        } else {
            match read_document(stdout@) {
                Some(config) => type_of_config(config),
                None => text_python(),
            }
        },
    }
}

/// The container's name, given how the read of its configuration ended;
/// the same fallbacks as for the kind of load.
pub open spec fn name_of_outcome(outcome: CommandOutcome) -> Seq<char> {
    match outcome {
        CommandOutcome::NotStarted => text_python(),
        CommandOutcome::Finished { success, stdout } => if !success {
            text_cpu()
        } else {
            match read_document(stdout@) {
                Some(config) => name_of_config(config),
                None => text_python(),
            }
        },
    }
}

/// Whether an inspection of a container's state reports it running: it
/// succeeded and printed `true`, give or take surrounding whitespace.
pub open spec fn running_of_outcome(outcome: CommandOutcome) -> bool {
    match outcome {
        CommandOutcome::NotStarted => false,
        CommandOutcome::Finished { success, stdout } => success && trim_whitespace(
            lossy_utf8(stdout@),
        ) == text_true(),
    }
}

fn python() -> (r: String)
    ensures
        r@ == text_python(),
{
    let r = String::from_str("python");
    proof {
        reveal_strlit("python");
    }
    r
}

fn cpu() -> (r: String)
    ensures
        r@ == text_cpu(),
{
    let r = String::from_str("cpu");
    proof {
        reveal_strlit("cpu");
    }
    r
}

fn na() -> (r: String)
    ensures
        r@ == text_na(),
{
    let r = String::from_str("N/A");
    proof {
        reveal_strlit("N/A");
    }
    r
}

impl Process {
    /// The id of the container this process runs: the token that follows
    /// the first `-id` token of its command line, or `N/A`.
    pub fn get_container_id(&self) -> (r: String)
        ensures
            r@ == container_id_of(self.cmd_line@),
    {
        let parts = split_whitespace(self.cmd_line.as_str());
        let flag = vec!['-', 'i', 'd'];
        match position_after_first(&parts, &flag) {
            Some(j) => string_of(&parts[j]),
            None => na(),
        }
    }

    /// Where the configuration of this process's container is kept.
    pub fn config_path(&self) -> (r: String)
        ensures
            r@ == "/var/lib/docker/containers/"@ + container_id_of(self.cmd_line@)
                + "/config.v2.json"@,
    {
        let id = self.get_container_id();
        let mut r = String::from_str("/var/lib/docker/containers/");
        r.append(id.as_str());
        r.append("/config.v2.json");
        r
    }

    /// The kind of load of a container, read from its configuration.
    pub fn container_type_of_config(config: &serde_json::Value) -> (r: String)
        ensures
            r@ == type_of_config(json_tree(*config)),
    {
        let cmd = match json_get(config, "Config") {
            Some(c) => json_get(c, "Cmd"),
            None => None,
        };
        let array = match cmd {
            Some(c) => json_as_array(c),
            None => None,
        };
        match array {
            Some(items) => {
                let ghost trees = items@.map_values(|x: serde_json::Value| json_tree(x));
                let n = items.len();
                let mut values: Vec<Vec<char>> = Vec::new();
                for i in 0..n
                    invariant
                        n == items@.len(),
                        trees == items@.map_values(|x: serde_json::Value| json_tree(x)),
                        views(values@) == string_items(trees.take(i as int)),
                {
                    assert(trees.take(i + 1).drop_last() == trees.take(i as int));
                    assert(trees.take(i + 1).last() == json_tree(items@[i as int]));
                    let ghost before = values@;
                    match json_as_str(&items[i]) {
                        Some(s) => {
                            values.push(chars_of(s));
                            assert(views(values@) == views(before) + seq![s@]);
                        },
                        None => {},
                    }
                }
                assert(trees.take(n as int) == trees);
                let stress = vec!['s', 't', 'r', 'e', 's', 's'];
                match position_after_first(&values, &stress) {
                    Some(j) => string_of(&trim_start_matches(&values[j], '-')),
                    None => python(),
                }
            },
            None => python(),
        }
    }

    /// The name of a container, read from its configuration.
    pub fn container_name_of_config(config: &serde_json::Value) -> (r: String)
        ensures
            r@ == name_of_config(json_tree(*config)),
    {
        match json_get(config, "Name") {
            Some(v) => match json_as_str(v) {
                Some(s) => string_of(&trim_start_matches(&chars_of(s), '/')),
                None => na(),
            },
            None => na(),
        }
    }

    /// The kind of load of a container, given how the read of its
    /// configuration ended.
    pub fn get_container_type(outcome: &CommandOutcome) -> (r: String)
        ensures
            r@ == type_of_outcome(*outcome),
    {
        match outcome {
            CommandOutcome::NotStarted => python(),
            CommandOutcome::Finished { success, stdout } => {
                if !*success {
                    cpu()
                } else {
                    let text = decode_lossy(stdout);
                    match json_from_str(text.as_str()) {
                        Some(config) => Self::container_type_of_config(&config),
                        None => python(),
                    }
                }
            },
        }
    }

    /// The name of a container, given how the read of its configuration
    /// ended.
    pub fn get_container_name(outcome: &CommandOutcome) -> (r: String)
        ensures
            r@ == name_of_outcome(*outcome),
    {
        match outcome {
            CommandOutcome::NotStarted => python(),
            CommandOutcome::Finished { success, stdout } => {
                if !*success {
                    cpu()
                } else {
                    let text = decode_lossy(stdout);
                    match json_from_str(text.as_str()) {
                        Some(config) => Self::container_name_of_config(&config),
                        None => python(),
                    }
                }
            },
        }
    }
}

/// Whether an inspection of a container's state reports it running.
pub fn is_container_running(outcome: &CommandOutcome) -> (r: bool)
    requires
        outcome is Finished,
    ensures
        r == running_of_outcome(*outcome),
{
    match outcome {
        CommandOutcome::NotStarted => false,
        CommandOutcome::Finished { success, stdout } => {
            if !*success {
                false
            } else {
                let text = decode_lossy(stdout);
                let status = trim(&chars_of(text.as_str()));
                let expected = vec!['t', 'r', 'u', 'e'];
                chars_eq(&status, &expected)
            }
        },
    }
}


/// A container id read from a command line is `N/A` or a nonempty token
/// without whitespace.
pub proof fn lemma_container_id_is_token(cmd_line: Seq<char>)
    ensures
        container_id_of(cmd_line) == text_na() || (container_id_of(cmd_line).len() > 0
            && no_whitespace(container_id_of(cmd_line))),
{
    lemma_tokens_clean(cmd_line);
    lemma_next_after_first_member(tokens(cmd_line), text_id_flag());
}

/// What follows the first occurrence of an item is itself an item.
pub proof fn lemma_next_after_first_member(items: Seq<Seq<char>>, target: Seq<char>)
    ensures
        next_after_first(items, target) matches Some(v) ==> exists|i: int|
            0 <= i < items.len() && #[trigger] items[i] == v,
    decreases items.len(),
{
    if items.len() > 0 && items[0] != target {
        lemma_next_after_first_member(items.drop_first(), target);
        if let Some(v) = next_after_first(items, target) {
            let i = choose|i: int| 0 <= i < items.drop_first().len() && #[trigger] items.drop_first()[i] == v;
            assert(items[i + 1] == v);
        }
    } else if items.len() > 1 {
        assert(items[1] == items[1]);
    }
}

/// A container name read from a configuration never starts with `/`.
pub proof fn lemma_name_without_slash(config: JsonTree)
    ensures
        name_of_config(config).len() > 0 ==> name_of_config(config)[0] != '/',
{
    if let Some(JsonTree::Text(n)) = member(config, "Name"@) {
        lemma_trim_start_char(n, '/');
    }
}

/// A kind of load read from a configuration is `python` or does not start
/// with `-`.
pub proof fn lemma_type_without_dash(config: JsonTree)
    ensures
        type_of_config(config) == text_python() || type_of_config(config).len() == 0
            || type_of_config(config)[0] != '-',
{
    if let Some(items) = config_cmd(config) {
        if let Some(arg) = next_after_first(string_items(items), text_stress()) {
            lemma_trim_start_char(arg, '-');
        }
    }
}


/// Where the command line has a token after its first `-id` token, the
/// container id is that whole token.
pub proof fn lemma_container_id_after_first_flag(cmd_line: Seq<char>, i: int)
    requires
        0 <= i,
        i + 1 < tokens(cmd_line).len(),
        tokens(cmd_line)[i] == text_id_flag(),
        forall|m: int| 0 <= m < i ==> tokens(cmd_line)[m] != text_id_flag(),
    ensures
        container_id_of(cmd_line) == tokens(cmd_line)[i + 1],
{
    lemma_next_after_first_at(tokens(cmd_line), text_id_flag(), i);
}

/// Where no token but possibly the last is `-id`, the container id is
/// `N/A`.
pub proof fn lemma_container_id_absent(cmd_line: Seq<char>)
    requires
        forall|m: int| 0 <= m < tokens(cmd_line).len() - 1 ==> tokens(cmd_line)[m] != text_id_flag(),
    ensures
        container_id_of(cmd_line) == text_na(),
{
    lemma_next_after_first_none(tokens(cmd_line), text_id_flag());
}

/// The name read from a configuration whose `Name` is a text is that text
/// with its leading slashes removed and nothing else: the text is a run of
/// slashes followed by the name, and the name does not start with a slash.
/// Where `Name` is missing or no text, the name is `N/A`.
pub proof fn lemma_name_of_config_exact(config: JsonTree)
    ensures
        match member(config, "Name"@) {
            Some(JsonTree::Text(n)) => {
                &&& exists|k: int|
                    0 <= k <= n.len() && #[trigger] n.skip(k) == name_of_config(config) && (forall|
                        i: int,
                    | 0 <= i < k ==> n[i] == '/')
                &&& name_of_config(config).len() == 0 || name_of_config(config)[0] != '/'
            },
            _ => name_of_config(config) == text_na(),
        },
{
    if let Some(JsonTree::Text(n)) = member(config, "Name"@) {
        lemma_trim_start_char(n, '/');
    }
}

/// The kind of load read from a configuration whose `Config.Cmd` texts have
/// an item after their first `stress`: that item with its leading dashes
/// removed and nothing else.
pub proof fn lemma_type_after_first_stress(config: JsonTree, i: int)
    requires
        config_cmd(config) is Some,
        0 <= i,
        i + 1 < string_items(config_cmd(config)->0).len(),
        string_items(config_cmd(config)->0)[i] == text_stress(),
        forall|m: int| 0 <= m < i ==> string_items(config_cmd(config)->0)[m] != text_stress(),
    ensures
        ({
            let arg = string_items(config_cmd(config)->0)[i + 1];
            &&& exists|k: int|
                0 <= k <= arg.len() && #[trigger] arg.skip(k) == type_of_config(config) && (forall|
                    j: int,
                | 0 <= j < k ==> arg[j] == '-')
            &&& type_of_config(config).len() == 0 || type_of_config(config)[0] != '-'
        }),
{
    let vs = string_items(config_cmd(config)->0);
    lemma_next_after_first_at(vs, text_stress(), i);
    lemma_trim_start_char(vs[i + 1], '-');
}

/// Where `Config.Cmd` is no array, or none of its texts but possibly the
/// last is `stress`, the kind of load is `python`.
pub proof fn lemma_type_without_stress(config: JsonTree)
    requires
        config_cmd(config) matches Some(items) ==> forall|m: int|
            0 <= m < string_items(items).len() - 1 ==> string_items(items)[m] != text_stress(),
    ensures
        type_of_config(config) == text_python(),
{
    if let Some(items) = config_cmd(config) {
        lemma_next_after_first_none(string_items(items), text_stress());
    }
}


/// The texts of two lists of items one after the other are the texts of
/// the first list followed by those of the second.
pub proof fn lemma_string_items_append(s: Seq<JsonTree>, t: Seq<JsonTree>)
    ensures
        string_items(s + t) == string_items(s) + string_items(t),
    decreases t.len(),
{
    if t.len() == 0 {
        assert(s + t == s);
        assert(string_items(s) + Seq::<Seq<char>>::empty() == string_items(s));
    } else {
        assert((s + t).drop_last() == s + t.drop_last());
        assert((s + t).last() == t.last());
        lemma_string_items_append(s, t.drop_last());
    }
}

/// A single item yields its text where it is a text, and nothing otherwise.
pub proof fn lemma_string_items_single(x: JsonTree)
    ensures
        string_items(seq![x]) == match x {
            JsonTree::Text(t) => seq![t],
            _ => Seq::<Seq<char>>::empty(),
        },
{
    assert(seq![x].drop_last() == Seq::<JsonTree>::empty());
    assert(string_items(Seq::<JsonTree>::empty()) == Seq::<Seq<char>>::empty());
}

/// The fallbacks of reading a container's configuration: where the read
/// could not start, both the kind and the name are `python`; where it
/// reported failure, both are `cpu`; where it printed no JSON, both are
/// `python`.
pub proof fn lemma_outcome_fallbacks(outcome: CommandOutcome)
    ensures
        outcome is NotStarted ==> type_of_outcome(outcome) == text_python() && name_of_outcome(outcome)
            == text_python(),
        outcome matches CommandOutcome::Finished { success, .. } && !success ==> type_of_outcome(outcome)
            == text_cpu() && name_of_outcome(outcome) == text_cpu(),
        outcome matches CommandOutcome::Finished { success, stdout } && success && json_document(
            lossy_utf8(stdout@),
        ) is None ==> type_of_outcome(outcome) == text_python() && name_of_outcome(outcome) == text_python(),
        match outcome {
            CommandOutcome::Finished { success: true, stdout } => match json_document(
                lossy_utf8(stdout@),
            ) {
                Some(config) => type_of_outcome(outcome) == type_of_config(config) && name_of_outcome(
                    outcome,
                ) == name_of_config(config),
                None => true,
            },
            _ => true,
        },
        running_of_outcome(outcome) ==> (outcome matches CommandOutcome::Finished { success, .. } && success),
{
}

} // verus!
