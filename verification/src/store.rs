//! The watched commands of a session: the runtime configuration, the
//! command-line tokenizer, the commands-file format and the JSON form in
//! which a session stores its command list.

use vstd::prelude::*;
use crate::command_state::{active_tokens, resolved_active_command_tokens};
use crate::text::{
    lemma_split_concat, lemma_split_no_sep, chars_of, space_separated_tokens, space_tokens, split_on, split_str, token_views, trim, trim_str,
};

verus! {

/// The views of a list of commands, each a list of words.
pub open spec fn command_views(v: Seq<Vec<String>>) -> Seq<Seq<Seq<char>>> {
    v.map_values(|c: Vec<String>| token_views(c@))
}

/// What a session runs: the interval in milliseconds, the active command as a
/// single line (the legacy form, also used for display), every watched
/// command as a list of words, and which of them is active.
#[derive(Debug, Clone, Default)]
pub struct RuntimeConfig {
    pub interval: u64,
    /// Active command as a single string (legacy field and display).
    pub command: String,
    pub commands: Vec<Vec<String>>,
    pub active_command_index: u32,
}

/// Why the command list of a session could not be read.
#[derive(Debug, Clone, PartialEq, Eq)]
pub enum StoreError {
    /// A commands file holds no command once blank and `#` lines are skipped.
    NoCommands,
    /// The stored JSON is not a list of lists of strings; the parser's message.
    InvalidJson(String),
}

impl RuntimeConfig {
    /// The watched commands, as words.
    pub open spec fn commands_view(&self) -> Seq<Seq<Seq<char>>> {
        command_views(self.commands@)
    }

    /// A configuration with the single command `command`, given as one line.
    pub fn from_legacy(interval: u64, command: String) -> (r: Self)
        ensures
            r.interval == interval,
            r.command@ == command@,
            r.commands_view() == seq![space_tokens(command@)],
            r.active_command_index == 0,
    {
        let tokens = parse_command_tokens(command.as_str());
        let mut commands: Vec<Vec<String>> = Vec::new();
        commands.push(tokens);
        assert(command_views(commands@) =~= seq![space_tokens(command@)]);
        RuntimeConfig { interval, command, commands, active_command_index: 0 }
    }

    /// The words of the active command (see `resolved_active_command_tokens`).
    pub fn active_command_tokens(&self) -> (r: Vec<String>)
        ensures
            token_views(r@) == active_tokens(
                self.commands_view(),
                self.active_command_index,
                self.command@,
            ),
    {
        resolved_active_command_tokens(self)
    }
}

/// A configuration made from one command line runs that command line's
/// words.
pub proof fn lemma_legacy_config_runs_its_command(command: Seq<char>)
    ensures
        active_tokens(seq![space_tokens(command)], 0, command) == space_tokens(command),
{
}

/// The words of a command line: the pieces between single spaces, with empty
/// pieces (from runs of spaces) dropped.
pub fn parse_command_tokens(command: &str) -> (r: Vec<String>)
    ensures
        token_views(r@) == space_tokens(command@),
{
    space_separated_tokens(command)
}

/// A line of a commands file names a command unless it is blank or, once
/// trimmed, starts with `#`.
pub open spec fn is_command_line(line: Seq<char>) -> bool {
    trim(line).len() > 0 && trim(line)[0] != '#'
}

/// The test that keeps the command lines of a commands file.
pub open spec fn keep_command_lines() -> spec_fn(Seq<char>) -> bool {
    |line: Seq<char>| is_command_line(line)
}

/// The commands of a commands file: one per command line, in order, each the
/// words of the trimmed line. Lines end at `\n`; a `\r` before it is white
/// space and trimmed away, so this agrees with reading the file by
/// `str::lines`.
pub open spec fn file_commands(content: Seq<char>) -> Seq<Seq<Seq<char>>> {
    split_on(content, '\n').filter(keep_command_lines()).map_values(
        |line: Seq<char>| space_tokens(trim(line)),
    )
}

/// A commands file is read line by line: the commands of two texts joined by
/// a line break are those of the first followed by those of the second.
pub proof fn lemma_file_commands_concat(a: Seq<char>, b: Seq<char>)
    ensures
        file_commands(a + seq!['\n'] + b) == file_commands(a) + file_commands(b),
{
    lemma_split_concat(a, b, '\n');
    let f = keep_command_lines();
    Seq::filter_distributes_over_add(split_on(a, '\n'), split_on(b, '\n'), f);
    let g = |line: Seq<char>| space_tokens(trim(line));
    assert((split_on(a, '\n').filter(f) + split_on(b, '\n').filter(f)).map_values(g) =~= split_on(
        a,
        '\n',
    ).filter(f).map_values(g) + split_on(b, '\n').filter(f).map_values(g));
}

/// One line of a commands file: it names exactly one command, the words of
/// the trimmed line, when the trimmed line is not empty and its first
/// character is not `#` (a `#` elsewhere in the line is part of the
/// command); otherwise it names none.
pub proof fn lemma_file_commands_of_line(line: Seq<char>)
    requires
        !line.contains('\n'),
    ensures
        trim(line).len() > 0 && trim(line)[0] != '#' ==> file_commands(line) == seq![
            space_tokens(trim(line)),
        ],
        !(trim(line).len() > 0 && trim(line)[0] != '#') ==> file_commands(line).len() == 0,
{
    broadcast use Seq::lemma_filter_push;

    lemma_split_no_sep(line, '\n');
    let f = keep_command_lines();
    assert(seq![line] =~= Seq::<Seq<char>>::empty().push(line));
    assert(Seq::<Seq<char>>::empty().filter(f) =~= Seq::<Seq<char>>::empty()) by {
        reveal(Seq::filter);
    }
}

/// Reads the text of a commands file: one command per line, blank lines and
/// lines starting with `#` skipped. Fails when no command is left.
pub fn parse_commands_file(content: &str) -> (r: Result<Vec<Vec<String>>, StoreError>)
    ensures
        file_commands(content@).len() > 0 ==> (r matches Ok(v) && command_views(v@)
            == file_commands(content@)),
        file_commands(content@).len() == 0 ==> r == Err::<Vec<Vec<String>>, StoreError>(
            StoreError::NoCommands,
        ),
{
    broadcast use Seq::lemma_filter_push;

    let lines = split_str(content, '\n');
    let ghost lv = token_views(lines@);
    let mut commands: Vec<Vec<String>> = Vec::new();
    let mut i: usize = 0;
    while i < lines.len()
        invariant
            i <= lines@.len(),
            lv == token_views(lines@),
            command_views(commands@) == lv.take(i as int).filter(keep_command_lines()).map_values(
                |line: Seq<char>| space_tokens(trim(line)),
            ),
        decreases lines@.len() - i,
    {
        let ghost before = commands@;
        let line = trim_str(lines[i].as_str());
        assert(lv.take(i + 1) =~= lv.take(i as int).push(lv[i as int]));
        proof {
            lv.take(i as int).lemma_filter_push(lv[i as int], keep_command_lines());
        }
        if !line.as_str().is_empty() && !starts_with_hash(line.as_str()) {
            let tokens = parse_command_tokens(line.as_str());
            commands.push(tokens);
            assert(command_views(commands@) =~= command_views(before).push(token_views(tokens@)));
        }
        i = i + 1;
    }
    assert(lv.take(lines@.len() as int) =~= lv);
    if commands.len() == 0 {
        Err(StoreError::NoCommands)
    } else {
        Ok(commands)
    }
}

/// True when `s` starts with `#`.
fn starts_with_hash(s: &str) -> (r: bool)
    ensures
        r == (s@.len() > 0 && s@[0] == '#'),
{
    let chars = chars_of(s);
    chars.len() > 0 && chars[0] == '#'
}


#[verifier::external_type_specification]
#[verifier::external_body]
pub struct ExJsonError(serde_json::Error);

/// The JSON text that `serde_json::to_string` writes for a list of commands.
pub uninterp spec fn json_of_commands(commands: Seq<Seq<Seq<char>>>) -> Seq<char>;

/// The list of commands that `serde_json::from_str` reads from a JSON text,
/// or `None` where it fails.
pub uninterp spec fn commands_of_json(json: Seq<char>) -> Option<Seq<Seq<Seq<char>>>>;

/// Calls `serde_json::to_string` on a list of commands; the text is named by
/// `json_of_commands`. The contract also says that the call succeeds: serde_json
/// documents a failure only where a `Serialize` impl fails or a map has
/// non-string keys, and lists of lists of strings have neither.
#[verifier::external_body]
fn json_to_string(commands: &[Vec<String>]) -> (r: Result<String, serde_json::Error>)
    ensures
        r is Ok,
        r is Ok ==> r->Ok_0@ == json_of_commands(command_views(commands@)),
{
    serde_json::to_string(commands)
}

/// Calls `serde_json::from_str` for a list of lists of strings; what it reads,
/// or that it fails, is named by `commands_of_json`. The contract also says that
/// a text written by `serde_json::to_string` for a list of commands is read back
/// as that list. The contents of the error are not stated.
#[verifier::external_body]
fn json_from_str(json: &str) -> (r: Result<Vec<Vec<String>>, serde_json::Error>)
    ensures
        r is Ok ==> commands_of_json(json@) == Some(command_views(r->Ok_0@)),
        r is Err ==> commands_of_json(json@) is None,
        forall|c: Seq<Seq<Seq<char>>>| #[trigger]
            json_of_commands(c) == json@ ==> (r is Ok && command_views(r->Ok_0@) == c),
{
    serde_json::from_str(json)
}

/// The JSON form of a list of commands, as stored with a session.
pub fn commands_to_json(commands: &[Vec<String>]) -> (r: Result<String, StoreError>)
    ensures
        r matches Ok(s) && s@ == json_of_commands(command_views(commands@)),
{
    match json_to_string(commands) {
        Ok(s) => Ok(s),
        Err(e) => Err(StoreError::InvalidJson(e.to_string())),
    }
}

/// Reads a list of commands from its JSON form. Reading what `commands_to_json`
/// wrote gives back the same commands.
pub fn commands_from_json(json: &str) -> (r: Result<Vec<Vec<String>>, StoreError>)
    ensures
        match r {
            Ok(v) => commands_of_json(json@) == Some(command_views(v@)),
            Err(e) => commands_of_json(json@) is None && e is InvalidJson,
        },
        forall|c: Seq<Seq<Seq<char>>>| #[trigger]
            json_of_commands(c) == json@ ==> (r matches Ok(v) && command_views(v@) == c),
{
    match json_from_str(json) {
        Ok(v) => Ok(v),
        Err(e) => Err(StoreError::InvalidJson(e.to_string())),
    }
}

} // verus!
