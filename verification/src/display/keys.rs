//! What a key means in each mode of the browser, and what a command
//! line asks for.

use vstd::prelude::*;
use vstd::string::*;

verus! {

/// What a key asks for while the trie is browsed.
#[derive(Clone, Copy, Debug, PartialEq, Eq, Structural)]
pub enum NavigationKey {
    /// Expand the line, or fold it.
    Toggle,
    /// Go to the first child.
    Forward,
    /// Go to the line above.
    Back,
    /// Go to the next sibling.
    Down,
    /// Go to the sibling before.
    Up,
    /// Open the way along the deepest parents.
    LongestPath,
    /// Start a command line.
    StartCommand,
    /// Nothing.
    Ignore,
}

/// What a key asks for while a command line is typed.
#[derive(Clone, Copy, Debug, PartialEq, Eq, Structural)]
pub enum CommandKey {
    /// Carry the command out.
    Execute,
    /// Leave the command line.
    Leave,
    /// Take the last character back.
    Delete,
    /// Empty the line.
    Clear,
    /// Add the character to the line.
    Insert(char),
}

/// What a key asks for in the file explorer.
#[derive(Clone, Copy, Debug, PartialEq, Eq, Structural)]
pub enum ExplorerKey {
    Down,
    Up,
    Open,
    Ignore,
}

/// What a command line asks for.
#[derive(Clone, Copy, Debug, PartialEq, Eq, Structural)]
pub enum Command {
    /// Show, or stop showing, how meaningful each line is.
    Meaning,
    /// Choose a file to load.
    Load,
    /// Leave the browser.
    Quit,
    /// Anything else: back to browsing.
    Other,
}

/// The meaning of a key while the trie is browsed.
pub open spec fn navigation_key_of(character: char) -> NavigationKey {
    if character == '\n' {
        NavigationKey::Toggle
    } else if character == 'l' {
        NavigationKey::Forward
    } else if character == 'h' {
        NavigationKey::Back
    } else if character == 'j' {
        NavigationKey::Down
    } else if character == 'k' {
        NavigationKey::Up
    } else if character == '\t' {
        NavigationKey::LongestPath
    } else if character == ':' || character == ';' {
        NavigationKey::StartCommand
    } else {
        NavigationKey::Ignore
    }
}

/// The meaning of a key while the trie is browsed.
#[verifier::when_used_as_spec(navigation_key_of)]
pub fn navigation_key(character: char) -> (key: NavigationKey)
    ensures
        key == navigation_key_of(character),
{
    if character == '\n' {
        NavigationKey::Toggle
    } else if character == 'l' {
        NavigationKey::Forward
    } else if character == 'h' {
        NavigationKey::Back
    } else if character == 'j' {
        NavigationKey::Down
    } else if character == 'k' {
        NavigationKey::Up
    } else if character == '\t' {
        NavigationKey::LongestPath
    } else if character == ':' || character == ';' {
        NavigationKey::StartCommand
    } else {
        NavigationKey::Ignore
    }
}

/// The meaning of a key while a command line is typed: return carries
/// the command out, escape leaves, delete takes a character back,
/// control-U and control-X empty the line, and every other key is typed.
pub open spec fn command_key_of(character: char) -> CommandKey {
    if character == '\n' {
        CommandKey::Execute
    } else if character == '\x1B' {
        CommandKey::Leave
    } else if character == '\x7F' {
        CommandKey::Delete
    } else if character == '\x15' || character == '\x18' {
        CommandKey::Clear
    } else {
        CommandKey::Insert(character)
    }
}

/// The meaning of a key while a command line is typed.
#[verifier::when_used_as_spec(command_key_of)]
pub fn command_key(character: char) -> (key: CommandKey)
    ensures
        key == command_key_of(character),
{
    if character == '\n' {
        CommandKey::Execute
    } else if character == '\x1B' {
        CommandKey::Leave
    } else if character == '\x7F' {
        CommandKey::Delete
    } else if character == '\x15' || character == '\x18' {
        CommandKey::Clear
    } else {
        CommandKey::Insert(character)
    }
}

/// The meaning of a key in the file explorer.
pub open spec fn explorer_key_of(character: char) -> ExplorerKey {
    if character == 'j' {
        ExplorerKey::Down
    } else if character == 'k' {
        ExplorerKey::Up
    } else if character == '\n' {
        ExplorerKey::Open
    } else {
        ExplorerKey::Ignore
    }
}

/// The meaning of a key in the file explorer.
#[verifier::when_used_as_spec(explorer_key_of)]
pub fn explorer_key(character: char) -> (key: ExplorerKey)
    ensures
        key == explorer_key_of(character),
{
    if character == 'j' {
        ExplorerKey::Down
    } else if character == 'k' {
        ExplorerKey::Up
    } else if character == '\n' {
        ExplorerKey::Open
    } else {
        ExplorerKey::Ignore
    }
}

/// The file below the hovered one, if there is one; else the hovered
/// one, or the first where there is no file at all.
pub fn hover_down(hovered_file: usize, number_of_children: usize) -> (hovered: usize)
    ensures
        hovered == if number_of_children == 0 {
            0
        } else if hovered_file + 1 < number_of_children {
            hovered_file + 1
        } else {
            number_of_children - 1
        },
{
    if number_of_children == 0 {
        0
    } else if hovered_file < number_of_children - 1 {
        hovered_file + 1
    } else {
        number_of_children - 1
    }
}

/// The file above the hovered one, if there is one; else the first. A
/// hovered file beyond the last counts as the last.
pub fn hover_up(hovered_file: usize, number_of_children: usize) -> (hovered: usize)
    ensures
        hovered == if number_of_children == 0 || hovered_file == 0 {
            0
        } else if hovered_file - 1 < number_of_children {
            hovered_file - 1
        } else {
            number_of_children - 1
        },
{
    if number_of_children == 0 || hovered_file == 0 {
        0
    } else if hovered_file - 1 < number_of_children {
        hovered_file - 1
    } else {
        number_of_children - 1
    }
}

/// What `str::trim` returns for a text.
pub uninterp spec fn trimmed(text: Seq<char>) -> Seq<char>;

/// What `str::to_uppercase` returns for a text.
pub uninterp spec fn uppercased(text: Seq<char>) -> Seq<char>;

/// `str::trim`: the text without the white space at its two ends, as a
/// string of its own. The contract only names the result.
#[verifier::external_body]
fn trim(text: &str) -> (trimmed_text: String)
    ensures
        trimmed_text@ == trimmed(text@),
{
    text.trim().to_string()
}

/// `str::to_uppercase`: the text in upper case. The contract only names
/// the result.
#[verifier::external_body]
fn to_uppercase(text: &str) -> (upper: String)
    ensures
        upper@ == uppercased(text@),
{
    text.to_uppercase()
}

/// What a command line asks for, once it is trimmed and in upper case.
pub open spec fn command_of(normalized: Seq<char>) -> Command {
    if normalized == "MEANING"@ {
        Command::Meaning
    } else if normalized == "LOAD"@ {
        Command::Load
    } else if normalized == "Q"@ {
        Command::Quit
    } else {
        Command::Other
    }
}

/// What a command line that has been trimmed and put in upper case asks
/// for.
pub fn command_of_text(normalized: &String) -> (command: Command)
    ensures
        command == command_of(normalized@),
{
    if *normalized == String::from_str("MEANING") {
        Command::Meaning
    } else if *normalized == String::from_str("LOAD") {
        Command::Load
    } else if *normalized == String::from_str("Q") {
        Command::Quit
    } else {
        Command::Other
    }
}

/// What a command line asks for. White space at its ends and the case of
/// its letters do not count.
pub fn parse_command(command_buffer: &str) -> (command: Command)
    ensures
        command == command_of(uppercased(trimmed(command_buffer@))),
{
    let trimmed_text = trim(command_buffer);
    let upper = to_uppercase(trimmed_text.as_str());
    command_of_text(&upper)
}

} // verus!
