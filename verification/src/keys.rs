//! What the user types: keys while a share is running, and the answer to a question.
use vstd::prelude::*;
use crate::text;

verus! {

broadcast use vstd::seq::group_seq_axioms;

/// The modifiers held with a key.
#[derive(Debug, Clone, Copy, PartialEq, Eq, Structural)]
pub enum KeyModifiers {
    /// No modifier.
    Plain,
    /// Control alone.
    Control,
    /// Any others.
    Other,
}

/// What happened to a key.
#[derive(Debug, Clone, Copy, PartialEq, Eq, Structural)]
pub enum KeyEventKind {
    /// It was pressed.
    Press,
    /// It is held down.
    Repeat,
    /// It was let go.
    Release,
}

/// An event of the keyboard.
#[derive(Debug, Clone, Copy, PartialEq, Eq, Structural)]
pub struct KeyEvent {
    /// The character of the key, where it has one.
    pub character: Option<char>,
    /// The modifiers held with it.
    pub modifiers: KeyModifiers,
    /// What happened to it.
    pub kind: KeyEventKind,
}

/// What a key does while a share is running.
#[derive(Debug, Clone, Copy, PartialEq, Eq, Structural)]
pub enum KeyAction {
    /// It copies the receive command.
    Copy,
    /// It ends the sender.
    Interrupt,
    /// Nothing.
    Ignore,
}

/// What a key does: pressing `c` alone copies the receive command, with Control it ends the
/// sender.
pub fn key_action(e: KeyEvent) -> (r: KeyAction)
    ensures
        r == if e.character == Some('c') && e.kind == KeyEventKind::Press && e.modifiers
            == KeyModifiers::Plain {
            KeyAction::Copy
        } else if e.character == Some('c') && e.kind == KeyEventKind::Press && e.modifiers
            == KeyModifiers::Control {
            KeyAction::Interrupt
        } else {
            KeyAction::Ignore
        },
{
    match e.character {
        Some('c') => match (e.kind, e.modifiers) {
            (KeyEventKind::Press, KeyModifiers::Plain) => KeyAction::Copy,
            (KeyEventKind::Press, KeyModifiers::Control) => KeyAction::Interrupt,
            _ => KeyAction::Ignore,
        },
        _ => KeyAction::Ignore,
    }
}

// ---------------------------------------------------------------------------------------
// The question whether to send
// ---------------------------------------------------------------------------------------

/// Asks whether to send a path, which is shown as `path`. It fails where the path is not there.
pub fn confirm_prompt(path: &str, exists: bool) -> (r: Result<String, String>)
    ensures
        exists ==> (r matches Ok(s) && s@ == "send "@ + path@ + "? [y/N] "@),
        !exists ==> (r matches Err(s) && s@ == "path "@ + path@ + " does not exist"@),
{
    if exists {
        let mut s = "send ".to_string();
        s.append(path);
        s.append("? [y/N] ");
        Ok(s)
    } else {
        let mut s = "path ".to_string();
        s.append(path);
        s.append(" does not exist");
        Err(s)
    }
}

/// Whether a line means yes: `y` or `yes` in either letter case, with white space around it.
pub open spec fn means_yes(line: Seq<char>) -> bool {
    let answer = text::ascii_lower(text::trim(line));
    answer == "y"@ || answer == "yes"@
}

/// Whether a line means yes.
pub fn line_means_yes(line: &str) -> (r: bool)
    ensures
        r == means_yes(line@),
{
    let chars = text::chars_of(line);
    let trimmed = text::trim_chars(chars.as_slice());
    let answer = text::string_of(text::lower_chars(trimmed.as_slice()).as_slice());
    text::same_text(answer.as_str(), "y") || text::same_text(answer.as_str(), "yes")
}

/// The answer of a single key.
#[derive(Debug, Clone, Copy, PartialEq, Eq, Structural)]
pub enum KeyAnswer {
    /// Send.
    Yes,
    /// Do not send.
    No,
    /// End the program with the given code.
    Interrupt(i32),
}

/// What a single key answers, and what is shown of it.
#[derive(Debug, Clone, Copy, PartialEq, Eq, Structural)]
pub struct KeyReply {
    /// The character to show, where the key has a visible one.
    pub echo: Option<char>,
    /// The answer.
    pub answer: KeyAnswer,
}

/// What a key answers, where `byte` is what the terminal gave, if anything: `y` in either letter
/// case means yes, Control-C ends the program, and anything else means no.
pub fn key_reply(byte: Option<u8>) -> (r: KeyReply)
    ensures
        r.echo == match byte {
            Some(b) => if 0x21 <= b <= 0x7e {
                Some(b as char)
            } else {
                None
            },
            None => None,
        },
        r.answer == match byte {
            Some(b) => if b == 3 {
                KeyAnswer::Interrupt(130)
            } else if b as char == 'y' || b as char == 'Y' {
                KeyAnswer::Yes
            } else {
                KeyAnswer::No
            },
            None => KeyAnswer::No,
        },
{
    match byte {
        Some(b) => {
            let echo = if 0x21 <= b && b <= 0x7e {
                Some(b as char)
            } else {
                None
            };
            let answer = if b == 3 {
                KeyAnswer::Interrupt(130)
            } else if b as char == 'y' || b as char == 'Y' {
                KeyAnswer::Yes
            } else {
                KeyAnswer::No
            };
            KeyReply { echo, answer }
        },
        None => KeyReply { echo: None, answer: KeyAnswer::No },
    }
}

proof fn lemma_lower_is(c: char)
    ensures
        text::ascii_lower_char(c) == 'y' <==> c == 'y' || c == 'Y',
        text::ascii_lower_char(c) == 'e' <==> c == 'e' || c == 'E',
        text::ascii_lower_char(c) == 's' <==> c == 's' || c == 'S',
{
    text::law_ascii_lower_char(c);
}

/// A line means yes exactly where it is `y` or `yes`, each letter in either case, with nothing but
/// white space around it.
pub proof fn law_means_yes(before: Seq<char>, answer: Seq<char>, after: Seq<char>)
    requires
        forall|i: int| 0 <= i < before.len() ==> text::is_white_space(#[trigger] before[i]),
        forall|i: int| 0 <= i < after.len() ==> text::is_white_space(#[trigger] after[i]),
        answer.len() > 0 ==> !text::is_white_space(answer[0]) && !text::is_white_space(
            answer.last(),
        ),
    ensures
        means_yes(before + answer + after) <==> {
            ||| answer.len() == 1 && (answer[0] == 'y' || answer[0] == 'Y')
            ||| answer.len() == 3 && (answer[0] == 'y' || answer[0] == 'Y') && (answer[1] == 'e'
                || answer[1] == 'E') && (answer[2] == 's' || answer[2] == 'S')
        },
{
    text::law_trim(before, answer, after);
    reveal_strlit("y");
    reveal_strlit("yes");
    let lower = text::ascii_lower(answer);
    assert(lower.len() == answer.len());
    if answer.len() == 1 {
        lemma_lower_is(answer[0]);
        assert(lower[0] == text::ascii_lower_char(answer[0]));
        if lower[0] == 'y' {
            assert(lower =~= "y"@);
        }
    } else if answer.len() == 3 {
        lemma_lower_is(answer[0]);
        lemma_lower_is(answer[1]);
        lemma_lower_is(answer[2]);
        assert(lower[0] == text::ascii_lower_char(answer[0]));
        assert(lower[1] == text::ascii_lower_char(answer[1]));
        assert(lower[2] == text::ascii_lower_char(answer[2]));
        if lower[0] == 'y' && lower[1] == 'e' && lower[2] == 's' {
            assert(lower =~= "yes"@);
        }
    }
}

}
