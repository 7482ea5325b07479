//! The command line: which operation a run asks for.

use vstd::prelude::*;
use crate::error::Error;

verus! {

/// The operation that the first word of a command line selects.
#[derive(Clone, Copy, Debug, PartialEq, Eq, Structural)]
pub enum Mode {
    /// `decompress` or `d`: unpack a container.
    Unpack,
    /// `compress` or `c`: pack with compressed sections.
    PackCompressed,
    /// `pack` or `p`: pack with raw sections.
    PackRaw,
}

/// The mode that `word` selects: a keyword or its first letter.
pub open spec fn mode_of(word: Seq<char>) -> Option<Mode> {
    if word == "decompress"@ || word == "d"@ {
        Some(Mode::Unpack)
    } else if word == "compress"@ || word == "c"@ {
        Some(Mode::PackCompressed)
    } else if word == "pack"@ || word == "p"@ {
        Some(Mode::PackRaw)
    } else {
        None
    }
}

/// Tells whether `word` is the keyword `text`.
fn is_word(word: &str, text: &str) -> (same: bool)
    ensures
        same == (word@ == text@),
{
    let left: String = word.to_owned();
    let right: String = text.to_owned();
    left == right
}

/// Selects the mode that `word` names.
pub fn select_mode(word: &str) -> (mode: Option<Mode>)
    ensures
        mode == mode_of(word@),
{
    if is_word(word, "decompress") || is_word(word, "d") {
        Some(Mode::Unpack)
    } else if is_word(word, "compress") || is_word(word, "c") {
        Some(Mode::PackCompressed)
    } else if is_word(word, "pack") || is_word(word, "p") {
        Some(Mode::PackRaw)
    } else {
        None
    }
}

/// The line that tells how the program is called.
pub fn usage_text() -> (text: &'static str)
    ensures
        text@ == "Usage: <decompress|compress|pack> <input> <output>"@,
{
    "Usage: <decompress|compress|pack> <input> <output>"
}

/// The result of a run whose command line cannot be followed.
pub fn usage() -> (outcome: Result<(), Error>)
    ensures
        outcome == Err::<(), Error>(Error::InvalidUsage),
{
    Err(Error::InvalidUsage)
}

/// What a command line asks for: an operation, the path to read and the path
/// to write.
#[derive(Debug, PartialEq, Eq)]
pub struct Command {
    pub mode: Mode,
    pub input: String,
    pub output: String,
}

/// Reads a command line, the program's own name left out.
///
/// It has three words: the mode, the input path and the output path. Any
/// other number of words, and a first word that names no mode, is
/// `InvalidUsage`.
pub fn parse_command(words: &Vec<String>) -> (command: Result<Command, Error>)
    ensures
        match command {
            Ok(c) => {
                &&& words@.len() == 3
                &&& mode_of(words@[0]@) == Some(c.mode)
                &&& c.input@ == words@[1]@
                &&& c.output@ == words@[2]@
            },
            Err(e) => {
                &&& e == Error::InvalidUsage
                &&& (words@.len() != 3 || mode_of(words@[0]@).is_none())
            },
        },
{
    if words.len() != 3 {
        return Err(Error::InvalidUsage);
    }
    match select_mode(words[0].as_str()) {
        Some(mode) => Ok(Command { mode, input: words[1].clone(), output: words[2].clone() }),
        None => Err(Error::InvalidUsage),
    }
}

} // verus!
