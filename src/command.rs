use vstd::prelude::*;
use crate::normalize::{fold, fold_chars};
use crate::text::{slice_chars, split_words, words};

verus! {

/// What an incoming message asks for, decided by its first word.
#[derive(PartialEq, Eq, Structural, Clone, Copy, Debug)]
pub enum Command {
    ByCode,
    ByName,
    BySurname,
    ByGeneration,
    Help,
    Start,
    Unrecognized,
}

/// A command word without the `/` that chat clients put in front.
pub open spec fn bare_word(w: Seq<char>) -> Seq<char> {
    if w.len() > 0 && w[0] == '/' {
        w.drop_first()
    } else {
        w
    }
}

/// The command that a folded word names. Each command has a one-letter and
/// a full-word form; a leading `/` is allowed.
pub open spec fn command_of(w: Seq<char>) -> Command {
    let b = bare_word(w);
    if b == "C"@ || b == "CLAVE"@ {
        Command::ByCode
    } else if b == "N"@ || b == "NOMBRE"@ {
        Command::ByName
    } else if b == "A"@ || b == "APELLIDO"@ {
        Command::BySurname
    } else if b == "G"@ || b == "GEN"@ || b == "GENERACION"@ {
        Command::ByGeneration
    } else if b == "H"@ || b == "HELP"@ || b == "AYUDA"@ {
        Command::Help
    } else if b == "S"@ || b == "START"@ {
        Command::Start
    } else {
        Command::Unrecognized
    }
}

/// The command of a folded message: that of its first word, if it has one.
pub open spec fn command_of_folded(t: Seq<char>) -> Command {
    if words(t).len() > 0 {
        command_of(words(t)[0])
    } else {
        Command::Unrecognized
    }
}

/// Whether the characters spell the text.
pub fn same_text(w: &[char], lit: &str) -> (r: bool)
    ensures
        r == (w@ == lit@),
{
    let n = lit.unicode_len();
    if n != w.len() {
        return false;
    }
    let mut i: usize = 0;
    while i < n
        invariant
            n == lit@.len() == w@.len(),
            i <= n,
            forall|k: int| 0 <= k < i ==> w@[k] == lit@[k],
        decreases n - i,
    {
        if w[i] != lit.get_char(i) {
            return false;
        }
        i = i + 1;
    }
    assert(w@ =~= lit@);
    true
}

/// The command that a folded word names.
pub fn classify_word(w: &[char]) -> (r: Command)
    ensures
        r == command_of(w@),
{
    let start: usize = if w.len() > 0 && w[0] == '/' { 1 } else { 0 };
    let b = slice_chars(w, start, w.len());
    assert(b@ =~= bare_word(w@));
    let b = b.as_slice();
    if same_text(b, "C") || same_text(b, "CLAVE") {
        Command::ByCode
    } else if same_text(b, "N") || same_text(b, "NOMBRE") {
        Command::ByName
    } else if same_text(b, "A") || same_text(b, "APELLIDO") {
        Command::BySurname
    } else if same_text(b, "G") || same_text(b, "GEN") || same_text(b, "GENERACION") {
        Command::ByGeneration
    } else if same_text(b, "H") || same_text(b, "HELP") || same_text(b, "AYUDA") {
        Command::Help
    } else if same_text(b, "S") || same_text(b, "START") {
        Command::Start
    } else {
        Command::Unrecognized
    }
}

/// The command of a message, read from its first word once folded.
pub fn classify(text: &str) -> (r: Command)
    ensures
        r == command_of_folded(fold(text@)),
{
    let t = fold_chars(text);
    let ws = split_words(t.as_slice());
    if ws.len() > 0 {
        assert(ws@[0]@ == words(t@)[0]);
        classify_word(ws[0].as_slice())
    } else {
        Command::Unrecognized
    }
}

} // verus!
