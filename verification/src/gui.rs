//! The screens of the game and the labels on them.

use vstd::prelude::*;

verus! {

/// The screen from which a worn item is taken off.
#[derive(Clone, Copy, PartialEq, Eq, Structural, Debug)]
pub struct EquippedItemHandler {}

/// The letters that the entries of a menu are picked by.
pub open spec fn menu_letters() -> Seq<char> {
    seq![
        'a',
        'b',
        'c',
        'd',
        'e',
        'f',
        'g',
        'h',
        'i',
        'j',
        'k',
        'l',
        'm',
        'n',
        'o',
        'p',
        'q',
        'r',
        's',
        't',
        'u',
        'v',
        'w',
        'x',
        'y',
        'z',
    ]
}

/// The label of a menu entry: its letter in round brackets, a space, and
/// the entry's own text.
pub open spec fn option_label(idx: int, label: Seq<char>) -> Seq<char> {
    seq!['(', menu_letters()[idx], ')', ' '] + label
}

/// The letter by which the menu entry at `i` is picked.
pub fn option_to_letter(i: usize) -> (letter: char)
    requires
        i < 26,
    ensures
        letter == menu_letters()[i as int],
{
    let letters = [
        'a',
        'b',
        'c',
        'd',
        'e',
        'f',
        'g',
        'h',
        'i',
        'j',
        'k',
        'l',
        'm',
        'n',
        'o',
        'p',
        'q',
        'r',
        's',
        't',
        'u',
        'v',
        'w',
        'x',
        'y',
        'z',
    ];
    letters[i]
}

/// Builds a menu label with `format!`: an opening bracket, the letter, a
/// closing bracket, a space, and the text.
#[verifier::external_body]
fn letter_label(letter: char, label: &str) -> (text: String)
    ensures
        text@ == seq!['(', letter, ')', ' '] + label@,
{
    format!("({}) {}", letter, label)
}

/// The label of the menu entry at `idx`.
pub fn format_option(idx: usize, label: &str) -> (text: String)
    requires
        idx < 26,
    ensures
        text@ == option_label(idx as int, label@),
{
    letter_label(option_to_letter(idx), label)
}

} // verus!
