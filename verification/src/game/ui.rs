//! Labels for drawing a board.

use vstd::prelude::*;
use vstd::string::*;
use crate::game::cell::CellState;
use crate::game::fleet::ShipCounter;

verus! {

/// The letters that name the columns, in order: the Russian alphabet
/// without the letters that are easily misread on a board.
pub open spec fn column_letters() -> Seq<char> {
    seq![
        'А', 'Б', 'В', 'Г', 'Д', 'Е', 'Ж', 'З', 'И', 'К', 'Л', 'М', 'Н', 'О',
        'П', 'Р', 'С', 'Т', 'У', 'Ф', 'Х', 'Ц', 'Ч', 'Ш', 'Щ', 'Э', 'Ю', 'Я',
    ]
}

/// The letter of column `value`, counted from zero; `'~'` past the last letter.
pub fn int_to_letter(value: usize) -> (r: char)
    ensures
        r == (if value < column_letters().len() {
            column_letters()[value as int]
        } else {
            '~'
        }),
{
    let letters = "АБВГДЕЖЗИКЛМНОПРСТУФХЦЧШЩЭЮЯ";
    proof {
        reveal_strlit("АБВГДЕЖЗИКЛМНОПРСТУФХЦЧШЩЭЮЯ");
        assert(letters@ =~= column_letters());
    }
    if value < letters.unicode_len() {
        letters.get_char(value)
    } else {
        '~'
    }
}

/// The style classes of a class counter: a class with no ship left is
/// marked as defeated.
pub fn counter_class(counter: &ShipCounter) -> (r: &'static str)
    ensures
        r@ == (if counter@.remaining == 0 {
            "ship-counter defeated"@
        } else {
            "ship-counter"@
        }),
{
    if counter.is_defeated() {
        "ship-counter defeated"
    } else {
        "ship-counter"
    }
}

/// The style classes of a cell: a cell not yet revealed is open to a hit
/// and shows nothing of what it holds; a revealed cell shows a ship or water.
pub fn cell_class(cell: &CellState) -> (r: &'static str)
    ensures
        r@ == (if !cell.exposed {
            "cell active"@
        } else if cell.content is Ship {
            "cell ship"@
        } else {
            "cell water"@
        }),
{
    if !cell.exposed {
        "cell active"
    } else if cell.contains_ship() {
        "cell ship"
    } else {
        "cell water"
    }
}

} // verus!
