//! Mapping console keys to directions.

use crate::direction::Direction;
use vstd::prelude::*;

verus! {

/// The direction a pressed key stands for: WASD, the vi keys hjkl, or the
/// arrow glyphs; any other character maps to nothing (a no-op turn, not an
/// error).
pub fn parse_input(ch: &char) -> (r: Option<Direction>)
    ensures
        r == (if *ch == 'w' || *ch == 'k' || *ch == '\u{2191}' {
            Some(Direction::Up)
        } else if *ch == 'a' || *ch == 'h' || *ch == '\u{2190}' {
            Some(Direction::Left)
        } else if *ch == 's' || *ch == 'j' || *ch == '\u{2193}' {
            Some(Direction::Down)
        } else if *ch == 'd' || *ch == 'l' || *ch == '\u{2192}' {
            Some(Direction::Right)
        } else {
            None::<Direction>
        }),
{
    match *ch {
        'w' => Some(Direction::Up),
        'a' => Some(Direction::Left),
        's' => Some(Direction::Down),
        'd' => Some(Direction::Right),
        'k' => Some(Direction::Up),
        'h' => Some(Direction::Left),
        'j' => Some(Direction::Down),
        'l' => Some(Direction::Right),
        '\u{2191}' => Some(Direction::Up),
        '\u{2190}' => Some(Direction::Left),
        '\u{2193}' => Some(Direction::Down),
        '\u{2192}' => Some(Direction::Right),
        _ => None,
    }
}

} // verus!
