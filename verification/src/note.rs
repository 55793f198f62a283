//! The twelve pitch-class names of the equal-tempered scale.
//!
//! The note mapper turns a frequency into a continuous note number
//! (12 per octave, referenced to A at 440 Hz) whose rounded value, modulo
//! 12, selects one of these names; that logarithm lives with the host, which
//! holds the floating-point frequency.  The name table itself is exact.

use vstd::prelude::*;

verus! {

/// The name of pitch class `class`, with C at 0 and A at 9.
pub open spec fn spec_note_name(class: int) -> Seq<char> {
    if class == 0 {
        "C"@
    } else if class == 1 {
        "C#"@
    } else if class == 2 {
        "D"@
    } else if class == 3 {
        "D#"@
    } else if class == 4 {
        "E"@
    } else if class == 5 {
        "F"@
    } else if class == 6 {
        "F#"@
    } else if class == 7 {
        "G"@
    } else if class == 8 {
        "G#"@
    } else if class == 9 {
        "A"@
    } else if class == 10 {
        "A#"@
    } else {
        "B"@
    }
}

/// Looks up the name of a pitch class.
pub fn note_name(class: usize) -> (r: &'static str)
    requires
        class < 12,
    ensures
        r@ == spec_note_name(class as int),
{
    match class {
        0 => "C",
        1 => "C#",
        2 => "D",
        3 => "D#",
        4 => "E",
        5 => "F",
        6 => "F#",
        7 => "G",
        8 => "G#",
        9 => "A",
        10 => "A#",
        _ => "B",
    }
}

} // verus!
