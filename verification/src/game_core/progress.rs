use vstd::prelude::*;

use crate::levels::total_levels;

verus! {

/// A level number brought into the range of existing levels.
pub open spec fn clamped_level(level: int) -> int {
    if level < 1 {
        1
    } else if level > 10 {
        10
    } else {
        level
    }
}

/// The level number that is written to the save file for `level`: the level
/// brought into the range of existing levels.
pub fn clamp_saved_level(level: usize) -> (r: usize)
    ensures
        r == clamped_level(level as int),
{
    let last = total_levels();
    if level < 1 {
        1
    } else if level > last {
        last
    } else {
        level
    }
}

/// The level to resume at, given what the save file held: level 1 when there
/// was no readable save, else the saved level brought into range.
pub fn level_from_save(saved: Option<usize>) -> (r: usize)
    ensures
        r == match saved {
            None => 1,
            Some(level) => clamped_level(level as int),
        },
        1 <= r <= 10,
{
    match saved {
        None => 1,
        Some(level) => clamp_saved_level(level),
    }
}

/// What is saved is what is read back: a level written to the save file
/// (brought into range) resumes at that same level when the file is read.
pub proof fn law_saved_level_reads_back(level: usize)
    ensures
        ({
            let saved = clamped_level(level as int);
            &&& 1 <= saved <= 10
            &&& clamped_level(saved) == saved
        }),
{
}

} // verus!
