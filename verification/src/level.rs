//! Difficulty curve: the level reached after a number of cleared rows, and the
//! tick interval that belongs to a level.

use vstd::prelude::*;

verus! {

/// Rows that have to be cleared to reach the next level.
pub const ROWS_PER_LEVEL: u32 = 10;

/// The level reached once `rows` rows have been cleared.
pub open spec fn level_of(rows: nat) -> nat {
    rows / 10
}

/// Milliseconds between two ticks at `level`.
pub open spec fn tick_interval_ms(level: nat) -> nat {
    if level == 0 {
        800
    } else if level == 1 {
        720
    } else if level == 2 {
        630
    } else if level == 3 {
        550
    } else if level == 4 {
        470
    } else if level == 5 {
        380
    } else if level == 6 {
        300
    } else if level == 7 {
        220
    } else if level == 8 {
        130
    } else if level == 9 {
        100
    } else if level <= 12 {
        80
    } else if level <= 15 {
        70
    } else if level <= 18 {
        50
    } else if level <= 28 {
        30
    } else {
        17
    }
}

/// Level for a cumulative count of cleared rows: one level per ten rows.
pub fn get_level(rows: u32) -> (level: u32)
    ensures
        level == level_of(rows as nat),
{
    rows / ROWS_PER_LEVEL
}

/// Tick interval in milliseconds for `level`.
pub fn get_speed_by_level(level: u32) -> (ms: u64)
    ensures
        ms == tick_interval_ms(level as nat),
{
    match level {
        0 => 800,
        1 => 720,
        2 => 630,
        3 => 550,
        4 => 470,
        5 => 380,
        6 => 300,
        7 => 220,
        8 => 130,
        9 => 100,
        10 | 11 | 12 => 80,
        13 | 14 | 15 => 70,
        16 | 17 | 18 => 50,
        19..=28 => 30,
        _ => 17,
    }
}

/// The level never drops as more rows are cleared.
pub proof fn lemma_level_monotonic(fewer: nat, more: nat)
    requires
        fewer <= more,
    ensures
        level_of(fewer) <= level_of(more),
{
}

/// A higher level never ticks more slowly than a lower one.
pub proof fn lemma_tick_interval_non_increasing(lower: nat, higher: nat)
    requires
        lower <= higher,
    ensures
        tick_interval_ms(higher) <= tick_interval_ms(lower),
{
}

/// The tick interval never grows as more rows are cleared.
pub proof fn lemma_speed_follows_rows(fewer: nat, more: nat)
    requires
        fewer <= more,
    ensures
        tick_interval_ms(level_of(more)) <= tick_interval_ms(level_of(fewer)),
{
    lemma_level_monotonic(fewer, more);
    lemma_tick_interval_non_increasing(level_of(fewer), level_of(more));
}

} // verus!
