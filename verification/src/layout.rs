//! Where the fields of a character record sit, and what values they may hold.
use vstd::prelude::*;

verus! {

/// Length of the ASCII marker `PLAYER` that begins the character record.
pub const MARKER_LEN: usize = 6;

/// Size of the fixed, unparsed header block after the marker in FATE saves.
pub const FATE_HEADER: usize = 107;
/// Size of the fixed, unparsed header block after the marker in Traitor's Soul saves.
pub const TRAITORS_SOUL_HEADER: usize = 115;

/// Fixed gap between the end of the ancestor name and the `level` field.
pub const ANCESTOR_TO_LEVEL_SKIP: usize = 118;

/// Offset of `level`, relative to the start of the level chunk.
pub const OFFSET_LEVEL: usize = 0;
/// Offset of `experience`, relative to the start of the level chunk.
pub const OFFSET_EXPERIENCE: usize = 4;
/// Offset of the unused stat point pool, relative to the start of the level chunk.
pub const OFFSET_UNUSED_STAT_POINTS: usize = 64;
/// Offset of the unused skill point pool, relative to the start of the level chunk.
pub const OFFSET_UNUSED_SKILL_POINTS: usize = 68;
/// Offset of the first skill value, relative to the start of the level chunk.
pub const OFFSET_SKILLS: usize = 105;
/// Distance between two consecutive skill values.
pub const SKILL_STRIDE: usize = 4;
/// Where the variable-length spell section begins (right after the skills block).
pub const OFFSET_SPELL_START: usize = 165;

/// Number of skills, stored in file order.
pub const SKILL_COUNT: usize = 15;
/// Number of main stats (strength, dexterity, vitality, magic), stored in file order.
pub const STAT_COUNT: usize = 4;
/// Distance between two main-stat slots: a 4-byte value and 4 bytes of padding.
pub const STAT_STRIDE: usize = 8;

/// Number of spell lists (attack, defense, charm) in the spell section.
pub const SPELL_LISTS: usize = 3;
/// Number of slots in each spell list.
pub const SPELL_SLOTS: usize = 6;
/// Number of length-prefixed entries in the spell section: every list slot, then the active spell.
pub const SPELL_ENTRIES: usize = 19;

/// Offset of `gold`, relative to the end of the spell section.
pub const OFFSET_GOLD: usize = 40;
/// Offset of the end of the character record, relative to the end of the spell section.
pub const OFFSET_RECORD_END: usize = 44;

/// Largest plausible length of a player, ancestor or spell name.
pub const NAME_LEN_MAX: u16 = 255;
/// Smallest plausible level.
pub const MIN_LEVEL: i32 = 1;
/// Largest plausible level.
pub const MAX_LEVEL: i32 = 999;
/// Largest plausible skill value.
pub const SKILL_MAX: i32 = 9999;
/// Largest plausible main-stat value (also the largest accepted stat baseline).
pub const STAT_MAX: i32 = 9999;

/// Which game wrote the save; the two differ in the size of the header block.
#[derive(Debug, Clone, Copy, PartialEq, Eq, Structural)]
pub enum GameVersion {
    Fate,
    TraitorsSoul,
}

/// The size of the header block after the marker for `v`.
pub open spec fn header_len(v: GameVersion) -> int {
    match v {
        GameVersion::Fate => FATE_HEADER as int,
        GameVersion::TraitorsSoul => TRAITORS_SOUL_HEADER as int,
    }
}

/// The display name of `v`.
pub open spec fn version_label(v: GameVersion) -> Seq<char> {
    match v {
        GameVersion::Fate => "FATE (original)"@,
        GameVersion::TraitorsSoul => "FATE: Traitor's Soul"@,
    }
}

impl GameVersion {
    /// The size of the header block after the marker.
    pub fn header_size(self) -> (size: usize)
        ensures
            size == header_len(self),
    {
        match self {
            GameVersion::Fate => FATE_HEADER,
            GameVersion::TraitorsSoul => TRAITORS_SOUL_HEADER,
        }
    }

    /// The human-readable name of the game version.
    pub fn label(self) -> (text: &'static str)
        ensures
            text@ == version_label(self),
    {
        match self {
            GameVersion::Fate => "FATE (original)",
            GameVersion::TraitorsSoul => "FATE: Traitor's Soul",
        }
    }
}

/// Which length-prefixed entry of the spell section is meant.
#[derive(Debug, Clone, Copy, PartialEq, Eq, Structural)]
pub enum SpellSlot {
    /// Slot `slot` (counted from 1) of spell list `list` (0 attack, 1 defense, 2 charm).
    Listed { list: usize, slot: usize },
    /// The active spell, stored after the three lists.
    Active,
}

/// The entry at position `k` of the spell section, in file order.
pub open spec fn spell_slot_at(k: int) -> SpellSlot {
    if k < (SPELL_LISTS * SPELL_SLOTS) as int {
        SpellSlot::Listed { list: (k / SPELL_SLOTS as int) as usize, slot: (k % SPELL_SLOTS as int + 1) as usize }
    } else {
        SpellSlot::Active
    }
}

/// Display name of skill `i`, in file order.
pub open spec fn skill_label(i: int) -> Seq<char> {
    if i == 0 { "sword"@ }
    else if i == 1 { "club"@ }
    else if i == 2 { "hammer"@ }
    else if i == 3 { "axe"@ }
    else if i == 4 { "spear"@ }
    else if i == 5 { "staff"@ }
    else if i == 6 { "polearm"@ }
    else if i == 7 { "bow"@ }
    else if i == 8 { "critical strike"@ }
    else if i == 9 { "spellcasting"@ }
    else if i == 10 { "dual wield"@ }
    else if i == 11 { "shield"@ }
    else if i == 12 { "attack magic"@ }
    else if i == 13 { "defense magic"@ }
    else { "charm magic"@ }
}

/// Display name of main stat `i`, in file order.
pub open spec fn stat_label(i: int) -> Seq<char> {
    if i == 0 { "strength"@ }
    else if i == 1 { "dexterity"@ }
    else if i == 2 { "vitality"@ }
    else { "magic"@ }
}

/// Display name of skill `i`.
pub fn skill_name(i: usize) -> (name: &'static str)
    requires
        i < SKILL_COUNT,
    ensures
        name@ == skill_label(i as int),
{
    match i {
        0 => "sword",
        1 => "club",
        2 => "hammer",
        3 => "axe",
        4 => "spear",
        5 => "staff",
        6 => "polearm",
        7 => "bow",
        8 => "critical strike",
        9 => "spellcasting",
        10 => "dual wield",
        11 => "shield",
        12 => "attack magic",
        13 => "defense magic",
        _ => "charm magic",
    }
}

/// Display name of main stat `i`.
pub fn stat_name(i: usize) -> (name: &'static str)
    requires
        i < STAT_COUNT,
    ensures
        name@ == stat_label(i as int),
{
    match i {
        0 => "strength",
        1 => "dexterity",
        2 => "vitality",
        _ => "magic",
    }
}

/// Display name of spell list `list` (0 attack, 1 defense, 2 charm).
pub fn spell_list_name(list: usize) -> (name: &'static str)
    requires
        list < SPELL_LISTS,
    ensures
        name@ == (if list == 0 { "attack"@ } else if list == 1 { "defense"@ } else { "charm"@ }),
{
    match list {
        0 => "attack",
        1 => "defense",
        _ => "charm",
    }
}

/// Baseline of each main stat for a fresh level-1 character, in file order.
pub open spec fn default_baselines() -> Seq<i32> {
    seq![25i32, 20i32, 25i32, 10i32]
}

/// The default main-stat baselines (strength, dexterity, vitality, magic).
pub fn baseline_stats() -> (b: [i32; 4])
    ensures
        b@ == default_baselines(),
{
    let b: [i32; 4] = [25, 20, 25, 10];
    assert(b@ =~= default_baselines());
    b
}

} // verus!
