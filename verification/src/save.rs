//! Locating and validating the character record of a save.
use vstd::prelude::*;
use vstd::utf8::*;
use crate::bytes::{self, AccessError};
use crate::layout::{
    self, GameVersion, SpellSlot, ANCESTOR_TO_LEVEL_SKIP, MARKER_LEN, MAX_LEVEL, MIN_LEVEL,
    NAME_LEN_MAX, OFFSET_EXPERIENCE, OFFSET_GOLD, OFFSET_LEVEL, OFFSET_RECORD_END, OFFSET_SKILLS,
    OFFSET_SPELL_START, OFFSET_UNUSED_SKILL_POINTS, OFFSET_UNUSED_STAT_POINTS, SKILL_COUNT,
    SKILL_MAX, SKILL_STRIDE, SPELL_ENTRIES, SPELL_LISTS, SPELL_SLOTS, STAT_COUNT, STAT_MAX,
    STAT_STRIDE,
};

verus! {

/// Why a save does not parse as a given game version.
#[derive(Debug, Clone, Copy, PartialEq, Eq, Structural)]
pub enum SaveError {
    /// A bounds-checked read failed.
    Access(AccessError),
    /// The buffer holds no `PLAYER` marker.
    NoMarker,
    /// The player name length exceeds the plausible maximum.
    NameTooLong { len: u16, version: GameVersion },
    /// The player name bytes are not well-formed UTF-8.
    NameNotUtf8 { version: GameVersion },
    /// The ancestor name length exceeds the plausible maximum.
    AncestorTooLong { len: u16, version: GameVersion },
    /// An end offset of the record does not fit in a `usize`.
    LayoutOverflow { version: GameVersion },
    /// The buffer ends before the spell section.
    EndsBeforeSpells { version: GameVersion },
    /// `level` lies outside the plausible range.
    LevelOutOfRange { level: i32, version: GameVersion },
    /// `experience` is negative.
    NegativeExperience { experience: i32, version: GameVersion },
    /// Skill `skill` (in file order) lies outside the plausible range.
    SkillOutOfRange { skill: usize, value: i32, version: GameVersion },
    /// The unused stat point pool is negative.
    NegativeUnusedStatPoints { value: i32, version: GameVersion },
    /// The unused skill point pool is negative.
    NegativeUnusedSkillPoints { value: i32, version: GameVersion },
    /// A spell name length exceeds the plausible maximum.
    SpellNameTooLong { slot: SpellSlot, len: u16, version: GameVersion },
    /// A spell name's bytes are not well-formed UTF-8.
    SpellNameNotUtf8 { slot: SpellSlot, version: GameVersion },
    /// The buffer ends before the end of the character record.
    EndsBeforeRecordEnd { version: GameVersion },
    /// Main stat `stat` (in file order) lies outside the plausible range.
    StatOutOfRange { stat: usize, value: i32, version: GameVersion },
    /// `gold` is negative.
    NegativeGold { gold: i32, version: GameVersion },
}

/// What a successful parse establishes, in mathematical terms.
pub struct SaveView {
    pub version: GameVersion,
    pub level_offset: int,
    pub stats_offset: int,
    pub name: Seq<char>,
    pub level: i32,
}

/// A save that parsed and validated successfully.
pub struct ParsedSave {
    pub version: GameVersion,
    /// Absolute offset of the `level` field; base for the fixed offsets.
    pub level_offset: usize,
    /// Absolute offset where the spell section ends; base for the stat offsets.
    pub stats_offset: usize,
    pub name: String,
    pub level: i32,
}

impl View for ParsedSave {
    type V = SaveView;

    open spec fn view(&self) -> SaveView {
        SaveView {
            version: self.version,
            level_offset: self.level_offset as int,
            stats_offset: self.stats_offset as int,
            name: self.name@,
            level: self.level,
        }
    }
}

/// The bytes of the ASCII marker `PLAYER`.
pub open spec fn marker_bytes() -> Seq<u8> {
    seq![0x50u8, 0x4cu8, 0x41u8, 0x59u8, 0x45u8, 0x52u8]
}

/// True when the marker starts at index `i` of `d`.
pub open spec fn marker_at(d: Seq<u8>, i: int) -> bool {
    0 <= i && i + MARKER_LEN <= d.len() && d.subrange(i, i + MARKER_LEN as int) == marker_bytes()
}

/// The first index at or after `i` where the marker starts, if any.
pub open spec fn marker_from(d: Seq<u8>, i: int) -> Option<int>
    decreases d.len() - i,
{
    if i < 0 || i + MARKER_LEN > d.len() {
        None
    } else if marker_at(d, i) {
        Some(i)
    } else {
        marker_from(d, i + 1)
    }
}

/// The first index where the marker starts, if any.
pub open spec fn first_marker(d: Seq<u8>) -> Option<int> {
    marker_from(d, 0)
}

/// The player name and the offset of `level`, read from the name and
/// ancestor fields that follow the header after the marker.
pub open spec fn names_spec(d: Seq<u8>, v: GameVersion) -> Result<(Seq<char>, int), SaveError> {
    let n = d.len() as int;
    match first_marker(d) {
        None => Err(SaveError::NoMarker),
        Some(m) => {
            let o1 = m + MARKER_LEN + layout::header_len(v);
            match bytes::range_end(n, o1, 2) {
                Err(e) => Err(SaveError::Access(e)),
                Ok(_) => {
                    let nl = bytes::u16_at(d, o1);
                    if nl > NAME_LEN_MAX {
                        Err(SaveError::NameTooLong { len: nl, version: v })
                    } else {
                        match bytes::range_end(n, o1 + 2, nl as int) {
                            Err(e) => Err(SaveError::Access(e)),
                            Ok(_) => {
                                let name = d.subrange(o1 + 2, o1 + 2 + nl);
                                if !valid_utf8(name) {
                                    Err(SaveError::NameNotUtf8 { version: v })
                                } else {
                                    let o2 = o1 + 2 + nl;
                                    match bytes::range_end(n, o2, 2) {
                                        Err(e) => Err(SaveError::Access(e)),
                                        Ok(_) => {
                                            let al = bytes::u16_at(d, o2);
                                            if al > NAME_LEN_MAX {
                                                Err(SaveError::AncestorTooLong { len: al, version: v })
                                            } else {
                                                match bytes::range_end(n, o2 + 2, al as int) {
                                                    Err(e) => Err(SaveError::Access(e)),
                                                    Ok(_) => Ok((decode_utf8(name), o2 + 2 + al + ANCESTOR_TO_LEVEL_SKIP)),
                                                }
                                            }
                                        },
                                    }
                                }
                            },
                        }
                    }
                },
            }
        },
    }
}

/// Value of skill `i` for the level chunk at `lo`.
pub open spec fn skill_at(d: Seq<u8>, lo: int, i: int) -> i32 {
    bytes::i32_at(d, lo + OFFSET_SKILLS + SKILL_STRIDE * i)
}

/// Value of main stat `i` for the spell section ending at `so`.
pub open spec fn stat_at(d: Seq<u8>, so: int, i: int) -> i32 {
    bytes::i32_at(d, so + STAT_STRIDE * i)
}

/// The first skill at or after `i` whose value is implausible.
pub open spec fn first_bad_skill(d: Seq<u8>, lo: int, i: int) -> Option<int>
    decreases SKILL_COUNT - i,
{
    if i < 0 || i >= SKILL_COUNT {
        None
    } else if skill_at(d, lo, i) < 0 || skill_at(d, lo, i) > SKILL_MAX {
        Some(i)
    } else {
        first_bad_skill(d, lo, i + 1)
    }
}

/// The first main stat at or after `i` whose value is implausible.
pub open spec fn first_bad_stat(d: Seq<u8>, so: int, i: int) -> Option<int>
    decreases STAT_COUNT - i,
{
    if i < 0 || i >= STAT_COUNT {
        None
    } else if stat_at(d, so, i) < 0 || stat_at(d, so, i) > STAT_MAX {
        Some(i)
    } else {
        first_bad_stat(d, so, i + 1)
    }
}

/// The level, after checking the fixed-layout fields of the level chunk at `lo`.
pub open spec fn fixed_spec(d: Seq<u8>, lo: int, v: GameVersion) -> Result<i32, SaveError> {
    if lo + OFFSET_SPELL_START > usize::MAX {
        Err(SaveError::LayoutOverflow { version: v })
    } else if lo + OFFSET_SPELL_START > d.len() {
        Err(SaveError::EndsBeforeSpells { version: v })
    } else {
        let level = bytes::i32_at(d, lo + OFFSET_LEVEL);
        let experience = bytes::i32_at(d, lo + OFFSET_EXPERIENCE);
        let unused_stats = bytes::i32_at(d, lo + OFFSET_UNUSED_STAT_POINTS);
        let unused_skills = bytes::i32_at(d, lo + OFFSET_UNUSED_SKILL_POINTS);
        if level < MIN_LEVEL || level > MAX_LEVEL {
            Err(SaveError::LevelOutOfRange { level, version: v })
        } else if experience < 0 {
            Err(SaveError::NegativeExperience { experience, version: v })
        } else if let Some(i) = first_bad_skill(d, lo, 0) {
            Err(SaveError::SkillOutOfRange { skill: i as usize, value: skill_at(d, lo, i), version: v })
        } else if unused_stats < 0 {
            Err(SaveError::NegativeUnusedStatPoints { value: unused_stats, version: v })
        } else if unused_skills < 0 {
            Err(SaveError::NegativeUnusedSkillPoints { value: unused_skills, version: v })
        } else {
            Ok(level)
        }
    }
}

/// Reads one length-prefixed spell name at `o`: the offset after it, or why
/// it is rejected (`slot` names the entry in the error).
pub open spec fn spell_entry_spec(d: Seq<u8>, o: int, slot: SpellSlot, v: GameVersion) -> Result<int, SaveError> {
    match bytes::range_end(d.len() as int, o, 2) {
        Err(e) => Err(SaveError::Access(e)),
        Ok(_) => {
            let len = bytes::u16_at(d, o);
            if len > NAME_LEN_MAX {
                Err(SaveError::SpellNameTooLong { slot, len, version: v })
            } else {
                match bytes::range_end(d.len() as int, o + 2, len as int) {
                    Err(e) => Err(SaveError::Access(e)),
                    Ok(_) => if !valid_utf8(d.subrange(o + 2, o + 2 + len)) {
                        Err(SaveError::SpellNameNotUtf8 { slot, version: v })
                    } else {
                        Ok(o + 2 + len)
                    },
                }
            }
        },
    }
}

/// Walks the spell section from entry `k` at offset `o`: the offset where it
/// ends, or why an entry is rejected.
pub open spec fn spells_spec(d: Seq<u8>, o: int, k: int, v: GameVersion) -> Result<int, SaveError>
    decreases SPELL_ENTRIES - k,
{
    if k < 0 || k >= SPELL_ENTRIES {
        Ok(o)
    } else {
        match spell_entry_spec(d, o, layout::spell_slot_at(k), v) {
            Err(e) => Err(e),
            Ok(next) => spells_spec(d, next, k + 1, v),
        }
    }
}

/// Checks the main stats and `gold` after the spell section ending at `so`.
pub open spec fn tail_spec(d: Seq<u8>, so: int, v: GameVersion) -> Result<(), SaveError> {
    if so + OFFSET_RECORD_END > usize::MAX {
        Err(SaveError::LayoutOverflow { version: v })
    } else if so + OFFSET_RECORD_END > d.len() {
        Err(SaveError::EndsBeforeRecordEnd { version: v })
    } else if let Some(i) = first_bad_stat(d, so, 0) {
        Err(SaveError::StatOutOfRange { stat: i as usize, value: stat_at(d, so, i), version: v })
    } else if bytes::i32_at(d, so + OFFSET_GOLD) < 0 {
        Err(SaveError::NegativeGold { gold: bytes::i32_at(d, so + OFFSET_GOLD), version: v })
    } else {
        Ok(())
    }
}

/// The result of parsing `d` as a save of version `v`.
pub open spec fn parse_spec(d: Seq<u8>, v: GameVersion) -> Result<SaveView, SaveError> {
    match names_spec(d, v) {
        Err(e) => Err(e),
        Ok((name, lo)) => match fixed_spec(d, lo, v) {
            Err(e) => Err(e),
            Ok(level) => match spells_spec(d, lo + OFFSET_SPELL_START, 0, v) {
                Err(e) => Err(e),
                Ok(so) => match tail_spec(d, so, v) {
                    Err(e) => Err(e),
                    Ok(_) => Ok(SaveView { version: v, level_offset: lo, stats_offset: so, name, level }),
                },
            },
        },
    }
}

/// `std::str::from_utf8`: its documentation says it succeeds exactly when the
/// bytes are well-formed UTF-8, and then the string holds those bytes, so its
/// characters are the decoded bytes.
#[verifier::external_body]
fn str_from_utf8(bytes: &[u8]) -> (res: Option<&str>)
    ensures
        res is Some <==> valid_utf8(bytes@),
        res matches Some(s) ==> s@ == decode_utf8(bytes@),
{
    std::str::from_utf8(bytes).ok()
}

/// A marker found by the search really starts there.
proof fn lemma_marker_from_found(d: Seq<u8>, i: int)
    ensures
        marker_from(d, i) matches Some(m) ==> marker_at(d, m) && i <= m,
    decreases d.len() - i,
{
    if !(i < 0 || i + MARKER_LEN > d.len()) && !marker_at(d, i) {
        lemma_marker_from_found(d, i + 1);
    }
}

/// Index of the first `PLAYER` marker in `data`.
fn find_marker(data: &[u8]) -> (pos: Option<usize>)
    ensures
        match first_marker(data@) {
            Some(m) => pos matches Some(p) && p as int == m,
            None => pos is None,
        },
        pos matches Some(p) ==> p + MARKER_LEN <= data@.len(),
{
    proof {
        lemma_marker_from_found(data@, 0);
    }
    let n = data.len();
    if n < MARKER_LEN {
        return None;
    }
    let mut i: usize = 0;
    while i <= n - MARKER_LEN
        invariant
            n == data@.len(),
            n >= MARKER_LEN,
            i <= n - MARKER_LEN + 1,
            marker_from(data@, 0) == marker_from(data@, i as int),
        decreases n - i,
    {
        if data[i] == 0x50 && data[i + 1] == 0x4c && data[i + 2] == 0x41 && data[i + 3] == 0x59
            && data[i + 4] == 0x45 && data[i + 5] == 0x52 {
            assert(data@.subrange(i as int, i + MARKER_LEN) =~= marker_bytes());
            return Some(i);
        }
        assert(!marker_at(data@, i as int)) by {
            if marker_at(data@, i as int) {
                assert(data@.subrange(i as int, i + MARKER_LEN)[0] == marker_bytes()[0]);
                assert(data@.subrange(i as int, i + MARKER_LEN)[1] == marker_bytes()[1]);
                assert(data@.subrange(i as int, i + MARKER_LEN)[2] == marker_bytes()[2]);
                assert(data@.subrange(i as int, i + MARKER_LEN)[3] == marker_bytes()[3]);
                assert(data@.subrange(i as int, i + MARKER_LEN)[4] == marker_bytes()[4]);
                assert(data@.subrange(i as int, i + MARKER_LEN)[5] == marker_bytes()[5]);
            }
        }
        i = i + 1;
    }
    None
}

/// Reads one length-prefixed spell name (`slot` names it in errors),
/// validating its length and UTF-8 encoding, and advances `*offset` past it.
pub fn read_spell_name(data: &[u8], offset: &mut usize, version: GameVersion, slot: SpellSlot) -> (res: Result<(), SaveError>)
    ensures
        match spell_entry_spec(data@, *old(offset) as int, slot, version) {
            Ok(next) => res is Ok && *final(offset) == next,
            Err(e) => res == Err::<(), SaveError>(e) && *final(offset) == ({
                let o = *old(offset) as int;
                let len = bytes::u16_at(data@, o);
                if bytes::range_end(data@.len() as int, o, 2) is Err {
                    o
                } else if len > NAME_LEN_MAX || bytes::range_end(data@.len() as int, o + 2, len as int) is Err {
                    o + 2
                } else {
                    o + 2 + len
                }
            }),
        },
{
    let len = match bytes::read_u16(data, offset) {
        Ok(len) => len,
        Err(e) => return Err(SaveError::Access(e)),
    };
    if len > NAME_LEN_MAX {
        return Err(SaveError::SpellNameTooLong { slot, len, version });
    }
    if len > 0 {
        let name = match bytes::read_bytes(data, offset, len as usize) {
            Ok(name) => name,
            Err(e) => return Err(SaveError::Access(e)),
        };
        if str_from_utf8(name).is_none() {
            return Err(SaveError::SpellNameNotUtf8 { slot, version });
        }
    } else {
        assert(data@.subrange(*offset as int, *offset as int) =~= Seq::<u8>::empty());
    }
    Ok(())
}

/// Walks the variable-length spell section (every list slot, then the active
/// spell) starting at `offset`, and returns the offset where it ends - the
/// base for the main-stat offsets.
pub fn walk_spells(data: &[u8], offset: usize, version: GameVersion) -> (res: Result<usize, SaveError>)
    ensures
        match spells_spec(data@, offset as int, 0, version) {
            Ok(end) => res matches Ok(p) && p as int == end,
            Err(e) => res == Err::<usize, SaveError>(e),
        },
{
    let mut pos = offset;
    let mut k: usize = 0;
    while k < SPELL_ENTRIES
        invariant
            k <= SPELL_ENTRIES,
            spells_spec(data@, offset as int, 0, version) == spells_spec(data@, pos as int, k as int, version),
        decreases SPELL_ENTRIES - k,
    {
        let slot = if k < SPELL_LISTS * SPELL_SLOTS {
            SpellSlot::Listed { list: k / SPELL_SLOTS, slot: k % SPELL_SLOTS + 1 }
        } else {
            SpellSlot::Active
        };
        assert(slot == layout::spell_slot_at(k as int));
        let ghost before = pos as int;
        match read_spell_name(data, &mut pos, version, slot) {
            Ok(()) => {},
            Err(e) => {
                assert(spells_spec(data@, before, k as int, version) == Err::<int, SaveError>(e));
                return Err(e);
            },
        }
        k = k + 1;
    }
    Ok(pos)
}

/// Locates and validates the fields this tool touches, assuming a specific
/// game version. Each check exists to reject the garbage produced by parsing
/// with the other version's header size.
#[verifier::loop_isolation(false)]
pub fn parse(data: &[u8], version: GameVersion) -> (res: Result<ParsedSave, SaveError>)
    requires
        data@.len() <= isize::MAX,
    ensures
        match parse_spec(data@, version) {
            Ok(sv) => res matches Ok(s) && s@ == sv,
            Err(e) => res matches Err(r) && r == e,
        },
{
    let marker = match find_marker(data) {
        Some(m) => m,
        None => return Err(SaveError::NoMarker),
    };
    let mut offset = marker + MARKER_LEN + version.header_size();

    // Player name: u16 LE length + UTF-8 bytes.
    let name_len = match bytes::read_u16(data, &mut offset) {
        Ok(len) => len,
        Err(e) => return Err(SaveError::Access(e)),
    };
    if name_len > NAME_LEN_MAX {
        return Err(SaveError::NameTooLong { len: name_len, version });
    }
    let name_bytes = match bytes::read_bytes(data, &mut offset, name_len as usize) {
        Ok(b) => b,
        Err(e) => return Err(SaveError::Access(e)),
    };
    let name = match str_from_utf8(name_bytes) {
        Some(s) => s.to_owned(),
        None => return Err(SaveError::NameNotUtf8 { version }),
    };

    // Ancestor name: same shape as the player name, skipped.
    let ancestor_len = match bytes::read_u16(data, &mut offset) {
        Ok(len) => len,
        Err(e) => return Err(SaveError::Access(e)),
    };
    if ancestor_len > NAME_LEN_MAX {
        return Err(SaveError::AncestorTooLong { len: ancestor_len, version });
    }
    match bytes::read_bytes(data, &mut offset, ancestor_len as usize) {
        Ok(_) => {},
        Err(e) => return Err(SaveError::Access(e)),
    }

    // Fixed gap, then the level chunk.
    offset = offset + ANCESTOR_TO_LEVEL_SKIP;
    let level_offset = offset;
    assert(names_spec(data@, version) == Ok::<(Seq<char>, int), SaveError>((name@, level_offset as int)));

    // The spell section starts where the skills block ends, so the file must
    // at least reach that point.
    let required_end = match level_offset.checked_add(OFFSET_SPELL_START) {
        Some(end) => end,
        None => return Err(SaveError::LayoutOverflow { version }),
    };
    if required_end > data.len() {
        return Err(SaveError::EndsBeforeSpells { version });
    }

    let level = match bytes::read_i32_at(data, level_offset + OFFSET_LEVEL) {
        Ok(v) => v,
        Err(e) => return Err(SaveError::Access(e)),
    };
    if level < MIN_LEVEL || level > MAX_LEVEL {
        return Err(SaveError::LevelOutOfRange { level, version });
    }

    let experience = match bytes::read_i32_at(data, level_offset + OFFSET_EXPERIENCE) {
        Ok(v) => v,
        Err(e) => return Err(SaveError::Access(e)),
    };
    if experience < 0 {
        return Err(SaveError::NegativeExperience { experience, version });
    }

    let mut i: usize = 0;
    while i < SKILL_COUNT
        invariant
            i <= SKILL_COUNT,
            level_offset + OFFSET_SPELL_START <= data@.len(),
            first_bad_skill(data@, level_offset as int, 0) == first_bad_skill(data@, level_offset as int, i as int),
        decreases SKILL_COUNT - i,
    {
        let value = match bytes::read_i32_at(data, level_offset + OFFSET_SKILLS + i * SKILL_STRIDE) {
            Ok(v) => v,
            Err(e) => return Err(SaveError::Access(e)),
        };
        if value < 0 || value > SKILL_MAX {
            return Err(SaveError::SkillOutOfRange { skill: i, value, version });
        }
        i = i + 1;
    }

    let unused_stat_points = match bytes::read_i32_at(data, level_offset + OFFSET_UNUSED_STAT_POINTS) {
        Ok(v) => v,
        Err(e) => return Err(SaveError::Access(e)),
    };
    if unused_stat_points < 0 {
        return Err(SaveError::NegativeUnusedStatPoints { value: unused_stat_points, version });
    }

    let unused_skill_points = match bytes::read_i32_at(data, level_offset + OFFSET_UNUSED_SKILL_POINTS) {
        Ok(v) => v,
        Err(e) => return Err(SaveError::Access(e)),
    };
    if unused_skill_points < 0 {
        return Err(SaveError::NegativeUnusedSkillPoints { value: unused_skill_points, version });
    }
    assert(fixed_spec(data@, level_offset as int, version) == Ok::<i32, SaveError>(level));

    // The main stats sit right after the variable-length spell section, so
    // walk it to find where the stats begin.
    let stats_offset = match walk_spells(data, level_offset + OFFSET_SPELL_START, version) {
        Ok(o) => o,
        Err(e) => return Err(e),
    };

    // The record ends at `gold` and must fit in the file.
    let record_end = match stats_offset.checked_add(OFFSET_RECORD_END) {
        Some(end) => end,
        None => return Err(SaveError::LayoutOverflow { version }),
    };
    if record_end > data.len() {
        return Err(SaveError::EndsBeforeRecordEnd { version });
    }

    let mut j: usize = 0;
    while j < STAT_COUNT
        invariant
            j <= STAT_COUNT,
            stats_offset + OFFSET_RECORD_END <= data@.len(),
            first_bad_stat(data@, stats_offset as int, 0) == first_bad_stat(data@, stats_offset as int, j as int),
        decreases STAT_COUNT - j,
    {
        let value = match bytes::read_i32_at(data, stats_offset + j * STAT_STRIDE) {
            Ok(v) => v,
            Err(e) => return Err(SaveError::Access(e)),
        };
        if value < 0 || value > STAT_MAX {
            return Err(SaveError::StatOutOfRange { stat: j, value, version });
        }
        j = j + 1;
    }

    let gold = match bytes::read_i32_at(data, stats_offset + OFFSET_GOLD) {
        Ok(v) => v,
        Err(e) => return Err(SaveError::Access(e)),
    };
    if gold < 0 {
        return Err(SaveError::NegativeGold { gold, version });
    }

    Ok(ParsedSave { version, level_offset, stats_offset, name, level })
}

/// Why a save parses as none of the known game versions: the reason for each.
#[derive(Debug, Clone, Copy, PartialEq, Eq, Structural)]
pub struct AutoDetectError {
    pub fate: SaveError,
    pub traitors_soul: SaveError,
}

/// The result of trying each known game version in turn.
pub open spec fn parse_auto_spec(d: Seq<u8>) -> Result<SaveView, AutoDetectError> {
    match parse_spec(d, GameVersion::Fate) {
        Ok(s) => Ok(s),
        Err(fate) => match parse_spec(d, GameVersion::TraitorsSoul) {
            Ok(s) => Ok(s),
            Err(traitors_soul) => Err(AutoDetectError { fate, traitors_soul }),
        },
    }
}

/// The spell section never ends before it starts.
proof fn lemma_spells_advance(d: Seq<u8>, o: int, k: int, v: GameVersion)
    ensures
        spells_spec(d, o, k, v) matches Ok(end) ==> o <= end <= if o <= d.len() { d.len() as int } else { o },
    decreases SPELL_ENTRIES - k,
{
    if !(k < 0 || k >= SPELL_ENTRIES) {
        if let Ok(next) = spell_entry_spec(d, o, layout::spell_slot_at(k), v) {
            lemma_spells_advance(d, next, k + 1, v);
        }
    }
}

/// Where a walk of the spell section from entry `k` ends: every remaining
/// entry takes its two length bytes and at most the longest plausible name.
proof fn lemma_spells_span(d: Seq<u8>, o: int, k: int, v: GameVersion)
    requires
        0 <= k <= SPELL_ENTRIES,
        spells_spec(d, o, k, v) is Ok,
    ensures
        ({
            let end = spells_spec(d, o, k, v)->Ok_0;
            &&& o + 2 * (SPELL_ENTRIES - k) <= end <= o + (2 + NAME_LEN_MAX) * (SPELL_ENTRIES - k)
            &&& k < SPELL_ENTRIES ==> end <= d.len()
        }),
    decreases SPELL_ENTRIES - k,
{
    if k < SPELL_ENTRIES {
        let next = spell_entry_spec(d, o, layout::spell_slot_at(k), v)->Ok_0;
        lemma_spells_span(d, next, k + 1, v);
    }
}

/// A walk of the whole spell section that succeeds ends at least two bytes
/// per entry and at most two bytes plus the longest plausible name per entry
/// after its start, and inside the buffer.
pub proof fn lemma_spell_section_bounds(d: Seq<u8>, o: int, v: GameVersion)
    requires
        spells_spec(d, o, 0, v) is Ok,
    ensures
        ({
            let end = spells_spec(d, o, 0, v)->Ok_0;
            &&& o + 2 * SPELL_ENTRIES <= end
            &&& end <= o + (2 + NAME_LEN_MAX) * SPELL_ENTRIES
            &&& end <= d.len()
        }),
{
    lemma_spells_span(d, o, 0, v);
}

/// A save that parses holds a plausible record: the level chunk, the spell
/// section and the main stats lie inside the buffer in format order, and every
/// checked field is in its plausible range.
pub proof fn lemma_parsed_record(d: Seq<u8>, v: GameVersion)
    requires
        parse_spec(d, v) is Ok,
    ensures
        parse_spec(d, v) matches Ok(sv) && {
            let lo = sv.level_offset;
            let so = sv.stats_offset;
            &&& sv.version == v
            &&& 0 <= lo
            &&& lo + OFFSET_SPELL_START <= so
            &&& so + OFFSET_RECORD_END <= d.len()
            &&& MIN_LEVEL <= sv.level <= MAX_LEVEL
            &&& sv.level == bytes::i32_at(d, lo + OFFSET_LEVEL)
            &&& bytes::i32_at(d, lo + OFFSET_EXPERIENCE) >= 0
            &&& bytes::i32_at(d, lo + OFFSET_UNUSED_STAT_POINTS) >= 0
            &&& bytes::i32_at(d, lo + OFFSET_UNUSED_SKILL_POINTS) >= 0
            &&& bytes::i32_at(d, so + OFFSET_GOLD) >= 0
            &&& forall|i: int| 0 <= i < SKILL_COUNT ==> 0 <= #[trigger] skill_at(d, lo, i) <= SKILL_MAX
            &&& forall|i: int| 0 <= i < STAT_COUNT ==> 0 <= #[trigger] stat_at(d, so, i) <= STAT_MAX
        },
{
    let (name, lo) = names_spec(d, v).unwrap();
    let so = spells_spec(d, lo + OFFSET_SPELL_START, 0, v).unwrap();
    lemma_spells_advance(d, lo + OFFSET_SPELL_START, 0, v);
    lemma_first_bad_skill_none(d, lo, 0);
    lemma_first_bad_stat_none(d, so, 0);
    lemma_marker_from_found(d, 0);
}

/// No implausible skill from `i` on means every skill from `i` on is plausible.
proof fn lemma_first_bad_skill_none(d: Seq<u8>, lo: int, i: int)
    requires
        0 <= i,
        first_bad_skill(d, lo, i) is None,
    ensures
        forall|j: int| i <= j < SKILL_COUNT ==> 0 <= #[trigger] skill_at(d, lo, j) <= SKILL_MAX,
    decreases SKILL_COUNT - i,
{
    if i < SKILL_COUNT {
        lemma_first_bad_skill_none(d, lo, i + 1);
    }
}

/// No implausible stat from `i` on means every stat from `i` on is plausible.
proof fn lemma_first_bad_stat_none(d: Seq<u8>, so: int, i: int)
    requires
        0 <= i,
        first_bad_stat(d, so, i) is None,
    ensures
        forall|j: int| i <= j < STAT_COUNT ==> 0 <= #[trigger] stat_at(d, so, j) <= STAT_MAX,
    decreases STAT_COUNT - i,
{
    if i < STAT_COUNT {
        lemma_first_bad_stat_none(d, so, i + 1);
    }
}

/// The marker search only looks at the bytes up to the end of the first marker.
proof fn lemma_marker_from_agree(d: Seq<u8>, d2: Seq<u8>, i: int, n: int)
    requires
        n <= d2.len(),
        n <= d.len(),
        forall|k: int| 0 <= k < n ==> #[trigger] d2[k] == d[k],
        marker_from(d, i) matches Some(m) && m + MARKER_LEN <= n,
    ensures
        marker_from(d2, i) == marker_from(d, i),
    decreases d.len() - i,
{
    lemma_marker_from_found(d, i);
    if !(i < 0 || i + MARKER_LEN > d.len()) {
        assert(d2.subrange(i, i + MARKER_LEN) =~= d.subrange(i, i + MARKER_LEN));
        if !marker_at(d, i) {
            lemma_marker_from_agree(d, d2, i + 1, n);
        }
    }
}

/// Walking the spell section only looks at the bytes of the section.
proof fn lemma_spells_agree(d: Seq<u8>, d2: Seq<u8>, o: int, k: int, v: GameVersion)
    requires
        0 <= o,
        d.len() <= d2.len(),
        spells_spec(d, o, k, v) is Ok,
        forall|j: int| o <= j < spells_spec(d, o, k, v)->Ok_0 ==> #[trigger] d2[j] == d[j],
    ensures
        spells_spec(d2, o, k, v) == spells_spec(d, o, k, v),
    decreases SPELL_ENTRIES - k,
{
    if !(k < 0 || k >= SPELL_ENTRIES) {
        let next = spell_entry_spec(d, o, layout::spell_slot_at(k), v)->Ok_0;
        lemma_spells_advance(d, next, k + 1, v);
        let len = bytes::u16_at(d, o);
        let end = spells_spec(d, o, k, v)->Ok_0;
        assert(next == o + 2 + len);
        assert(next <= end);
        assert(o + 2 + len <= d.len());
        assert(d2[o] == d[o] && d2[o + 1] == d[o + 1]);
        assert forall|j: int| 0 <= j < len implies #[trigger] d2.subrange(o + 2, o + 2 + len)[j] == d.subrange(o + 2, o + 2 + len)[j] by {
            assert(d2[o + 2 + j] == d[o + 2 + j]);
        }
        assert(d2.subrange(o + 2, o + 2 + len) =~= d.subrange(o + 2, o + 2 + len));
        assert(spell_entry_spec(d2, o, layout::spell_slot_at(k), v) == spell_entry_spec(d, o, layout::spell_slot_at(k), v));
        lemma_spells_agree(d, d2, next, k + 1, v);
    }
}

/// Every skill plausible means no implausible skill is found.
proof fn lemma_first_bad_skill_none_back(d: Seq<u8>, lo: int, i: int)
    requires
        0 <= i,
        forall|j: int| i <= j < SKILL_COUNT ==> 0 <= #[trigger] skill_at(d, lo, j) <= SKILL_MAX,
    ensures
        first_bad_skill(d, lo, i) is None,
    decreases SKILL_COUNT - i,
{
    if i < SKILL_COUNT {
        lemma_first_bad_skill_none_back(d, lo, i + 1);
    }
}

/// Every stat plausible means no implausible stat is found.
proof fn lemma_first_bad_stat_none_back(d: Seq<u8>, so: int, i: int)
    requires
        0 <= i,
        forall|j: int| i <= j < STAT_COUNT ==> 0 <= #[trigger] stat_at(d, so, j) <= STAT_MAX,
    ensures
        first_bad_stat(d, so, i) is None,
    decreases STAT_COUNT - i,
{
    if i < STAT_COUNT {
        lemma_first_bad_stat_none_back(d, so, i + 1);
    }
}

/// The parse of a save depends on its bytes only through what it checks:
/// another buffer at least as long that agrees with it on everything up to
/// the `experience` field, on the spell section and on `gold`, and whose
/// skills, unused point pools and main stats are plausible, parses to the
/// same character at the same offsets.
#[verifier::spinoff_prover]
pub proof fn lemma_parse_frame(d: Seq<u8>, d2: Seq<u8>, v: GameVersion)
    requires
        parse_spec(d, v) is Ok,
        d2.len() >= d.len(),
        ({
            let sv = parse_spec(d, v)->Ok_0;
            let lo = sv.level_offset;
            let so = sv.stats_offset;
            &&& forall|k: int| 0 <= k < lo + OFFSET_EXPERIENCE + 4 ==> #[trigger] d2[k] == d[k]
            &&& forall|k: int| lo + OFFSET_SPELL_START <= k < so ==> #[trigger] d2[k] == d[k]
            &&& forall|k: int| so + OFFSET_GOLD <= k < so + OFFSET_RECORD_END ==> #[trigger] d2[k] == d[k]
            &&& forall|i: int| 0 <= i < SKILL_COUNT ==> 0 <= #[trigger] skill_at(d2, lo, i) <= SKILL_MAX
            &&& forall|i: int| 0 <= i < STAT_COUNT ==> 0 <= #[trigger] stat_at(d2, so, i) <= STAT_MAX
            &&& bytes::i32_at(d2, lo + OFFSET_UNUSED_STAT_POINTS) >= 0
            &&& bytes::i32_at(d2, lo + OFFSET_UNUSED_SKILL_POINTS) >= 0
        }),
    ensures
        parse_spec(d2, v) == parse_spec(d, v),
{
    lemma_parsed_record(d, v);
    let sv = parse_spec(d, v)->Ok_0;
    let lo = sv.level_offset;
    let so = sv.stats_offset;
    let n = lo + OFFSET_EXPERIENCE + 4;
    // The marker, the header and both names lie before the level chunk.
    let m = first_marker(d)->Some_0;
    lemma_marker_from_found(d, 0);
    lemma_marker_from_agree(d, d2, 0, n);
    let o1 = m + MARKER_LEN + layout::header_len(v);
    let nl = bytes::u16_at(d, o1);
    let o2 = o1 + 2 + nl;
    let al = bytes::u16_at(d, o2);
    assert(d2[o1] == d[o1] && d2[o1 + 1] == d[o1 + 1]);
    assert(d2.subrange(o1 + 2, o1 + 2 + nl) =~= d.subrange(o1 + 2, o1 + 2 + nl));
    assert(d2[o2] == d[o2] && d2[o2 + 1] == d[o2 + 1]);
    assert(names_spec(d2, v) == names_spec(d, v));
    // The fixed fields.
    assert(bytes::i32_at(d2, lo + OFFSET_LEVEL) == bytes::i32_at(d, lo + OFFSET_LEVEL));
    assert(bytes::i32_at(d2, lo + OFFSET_EXPERIENCE) == bytes::i32_at(d, lo + OFFSET_EXPERIENCE));
    lemma_first_bad_skill_none_back(d2, lo, 0);
    assert(fixed_spec(d2, lo, v) == fixed_spec(d, lo, v));
    // The spell section.
    lemma_spells_agree(d, d2, lo + OFFSET_SPELL_START, 0, v);
    // The stats and gold.
    lemma_first_bad_stat_none_back(d2, so, 0);
    assert(bytes::i32_at(d2, so + OFFSET_GOLD) == bytes::i32_at(d, so + OFFSET_GOLD));
    assert(tail_spec(d2, so, v) == tail_spec(d, so, v));
}

/// Bytes after the record never change the parse: a save that parses, with
/// any bytes appended, parses as the same character at the same offsets.
pub proof fn lemma_parse_ignores_appended(d: Seq<u8>, t: Seq<u8>, v: GameVersion)
    requires
        parse_spec(d, v) is Ok,
    ensures
        parse_spec(d + t, v) == parse_spec(d, v),
{
    lemma_parsed_record(d, v);
    let d2 = d + t;
    let sv = parse_spec(d, v)->Ok_0;
    let lo = sv.level_offset;
    let so = sv.stats_offset;
    assert forall|k: int| 0 <= k < d.len() implies #[trigger] d2[k] == d[k] by {}
    assert forall|i: int| 0 <= i < SKILL_COUNT implies #[trigger] skill_at(d2, lo, i) == skill_at(d, lo, i) by {
        let off = lo + OFFSET_SKILLS + SKILL_STRIDE * i;
        assert(d2[off] == d[off] && d2[off + 1] == d[off + 1] && d2[off + 2] == d[off + 2] && d2[off + 3] == d[off + 3]);
    }
    assert forall|i: int| 0 <= i < STAT_COUNT implies #[trigger] stat_at(d2, so, i) == stat_at(d, so, i) by {
        let off = so + STAT_STRIDE * i;
        assert(d2[off] == d[off] && d2[off + 1] == d[off + 1] && d2[off + 2] == d[off + 2] && d2[off + 3] == d[off + 3]);
    }
    let o1 = lo + OFFSET_UNUSED_STAT_POINTS;
    assert(d2[o1] == d[o1] && d2[o1 + 1] == d[o1 + 1] && d2[o1 + 2] == d[o1 + 2] && d2[o1 + 3] == d[o1 + 3]);
    let o2 = lo + OFFSET_UNUSED_SKILL_POINTS;
    assert(d2[o2] == d[o2] && d2[o2 + 1] == d[o2 + 1] && d2[o2 + 2] == d[o2 + 2] && d2[o2 + 3] == d[o2 + 3]);
    lemma_parse_frame(d, d2, v);
}

/// `d2` holds the bytes of `d` from `from` on, `s` bytes further along.
pub open spec fn shifted(d: Seq<u8>, d2: Seq<u8>, from: int, s: int) -> bool {
    forall|k: int| from <= k < d.len() ==> d2[k + s] == #[trigger] d[k]
}

/// A spell section that walks in `d` walks the same way, `s` bytes further
/// along, in a buffer that holds its bytes shifted by `s`.
proof fn lemma_spells_shift(d: Seq<u8>, d2: Seq<u8>, o: int, k: int, s: int, v: GameVersion, v2: GameVersion)
    requires
        0 <= o,
        0 <= s,
        d2.len() == d.len() + s,
        d.len() + s <= usize::MAX,
        shifted(d, d2, o, s),
        spells_spec(d, o, k, v) is Ok,
    ensures
        spells_spec(d2, o + s, k, v2) == Ok::<int, SaveError>(spells_spec(d, o, k, v)->Ok_0 + s),
    decreases SPELL_ENTRIES - k,
{
    if !(k < 0 || k >= SPELL_ENTRIES) {
        let next = spell_entry_spec(d, o, layout::spell_slot_at(k), v)->Ok_0;
        lemma_spells_advance(d, next, k + 1, v);
        let len = bytes::u16_at(d, o);
        assert(o + 2 + len <= d.len());
        assert(d2[o + s] == d[o] && d2[o + 1 + s] == d[o + 1]);
        assert forall|j: int| 0 <= j < len implies #[trigger] d2.subrange(o + s + 2, o + s + 2 + len)[j] == d.subrange(o + 2, o + 2 + len)[j] by {
            assert(d2[o + 2 + j + s] == d[o + 2 + j]);
        }
        assert(d2.subrange(o + s + 2, o + s + 2 + len) =~= d.subrange(o + 2, o + 2 + len));
        assert(spell_entry_spec(d2, o + s, layout::spell_slot_at(k), v2) == Ok::<int, SaveError>(next + s));
        assert(shifted(d, d2, next, s));
        lemma_spells_shift(d, d2, next, k + 1, s, v, v2);
    }
}

/// The two game versions differ only in the size of the header after the
/// marker: a FATE save that parses, with any eight bytes inserted into its
/// header, parses as a Traitor's Soul save of the same character, with every
/// offset eight bytes further along.
#[verifier::spinoff_prover]
#[verifier::rlimit(80)]
pub proof fn lemma_versions_differ_by_header(d: Seq<u8>, h: Seq<u8>)
    requires
        parse_spec(d, GameVersion::Fate) is Ok,
        h.len() == layout::TRAITORS_SOUL_HEADER - layout::FATE_HEADER,
        d.len() + h.len() <= usize::MAX,
    ensures
        ({
            let m = first_marker(d)->Some_0;
            let d2 = d.take(m + MARKER_LEN) + h + d.skip(m + MARKER_LEN);
            let sv = parse_spec(d, GameVersion::Fate)->Ok_0;
            parse_spec(d2, GameVersion::TraitorsSoul) == Ok::<SaveView, SaveError>(SaveView {
                version: GameVersion::TraitorsSoul,
                level_offset: sv.level_offset + h.len(),
                stats_offset: sv.stats_offset + h.len(),
                name: sv.name,
                level: sv.level,
            })
        }),
{
    let v = GameVersion::Fate;
    let v2 = GameVersion::TraitorsSoul;
    lemma_parsed_record(d, v);
    lemma_marker_from_found(d, 0);
    let s = h.len() as int;
    let m = first_marker(d)->Some_0;
    let p = m + MARKER_LEN;
    let d2 = d.take(p) + h + d.skip(p);
    let sv = parse_spec(d, v)->Ok_0;
    let lo = sv.level_offset;
    let so = sv.stats_offset;
    assert(d2.len() == d.len() + s);
    assert forall|k: int| 0 <= k < p implies #[trigger] d2[k] == d[k] by {}
    assert forall|k: int| p <= k < d.len() implies d2[k + s] == #[trigger] d[k] by {
        assert(d2[k + s] == d.skip(p)[k - p]);
    }
    assert(shifted(d, d2, p, s));
    lemma_marker_from_agree(d, d2, 0, p);
    // Both names, eight bytes further along.
    let o1 = p + layout::header_len(v);
    let nl = bytes::u16_at(d, o1);
    let o2 = o1 + 2 + nl;
    let al = bytes::u16_at(d, o2);
    assert(d2[o1 + s] == d[o1] && d2[o1 + 1 + s] == d[o1 + 1]);
    assert forall|j: int| 0 <= j < nl implies #[trigger] d2.subrange(o1 + s + 2, o1 + s + 2 + nl)[j] == d.subrange(o1 + 2, o1 + 2 + nl)[j] by {
        assert(d2[o1 + 2 + j + s] == d[o1 + 2 + j]);
    }
    assert(d2.subrange(o1 + s + 2, o1 + s + 2 + nl) =~= d.subrange(o1 + 2, o1 + 2 + nl));
    assert(d2[o2 + s] == d[o2] && d2[o2 + 1 + s] == d[o2 + 1]);
    assert(names_spec(d2, v2) == Ok::<(Seq<char>, int), SaveError>((sv.name, lo + s)));
    // The fixed fields.
    assert forall|i: int| 0 <= i < SKILL_COUNT implies #[trigger] skill_at(d2, lo + s, i) == skill_at(d, lo, i) by {
        let off = lo + OFFSET_SKILLS + SKILL_STRIDE * i;
        assert(d2[off + s] == d[off] && d2[off + 1 + s] == d[off + 1] && d2[off + 2 + s] == d[off + 2] && d2[off + 3 + s] == d[off + 3]);
    }
    lemma_first_bad_skill_none_back(d2, lo + s, 0);
    assert forall|x: int| 0 <= x < OFFSET_SPELL_START - 3 implies #[trigger] bytes::i32_at(d2, lo + s + x) == bytes::i32_at(d, lo + x) by {
        assert(d2[lo + x + s] == d[lo + x] && d2[lo + x + 1 + s] == d[lo + x + 1] && d2[lo + x + 2 + s] == d[lo + x + 2] && d2[lo + x + 3 + s] == d[lo + x + 3]);
    }
    assert(bytes::i32_at(d2, lo + s + OFFSET_LEVEL) == bytes::i32_at(d, lo + OFFSET_LEVEL));
    assert(bytes::i32_at(d2, lo + s + OFFSET_EXPERIENCE) == bytes::i32_at(d, lo + OFFSET_EXPERIENCE));
    assert(bytes::i32_at(d2, lo + s + OFFSET_UNUSED_STAT_POINTS) == bytes::i32_at(d, lo + OFFSET_UNUSED_STAT_POINTS));
    assert(bytes::i32_at(d2, lo + s + OFFSET_UNUSED_SKILL_POINTS) == bytes::i32_at(d, lo + OFFSET_UNUSED_SKILL_POINTS));
    assert(fixed_spec(d2, lo + s, v2) == Ok::<i32, SaveError>(sv.level));
    // The spell section.
    lemma_spells_shift(d, d2, lo + OFFSET_SPELL_START, 0, s, v, v2);
    // The stats and gold.
    assert forall|i: int| 0 <= i < STAT_COUNT implies #[trigger] stat_at(d2, so + s, i) == stat_at(d, so, i) by {
        let off = so + STAT_STRIDE * i;
        assert(d2[off + s] == d[off] && d2[off + 1 + s] == d[off + 1] && d2[off + 2 + s] == d[off + 2] && d2[off + 3 + s] == d[off + 3]);
    }
    lemma_first_bad_stat_none_back(d2, so + s, 0);
    let g = so + OFFSET_GOLD;
    assert(d2[g + s] == d[g] && d2[g + 1 + s] == d[g + 1] && d2[g + 2 + s] == d[g + 2] && d2[g + 3 + s] == d[g + 3]);
    assert(tail_spec(d2, so + s, v2) == Ok::<(), SaveError>(()));
}

/// Tries each known game version and returns the first whose parse validates.
pub fn parse_auto(data: &[u8]) -> (res: Result<ParsedSave, AutoDetectError>)
    requires
        data@.len() <= isize::MAX,
    ensures
        match parse_auto_spec(data@) {
            Ok(sv) => res matches Ok(s) && s@ == sv,
            Err(e) => res matches Err(r) && r == e,
        },
{
    let fate = match parse(data, GameVersion::Fate) {
        Ok(save) => return Ok(save),
        Err(reason) => reason,
    };
    match parse(data, GameVersion::TraitorsSoul) {
        Ok(save) => Ok(save),
        Err(traitors_soul) => Err(AutoDetectError { fate, traitors_soul }),
    }
}

/// Detection tries both versions, FATE first: a save that parses as FATE is
/// detected as that parse; one that does not but parses as Traitor's Soul is
/// detected as that parse; one that parses as neither is refused with the
/// reason each version gave.
pub proof fn lemma_detection_tries_both(d: Seq<u8>)
    ensures
        parse_spec(d, GameVersion::Fate) matches Ok(s) ==> parse_auto_spec(d) == Ok::<SaveView, AutoDetectError>(s),
        parse_spec(d, GameVersion::Fate) is Err ==> (parse_spec(d, GameVersion::TraitorsSoul) matches Ok(s)
            ==> parse_auto_spec(d) == Ok::<SaveView, AutoDetectError>(s)),
        parse_spec(d, GameVersion::Fate) matches Err(f) ==> (parse_spec(d, GameVersion::TraitorsSoul) matches Err(t)
            ==> parse_auto_spec(d) == Err::<SaveView, AutoDetectError>(AutoDetectError { fate: f, traitors_soul: t })),
{
}

/// Bytes after the record never make a detected save undetectable: with any
/// bytes appended it is still detected, as the same parse when it was
/// detected as FATE, or when the longer buffer does not parse as FATE.
pub proof fn lemma_detection_ignores_appended(d: Seq<u8>, t: Seq<u8>)
    requires
        parse_auto_spec(d) is Ok,
    ensures
        parse_auto_spec(d + t) is Ok,
        parse_auto_spec(d)->Ok_0.version == GameVersion::Fate ==> parse_auto_spec(d + t) == parse_auto_spec(d),
        parse_spec(d + t, GameVersion::Fate) is Err ==> parse_auto_spec(d + t) == parse_auto_spec(d),
{
    if parse_spec(d, GameVersion::Fate) is Ok {
        lemma_parsed_record(d, GameVersion::Fate);
        lemma_parse_ignores_appended(d, t, GameVersion::Fate);
    } else {
        lemma_parsed_record(d, GameVersion::TraitorsSoul);
        lemma_parse_ignores_appended(d, t, GameVersion::TraitorsSoul);
        if parse_spec(d + t, GameVersion::Fate) matches Ok(s) {
            lemma_parsed_record(d + t, GameVersion::Fate);
        }
    }
}

/// The bytes of a spell entry holding `name`: its length as a little-endian
/// `u16`, then its bytes.
pub open spec fn spell_entry_bytes(name: Seq<u8>) -> Seq<u8> {
    seq![(name.len() % 256) as u8, ((name.len() / 256) % 256) as u8] + name
}

/// The bytes of a spell section holding `names`, in order.
pub open spec fn spell_section_bytes(names: Seq<Seq<u8>>) -> Seq<u8>
    decreases names.len(),
{
    if names.len() == 0 {
        Seq::empty()
    } else {
        spell_entry_bytes(names[0]) + spell_section_bytes(names.drop_first())
    }
}

/// A spell name the format admits: at most the longest plausible name, of
/// well-formed UTF-8; an empty name (no spell in the slot) is one.
pub open spec fn plausible_spell_name(name: Seq<u8>) -> bool {
    name.len() <= NAME_LEN_MAX && valid_utf8(name)
}

/// A spell section laid out as the format gives it is walked to its end:
/// from entry `k`, one plausible name per remaining entry.
proof fn lemma_spell_section_walks(d: Seq<u8>, o: int, k: int, names: Seq<Seq<u8>>, v: GameVersion)
    requires
        0 <= k <= SPELL_ENTRIES,
        names.len() == SPELL_ENTRIES - k,
        forall|i: int| 0 <= i < names.len() ==> plausible_spell_name(#[trigger] names[i]),
        0 <= o,
        o + spell_section_bytes(names).len() <= d.len(),
        d.len() <= usize::MAX,
        d.subrange(o, o + spell_section_bytes(names).len()) == spell_section_bytes(names),
    ensures
        spells_spec(d, o, k, v) == Ok::<int, SaveError>(o + spell_section_bytes(names).len()),
    decreases SPELL_ENTRIES - k,
{
    if k < SPELL_ENTRIES {
        let name = names[0];
        let rest = names.drop_first();
        let e = spell_entry_bytes(name);
        let sec = spell_section_bytes(names);
        let len = name.len() as int;
        assert(plausible_spell_name(names[0]));
        assert(sec == e + spell_section_bytes(rest));
        assert(d[o] == sec[0] && d[o + 1] == sec[1]);
        assert(len % 256 == len && (len / 256) % 256 == 0);
        assert(bytes::u16_at(d, o) as int == len);
        assert(d.subrange(o + 2, o + 2 + len) =~= name) by {
            assert forall|j: int| 0 <= j < len implies #[trigger] d.subrange(o + 2, o + 2 + len)[j] == name[j] by {
                assert(d[o + 2 + j] == sec[2 + j]);
            }
        }
        assert(spell_entry_spec(d, o, layout::spell_slot_at(k), v) == Ok::<int, SaveError>(o + 2 + len));
        let o2 = o + 2 + len;
        let rs = spell_section_bytes(rest);
        assert forall|i: int| 0 <= i < rest.len() implies plausible_spell_name(#[trigger] rest[i]) by {
            assert(rest[i] == names[i + 1]);
        }
        assert(d.subrange(o2, o2 + rs.len()) =~= rs) by {
            assert forall|j: int| 0 <= j < rs.len() implies #[trigger] d.subrange(o2, o2 + rs.len())[j] == rs[j] by {
                assert(d[o2 + j] == sec[2 + len + j]);
            }
        }
        lemma_spell_section_walks(d, o2, k + 1, rest, v);
    } else {
        assert(names.len() == 0);
    }
}

/// The spell section is free: a save that parses, with its spell section
/// replaced by any nineteen plausible spell names laid out as the format
/// gives them (empty ones included), parses as the same character, with its
/// main stats right after the new section.
#[verifier::spinoff_prover]
#[verifier::rlimit(80)]
pub proof fn lemma_any_spell_section_parses(d: Seq<u8>, v: GameVersion, names: Seq<Seq<u8>>)
    requires
        parse_spec(d, v) is Ok,
        names.len() == SPELL_ENTRIES,
        forall|i: int| 0 <= i < names.len() ==> plausible_spell_name(#[trigger] names[i]),
        ({
            let sv = parse_spec(d, v)->Ok_0;
            sv.level_offset + OFFSET_SPELL_START + spell_section_bytes(names).len() + (d.len() - sv.stats_offset) <= usize::MAX
        }),
    ensures
        ({
            let sv = parse_spec(d, v)->Ok_0;
            let start = sv.level_offset + OFFSET_SPELL_START;
            let sec = spell_section_bytes(names);
            parse_spec(d.take(start) + sec + d.skip(sv.stats_offset), v) == Ok::<SaveView, SaveError>(SaveView {
                version: v,
                level_offset: sv.level_offset,
                stats_offset: start + sec.len(),
                name: sv.name,
                level: sv.level,
            })
        }),
{
    lemma_parsed_record(d, v);
    lemma_marker_from_found(d, 0);
    let sv = parse_spec(d, v)->Ok_0;
    let lo = sv.level_offset;
    let so = sv.stats_offset;
    let start = lo + OFFSET_SPELL_START;
    let sec = spell_section_bytes(names);
    let so2 = start + sec.len();
    let d2 = d.take(start) + sec + d.skip(so);
    assert(d2.len() == so2 + (d.len() - so));
    assert forall|k: int| 0 <= k < start implies #[trigger] d2[k] == d[k] by {}
    assert forall|k: int| so <= k < d.len() implies d2[k + (so2 - so)] == #[trigger] d[k] by {
        assert(d2[k + (so2 - so)] == d.skip(so)[k - so]);
    }
    // The marker and both names lie before the level chunk.
    let m = first_marker(d)->Some_0;
    lemma_marker_from_agree(d, d2, 0, start);
    let o1 = m + MARKER_LEN + layout::header_len(v);
    let nl = bytes::u16_at(d, o1);
    let o2 = o1 + 2 + nl;
    assert(d2[o1] == d[o1] && d2[o1 + 1] == d[o1 + 1]);
    assert(d2.subrange(o1 + 2, o1 + 2 + nl) =~= d.subrange(o1 + 2, o1 + 2 + nl));
    assert(d2[o2] == d[o2] && d2[o2 + 1] == d[o2 + 1]);
    assert(names_spec(d2, v) == names_spec(d, v));
    // The fixed fields.
    assert forall|i: int| 0 <= i < SKILL_COUNT implies #[trigger] skill_at(d2, lo, i) == skill_at(d, lo, i) by {
        let off = lo + OFFSET_SKILLS + SKILL_STRIDE * i;
        assert(d2[off] == d[off] && d2[off + 1] == d[off + 1] && d2[off + 2] == d[off + 2] && d2[off + 3] == d[off + 3]);
    }
    lemma_first_bad_skill_none_back(d2, lo, 0);
    assert forall|x: int| 0 <= x < OFFSET_SPELL_START - 3 implies #[trigger] bytes::i32_at(d2, lo + x) == bytes::i32_at(d, lo + x) by {
        assert(d2[lo + x] == d[lo + x] && d2[lo + x + 1] == d[lo + x + 1] && d2[lo + x + 2] == d[lo + x + 2] && d2[lo + x + 3] == d[lo + x + 3]);
    }
    assert(bytes::i32_at(d2, lo + OFFSET_LEVEL) == bytes::i32_at(d, lo + OFFSET_LEVEL));
    assert(bytes::i32_at(d2, lo + OFFSET_EXPERIENCE) == bytes::i32_at(d, lo + OFFSET_EXPERIENCE));
    assert(bytes::i32_at(d2, lo + OFFSET_UNUSED_STAT_POINTS) == bytes::i32_at(d, lo + OFFSET_UNUSED_STAT_POINTS));
    assert(bytes::i32_at(d2, lo + OFFSET_UNUSED_SKILL_POINTS) == bytes::i32_at(d, lo + OFFSET_UNUSED_SKILL_POINTS));
    assert(fixed_spec(d2, lo, v) == Ok::<i32, SaveError>(sv.level));
    // The new spell section.
    assert(d2.subrange(start, so2) =~= sec) by {
        assert forall|j: int| 0 <= j < sec.len() implies #[trigger] d2.subrange(start, so2)[j] == sec[j] by {
            assert(d2[start + j] == sec[j]);
        }
    }
    lemma_spell_section_walks(d2, start, 0, names, v);
    // The stats and gold, moved along with the rest of the buffer.
    let s = so2 - so;
    assert forall|i: int| 0 <= i < STAT_COUNT implies #[trigger] stat_at(d2, so2, i) == stat_at(d, so, i) by {
        let off = so + STAT_STRIDE * i;
        assert(d2[off + s] == d[off] && d2[off + 1 + s] == d[off + 1] && d2[off + 2 + s] == d[off + 2] && d2[off + 3 + s] == d[off + 3]);
    }
    lemma_first_bad_stat_none_back(d2, so2, 0);
    let g = so + OFFSET_GOLD;
    assert(d2[g + s] == d[g] && d2[g + 1 + s] == d[g + 1] && d2[g + 2 + s] == d[g + 2] && d2[g + 3 + s] == d[g + 3]);
    assert(tail_spec(d2, so2, v) == Ok::<(), SaveError>(()));
}

} // verus!
