use fate_respec::bytes::{read_bytes, read_i32_at, read_u16, write_i32_at, AccessError};
use fate_respec::layout::{skill_name, stat_name, spell_list_name, baseline_stats, GameVersion, SpellSlot};
use fate_respec::respec::{refund_summary, respec, respec_save, row_change, RefundSummary, RespecError, RunError};
use fate_respec::save::{parse, parse_auto, read_spell_name, walk_spells, SaveError};

const FATE_HEADER: usize = 107;
const TS_HEADER: usize = 115;

struct Layout {
    level_offset: usize,
    stats_offset: usize,
}

struct Character {
    name: Vec<u8>,
    ancestor: Vec<u8>,
    level: i32,
    experience: i32,
    skills: [i32; 15],
    unused_stats: i32,
    unused_skills: i32,
    spells: Vec<Vec<u8>>,
    stats: [i32; 4],
    gold: i32,
}

fn hero() -> Character {
    let mut spells: Vec<Vec<u8>> = Vec::new();
    for k in 0..19 {
        if k % 3 == 0 {
            spells.push(format!("Spell{}", k).into_bytes());
        } else {
            spells.push(Vec::new());
        }
    }
    Character {
        name: b"Hero".to_vec(),
        ancestor: b"Elder".to_vec(),
        level: 12,
        experience: 3400,
        skills: [5, 0, 3, 0, 0, 0, 0, 7, 2, 0, 0, 0, 1, 0, 4],
        unused_stats: 2,
        unused_skills: 1,
        spells,
        stats: [40, 20, 31, 8],
        gold: 999,
    }
}

fn put_i32(buf: &mut Vec<u8>, off: usize, v: i32) {
    buf[off..off + 4].copy_from_slice(&v.to_le_bytes());
}

fn build(header: usize, c: &Character) -> (Vec<u8>, Layout) {
    let mut d: Vec<u8> = b"SAVE\x01\x02".to_vec();
    d.extend_from_slice(b"PLAYER");
    d.extend(std::iter::repeat(0u8).take(header));
    d.extend_from_slice(&(c.name.len() as u16).to_le_bytes());
    d.extend_from_slice(&c.name);
    d.extend_from_slice(&(c.ancestor.len() as u16).to_le_bytes());
    d.extend_from_slice(&c.ancestor);
    d.extend(std::iter::repeat(0xAAu8).take(118));
    let level_offset = d.len();
    d.extend(std::iter::repeat(0u8).take(165));
    put_i32(&mut d, level_offset, c.level);
    put_i32(&mut d, level_offset + 4, c.experience);
    put_i32(&mut d, level_offset + 64, c.unused_stats);
    put_i32(&mut d, level_offset + 68, c.unused_skills);
    for (i, s) in c.skills.iter().enumerate() {
        put_i32(&mut d, level_offset + 105 + 4 * i, *s);
    }
    for sp in &c.spells {
        d.extend_from_slice(&(sp.len() as u16).to_le_bytes());
        d.extend_from_slice(sp);
    }
    let stats_offset = d.len();
    d.extend(std::iter::repeat(0x55u8).take(44));
    for (i, s) in c.stats.iter().enumerate() {
        put_i32(&mut d, stats_offset + 8 * i, *s);
    }
    put_i32(&mut d, stats_offset + 40, c.gold);
    d.extend_from_slice(b"TRAILER");
    (d, Layout { level_offset, stats_offset })
}

fn get_i32(d: &[u8], off: usize) -> i32 {
    i32::from_le_bytes([d[off], d[off + 1], d[off + 2], d[off + 3]])
}

#[test]
fn read_u16_reads_little_endian_and_advances() {
    let d = [0x34u8, 0x12, 0xff];
    let mut off = 0usize;
    assert_eq!(read_u16(&d, &mut off), Ok(0x1234));
    assert_eq!(off, 2);
    assert_eq!(read_u16(&d, &mut off), Err(AccessError::Truncated { end: 4 }));
    assert_eq!(off, 2);
    let mut far = usize::MAX;
    assert_eq!(read_u16(&d, &mut far), Err(AccessError::OffsetOverflow));
}

#[test]
fn read_bytes_returns_the_range() {
    let d = [1u8, 2, 3, 4, 5];
    let mut off = 1usize;
    assert_eq!(read_bytes(&d, &mut off, 3), Ok(&[2u8, 3, 4][..]));
    assert_eq!(off, 4);
    assert_eq!(read_bytes(&d, &mut off, 2), Err(AccessError::Truncated { end: 6 }));
    assert_eq!(off, 4);
    assert_eq!(read_bytes(&d, &mut off, 0), Ok(&[][..]));
}

#[test]
fn read_i32_at_handles_sign() {
    let d = [0xffu8, 0xff, 0xff, 0xff, 0x01, 0x00, 0x00, 0x80];
    assert_eq!(read_i32_at(&d, 0), Ok(-1));
    assert_eq!(read_i32_at(&d, 4), Ok(i32::MIN + 1));
    assert_eq!(read_i32_at(&d, 5), Err(AccessError::Truncated { end: 9 }));
    assert_eq!(read_i32_at(&d, usize::MAX - 1), Err(AccessError::OffsetOverflow));
}

#[test]
fn write_then_read_gives_value_back() {
    let mut d = vec![9u8; 10];
    for v in [0, 1, -1, 123456789, i32::MIN, i32::MAX, -98765] {
        assert_eq!(write_i32_at(&mut d, 3, v), Ok(()));
        assert_eq!(read_i32_at(&d, 3), Ok(v));
        assert_eq!(&d[0..3], &[9, 9, 9]);
        assert_eq!(&d[7..10], &[9, 9, 9]);
    }
    assert_eq!(write_i32_at(&mut d, 7, 5), Err(AccessError::Truncated { end: 11 }));
    assert_eq!(d[7..10], [9, 9, 9]);
    let mut e = vec![0u8; 4];
    write_i32_at(&mut e, 0, 0x01020304).unwrap();
    assert_eq!(e, vec![4, 3, 2, 1]);
}

#[test]
fn header_sizes_and_labels() {
    assert_eq!(GameVersion::Fate.header_size(), 107);
    assert_eq!(GameVersion::TraitorsSoul.header_size(), 115);
    assert_eq!(GameVersion::Fate.label(), "FATE (original)");
    assert_eq!(GameVersion::TraitorsSoul.label(), "FATE: Traitor's Soul");
}

#[test]
fn field_names_in_file_order() {
    assert_eq!(skill_name(0), "sword");
    assert_eq!(skill_name(8), "critical strike");
    assert_eq!(skill_name(14), "charm magic");
    assert_eq!(stat_name(0), "strength");
    assert_eq!(stat_name(3), "magic");
    assert_eq!(spell_list_name(1), "defense");
    assert_eq!(baseline_stats(), [25, 20, 25, 10]);
}

#[test]
fn parse_fate_save() {
    let c = hero();
    let (d, lay) = build(FATE_HEADER, &c);
    let s = parse(&d, GameVersion::Fate).unwrap();
    assert_eq!(s.version, GameVersion::Fate);
    assert_eq!(s.name, "Hero");
    assert_eq!(s.level, 12);
    assert_eq!(s.level_offset, lay.level_offset);
    assert_eq!(s.stats_offset, lay.stats_offset);
}

#[test]
fn parse_traitors_soul_save() {
    let c = hero();
    let (d, lay) = build(TS_HEADER, &c);
    let s = parse(&d, GameVersion::TraitorsSoul).unwrap();
    assert_eq!(s.version, GameVersion::TraitorsSoul);
    assert_eq!(s.name, "Hero");
    assert_eq!(s.level_offset, lay.level_offset);
    assert_eq!(s.stats_offset, lay.stats_offset);
}

#[test]
fn parse_with_utf8_name() {
    let mut c = hero();
    c.name = "Héros".as_bytes().to_vec();
    let (d, _) = build(FATE_HEADER, &c);
    assert_eq!(parse(&d, GameVersion::Fate).unwrap().name, "Héros");
}

#[test]
fn parse_uses_first_marker() {
    let c = hero();
    let (mut d, _) = build(FATE_HEADER, &c);
    // A second marker later in the file does not matter.
    let n = d.len();
    d.extend_from_slice(b"PLAYER");
    assert!(parse(&d, GameVersion::Fate).is_ok());
    // A marker earlier in the file moves the record.
    let mut e = b"PLAYER".to_vec();
    e.extend_from_slice(&d[..n]);
    assert!(parse(&e, GameVersion::Fate).is_err());
}

#[test]
fn parse_rejects_missing_marker() {
    let d = vec![0u8; 600];
    assert_eq!(parse(&d, GameVersion::Fate).err(), Some(SaveError::NoMarker));
    assert_eq!(parse(b"PLAYE", GameVersion::Fate).err(), Some(SaveError::NoMarker));
}

#[test]
fn parse_rejects_long_name() {
    let mut c = hero();
    c.name = vec![b'a'; 256];
    let (d, _) = build(FATE_HEADER, &c);
    assert_eq!(
        parse(&d, GameVersion::Fate).err(),
        Some(SaveError::NameTooLong { len: 256, version: GameVersion::Fate })
    );
}

#[test]
fn parse_rejects_bad_utf8_name() {
    let mut c = hero();
    c.name = vec![0xff, 0xfe];
    let (d, _) = build(FATE_HEADER, &c);
    assert_eq!(
        parse(&d, GameVersion::Fate).err(),
        Some(SaveError::NameNotUtf8 { version: GameVersion::Fate })
    );
}

#[test]
fn parse_rejects_long_ancestor() {
    let mut c = hero();
    c.ancestor = vec![b'b'; 300];
    let (d, _) = build(FATE_HEADER, &c);
    assert_eq!(
        parse(&d, GameVersion::Fate).err(),
        Some(SaveError::AncestorTooLong { len: 300, version: GameVersion::Fate })
    );
}

#[test]
fn parse_rejects_truncated_files() {
    let c = hero();
    let (d, lay) = build(FATE_HEADER, &c);
    // Cut inside the header: the name length cannot be read.
    let cut = 6 + 6 + 50;
    assert_eq!(
        parse(&d[..cut], GameVersion::Fate).err(),
        Some(SaveError::Access(AccessError::Truncated { end: 6 + 6 + 107 + 2 }))
    );
    // Cut inside the level chunk.
    assert_eq!(
        parse(&d[..lay.level_offset + 100], GameVersion::Fate).err(),
        Some(SaveError::EndsBeforeSpells { version: GameVersion::Fate })
    );
    // Cut before gold.
    assert_eq!(
        parse(&d[..lay.stats_offset + 43], GameVersion::Fate).err(),
        Some(SaveError::EndsBeforeRecordEnd { version: GameVersion::Fate })
    );
    assert!(parse(&d[..lay.stats_offset + 44], GameVersion::Fate).is_ok());
}

#[test]
fn parse_rejects_implausible_fields() {
    let v = GameVersion::Fate;
    let mut c = hero();
    c.level = 0;
    assert_eq!(parse(&build(FATE_HEADER, &c).0, v).err(), Some(SaveError::LevelOutOfRange { level: 0, version: v }));
    c.level = 1000;
    assert_eq!(parse(&build(FATE_HEADER, &c).0, v).err(), Some(SaveError::LevelOutOfRange { level: 1000, version: v }));
    c.level = 999;
    assert!(parse(&build(FATE_HEADER, &c).0, v).is_ok());
    c.experience = -1;
    assert_eq!(parse(&build(FATE_HEADER, &c).0, v).err(), Some(SaveError::NegativeExperience { experience: -1, version: v }));
    c = hero();
    c.skills[3] = 10000;
    c.skills[9] = -4;
    assert_eq!(parse(&build(FATE_HEADER, &c).0, v).err(), Some(SaveError::SkillOutOfRange { skill: 3, value: 10000, version: v }));
    c = hero();
    c.unused_stats = -2;
    c.unused_skills = -3;
    assert_eq!(parse(&build(FATE_HEADER, &c).0, v).err(), Some(SaveError::NegativeUnusedStatPoints { value: -2, version: v }));
    c.unused_stats = 0;
    assert_eq!(parse(&build(FATE_HEADER, &c).0, v).err(), Some(SaveError::NegativeUnusedSkillPoints { value: -3, version: v }));
    c = hero();
    c.stats[2] = 10000;
    assert_eq!(parse(&build(FATE_HEADER, &c).0, v).err(), Some(SaveError::StatOutOfRange { stat: 2, value: 10000, version: v }));
    c = hero();
    c.gold = -1;
    assert_eq!(parse(&build(FATE_HEADER, &c).0, v).err(), Some(SaveError::NegativeGold { gold: -1, version: v }));
}

#[test]
fn parse_rejects_bad_spell_names() {
    let v = GameVersion::TraitorsSoul;
    let mut c = hero();
    c.spells[7] = vec![b'x'; 256];
    assert_eq!(
        parse(&build(TS_HEADER, &c).0, v).err(),
        Some(SaveError::SpellNameTooLong { slot: SpellSlot::Listed { list: 1, slot: 2 }, len: 256, version: v })
    );
    c = hero();
    c.spells[18] = vec![0xc3, 0x28];
    assert_eq!(
        parse(&build(TS_HEADER, &c).0, v).err(),
        Some(SaveError::SpellNameNotUtf8 { slot: SpellSlot::Active, version: v })
    );
}

#[test]
fn read_spell_name_and_walk_spells() {
    let d = [3u8, 0, b'a', b'b', b'c', 0, 0];
    let mut off = 0usize;
    assert_eq!(read_spell_name(&d, &mut off, GameVersion::Fate, SpellSlot::Active), Ok(()));
    assert_eq!(off, 5);
    assert_eq!(read_spell_name(&d, &mut off, GameVersion::Fate, SpellSlot::Active), Ok(()));
    assert_eq!(off, 7);
    assert_eq!(
        read_spell_name(&d, &mut off, GameVersion::Fate, SpellSlot::Active),
        Err(SaveError::Access(AccessError::Truncated { end: 9 }))
    );
    let mut spells: Vec<u8> = Vec::new();
    for _ in 0..19 {
        spells.extend_from_slice(&[1, 0, b'z']);
    }
    assert_eq!(walk_spells(&spells, 0, GameVersion::Fate), Ok(57));
    assert_eq!(
        walk_spells(&spells[..56], 0, GameVersion::Fate),
        Err(SaveError::Access(AccessError::Truncated { end: 57 }))
    );
}

#[test]
fn parse_auto_detects_each_version() {
    let c = hero();
    let (d, _) = build(FATE_HEADER, &c);
    assert_eq!(parse_auto(&d).unwrap().version, GameVersion::Fate);
    let (e, _) = build(TS_HEADER, &c);
    let s = parse_auto(&e).unwrap();
    assert_eq!(s.version, GameVersion::TraitorsSoul);
    assert_eq!(s.name, "Hero");
}

#[test]
fn parse_auto_reports_both_failures() {
    let d = vec![1u8; 100];
    let e = parse_auto(&d).err().unwrap();
    assert_eq!(e.fate, SaveError::NoMarker);
    assert_eq!(e.traitors_soul, SaveError::NoMarker);
}

#[test]
fn respec_refunds_skills_and_stats() {
    let c = hero();
    let (mut d, lay) = build(FATE_HEADER, &c);
    let before = d.clone();
    let s = parse(&d, GameVersion::Fate).unwrap();
    let r = respec(&mut d, &s, [25, 20, 25, 10]).unwrap();
    assert_eq!(r.refunded_skills, 22);
    // strength 40 -> 25 (15), dexterity 20 stays, vitality 31 -> 25 (6), magic 8 stays.
    assert_eq!(r.refunded_stats, 21);
    assert_eq!(r.old_unused_skills, 1);
    assert_eq!(r.new_unused_skills, 23);
    assert_eq!(r.old_unused_stats, 2);
    assert_eq!(r.new_unused_stats, 23);
    assert_eq!(r.skills.len(), 15);
    assert_eq!(r.skills[0], ("sword".to_string(), 5));
    assert_eq!(r.skills[14], ("charm magic".to_string(), 4));
    assert_eq!(r.stats[1], ("dexterity".to_string(), 20));
    for i in 0..15 {
        assert_eq!(get_i32(&d, lay.level_offset + 105 + 4 * i), 0);
    }
    assert_eq!(get_i32(&d, lay.level_offset + 68), 23);
    assert_eq!(get_i32(&d, lay.level_offset + 64), 23);
    assert_eq!(get_i32(&d, lay.stats_offset), 25);
    assert_eq!(get_i32(&d, lay.stats_offset + 8), 20);
    assert_eq!(get_i32(&d, lay.stats_offset + 16), 25);
    assert_eq!(get_i32(&d, lay.stats_offset + 24), 8);
    // Everything else is copied verbatim.
    for k in 0..d.len() {
        let lo = lay.level_offset;
        let so = lay.stats_offset;
        let touched = (lo + 64..lo + 72).contains(&k)
            || (lo + 105..lo + 165).contains(&k)
            || ((so..so + 32).contains(&k) && (k - so) % 8 < 4);
        if !touched {
            assert_eq!(d[k], before[k], "byte {} changed", k);
        }
    }
}

#[test]
fn respec_never_takes_points_for_stats_below_baseline() {
    let mut c = hero();
    c.stats = [20, 10, 30, 10];
    let (mut d, lay) = build(FATE_HEADER, &c);
    let s = parse(&d, GameVersion::Fate).unwrap();
    let r = respec(&mut d, &s, [25, 20, 25, 10]).unwrap();
    // Only vitality is above its baseline.
    assert_eq!(r.refunded_stats, 5);
    assert_eq!(get_i32(&d, lay.stats_offset), 20);
    assert_eq!(get_i32(&d, lay.stats_offset + 8), 10);
    assert_eq!(get_i32(&d, lay.stats_offset + 16), 25);
    assert_eq!(get_i32(&d, lay.level_offset + 64), 7);
}

#[test]
fn respec_with_nothing_to_refund_leaves_bytes_alone() {
    let mut c = hero();
    c.skills = [0; 15];
    c.stats = [25, 20, 25, 10];
    let (mut d, _) = build(FATE_HEADER, &c);
    let before = d.clone();
    let s = parse(&d, GameVersion::Fate).unwrap();
    let r = respec(&mut d, &s, [25, 20, 25, 10]).unwrap();
    assert_eq!(r.refunded_skills, 0);
    assert_eq!(r.refunded_stats, 0);
    assert_eq!(r.new_unused_skills, r.old_unused_skills);
    assert_eq!(d, before);
}

#[test]
fn respec_twice_changes_nothing_more() {
    let c = hero();
    let (mut d, _) = build(TS_HEADER, &c);
    let s = parse(&d, GameVersion::TraitorsSoul).unwrap();
    respec(&mut d, &s, [25, 20, 25, 10]).unwrap();
    let once = d.clone();
    let r = respec(&mut d, &s, [25, 20, 25, 10]).unwrap();
    assert_eq!(r.refunded_skills, 0);
    assert_eq!(r.refunded_stats, 0);
    assert_eq!(d, once);
}

#[test]
fn respecced_save_parses_as_the_same_character() {
    let c = hero();
    let (mut d, _) = build(FATE_HEADER, &c);
    let s = parse(&d, GameVersion::Fate).unwrap();
    respec(&mut d, &s, [1, 2, 3, 4]).unwrap();
    let t = parse(&d, GameVersion::Fate).unwrap();
    assert_eq!(t.name, s.name);
    assert_eq!(t.level, s.level);
    assert_eq!(t.level_offset, s.level_offset);
    assert_eq!(t.stats_offset, s.stats_offset);
}

#[test]
fn respec_conserves_points() {
    let c = hero();
    let (mut d, lay) = build(FATE_HEADER, &c);
    let s = parse(&d, GameVersion::Fate).unwrap();
    let sum = |d: &[u8]| {
        let skills: i32 = (0..15).map(|i| get_i32(d, lay.level_offset + 105 + 4 * i)).sum();
        let stats: i32 = (0..4).map(|i| get_i32(d, lay.stats_offset + 8 * i)).sum();
        (skills + get_i32(d, lay.level_offset + 68), stats + get_i32(d, lay.level_offset + 64))
    };
    let before = sum(&d);
    respec(&mut d, &s, [25, 20, 25, 10]).unwrap();
    assert_eq!(sum(&d), before);
}

#[test]
fn respec_reports_pool_overflow() {
    let mut c = hero();
    c.unused_skills = i32::MAX - 5;
    let (mut d, _) = build(FATE_HEADER, &c);
    let before = d.clone();
    let s = parse(&d, GameVersion::Fate).unwrap();
    assert_eq!(respec(&mut d, &s, [25, 20, 25, 10]).err(), Some(RespecError::UnusedSkillOverflow));
    assert_eq!(d, before);
    let mut c = hero();
    c.unused_stats = i32::MAX - 5;
    let (mut d, _) = build(FATE_HEADER, &c);
    let s = parse(&d, GameVersion::Fate).unwrap();
    assert_eq!(respec(&mut d, &s, [25, 20, 25, 10]).err(), Some(RespecError::UnusedStatOverflow));
}

#[test]
fn respec_save_runs_detection_and_defaults() {
    let c = hero();
    let (mut d, lay) = build(TS_HEADER, &c);
    let o = respec_save(&mut d, None, None).unwrap();
    assert_eq!(o.save.version, GameVersion::TraitorsSoul);
    assert_eq!(o.baselines, [25, 20, 25, 10]);
    assert_eq!(o.respec.refunded_stats, 21);
    assert_eq!(get_i32(&d, lay.stats_offset), 25);

    let (mut e, _) = build(FATE_HEADER, &c);
    let o = respec_save(&mut e, Some(GameVersion::Fate), Some([0, 0, 0, 0])).unwrap();
    assert_eq!(o.respec.refunded_stats, 99);

    let (mut f, _) = build(FATE_HEADER, &c);
    let before = f.clone();
    match respec_save(&mut f, Some(GameVersion::TraitorsSoul), None) {
        Err(RunError::Parse(_)) => {}
        _ => panic!("expected a parse error"),
    }
    assert_eq!(f, before);
    let mut g = vec![0u8; 10];
    match respec_save(&mut g, None, None) {
        Err(RunError::Undetected(e)) => assert_eq!(e.fate, SaveError::NoMarker),
        _ => panic!("expected detection to fail"),
    }
}

fn bare_record(stats: [i32; 4]) -> Vec<u8> {
    let mut d = vec![0u8; 165];
    for s in stats {
        d.extend_from_slice(&s.to_le_bytes());
        d.extend_from_slice(&[0, 0, 0, 0]);
    }
    d.truncate(165 + 28);
    d
}

fn bare_save(level_offset: usize, stats_offset: usize) -> fate_respec::save::ParsedSave {
    fate_respec::save::ParsedSave {
        version: GameVersion::Fate,
        level_offset,
        stats_offset,
        name: String::new(),
        level: 1,
    }
}

#[test]
fn respec_needs_only_the_fields_it_reads() {
    // The stats end at byte 193; gold would lie past the end of the buffer.
    let mut d = bare_record([30, 20, 25, 5]);
    assert_eq!(d.len(), 193);
    let before = d.clone();
    let r = respec(&mut d, &bare_save(0, 165), [25, 20, 25, 10]).unwrap();
    assert_eq!(r.refunded_skills, 0);
    assert_eq!(r.refunded_stats, 5);
    assert_eq!(r.new_unused_stats, 5);
    assert_eq!(&d[165..169], &[25, 0, 0, 0]);
    assert_eq!(&d[64..68], &[5, 0, 0, 0]);
    for k in 0..d.len() {
        if !(165..169).contains(&k) && !(64..68).contains(&k) {
            assert_eq!(d[k], before[k]);
        }
    }
}

#[test]
fn respec_refuses_fields_outside_the_buffer_and_writes_nothing() {
    // A skill slot past the end.
    let mut d = vec![1u8; 150];
    let before = d.clone();
    assert_eq!(
        respec(&mut d, &bare_save(0, 0), [25, 20, 25, 10]).err(),
        Some(RespecError::Access(AccessError::Truncated { end: 153 }))
    );
    assert_eq!(d, before);
    // A stat slot past the end.
    let mut d = bare_record([30, 20, 25, 5]);
    let before = d.clone();
    assert_eq!(
        respec(&mut d, &bare_save(0, 170), [25, 20, 25, 10]).err(),
        Some(RespecError::Access(AccessError::Truncated { end: 198 }))
    );
    assert_eq!(d, before);
    // An overflowing skill total comes before a later unreadable slot.
    let mut d = vec![0u8; 120];
    d[105..109].copy_from_slice(&i32::MAX.to_le_bytes());
    d[109..113].copy_from_slice(&1i32.to_le_bytes());
    let before = d.clone();
    assert_eq!(respec(&mut d, &bare_save(0, 0), [0, 0, 0, 0]).err(), Some(RespecError::SkillTotalOverflow));
    assert_eq!(d, before);
}

#[test]
fn appended_bytes_do_not_change_the_parse() {
    let c = hero();
    let (d, _) = build(TS_HEADER, &c);
    let s = parse(&d, GameVersion::TraitorsSoul).unwrap();
    let mut e = d.clone();
    e.extend_from_slice(b"PLAYER and more bytes \xff\xfe");
    let t = parse(&e, GameVersion::TraitorsSoul).unwrap();
    assert_eq!((t.level_offset, t.stats_offset, t.level), (s.level_offset, s.stats_offset, s.level));
    assert_eq!(t.name, s.name);
}

#[test]
fn eight_more_header_bytes_turn_a_fate_save_into_a_traitors_soul_save() {
    let c = hero();
    let (d, _) = build(FATE_HEADER, &c);
    let s = parse(&d, GameVersion::Fate).unwrap();
    let m = d.windows(6).position(|w| w == b"PLAYER").unwrap();
    let mut e = d[..m + 6].to_vec();
    e.extend_from_slice(&[7u8; 8]);
    e.extend_from_slice(&d[m + 6..]);
    let t = parse(&e, GameVersion::TraitorsSoul).unwrap();
    assert_eq!(t.level_offset, s.level_offset + 8);
    assert_eq!(t.stats_offset, s.stats_offset + 8);
    assert_eq!(t.name, s.name);
    assert_eq!(t.level, s.level);
}

#[test]
fn spell_section_ends_within_its_bounds() {
    let mut spells: Vec<u8> = Vec::new();
    for _ in 0..19 {
        spells.extend_from_slice(&[0, 0]);
    }
    assert_eq!(walk_spells(&spells, 0, GameVersion::Fate), Ok(38));
    let mut long: Vec<u8> = vec![9, 9, 9];
    for _ in 0..19 {
        long.extend_from_slice(&[255, 0]);
        long.extend(std::iter::repeat(b'q').take(255));
    }
    assert_eq!(walk_spells(&long, 3, GameVersion::Fate), Ok(3 + 19 * 257));
}

#[test]
fn refund_summary_picks_the_line() {
    let c = hero();
    let (mut d, _) = build(FATE_HEADER, &c);
    let s = parse(&d, GameVersion::Fate).unwrap();
    let r = respec(&mut d, &s, [25, 20, 25, 10]).unwrap();
    assert_eq!(refund_summary(&r), RefundSummary::SkillsAndStats);
    let r = respec(&mut d, &s, [25, 20, 25, 10]).unwrap();
    assert_eq!(refund_summary(&r), RefundSummary::Nothing);
    let mut c2 = hero();
    c2.skills = [0; 15];
    let (mut d2, _) = build(FATE_HEADER, &c2);
    let s2 = parse(&d2, GameVersion::Fate).unwrap();
    assert_eq!(refund_summary(&respec(&mut d2, &s2, [25, 20, 25, 10]).unwrap()), RefundSummary::StatsOnly);
    let (mut d3, _) = build(FATE_HEADER, &hero());
    let s3 = parse(&d3, GameVersion::Fate).unwrap();
    assert_eq!(refund_summary(&respec(&mut d3, &s3, [99, 99, 99, 99]).unwrap()), RefundSummary::SkillsOnly);
}

#[test]
fn row_change_shows_only_lowered_fields() {
    assert_eq!(row_change(7, 0), Some(0));
    assert_eq!(row_change(0, 0), None);
    assert_eq!(row_change(30, 25), Some(25));
    assert_eq!(row_change(25, 25), None);
    assert_eq!(row_change(5, 10), None);
}
