use combatlog::events::Span;
use combatlog::runs::{extract, finish, hash, run_id, scan, ExtractError, OpenRun, ScanError};

fn fixture(events: &[&str]) -> String {
    events
        .iter()
        .enumerate()
        .map(|(i, event)| format!("9/10/2026 10:00:{i:02}.0000  {event}\n"))
        .collect::<String>()
}

#[test]
fn finished_key_without_start_is_recovered_and_extracted_separately() {
    let data = fixture(&[
        "COMBAT_LOG_VERSION,22", "ZONE_CHANGE,2521,\"Ruby Life Pools\",23",
        "MAP_CHANGE,2095,\"Ruby Life Pools\",0,0,0,0",
        "CHALLENGE_MODE_END,2521,0,0,0",
        "CHALLENGE_MODE_START,\"Ruby Life Pools\",2521,399,10,[]",
        "CHALLENGE_MODE_END,2521,1,10,1291167",
        "ZONE_CHANGE,0,\"Silvermoon City\",0", "COMBAT_LOG_VERSION,22",
        "ZONE_CHANGE,1762,\"Kings' Rest\",8", "MAP_CHANGE,1004,\"Kings' Rest\",0,0,0,0",
        "ENCOUNTER_START,2139,\"The Golden Serpent\",8,5,1762",
        "ZONE_CHANGE,1762,\"Kings' Rest\",8",
        "ENCOUNTER_END,2139,\"The Golden Serpent\",8,5,1,161602",
        "CHALLENGE_MODE_END,1762,1,12,1566288",
    ]);
    let runs = scan(&data).unwrap();
    assert_eq!(runs.len(), 2);
    assert!(runs.iter().all(|r| r.complete));
    assert!(!runs[0].missing_start);
    assert_eq!(runs[1].name, "Kings' Rest");
    assert_eq!(runs[1].level, 12);
    assert_eq!(runs[1].duration_ms, Some(1566288));
    assert!(runs[1].missing_start);
    let raw = extract(&data, &runs[1].id).unwrap().0;
    assert!(raw.starts_with("9/10/2026 10:00:07.0000  COMBAT_LOG_VERSION,22\n"));
    assert!(raw.contains("ENCOUNTER_START,2139"));
    assert!(raw.contains("CHALLENGE_MODE_END,1762,1,12,1566288"));
    assert!(!raw.contains("Ruby"));
    assert!(!raw.contains("Silvermoon"));
    assert!(!raw.contains("CHALLENGE_MODE_START"));
    let original = data.clone();
    let crlf = original.replace('\n', "\r\n");
    assert_eq!(scan(&crlf).unwrap()[1].id, runs[1].id);
    assert!(extract(&crlf, &runs[1].id).is_ok());
    let grown = original + "9/10/2026 11:10:00.0000  ZONE_CHANGE,0,\"City\",0\n";
    assert_eq!(scan(&grown).unwrap()[1].id, runs[1].id);
}

#[test]
fn orphan_end_reset_open_key_and_wrong_zone_do_not_create_runs() {
    for events in [
        vec!["CHALLENGE_MODE_END,1762,1,12,60000"],
        vec!["ZONE_CHANGE,1762,\"Kings' Rest\",23", "CHALLENGE_MODE_END,1762,1,12,60000"],
        vec!["ZONE_CHANGE,1762,\"Kings' Rest\",8"],
        vec!["ZONE_CHANGE,1762,\"Kings' Rest\",8", "CHALLENGE_MODE_END,1762,0,0,0"],
        vec!["ZONE_CHANGE,1762,\"Kings' Rest\",8", "CHALLENGE_MODE_END,2521,1,12,60000"],
        vec!["ZONE_CHANGE,1762,\"Kings' Rest\",8", "ZONE_CHANGE,0,\"City\",0", "CHALLENGE_MODE_END,1762,1,12,60000"],
        vec!["ZONE_CHANGE,1762,\"Kings' Rest\",8", "CHALLENGE_MODE_END,1762,1,0,0"],
    ] {
        let data = fixture(&events);
        assert!(scan(&data).unwrap().is_empty(), "{events:?}");
    }
}

#[test]
fn real_start_supersedes_tentative_zone_and_keeps_existing_report_id() {
    let events = ["ZONE_CHANGE,1762,\"Kings' Rest\",8",
        "CHALLENGE_MODE_START,\"Kings' Rest\",1762,249,12,[]",
        "CHALLENGE_MODE_END,1762,1,12,60000"];
    let data = fixture(&events);
    let runs = scan(&data).unwrap();
    assert_eq!(runs.len(), 1);
    assert!(!runs[0].missing_start);
    let without_zone = data.lines().skip(1).collect::<Vec<_>>().join("\n") + "\n";
    assert_eq!(scan(&without_zone).unwrap()[0].id, runs[0].id);
}

#[test]
fn raid_wipes_and_kills_stay_together_and_reentry_is_separate() {
    let events = [
        "COMBAT_LOG_VERSION,22", "ZONE_CHANGE,3004,\"The Venomous Abyss\",14",
        "ENCOUNTER_START,3492,\"Ula'tek\",14,20,3004", "ENCOUNTER_END,3492,\"Ula'tek\",14,20,0,1000",
        "COMBAT_LOG_VERSION,22", "ZONE_CHANGE,3004,\"The Venomous Abyss\",14",
        "ENCOUNTER_START,3492,\"Ula'tek\",14,20,3004", "ENCOUNTER_END,3492,\"Ula'tek\",14,20,1,1000",
        "ZONE_CHANGE,0,\"Silvermoon City\",0",
        "ZONE_CHANGE,1762,\"Kings' Rest\",23",
        "CHALLENGE_MODE_START,\"Kings' Rest\",1762,249,10,[]", "CHALLENGE_MODE_END,1762,1,10,60000",
        "ZONE_CHANGE,3004,\"The Venomous Abyss\",15",
        "ENCOUNTER_START,3492,\"Ula'tek\",15,20,3004", "ENCOUNTER_END,3492,\"Ula'tek\",15,20,0,1000",
        "ZONE_CHANGE,0,\"Silvermoon City\",0",
    ];
    let data = events.iter().enumerate().map(|(i, e)| format!("9/7/2026 22:00:{i:02}.0000  {e}\n")).collect::<String>();
    let runs = scan(&data).unwrap();
    assert_eq!(runs.len(), 3);
    assert_eq!(runs[0].kind, "raid");
    assert_eq!(runs[0].attempts(), 2);
    assert_eq!(runs[1].kind, "mplus");
    assert_eq!(runs[2].difficulty, 15);
    assert!(runs.iter().all(|r| r.complete));
    let raw = extract(&data, &runs[0].id).unwrap().0;
    assert_eq!(raw.matches("ENCOUNTER_END").count(), 2);
    assert!(!raw.contains("Silvermoon"));
    assert!(!raw.contains("CHALLENGE_MODE_START"));
    let growing = data.lines().take(8).collect::<Vec<_>>().join("\n") + "\n";
    assert!(!scan(&growing).unwrap()[0].complete);
}

#[test]
fn reset_events_are_not_runs_and_reports_are_isolated() {
    let data = "9/7/2026 22:00:00.0000  COMBAT_LOG_VERSION,22\n9/7/2026 22:00:00.0000  CHALLENGE_MODE_END,1,0,0,0\n9/7/2026 22:01:00.0000  CHALLENGE_MODE_START,\"One\",1,1,10,[]\n9/7/2026 22:02:00.0000  CHALLENGE_MODE_END,1,1,10,60000\n9/7/2026 22:03:00.0000  CHALLENGE_MODE_START,\"Two\",2,2,11,[]\n9/7/2026 22:04:00.0000  CHALLENGE_MODE_END,2,1,11,60000\n";
    let runs = scan(data).unwrap();
    assert_eq!(runs.len(), 2);
    assert!(runs.iter().all(|r| r.complete));
    assert_ne!(runs[0].id, runs[1].id);
    let (raw, _) = extract(data, &runs[1].id).unwrap();
    assert!(raw.contains("COMBAT_LOG_VERSION"));
    assert!(!raw.contains("\"One\""));
    let crlf = data.replace('\n', "\r\n");
    assert_eq!(scan(&crlf).unwrap()[0].id, runs[0].id);
    let cut = data.split("9/7/2026 22:04").next().unwrap();
    let incomplete = scan(cut).unwrap();
    assert!(!incomplete[1].complete);
    assert!(extract(cut, &incomplete[1].id).is_err());
}

#[test]
fn crlf_line_ends_give_the_same_runs() {
    let data = fixture(&[
        "COMBAT_LOG_VERSION,22",
        "ZONE_CHANGE,3004,\"The Venomous Abyss\",14",
        "ENCOUNTER_START,3492,\"Ula'tek\",14,20,3004",
        "ENCOUNTER_END,3492,\"Ula'tek\",14,20,1,1000",
        "ZONE_CHANGE,1762,\"Kings' Rest\",8",
        "CHALLENGE_MODE_END,1762,1,12,1566288",
        "CHALLENGE_MODE_START,\"Kings' Rest\",1762,249,10,[]",
        "CHALLENGE_MODE_END,1762,0,0,0",
    ]);
    let lf = scan(&data).unwrap();
    let crlf = scan(&data.replace('\n', "\r\n")).unwrap();
    assert_eq!(lf.len(), 3);
    assert_eq!(lf.len(), crlf.len());
    for (a, b) in lf.iter().zip(crlf.iter()) {
        assert_eq!(a.id, b.id);
        assert_eq!(a.name, b.name);
        assert_eq!(a.level, b.level);
        assert_eq!(a.kind, b.kind);
        assert_eq!(a.difficulty, b.difficulty);
        assert_eq!(a.started, b.started);
        assert_eq!(a.ended, b.ended);
        assert_eq!(a.duration_ms, b.duration_ms);
        assert_eq!(a.complete, b.complete);
        assert_eq!(a.missing_start, b.missing_start);
        assert_eq!(a.attempts(), b.attempts());
    }
    assert!(lf[2].end() < crlf[2].end());
}

#[test]
fn appended_lines_keep_earlier_runs() {
    let data = fixture(&[
        "CHALLENGE_MODE_START,\"One\",1,1,10,[]",
        "CHALLENGE_MODE_END,1,1,10,60000",
    ]);
    let before = scan(&data).unwrap();
    let after = scan(&(data.clone() + "9/10/2026 10:00:09.0000  ZONE_CHANGE,3004,\"Abyss\",14\n")).unwrap();
    assert_eq!(before.len(), 1);
    assert_eq!(after[0].id, before[0].id);
    assert_eq!(after[0].start(), before[0].start());
    assert_eq!(after[0].end(), before[0].end());
}

#[test]
fn raids_without_encounters_are_not_runs() {
    let data = fixture(&["ZONE_CHANGE,3004,\"The Venomous Abyss\",14", "ZONE_CHANGE,0,\"City\",0"]);
    assert!(scan(&data).unwrap().is_empty());
}

#[test]
fn partial_last_line_is_ignored() {
    let data = fixture(&["CHALLENGE_MODE_START,\"One\",1,1,10,[]"]) + "9/10/2026 10:00:01.0000  CHALLENGE_MODE_END,1,1,10,60000";
    let runs = scan(&data).unwrap();
    assert_eq!(runs.len(), 1);
    assert!(!runs[0].complete);
    assert_eq!(runs[0].end() as usize, data.find('\n').unwrap() + 1);
}

#[test]
fn too_large_numbers_fail_the_scan() {
    let data = fixture(&["ZONE_CHANGE,1762,\"Kings' Rest\",99999999999"]);
    assert_eq!(scan(&data).unwrap_err(), ScanError::NumberTooLarge);
    assert_eq!(extract(&data, "x").unwrap_err(), ExtractError::Scan(ScanError::NumberTooLarge));
}

#[test]
fn extract_errors() {
    let data = fixture(&[
        "CHALLENGE_MODE_START,\"One\",1,1,10,[]",
        "CHALLENGE_MODE_END,1,1,10,60000",
        "CHALLENGE_MODE_START,\"Two\",2,2,11,[]",
    ]);
    let runs = scan(&data).unwrap();
    assert_eq!(runs.len(), 2);
    assert_eq!(extract(&data, "mplus-v1-0000000000000000").unwrap_err(), ExtractError::RunNotFound);
    assert_eq!(extract(&data, &runs[1].id).unwrap_err(), ExtractError::Incomplete);
    let (raw, label) = extract(&data, &runs[0].id).unwrap();
    assert_eq!(raw, fixture(&["CHALLENGE_MODE_START,\"One\",1,1,10,[]", "CHALLENGE_MODE_END,1,1,10,60000"]));
    assert_eq!(label, "One +10 \u{2014} 9/10/2026 10:00:00.0000");
    // A line that is not `stamp  event` is not part of the digest, but it is
    // part of the lines read back, so the run no longer matches.
    let odd = "9/10/2026 10:00:00.0000  CHALLENGE_MODE_START,\"One\",1,1,10,[]\nnote\n9/10/2026 10:00:01.0000  CHALLENGE_MODE_END,1,1,10,60000\n";
    let runs = scan(odd).unwrap();
    assert_eq!(runs.len(), 1);
    assert!(runs[0].complete);
    assert_eq!(extract(odd, &runs[0].id).unwrap_err(), ExtractError::RunChanged);
}

#[test]
fn raid_label_names_the_difficulty() {
    let data = fixture(&[
        "ZONE_CHANGE,3004,\"The Venomous Abyss\",14",
        "ENCOUNTER_START,3492,\"Ula'tek\",14,20,3004",
        "ENCOUNTER_END,3492,\"Ula'tek\",14,20,1,1000",
        "ZONE_CHANGE,0,\"City\",0",
    ]);
    let runs = scan(&data).unwrap();
    assert_eq!(runs.len(), 1);
    let (_, label) = extract(&data, &runs[0].id).unwrap();
    assert_eq!(label, "The Venomous Abyss (raid, difficulty 14) \u{2014} 9/10/2026 10:00:00.0000");
    assert!(runs[0].id.starts_with("raid-v1-"));
}

#[test]
fn hash_is_fnv1a_and_run_ids_name_kind_and_digest() {
    assert_eq!(hash(0xcbf29ce484222325, b""), 0xcbf29ce484222325);
    assert_eq!(hash(0xcbf29ce484222325, b"a"), 0xaf63dc4c8601ec8c);
    assert_eq!(hash(0xcbf29ce484222325, b"foobar"), 0x85944171f73967e8);
    let data = fixture(&["CHALLENGE_MODE_START,\"One\",1,1,10,[]", "CHALLENGE_MODE_END,1,1,10,60000"]);
    let runs = scan(&data).unwrap();
    assert_eq!(run_id(&runs[0], 0x0123456789abcdef), "mplus-v1-0123456789abcdef");
    let digest = data.lines().fold(0xcbf29ce484222325, |h, line| hash(hash(h, line.as_bytes()), b"\n"));
    assert_eq!(runs[0].id, run_id(&runs[0], digest));
}

#[test]
fn finish_emits_only_evidenced_runs() {
    let b = b"Name";
    let name = Span { lo: 0, hi: 4 };
    let open = |raid: bool, missing_start: bool, complete: bool, attempts: u32, encounter_open: bool| OpenRun {
        raid,
        name,
        level: 0,
        difficulty: if raid { 14 } else { 8 },
        zone: name,
        started: name,
        ended: None,
        duration_ms: None,
        complete,
        missing_start,
        start: 0,
        end: 4,
        context: (name, name, name),
        attempts,
        encounter_open,
    };
    let mut runs = Vec::new();
    let mut active = Some(open(false, true, false, 0, false));
    finish(b, &mut runs, &mut active, 1, false);
    assert!(runs.is_empty() && active.is_none());
    let mut active = Some(open(true, false, false, 0, false));
    finish(b, &mut runs, &mut active, 1, true);
    assert!(runs.is_empty());
    let mut active = Some(open(true, false, false, 2, true));
    finish(b, &mut runs, &mut active, 1, true);
    assert_eq!(runs.len(), 1);
    assert!(!runs[0].complete);
    let mut active = Some(open(true, false, false, 2, false));
    finish(b, &mut runs, &mut active, 1, true);
    assert!(runs[1].complete);
    assert_eq!(runs[1].id, "raid-v1-0000000000000001");
    let mut active = Some(open(false, false, false, 0, false));
    finish(b, &mut runs, &mut active, 2, false);
    assert_eq!(runs.len(), 3);
    assert_eq!(runs[2].name, "Name");
    assert_eq!(runs[2].id, "mplus-v1-0000000000000002");
}

#[test]
fn every_complete_run_found_can_be_extracted() {
    let data = fixture(&[
        "COMBAT_LOG_VERSION,22",
        "ZONE_CHANGE,3004,\"The Venomous Abyss\",14",
        "ENCOUNTER_START,3492,\"Ula'tek\",14,20,3004",
        "ENCOUNTER_END,3492,\"Ula'tek\",14,20,1,1000",
        "ZONE_CHANGE,1762,\"Kings' Rest\",8",
        "CHALLENGE_MODE_END,1762,1,12,1566288",
        "MAP_CHANGE,1004,\"Kings' Rest\",0,0,0,0",
        "CHALLENGE_MODE_START,\"Kings' Rest\",1762,249,10,[]",
        "CHALLENGE_MODE_END,1762,1,10,60000",
    ]);
    for text in [data.clone(), data.replace('\n', "\r\n")] {
        let runs = scan(&text).unwrap();
        assert_eq!(runs.len(), 3);
        for run in &runs {
            assert!(run.complete);
            let (raw, label) = extract(&text, &run.id).unwrap();
            assert!(raw.ends_with(&text[run.start() as usize..run.end() as usize]));
            assert!(label.ends_with(&run.started));
        }
    }
}

#[test]
fn a_raid_session_is_complete_only_once_left() {
    let events = [
        "ZONE_CHANGE,3004,\"The Venomous Abyss\",14",
        "ENCOUNTER_START,3492,\"Ula'tek\",14,20,3004",
        "ENCOUNTER_END,3492,\"Ula'tek\",14,20,1,1000",
    ];
    let open = fixture(&events);
    let runs = scan(&open).unwrap();
    assert_eq!(runs.len(), 1);
    assert!(!runs[0].complete);
    let left = open.clone() + "9/10/2026 10:00:03.0000  ZONE_CHANGE,0,\"City\",0\n";
    let runs = scan(&left).unwrap();
    assert!(runs[0].complete);
    assert!((runs[0].end() as usize) < left.len());
    let mid_encounter = fixture(&events[..2]) + "9/10/2026 10:00:03.0000  ZONE_CHANGE,0,\"City\",0\n";
    assert!(!scan(&mid_encounter).unwrap()[0].complete);
}

#[test]
fn an_unterminated_last_line_changes_nothing() {
    let data = fixture(&[
        "CHALLENGE_MODE_START,\"One\",1,1,10,[]",
        "CHALLENGE_MODE_END,1,1,10,60000",
        "ZONE_CHANGE,3004,\"The Venomous Abyss\",14",
    ]);
    let with_partial = data.clone() + "9/10/2026 10:00:03.0000  ENCOUNTER_START,3492,\"Ula'tek\"";
    let a = scan(&data).unwrap();
    let b = scan(&with_partial).unwrap();
    assert_eq!(a.len(), b.len());
    for (x, y) in a.iter().zip(b.iter()) {
        assert_eq!(x.id, y.id);
        assert_eq!(x.complete, y.complete);
        assert_eq!(x.end(), y.end());
    }
}

#[test]
fn runs_have_their_shape() {
    let data = fixture(&[
        "ZONE_CHANGE,3004,\"The Venomous Abyss\",16",
        "ENCOUNTER_START,3492,\"Ula'tek\",16,20,3004",
        "ENCOUNTER_END,3492,\"Ula'tek\",16,20,1,1000",
        "CHALLENGE_MODE_START,\"Kings' Rest\",1762,249,12,[]",
        "CHALLENGE_MODE_END,1762,1,12,60000",
    ]);
    let runs = scan(&data).unwrap();
    assert_eq!(runs.len(), 2);
    let raid = &runs[0];
    assert_eq!(raid.kind, "raid");
    assert!(raid.id.starts_with("raid-v1-") && raid.id.len() == 24);
    assert_eq!(raid.difficulty, 16);
    assert_eq!(raid.level, 0);
    assert_eq!(raid.duration_ms, None);
    assert!(raid.complete, "a key start leaves the raid");
    let key = &runs[1];
    assert_eq!(key.kind, "mplus");
    assert!(key.id.starts_with("mplus-v1-") && key.id.len() == 25);
    assert_eq!(key.difficulty, 8);
}

#[test]
fn appending_keeps_a_finished_last_key() {
    let data = fixture(&["CHALLENGE_MODE_START,\"One\",1,1,10,[]", "CHALLENGE_MODE_END,1,1,10,60000"]);
    let before = scan(&data).unwrap();
    assert_eq!(before.len(), 1);
    assert!(before[0].complete);
    let after = scan(&(data + "9/10/2026 10:00:05.0000  CHALLENGE_MODE_START,\"Two\",2,2,11,[]\n")).unwrap();
    assert_eq!(after.len(), 2);
    assert_eq!(after[0].id, before[0].id);
    assert_eq!(after[0].end(), before[0].end());
}

#[test]
fn a_raid_with_an_encounter_going_on_is_incomplete_when_left() {
    let data = fixture(&[
        "ZONE_CHANGE,3004,\"The Venomous Abyss\",14",
        "ENCOUNTER_START,3492,\"Ula'tek\",14,20,3004",
        "ZONE_CHANGE,0,\"City\",0",
    ]);
    let runs = scan(&data).unwrap();
    assert_eq!(runs.len(), 1);
    assert!(!runs[0].complete);
    assert!(runs[0].encounter_open);
}

#[test]
fn lines_outside_runs_need_not_be_events() {
    let data = "note  \n".to_string()
        + &fixture(&["CHALLENGE_MODE_START,\"One\",1,1,10,[]", "CHALLENGE_MODE_END,1,1,10,60000"]);
    let runs = scan(&data).unwrap();
    assert_eq!(runs.len(), 1);
    assert!(extract(&data, &runs[0].id).is_ok());
}

#[test]
fn unicode_digits_are_digits_but_do_not_parse_as_numbers() {
    let data = fixture(&["ZONE_CHANGE,1762,\"Kings' Rest\",٨"]);
    assert_eq!(scan(&data).unwrap_err(), ScanError::InvalidDigit);
    let data = fixture(&["CHALLENGE_MODE_START,\"Kings' Rest\",1762,249,١٢,[]"]);
    assert_eq!(scan(&data).unwrap_err(), ScanError::InvalidDigit);
    let data = fixture(&[
        "ZONE_CHANGE,١٧٦٢,\"Kings' Rest\",8",
        "CHALLENGE_MODE_END,١٧٦٢,1,12,60000",
    ]);
    let runs = scan(&data).unwrap();
    assert_eq!(runs.len(), 1);
    assert!(runs[0].missing_start && runs[0].complete);
    assert_eq!(runs[0].zone, "١٧٦٢");
}

#[test]
fn re_entering_the_same_raid_does_not_complete_it() {
    let data = fixture(&[
        "ZONE_CHANGE,3004,\"The Venomous Abyss\",14",
        "ENCOUNTER_START,3492,\"Ula'tek\",14,20,3004",
        "ENCOUNTER_END,3492,\"Ula'tek\",14,20,1,1000",
        "ZONE_CHANGE,3004,\"The Venomous Abyss\",14",
    ]);
    let runs = scan(&data).unwrap();
    assert_eq!(runs.len(), 1);
    assert!(!runs[0].complete);
    let other_difficulty = data + "9/10/2026 10:00:04.0000  ZONE_CHANGE,3004,\"The Venomous Abyss\",15\n";
    let runs = scan(&other_difficulty).unwrap();
    assert!(runs[0].complete);
}
