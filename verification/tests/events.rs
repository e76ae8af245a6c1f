use combatlog::events::{key_start_exec, zone_entry_exec};
use regex::Regex;

const EVENTS: &[&str] = &[
    "ZONE_CHANGE,1762,\"Kings' Rest\",8",
    "ZONE_CHANGE,1762,\"Kings' Rest\",8,extra",
    "ZONE_CHANGE,١٧٦٢,\"Kings' Rest\",8",
    "ZONE_CHANGE,1762,\"Kings' Rest\",٨",
    "ZONE_CHANGE,𝟙𝟟,\"Math\",१४",
    "ZONE_CHANGE,,\"Kings' Rest\",8",
    "ZONE_CHANGE,1762,\"\",8",
    "ZONE_CHANGE,17a,\"X\",8",
    "ZONE_CHANGE,1762,\"Kings' Rest\",",
    "ZONE_CHANGE,1762,\"Kings' Rest\"",
    "ZONE_CHANGE,٣,\"Zone\",٣x",
    "CHALLENGE_MODE_START,\"Kings' Rest\",1762,249,12,[]",
    "CHALLENGE_MODE_START,\"Kings' Rest\",١٧٦٢,249,١٢,[]",
    "CHALLENGE_MODE_START,\"Kings' Rest\",1762,249,12",
    "CHALLENGE_MODE_START,\"\",1762,249,12,[]",
    "CHALLENGE_MODE_START,\"A\",1,,12,[]",
    "CHALLENGE_MODE_START,\"A\",߀,߁,߂,",
    "MAP_CHANGE,1004,\"Kings' Rest\",0,0,0,0",
];

fn spans(caps: &regex::Captures, ks: &[usize]) -> Vec<(usize, usize)> {
    ks.iter().map(|&k| {
        let m = caps.get(k).unwrap();
        (m.start(), m.end())
    }).collect()
}

#[test]
fn zone_entries_match_the_regex_with_unicode_digits() {
    let re = Regex::new(r#"^ZONE_CHANGE,(\d+),"([^"]+)",(\d+)"#).unwrap();
    for e in EVENTS {
        let b = e.as_bytes();
        let ours = zone_entry_exec(b, 0, b.len());
        match re.captures(e) {
            Some(c) => {
                let z = ours.unwrap_or_else(|| panic!("{e}"));
                assert_eq!(
                    vec![(z.zone.lo, z.zone.hi), (z.name.lo, z.name.hi), (z.difficulty.lo, z.difficulty.hi)],
                    spans(&c, &[1, 2, 3]),
                    "{e}"
                );
            }
            None => assert!(ours.is_none(), "{e}"),
        }
    }
}

#[test]
fn key_starts_match_the_regex_with_unicode_digits() {
    let re = Regex::new(r#"^CHALLENGE_MODE_START,"([^"]+)",(\d+),(\d+),(\d+),"#).unwrap();
    for e in EVENTS {
        let b = e.as_bytes();
        let ours = key_start_exec(b, 0, b.len());
        match re.captures(e) {
            Some(c) => {
                let k = ours.unwrap_or_else(|| panic!("{e}"));
                assert_eq!(
                    vec![(k.name.lo, k.name.hi), (k.zone.lo, k.zone.hi), (k.level.lo, k.level.hi)],
                    spans(&c, &[1, 2, 4]),
                    "{e}"
                );
            }
            None => assert!(ours.is_none(), "{e}"),
        }
    }
}
