use combatlog::rankings::{
    authorization_client_id, character_matches, check_rankings_status, check_token_status, config,
    default_expires_in, default_token_type, normalize, ranking_rows, report_percentiles,
    report_rankings, row_realm, select_ranked_rows, selected_character, token_from_response, truncate,
    validate_report_request, FightRankings, MetricRole, RankedCharacter, RankingsError,
    RankingsResponse, ReportPercentiles, ReportRankings, REDIRECT_URI,
};

type Scores = (Option<f64>, Option<f64>);

fn row(name: &str, realm: Option<&str>, rank: f64, bracket: f64) -> RankedCharacter<Scores> {
    RankedCharacter {
        name: Some(name.to_string()),
        realm: realm.map(String::from),
        scores: (Some(rank), Some(bracket)),
    }
}

fn fight(dps: Vec<RankedCharacter<Scores>>) -> FightRankings<Scores> {
    FightRankings { dps: Some(dps), tanks: None, healers: None }
}

fn healers(rows: Vec<RankedCharacter<Scores>>) -> FightRankings<Scores> {
    FightRankings { dps: None, tanks: None, healers: Some(rows) }
}

/// The mean of the percentiles in 0..=100, rounded, as the application computes it.
fn mean_percent(values: impl Iterator<Item = f64>) -> Option<u32> {
    let values = values
        .filter(|value| value.is_finite() && *value >= 0.0 && *value <= 100.0)
        .collect::<Vec<_>>();
    if values.is_empty() {
        None
    } else {
        Some((values.iter().sum::<f64>() / values.len() as f64).round() as u32)
    }
}

fn extract_percentiles(
    dps: Option<&Vec<FightRankings<Scores>>>,
    hps: Option<&Vec<FightRankings<Scores>>>,
    character: &str,
) -> ReportPercentiles {
    let (rows, role) = select_ranked_rows(dps, hps, character);
    let parse = mean_percent(rows.iter().filter_map(|r| r.scores.0));
    let bracket = mean_percent(rows.iter().filter_map(|r| r.scores.1));
    report_percentiles(parse, bracket, rows.len(), role)
}

#[test]
fn selects_character_and_averages_ranked_raid_fights() {
    let dps = vec![
        fight(vec![
            row("Other", Some("Nemesis"), 99.0, 98.0),
            row("Geko", Some("Nemesis"), 70.0, 60.0),
        ]),
        fight(vec![row("Geko", Some("Nemesis"), 80.0, 90.0)]),
    ];
    let result = extract_percentiles(Some(&dps), None, "Geko-Nemesis-EU");
    assert_eq!(result.parse_percent, Some(75));
    assert_eq!(result.bracket_percent, Some(75));
    assert_eq!(result.fights_ranked, 2);
    assert_eq!(result.role.as_deref(), Some("damage"));
    assert!(!result.pending);
}

#[test]
fn healer_uses_healing_ranking_instead_of_damage_ranking() {
    let dps = vec![fight(vec![row("Heals", None, 12.0, 10.0)])];
    let hps = vec![healers(vec![row("Heals", None, 88.0, 91.0)])];
    let result = extract_percentiles(Some(&dps), Some(&hps), "Heals");
    assert_eq!(result.parse_percent, Some(88));
    assert_eq!(result.bracket_percent, Some(91));
    assert_eq!(result.role.as_deref(), Some("healing"));
}

#[test]
fn missing_or_unprocessed_rankings_are_pending() {
    let result = extract_percentiles(None, None, "Geko-Nemesis-EU");
    assert_eq!(result.parse_percent, None);
    assert_eq!(result.bracket_percent, None);
    assert_eq!(result.fights_ranked, 0);
    assert!(result.pending);
}

#[test]
fn empty_character_name_is_pending() {
    let dps = vec![fight(vec![row("Geko", None, 50.0, 50.0)])];
    let result = extract_percentiles(Some(&dps), None, "  ");
    assert_eq!(
        result,
        ReportPercentiles {
            parse_percent: None,
            bracket_percent: None,
            fights_ranked: 0,
            role: None,
            pending: true,
        }
    );
}

#[test]
fn selected_character_splits_name_realm_and_region() {
    let c = selected_character("Geko-Nemesis-EU");
    assert_eq!(c.name, "Geko");
    assert_eq!(c.realm.as_deref(), Some("Nemesis"));
    let c = selected_character("  Name-Twisting-Nether-us ");
    assert_eq!(c.name, "Name");
    assert_eq!(c.realm.as_deref(), Some("Twisting-Nether"));
    let c = selected_character("Solo");
    assert_eq!(c.name, "Solo");
    assert_eq!(c.realm, None);
    let c = selected_character("Geko-EU");
    assert_eq!(c.name, "Geko");
    assert_eq!(c.realm, None);
    let c = selected_character("");
    assert_eq!(c.name, "");
    assert_eq!(c.realm, None);
}

#[test]
fn normalize_keeps_lowercase_ascii_letters_and_digits() {
    assert_eq!(normalize("Area 52"), "area52");
    assert_eq!(normalize("Twisting-Nether"), "twistingnether");
    assert_eq!(normalize("Ærø's"), "rs");
    assert_eq!(normalize(""), "");
}

#[test]
fn character_matches_by_name_and_normalized_realm() {
    let selected = selected_character("geko-Area52");
    assert!(character_matches(&row("Geko", Some("Area 52"), 1.0, 1.0), &selected));
    assert!(character_matches(&row("GEKO", None, 1.0, 1.0), &selected));
    assert!(!character_matches(&row("Geko", Some("Nemesis"), 1.0, 1.0), &selected));
    assert!(!character_matches(&row("Gekko", Some("Area 52"), 1.0, 1.0), &selected));
    let nameless: RankedCharacter<Scores> = RankedCharacter { name: None, realm: None, scores: (None, None) };
    assert!(!character_matches(&nameless, &selected));
    let any_realm = selected_character("Geko");
    assert!(character_matches(&row("geko", Some("Nemesis"), 1.0, 1.0), &any_realm));
}

#[test]
fn ranking_rows_take_dps_and_tanks_for_damage_and_healers_for_healing() {
    let fights = vec![FightRankings {
        dps: Some(vec![row("A", None, 1.0, 1.0)]),
        tanks: Some(vec![row("B", None, 2.0, 2.0)]),
        healers: Some(vec![row("C", None, 3.0, 3.0)]),
    }];
    let damage = ranking_rows(Some(&fights), MetricRole::Damage);
    let names: Vec<_> = damage.iter().map(|r| r.name.clone().unwrap()).collect();
    assert_eq!(names, vec!["A", "B"]);
    let healing = ranking_rows(Some(&fights), MetricRole::Healing);
    let names: Vec<_> = healing.iter().map(|r| r.name.clone().unwrap()).collect();
    assert_eq!(names, vec!["C"]);
    assert!(ranking_rows::<Scores>(None, MetricRole::Damage).is_empty());
}

#[test]
fn truncate_cuts_after_max_characters() {
    assert_eq!(truncate("abcdef", 3), "abc\u{2026}");
    assert_eq!(truncate("abc", 3), "abc");
    assert_eq!(truncate("ééé", 2), "éé\u{2026}");
    assert_eq!(truncate("", 0), "");
}

#[test]
fn config_ignores_a_blank_client_id() {
    let c = config(Some("  "));
    assert_eq!(c.client_id, None);
    assert_eq!(c.redirect_uri, REDIRECT_URI);
    assert_eq!(config(Some("abc")).client_id, Some("abc"));
    assert_eq!(config(None).client_id, None);
}

#[test]
fn token_defaults() {
    assert_eq!(default_token_type(), "Bearer");
    assert_eq!(default_expires_in(), 3600);
    let t = token_from_response("tok".to_string(), None, None);
    assert_eq!(t.access_token, "tok");
    assert_eq!(t.token_type, "Bearer");
    assert_eq!(t.expires_in, 3600);
    let t = token_from_response("tok".to_string(), Some("mac".to_string()), Some(60));
    assert_eq!(t.token_type, "mac");
    assert_eq!(t.expires_in, 60);
}

#[test]
fn client_id_is_trimmed_and_required() {
    assert_eq!(authorization_client_id("  id-1 \n"), Ok("id-1".to_string()));
    assert_eq!(authorization_client_id(" \t "), Err(RankingsError::MissingClientId));
}

#[test]
fn report_request_needs_a_token_and_an_alphanumeric_code() {
    assert_eq!(validate_report_request("  ", "abc"), Err(RankingsError::NotConnected));
    assert_eq!(validate_report_request("tok", " "), Err(RankingsError::InvalidReportCode));
    assert_eq!(validate_report_request("tok", "ab-c"), Err(RankingsError::InvalidReportCode));
    assert_eq!(
        validate_report_request(" tok ", " aB3 "),
        Ok(("tok".to_string(), "aB3".to_string()))
    );
}

#[test]
fn rankings_status_is_checked() {
    assert_eq!(check_rankings_status(200, "ok"), Ok(()));
    assert_eq!(check_rankings_status(401, "x"), Err(RankingsError::AuthorizationExpired));
    assert_eq!(check_rankings_status(403, "x"), Err(RankingsError::AuthorizationExpired));
    let long = "e".repeat(301);
    assert_eq!(
        check_rankings_status(500, &long),
        Err(RankingsError::RequestFailed { status: 500, detail: format!("{}\u{2026}", "e".repeat(300)) })
    );
}

#[test]
fn token_status_is_checked() {
    assert_eq!(check_token_status(399, "fine"), Ok(()));
    assert_eq!(
        check_token_status(400, "bad request"),
        Err(RankingsError::TokenRequestFailed { status: 400, detail: "bad request".to_string() })
    );
}

#[test]
fn query_errors_and_missing_reports_fail() {
    let failed: RankingsResponse<Scores> = RankingsResponse {
        errors: Some(vec![Some("first".to_string()), None, Some("second".to_string())]),
        report: Some(ReportRankings { dps: None, hps: None }),
    };
    assert_eq!(
        report_rankings(&failed).err(),
        Some(RankingsError::QueryFailed("first; second".to_string()))
    );
    let missing: RankingsResponse<Scores> = RankingsResponse { errors: None, report: None };
    assert_eq!(report_rankings(&missing).err(), Some(RankingsError::ReportUnavailable));
    let present: RankingsResponse<Scores> =
        RankingsResponse { errors: None, report: Some(ReportRankings { dps: Some(vec![]), hps: None }) };
    assert!(report_rankings(&present).unwrap().dps.is_some());
}

#[test]
fn realm_falls_back_from_server_name_to_slug_to_server_name_field() {
    let s = |t: &str| Some(Some(t.to_string()));
    assert_eq!(row_realm(s("Nemesis"), s("nemesis"), s("Other")), Some("Nemesis".to_string()));
    assert_eq!(row_realm(None, s("nemesis"), s("Other")), Some("nemesis".to_string()));
    assert_eq!(row_realm(None, None, s("Other")), Some("Other".to_string()));
    assert_eq!(row_realm(Some(None), s("nemesis"), None), None);
    assert_eq!(row_realm(None, None, None), None);
}

#[test]
fn a_trailing_region_tag_is_dropped() {
    for (with_region, without) in [
        ("Name-Twisting-Nether-eu", "Name-Twisting-Nether"),
        ("Geko-Nemesis-US", "Geko-Nemesis"),
        ("Solo-kr", "Solo"),
        ("-TW", ""),
    ] {
        let a = selected_character(with_region);
        let b = selected_character(without);
        assert_eq!(a.name, b.name);
        assert_eq!(a.realm, b.realm);
    }
}
