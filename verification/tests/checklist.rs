use boss_checker::filter::filter_entries;
use boss_checker::model::build_rows;
use boss_checker::model::derive_completion_set;
use boss_checker::model::set_checked;
use boss_checker::model::RegionEntry;
use boss_checker::model::State;
use boss_checker::model::TableEntry;
use boss_checker::regions::extract_regions;
use boss_checker::Config;

fn entry(region: &str, bosses: &[&str]) -> RegionEntry {
    RegionEntry {
        region: region.to_owned(),
        bosses: bosses.iter().map(|b| (*b).to_owned()).collect(),
    }
}

fn mixed_catalog() -> Vec<RegionEntry> {
    vec![
        entry("Forest", &["Wolf King", "Elder Stag"]),
        entry("Cave", &["Rock Golem"]),
        entry("Ashen Vale", &["Cinder Drake"]),
    ]
}

fn visibility(rows: &[TableEntry]) -> Vec<bool> {
    rows.iter().map(|r| r.visible).collect()
}

fn pairs_sorted(state: &State) -> Vec<(String, String)> {
    let mut v = state.completed.clone();
    v.sort();
    v
}

#[test]
fn all_selector_empty_term_shows_every_row() {
    let mut rows = build_rows(&mixed_catalog(), &State::default());
    filter_entries(&mut rows, &"All".to_owned(), &"".to_owned());
    assert!(rows.iter().all(|r| r.visible));
}

#[test]
fn non_all_selector_limits_to_that_region() {
    let mut rows = build_rows(&mixed_catalog(), &State::default());
    filter_entries(&mut rows, &"Forest".to_owned(), &"".to_owned());
    for r in rows.iter() {
        assert_eq!(r.visible, r.region == "Forest");
    }
}

#[test]
fn region_index_sorted_distinct_with_all() {
    let catalog = vec![
        entry("Forest", &["Wolf King"]),
        entry("Cave", &["Rock Golem"]),
        entry("Forest", &["Elder Stag"]),
        entry("Ashen Vale", &["Cinder Drake"]),
    ];
    let rows = build_rows(&catalog, &State::default());
    let regions = extract_regions(&rows);
    let expected: Vec<String> = ["All", "Ashen Vale", "Cave", "Forest"]
        .iter()
        .map(|s| (*s).to_owned())
        .collect();
    assert_eq!(regions, expected);
}

#[test]
fn round_trip_completion_set() {
    let completed = vec![
        ("Forest".to_owned(), "Wolf King".to_owned()),
        ("Cave".to_owned(), "Rock Golem".to_owned()),
    ];
    let state = State {
        completed: completed.clone(),
    };
    let rows = build_rows(&mixed_catalog(), &state);
    let derived = derive_completion_set(&rows);
    let mut expected = completed;
    expected.sort();
    assert_eq!(pairs_sorted(&derived), expected);
}

#[test]
fn filter_twice_same_visibility() {
    let mut rows = build_rows(&mixed_catalog(), &State::default());
    let selector = "Cave".to_owned();
    let term = "rock".to_owned();
    filter_entries(&mut rows, &selector, &term);
    let first = visibility(&rows);
    filter_entries(&mut rows, &selector, &term);
    assert_eq!(visibility(&rows), first);
}

#[test]
fn single_row_load_and_search() {
    let catalog = vec![entry("Forest", &["Wolf King"])];
    let mut rows = build_rows(&catalog, &State::default());
    assert_eq!(rows.len(), 1);
    assert_eq!(rows[0].region, "Forest");
    assert_eq!(rows[0].name, "Wolf King");
    assert!(!rows[0].checked);
    filter_entries(&mut rows, &"All".to_owned(), &"wolf".to_owned());
    assert!(rows[0].visible);
    filter_entries(&mut rows, &"All".to_owned(), &"bear".to_owned());
    assert!(!rows[0].visible);
}

#[test]
fn toggle_then_derive_then_reload() {
    let catalog = vec![entry("Forest", &["Wolf King"])];
    let mut rows = build_rows(&catalog, &State::default());
    let changed = set_checked(&mut rows, 0, true);
    assert!(changed);
    let saved = derive_completion_set(&rows);
    assert_eq!(
        saved.completed,
        vec![("Forest".to_owned(), "Wolf King".to_owned())]
    );
    let reloaded = build_rows(&catalog, &saved);
    assert!(reloaded[0].checked);
}

#[test]
fn missing_region_selector_hides_all() {
    let catalog = vec![
        entry("Forest", &["Wolf King"]),
        entry("Ashen Vale", &["Cinder Drake"]),
    ];
    for term in ["", "wolf", "Forest"] {
        let mut rows = build_rows(&catalog, &State::default());
        filter_entries(&mut rows, &"Cave".to_owned(), &term.to_owned());
        assert!(rows.iter().all(|r| !r.visible), "term {:?}", term);
    }
}

#[test]
fn search_is_case_insensitive() {
    let mut rows = build_rows(&mixed_catalog(), &State::default());
    filter_entries(&mut rows, &"All".to_owned(), &"WOLF".to_owned());
    for r in rows.iter() {
        assert_eq!(r.visible, r.name == "Wolf King");
    }
}

#[test]
fn search_matches_region_too() {
    let mut rows = build_rows(&mixed_catalog(), &State::default());
    filter_entries(&mut rows, &"All".to_owned(), &"ashen".to_owned());
    for r in rows.iter() {
        assert_eq!(r.visible, r.region == "Ashen Vale");
    }
}

#[test]
fn region_selector_is_case_sensitive() {
    let mut rows = build_rows(&mixed_catalog(), &State::default());
    filter_entries(&mut rows, &"forest".to_owned(), &"".to_owned());
    assert!(rows.iter().all(|r| !r.visible));
}

#[test]
fn set_checked_reports_change() {
    let mut rows = build_rows(&mixed_catalog(), &State::default());
    assert!(set_checked(&mut rows, 0, true));
    assert!(!set_checked(&mut rows, 0, true));
    assert!(set_checked(&mut rows, 0, false));
}

#[test]
fn empty_catalog_gives_all_only() {
    let rows = build_rows(&Vec::new(), &State::default());
    assert!(rows.is_empty());
    let regions = extract_regions(&rows);
    assert_eq!(regions, vec!["All".to_owned()]);
}

#[test]
fn derive_dedupes_duplicate_rows() {
    let catalog = vec![
        entry("Forest", &["Wolf King"]),
        entry("Forest", &["Wolf King"]),
    ];
    let state = State {
        completed: vec![("Forest".to_owned(), "Wolf King".to_owned())],
    };
    let rows = build_rows(&catalog, &state);
    assert_eq!(rows.len(), 2);
    assert!(rows[0].checked && rows[1].checked);
    let derived = derive_completion_set(&rows);
    assert_eq!(derived.completed.len(), 1);
}

#[test]
fn contains_pair_detects_membership() {
    let state = State {
        completed: vec![("Forest".to_owned(), "Wolf King".to_owned())],
    };
    assert!(state.contains_pair(&"Forest".to_owned(), &"Wolf King".to_owned()));
    assert!(!state.contains_pair(&"Forest".to_owned(), &"Elder Stag".to_owned()));
    assert!(!state.contains_pair(&"Cave".to_owned(), &"Wolf King".to_owned()));
}

#[test]
fn default_config_paths() {
    let config = Config::default();
    assert_eq!(config.checklist_path, "boss_data.json");
    assert_eq!(config.default_save, "default_save.json");
}

#[test]
fn default_state_is_empty() {
    let state = State::default();
    assert!(state.completed.is_empty());
}
