use raptor::config;
use raptor::state::{HistoryState, InteractionMode, RenderSettings, UiSettings};

fn path(name: &str) -> String {
    name.to_string()
}

#[test]
fn a_revisit_of_the_same_directory_is_not_a_new_commit() {
    let mut history = HistoryState::default();
    history.commit(&path("/a"));
    history.commit(&path("/a"));
    assert_eq!(history.depth(), 1, "the log should not grow on a revisit");
}

#[test]
fn rewinding_walks_back_and_fast_forwarding_restores() {
    let mut history = HistoryState::default();
    history.commit(&path("/a"));
    history.commit(&path("/b"));
    history.commit(&path("/c"));

    assert_eq!(history.rewind(), Some(path("/b")));
    assert_eq!(history.rewind(), Some(path("/a")));
    assert!(history.can_fast_forward());

    assert_eq!(history.fast_forward(), Some(path("/b")));
    assert_eq!(history.fast_forward(), Some(path("/c")));
    assert!(!history.can_fast_forward(), "the redo branch is spent");
}

#[test]
fn the_first_commit_has_nowhere_to_rewind_to() {
    let mut history = HistoryState::default();
    history.commit(&path("/a"));
    assert_eq!(history.rewind(), None);
    assert_eq!(
        history.depth(),
        1,
        "a refused rewind must not consume the log"
    );
}

#[test]
fn going_somewhere_new_drops_the_redo_branch() {
    let mut history = HistoryState::default();
    history.commit(&path("/a"));
    history.commit(&path("/b"));
    assert_eq!(history.rewind(), Some(path("/a")));
    assert!(history.can_fast_forward());

    history.commit(&path("/elsewhere"));
    assert!(
        !history.can_fast_forward(),
        "a new commit forks the history"
    );
    assert_eq!(history.depth(), 2);
}

#[test]
fn the_log_is_capped() {
    let mut history = HistoryState::default();
    for index in 0..(config::HISTORY_LIMIT + 8) {
        history.commit(&format!("/dir{index}"));
    }
    assert_eq!(history.depth(), config::HISTORY_LIMIT);
}

#[test]
fn the_capped_log_drops_its_oldest_commits() {
    let mut history = HistoryState::default();
    for index in 0..(config::HISTORY_LIMIT + 2) {
        history.commit(&format!("/dir{index}"));
    }
    assert_eq!(history.past[0], "/dir2");
    assert_eq!(history.past[config::HISTORY_LIMIT - 1], format!("/dir{}", config::HISTORY_LIMIT + 1));
}

#[test]
fn a_rewind_then_fast_forward_lands_back_on_the_present() {
    let mut history = HistoryState::default();
    history.commit(&path("/a"));
    history.commit(&path("/b"));
    let past = history.past.clone();
    assert_eq!(history.rewind(), Some(path("/a")));
    assert_eq!(history.fast_forward(), Some(path("/b")));
    assert_eq!(history.past, past);
    assert!(history.future.is_empty());
}

#[test]
fn fast_forward_with_nothing_undone_does_nothing() {
    let mut history = HistoryState::default();
    history.commit(&path("/a"));
    assert_eq!(history.fast_forward(), None);
    assert_eq!(history.depth(), 1);
    assert!(!history.can_rewind());
}

#[test]
fn can_rewind_reports_a_waiting_redo_branch() {
    let mut history = HistoryState::default();
    history.commit(&path("/a"));
    history.commit(&path("/b"));
    // Two commits and nothing undone: no redo branch is waiting.
    assert!(!history.can_rewind());
    assert_eq!(history.rewind(), Some(path("/a")));
    assert!(history.can_rewind());
    assert_eq!(history.fast_forward(), Some(path("/b")));
    assert!(!history.can_rewind());
}

#[test]
fn msaa_samples_never_drop_below_one() {
    let mut settings = RenderSettings::default();
    assert_eq!(settings.msaa, config::MSAA_SAMPLES);
    assert!(settings.bloom && settings.scanlines && settings.vignette);
    settings.msaa = 0;
    assert_eq!(settings.msaa_samples(), 1);
    settings.msaa = 4;
    assert_eq!(settings.msaa_samples(), 4);
}

#[test]
fn defaults_show_labels_and_start_in_the_explorer() {
    let ui = UiSettings::default();
    assert!(ui.show_labels && ui.show_fps);
    assert_eq!(InteractionMode::default(), InteractionMode::Explorer);
}

#[test]
fn the_explorer_status_shows_both_toggles() {
    let settings = UiSettings::default();
    assert_eq!(settings.status_text(false), "Labels: ON | Hidden: OFF");
    let quiet = UiSettings { show_labels: false, show_fps: true };
    assert_eq!(quiet.status_text(true), "Labels: OFF | Hidden: ON");
}

#[test]
fn the_history_shows_its_depth_and_a_waiting_redo() {
    let mut history = HistoryState::default();
    history.commit(&path("/a"));
    // One commit has nothing to rewind to, so nothing is shown.
    assert_eq!(history.status_text("RIDE"), "RIDE");
    for name in ["/b", "/c", "/d", "/e", "/f", "/g", "/h", "/i", "/j", "/k"] {
        history.commit(&path(name));
    }
    assert_eq!(history.status_text("RIDE"), "RIDE | HISTORY 11");
    history.rewind();
    assert_eq!(history.status_text("RIDE"), "RIDE | HISTORY 10 \u{21bb}");
    // A notice takes the place of the depth.
    history.notice = "REWOUND TO /i".to_string();
    assert_eq!(history.status_text("RIDE"), "RIDE | REWOUND TO /i");
}
