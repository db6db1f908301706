//! The application launcher.

use nexacore_ui::launcher::{
    fuzzy_score, parse_app_manifest, AppEntry, EntryKind, LaunchRequest, LauncherView, SearchEntry,
    SearchIndex,
};

const EDITOR_MANIFEST: &str = "\
# Text editor
Id=org.nexacore.editor
Name=Text Editor
Exec=/apps/editor
Icon=editor
Keywords=text;edit;code;write
";

fn index() -> SearchIndex {
    let mut idx = SearchIndex::new();
    idx.add_app(&parse_app_manifest(EDITOR_MANIFEST).unwrap());
    idx.add_app(&AppEntry {
        id: "org.nexacore.terminal".to_string(),
        name: "Terminal".to_string(),
        executable: "/apps/terminal".to_string(),
        icon: String::new(),
        keywords: vec!["shell".to_string(), "console".to_string()],
    });
    idx.add(SearchEntry {
        id: "audio.output.volume".to_string(),
        kind: EntryKind::Setting,
        title: "Output volume".to_string(),
        subtitle: "Audio".to_string(),
        keywords: vec!["sound".to_string()],
    });
    idx
}

#[test]
fn manifest_parses_required_and_keyword_fields() {
    let app = parse_app_manifest(EDITOR_MANIFEST).unwrap();
    assert_eq!(app.id, "org.nexacore.editor");
    assert_eq!(app.name, "Text Editor");
    assert_eq!(app.keywords, ["text", "edit", "code", "write"]);
    // Missing Exec → None.
    assert!(parse_app_manifest("Id=x\nName=y").is_none());
}

#[test]
fn fuzzy_requires_subsequence() {
    assert!(fuzzy_score("edt", "Text Editor").is_some());
    assert!(fuzzy_score("zzz", "Text Editor").is_none());
    // Word-boundary + consecutive match scores higher than a scattered one.
    let boundary = fuzzy_score("term", "Terminal").unwrap();
    let scattered = fuzzy_score("tml", "Terminal").unwrap();
    assert!(boundary > scattered, "{boundary} !> {scattered}");
}

#[test]
fn search_ranks_the_best_app_first() {
    let idx = index();
    let results = idx.search("term", 10);
    assert_eq!(results.first().unwrap().id, "org.nexacore.terminal");

    // A keyword match still surfaces the entry.
    let sound = idx.search("sound", 10);
    assert_eq!(sound.first().unwrap().id, "audio.output.volume");

    // Non-matching query yields nothing.
    assert!(idx.search("qqqq", 10).is_empty());
}

#[test]
fn empty_query_returns_all_and_limit_caps() {
    let idx = index();
    assert_eq!(idx.search("", 10).len(), 3);
    assert_eq!(idx.search("", 2).len(), 2);
}

#[test]
fn palette_candidates_expose_title_and_id() {
    let idx = index();
    let cands = idx.palette_candidates("editor", 5);
    assert_eq!(cands.first().unwrap().1, "org.nexacore.editor");
}

#[test]
fn typing_narrows_results_and_selects_the_top_hit() {
    let idx = index();
    let mut view = LauncherView::new(10);
    for ch in "term".chars() {
        view.push_char(&idx, ch);
    }
    assert_eq!(view.query(), "term");
    assert_eq!(
        view.selected().map(|r| r.id.as_str()),
        Some("org.nexacore.terminal")
    );
}

#[test]
fn backspace_widens_the_result_set() {
    let idx = index();
    let mut view = LauncherView::new(10);
    view.set_query(&idx, "terminal");
    let narrow = view.results().len();
    // Delete down to "t" — more entries match the shorter query.
    for _ in 0..7 {
        assert!(view.backspace(&idx));
    }
    assert_eq!(view.query(), "t");
    assert!(view.results().len() >= narrow);
    // Backspacing an empty query returns false.
    view.set_query(&idx, "");
    assert!(!view.backspace(&idx));
}

#[test]
fn arrow_navigation_is_clamped() {
    let idx = index();
    let mut view = LauncherView::new(10);
    view.set_query(&idx, ""); // all entries, selection at 0
    assert_eq!(view.selected_index(), 0);
    view.move_up(); // already at top → stays
    assert_eq!(view.selected_index(), 0);
    view.move_down();
    assert_eq!(view.selected_index(), 1);
    // Drive past the end → clamps to the last result.
    for _ in 0..10 {
        view.move_down();
    }
    assert_eq!(view.selected_index(), view.results().len() - 1);
}

#[test]
fn launch_yields_an_app_id_only_for_apps() {
    let idx = index();
    let mut view = LauncherView::new(10);
    view.set_query(&idx, "terminal");
    assert_eq!(
        view.launch(),
        Some(LaunchRequest {
            app_id: "org.nexacore.terminal".to_string()
        })
    );
    // A settings result is not launchable as an app.
    view.set_query(&idx, "volume");
    assert_eq!(view.selected().map(|r| r.kind), Some(EntryKind::Setting));
    assert_eq!(view.launch(), None);
}

#[test]
fn launch_is_none_when_there_are_no_results() {
    let idx = index();
    let mut view = LauncherView::new(10);
    view.set_query(&idx, "qqqq");
    assert!(view.results().is_empty());
    assert_eq!(view.selected(), None);
    assert_eq!(view.launch(), None);
}

#[test]
fn an_empty_query_lists_entries_as_they_were_added() {
    let idx = index();
    let ids: Vec<String> = idx.search("", 10).into_iter().map(|r| r.id).collect();
    assert_eq!(
        ids,
        ["org.nexacore.editor", "org.nexacore.terminal", "audio.output.volume"]
    );
}

#[test]
fn results_come_in_order_of_score() {
    let idx = index();
    let results = idx.search("t", 10);
    for w in results.windows(2) {
        assert!(w[0].score >= w[1].score);
    }
}

#[test]
fn backspace_undoes_typing() {
    let idx = index();
    let mut view = LauncherView::new(10);
    view.set_query(&idx, "ed");
    let before: Vec<String> = view.results().iter().map(|r| r.id.clone()).collect();
    view.push_char(&idx, 'x');
    assert!(view.backspace(&idx));
    let after: Vec<String> = view.results().iter().map(|r| r.id.clone()).collect();
    assert_eq!(view.query(), "ed");
    assert_eq!(before, after);
}

#[test]
fn ascii_letters_match_whatever_their_case() {
    assert_eq!(
        fuzzy_score("TERM", "terminal"),
        fuzzy_score("term", "TERMINAL")
    );
    // Only ASCII letters have their case folded.
    assert!(fuzzy_score("É", "café").is_none());
    assert!(fuzzy_score("é", "café").is_some());
}
