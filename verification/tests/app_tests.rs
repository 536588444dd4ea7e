use std::sync::mpsc;

use wallgrid::app::{build_cd_matches, parse_cd_query, search_dir_of, App, Mode};
use wallgrid::catalog::Wallpaper;
use wallgrid::encoder::{EncodeRequest, EncodeResult, ImageEncoder};

fn encoder() -> ImageEncoder {
    // The far ends drop at once: sends are ignored and polls find the
    // queue disconnected, which is all these tests need.
    let (req_tx, _req_rx) = mpsc::channel::<EncodeRequest>();
    let (_res_tx, res_rx) = mpsc::channel::<EncodeResult>();
    ImageEncoder::new(req_tx, res_rx)
}

fn catalog(names: &[&str]) -> Vec<Wallpaper> {
    names
        .iter()
        .map(|n| Wallpaper::new(format!("/w/{}.png", n)))
        .collect()
}

#[test]
fn new_app_shows_everything_and_selects_the_current() {
    let ws = catalog(&["alpha", "beta", "gamma"]);
    let app = App::new(ws, Some("/w/beta.png".to_string()), encoder());
    assert_eq!(app.filtered_indices, vec![0, 1, 2]);
    assert_eq!(app.selected, 1);
    assert_eq!(app.columns, 4);
    assert!(matches!(app.mode, Mode::Grid));
    assert!(!app.should_quit);
}

#[test]
fn unknown_current_selects_the_start() {
    let ws = catalog(&["alpha", "beta"]);
    let app = App::new(ws, Some("/elsewhere/x.png".to_string()), encoder());
    assert_eq!(app.selected, 0);
    let ws = catalog(&["alpha", "beta"]);
    let app = App::new(ws, None, encoder());
    assert_eq!(app.selected, 0);
}

#[test]
fn moves_respect_grid_edges() {
    let ws = catalog(&["a", "b", "c", "d", "e", "f", "g"]);
    let mut app = App::new(ws, None, encoder());
    app.columns = 3;
    app.move_right();
    assert_eq!(app.selected, 1);
    app.move_down();
    assert_eq!(app.selected, 4);
    app.move_left();
    assert_eq!(app.selected, 3);
    app.move_up();
    assert_eq!(app.selected, 0);
    app.move_up();
    assert_eq!(app.selected, 0);
    app.move_left();
    assert_eq!(app.selected, 0);
    // The partial final row is not reachable when a full step would pass
    // the end.
    app.selected = 4;
    app.move_down();
    assert_eq!(app.selected, 4);
    app.selected = 6;
    app.move_right();
    assert_eq!(app.selected, 6);
}

#[test]
fn move_down_then_up_returns_wherever_down_moved() {
    let names: Vec<String> = (0..23).map(|i| format!("w{:02}", i)).collect();
    let name_refs: Vec<&str> = names.iter().map(|s| s.as_str()).collect();
    for cols in 1..=8usize {
        for sel in 0..23usize {
            let mut app = App::new(catalog(&name_refs), None, encoder());
            app.columns = cols;
            app.selected = sel;
            if sel + cols < 23 {
                app.move_down();
                app.move_up();
                assert_eq!(app.selected, sel);
            }
        }
    }
}

#[test]
fn filter_matches_case_insensitively() {
    let ws = catalog(&["Sunset Beach", "Forest", "Red Sunset"]);
    let mut app = App::new(ws, None, encoder());
    app.search_query = "SUN".to_string();
    app.update_filter();
    assert_eq!(app.filtered_indices, vec![0, 2]);
    app.search_query = "beach".to_string();
    app.update_filter();
    assert_eq!(app.filtered_indices, vec![0]);
    app.search_query = "pond".to_string();
    app.update_filter();
    assert!(app.filtered_indices.is_empty());
    assert_eq!(app.selected, 0);
}

#[test]
fn filter_change_resets_an_out_of_range_selection() {
    // Twenty items visible, the thirteenth selected; three matches leave
    // the selection out of range, so it returns to the start.
    let names: Vec<String> = (0..17)
        .map(|i| format!("plain{:02}", i))
        .chain(["sunset a".to_string(), "sunset b".to_string(), "sunset c".to_string()])
        .collect();
    let name_refs: Vec<&str> = names.iter().map(|s| s.as_str()).collect();
    let mut app = App::new(catalog(&name_refs), None, encoder());
    assert_eq!(app.filtered_indices.len(), 20);
    app.selected = 12;
    app.search_query = "sunset".to_string();
    app.update_filter();
    assert_eq!(app.filtered_indices.len(), 3);
    assert_eq!(app.selected, 0);
}

#[test]
fn filter_keeps_a_selection_that_still_fits() {
    let ws = catalog(&["sun a", "sun b", "sun c", "moon"]);
    let mut app = App::new(ws, None, encoder());
    app.selected = 2;
    app.search_query = "sun".to_string();
    app.update_filter();
    assert_eq!(app.filtered_indices, vec![0, 1, 2]);
    assert_eq!(app.selected, 2);
}

#[test]
fn search_input_and_backspace_refilter() {
    let ws = catalog(&["ab", "ac", "b"]);
    let mut app = App::new(ws, None, encoder());
    app.start_search();
    assert!(matches!(app.mode, Mode::Search));
    app.search_input('a');
    assert_eq!(app.filtered_indices, vec![0, 1]);
    app.search_input('b');
    assert_eq!(app.filtered_indices, vec![0]);
    app.search_backspace();
    assert_eq!(app.filtered_indices, vec![0, 1]);
    app.cancel_search();
    assert!(matches!(app.mode, Mode::Grid));
    assert_eq!(app.search_query, "");
    assert_eq!(app.filtered_indices, vec![0, 1, 2]);
}

#[test]
fn escape_steps_outward() {
    let ws = catalog(&["a"]);
    let mut app = App::new(ws, None, encoder());
    app.toggle_help();
    assert!(matches!(app.mode, Mode::Help));
    app.escape();
    assert!(matches!(app.mode, Mode::Grid));
    app.toggle_preview();
    assert!(matches!(app.mode, Mode::Preview));
    app.escape();
    assert!(matches!(app.mode, Mode::Grid));
    assert!(!app.should_quit);
    app.escape();
    assert!(app.should_quit);
}

#[test]
fn selected_wallpaper_follows_the_filter() {
    let ws = catalog(&["alpha", "beta", "gamma"]);
    let mut app = App::new(ws, None, encoder());
    app.selected = 2;
    assert_eq!(app.selected_wallpaper().unwrap().name, "gamma");
    app.search_query = "et".to_string();
    app.update_filter();
    assert_eq!(app.filtered_indices, vec![1]);
    assert_eq!(app.selected_wallpaper().unwrap().name, "beta");
    app.search_query = "zzz".to_string();
    app.update_filter();
    assert!(app.selected_wallpaper().is_none());
}

#[test]
fn is_current_compares_paths() {
    let ws = catalog(&["alpha", "beta"]);
    let app = App::new(ws, Some("/w/beta.png".to_string()), encoder());
    assert!(!app.is_current(0));
    assert!(app.is_current(1));
    assert!(!app.is_current(5));
}

#[test]
fn reload_resets_cache_filter_and_selection() {
    let ws = catalog(&["alpha", "beta", "gamma"]);
    let mut app = App::new(ws, None, encoder());
    app.selected = 2;
    app.apply_reload(catalog(&["delta", "epsilon"]));
    assert_eq!(app.wallpapers.len(), 2);
    assert_eq!(app.filtered_indices, vec![0, 1]);
    assert_eq!(app.selected, 0);
    assert_eq!(app.encoder.cache_len(), 0);
    assert!(app.preview_state.is_none());
}

#[test]
fn confirm_command_changes_the_view_directory() {
    let ws = catalog(&["a"]);
    let mut app = App::new(ws, None, encoder());
    app.command_query = "cd ~/pics".to_string();
    let reload = app.confirm_command(Some("/home/u"));
    assert!(reload);
    assert_eq!(app.current_view_dir, Some("/home/u/pics".to_string()));
    assert!(matches!(app.mode, Mode::Grid));
    assert_eq!(app.command_query, "");

    app.command_query = "  cd  /tmp/x  ".to_string();
    assert!(app.confirm_command(None));
    assert_eq!(app.current_view_dir, Some("/tmp/x".to_string()));

    app.command_query = "cd".to_string();
    assert!(app.confirm_command(Some("/home/u")));
    assert_eq!(app.current_view_dir, None);

    app.command_query = "help".to_string();
    assert!(!app.confirm_command(Some("/home/u")));
    assert_eq!(app.current_view_dir, None);
}

#[test]
fn cd_lines_split_into_directory_and_prefix() {
    assert_eq!(
        parse_cd_query("cd pic"),
        Some((String::new(), "pic".to_string()))
    );
    assert_eq!(
        parse_cd_query("cd a/b"),
        Some(("a/".to_string(), "b".to_string()))
    );
    assert_eq!(
        parse_cd_query("cd a/b/ca"),
        Some(("a/b/".to_string(), "ca".to_string()))
    );
    assert_eq!(
        parse_cd_query("cd a/"),
        Some(("a/".to_string(), String::new()))
    );
    assert_eq!(parse_cd_query("cd "), Some((String::new(), String::new())));
    assert_eq!(parse_cd_query("ls x"), None);
    assert_eq!(parse_cd_query("cd"), None);
}

#[test]
fn search_dir_expands_tilde_and_defaults_to_here() {
    assert_eq!(search_dir_of("", None), ".");
    assert_eq!(search_dir_of("a/b/", None), "a/b/");
    assert_eq!(search_dir_of("~/pics/", Some("/home/u")), "/home/u/pics/");
    assert_eq!(search_dir_of("~", Some("/home/u")), "/home/u");
    assert_eq!(search_dir_of("~/x", None), "~/x");
}

#[test]
fn completion_matches_are_filtered_formatted_and_sorted() {
    let entries = vec![
        "pictures".to_string(),
        "music".to_string(),
        "pics".to_string(),
        "projects".to_string(),
    ];
    let matches = build_cd_matches("~/", "p", &entries);
    assert_eq!(
        matches,
        vec![
            "cd ~/pics/".to_string(),
            "cd ~/pictures/".to_string(),
            "cd ~/projects/".to_string(),
        ]
    );
    let all = build_cd_matches("", "", &entries);
    assert_eq!(all.len(), 4);
    assert_eq!(all[0], "cd music/");
}

#[test]
fn completion_cycling_wraps_both_ways() {
    let ws = catalog(&["a"]);
    let mut app = App::new(ws, None, encoder());
    let matches = vec![
        "cd a/".to_string(),
        "cd b/".to_string(),
        "cd c/".to_string(),
    ];
    let unique = app.apply_matches(".".to_string(), matches);
    assert!(!unique);
    assert_eq!(app.command_query, "cd a/");
    assert_eq!(app.completion_index, 0);

    // The same directory cycles without a fresh listing.
    assert!(app.try_cycle_completions("."));
    assert_eq!(app.command_query, "cd b/");
    assert!(app.try_cycle_completions("."));
    assert_eq!(app.command_query, "cd c/");
    assert!(app.try_cycle_completions("."));
    assert_eq!(app.command_query, "cd a/");
    // Another directory needs a fresh listing.
    assert!(!app.try_cycle_completions("/elsewhere"));

    app.move_completion_down();
    assert_eq!(app.command_query, "cd b/");
    app.move_completion_up();
    assert_eq!(app.command_query, "cd a/");
    app.move_completion_up();
    assert_eq!(app.command_query, "cd c/");
}

#[test]
fn a_unique_match_completes_the_line() {
    let ws = catalog(&["a"]);
    let mut app = App::new(ws, None, encoder());
    let unique = app.apply_matches("/base".to_string(), vec!["cd only/".to_string()]);
    assert!(unique);
    assert_eq!(app.command_query, "cd only/");
    assert_eq!(app.completion_dir, Some("/base".to_string()));
    app.set_sub_completions(vec!["cd only/inner/".to_string()]);
    assert_eq!(app.completions, vec!["cd only/inner/".to_string()]);
    assert_eq!(app.completion_index, 0);
    // The completed line stays put while the sub-listing shows.
    assert_eq!(app.command_query, "cd only/");
}

#[test]
fn empty_matches_change_nothing() {
    let ws = catalog(&["a"]);
    let mut app = App::new(ws, None, encoder());
    app.command_query = "cd x".to_string();
    let unique = app.apply_matches(".".to_string(), Vec::new());
    assert!(!unique);
    assert_eq!(app.command_query, "cd x");
    assert!(app.completions.is_empty());
}

#[test]
fn command_typing_drops_stale_completions() {
    let ws = catalog(&["a"]);
    let mut app = App::new(ws, None, encoder());
    app.start_command();
    assert!(matches!(app.mode, Mode::Command));
    app.command_input('c');
    app.command_input('d');
    assert_eq!(app.command_query, "cd");
    app.apply_matches(".".to_string(), vec!["cd a/".to_string(), "cd b/".to_string()]);
    assert_eq!(app.completions.len(), 2);
    app.command_input('x');
    assert!(app.completions.is_empty());
    app.command_backspace();
    assert_eq!(app.command_query, "cd a/");
    app.cancel_command();
    assert!(matches!(app.mode, Mode::Grid));
    assert_eq!(app.command_query, "");
}
