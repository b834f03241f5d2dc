use pazi::interactive::{select_from, FilterError};
use pazi::pazi_result::PaziResult;
use pazi::pipe::{match_selection, pipe_lines};
use pazi::shells::{from_name, AnyShell};

fn opts() -> Vec<(String, u64)> {
    vec![("best".to_string(), 920_000), ("second".to_string(), 720_000)]
}

#[test]
fn select_picks_by_displayed_number() {
    assert_eq!(select_from(&opts(), "1\n").unwrap(), "best");
    assert_eq!(select_from(&opts(), " 2 ").unwrap(), "second");
}

#[test]
fn select_declines_on_blank_input() {
    match select_from(&opts(), "\n") {
        Err(FilterError::NoSelection) => {}
        _ => panic!("expected no selection"),
    }
}

#[test]
fn select_rejects_junk_and_out_of_range() {
    assert!(matches!(select_from(&opts(), "x"), Err(FilterError::String(_))));
    assert!(matches!(select_from(&opts(), "3"), Err(FilterError::String(_))));
    assert!(matches!(select_from(&opts(), "0"), Err(FilterError::String(_))));
}

#[test]
fn pipe_lines_render_score_then_path() {
    let lines = pipe_lines(&opts());
    assert_eq!(lines, vec!["920000\tbest", "720000\tsecond"]);
}

#[test]
fn pipe_selection_matches_exact_line() {
    let o = opts();
    let lines = pipe_lines(&o);
    assert_eq!(match_selection(&o, &lines, "720000\tsecond"), Some("second".to_string()));
    assert_eq!(match_selection(&o, &lines, "junk"), None);
}

#[test]
fn shells_are_found_by_name() {
    assert!(matches!(from_name("bash"), Some(AnyShell::Bash(_))));
    assert!(matches!(from_name("zsh"), Some(AnyShell::Zsh(_))));
    assert!(matches!(from_name("fish"), Some(AnyShell::Fish(_))));
    assert!(from_name("tcsh").is_none());
    let script = from_name("zsh").unwrap().pazi_init();
    assert!(script.contains("pazi"));
}

#[test]
fn exit_codes_follow_outcomes() {
    assert_eq!(PaziResult::Success.exit_code(), 0);
    assert_eq!(PaziResult::SuccessDirectory.exit_code(), 0);
    assert_eq!(PaziResult::Error.exit_code(), 1);
    assert_eq!(PaziResult::ErrorNoInput.exit_code(), 1);
    assert_eq!(PaziResult::Success.extended_exit_code(), 90);
    assert_eq!(PaziResult::SuccessDirectory.extended_exit_code(), 91);
    assert_eq!(PaziResult::Error.extended_exit_code(), 92);
    assert_eq!(PaziResult::ErrorNoInput.extended_exit_code(), 93);
}

#[test]
fn fasd_line_parsing_takes_path_field() {
    assert_eq!(pazi::importers::Fasd::data_of_line("/home/u/dev|3|1600000000"), "/home/u/dev");
    assert_eq!(pazi::importers::Fasd::data_of_line("plain"), "plain");
}
