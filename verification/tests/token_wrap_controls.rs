use commit_clock::clock::{HourFormat, TimeFormat};
use commit_clock::controls::{
    icon_in_accent, next_accent, next_time_format, toggle_hour_format, token_recheck_due,
    ConnectionStatus, GithubSync,
};
use commit_clock::github::{GithubFetchResult, GithubPr};
use commit_clock::text::split_words;
use commit_clock::token::{
    choose_token, config_file_needed, config_path, token_from_config, token_from_value,
};
use commit_clock::wrap::{all_blank, LineWrapper};

#[test]
fn token_values_are_trimmed() {
    assert_eq!(token_from_value("  ghp_abc \n").as_deref(), Some("ghp_abc"));
    assert_eq!(token_from_value("   "), None);
    assert_eq!(token_from_value(""), None);
}

#[test]
fn token_from_configuration_file() {
    assert_eq!(token_from_config("FOO=1\nGITHUB_TOKEN=  xyz  \r\n").as_deref(), Some("xyz"));
    assert_eq!(token_from_config("GITHUB_TOKEN=\nGITHUB_TOKEN=second\n").as_deref(), Some("second"));
    assert_eq!(token_from_config("GITHUB_TOKEN=\n"), None);
    assert_eq!(token_from_config(" GITHUB_TOKEN=x"), None);
    assert_eq!(token_from_config("github_token=x"), None);
    assert_eq!(token_from_config(""), None);
}

#[test]
fn token_precedence() {
    assert_eq!(choose_token(Some(" a "), Some("b"), Some("GITHUB_TOKEN=c")).as_deref(), Some("a"));
    assert_eq!(choose_token(Some("  "), Some("b"), Some("GITHUB_TOKEN=c")).as_deref(), Some("b"));
    assert_eq!(choose_token(None, None, Some("GITHUB_TOKEN=c")).as_deref(), Some("c"));
    assert_eq!(choose_token(None, Some(""), None), None);
}

fn wrap(text: &str, max: usize) -> Vec<String> {
    let mut w = LineWrapper::new();
    for word in split_words(text) {
        let fits = w.candidate(&word).chars().count() <= max;
        w.place(&word, fits);
    }
    w.finish()
}

#[test]
fn greedy_wrapping() {
    assert_eq!(wrap("fix the clock face now", 10), vec!["fix the", "clock face", "now"]);
    assert_eq!(wrap("averyveryverylongword x", 5), vec!["averyveryverylongword", "x"]);
    assert_eq!(wrap("", 5), vec![""]);
    assert_eq!(wrap("   ", 5), vec![""]);
}

#[test]
fn wrapping_keeps_the_words() {
    let text = "  one two\tthree four five six seven  ";
    for max in [0, 3, 8, 13, 100] {
        let lines = wrap(text, max);
        assert_eq!(lines.join(" "), split_words(text).join(" "));
        assert!(lines.iter().all(|l| !l.is_empty()));
    }
}

#[test]
fn blank_titles() {
    assert!(all_blank(&vec!["".to_string(), "  ".to_string()]));
    assert!(!all_blank(&vec!["".to_string(), " x ".to_string()]));
    assert!(all_blank(&vec![]));
}

#[test]
fn key_toggles() {
    let mut f = TimeFormat::HhMmSs;
    let mut seen = vec![];
    for _ in 0..4 {
        f = next_time_format(f);
        seen.push(f);
    }
    assert_eq!(seen, vec![TimeFormat::HhMm, TimeFormat::MmSs, TimeFormat::IsoTime, TimeFormat::HhMmSs]);
    assert_eq!(toggle_hour_format(HourFormat::H24), HourFormat::H12);
    assert_eq!(toggle_hour_format(HourFormat::H12), HourFormat::H24);
    assert_eq!(next_accent(0, 10), 1);
    assert_eq!(next_accent(9, 10), 0);
}

#[test]
fn token_rechecks() {
    assert!(token_recheck_due(true, false, 102, 100));
    assert!(!token_recheck_due(true, false, 101, 100));
    assert!(!token_recheck_due(false, false, 200, 100));
    assert!(!token_recheck_due(true, true, 200, 100));
}

#[test]
fn icon_colour() {
    assert!(icon_in_accent(ConnectionStatus::Connected));
    assert!(!icon_in_accent(ConnectionStatus::Disconnected));
    assert!(!icon_in_accent(ConnectionStatus::Unknown));
}

#[test]
fn fetch_schedule() {
    let mut sync = GithubSync::new(1_000);
    assert_eq!(sync.status, ConnectionStatus::Unknown);
    assert_eq!(sync.on_frame(1_000, Some("t".to_string())).as_deref(), Some("t"));
    assert!(sync.in_flight);
    assert_eq!(sync.last_fetch, 1_000);
    assert_eq!(sync.on_frame(1_400, Some("t".to_string())), None);
    sync.on_result(GithubFetchResult {
        connected: true,
        prs: vec![GithubPr { title: "a".into(), url: "u".into() }],
    });
    assert_eq!(sync.status, ConnectionStatus::Connected);
    assert!(!sync.in_flight);
    assert_eq!(sync.prs.len(), 1);
    assert_eq!(sync.on_frame(1_299, Some("t".to_string())), None);
    assert_eq!(sync.on_frame(1_300, None), None);
    assert_eq!(sync.status, ConnectionStatus::Disconnected);
    assert!(sync.prs.is_empty());
    assert_eq!(sync.last_fetch, 1_300);
}

#[test]
fn button_click_fetches_at_once() {
    let mut sync = GithubSync::new(0);
    sync.on_result(GithubFetchResult { connected: false, prs: vec![] });
    assert_eq!(sync.status, ConnectionStatus::Disconnected);
    assert_eq!(sync.on_click(Some("t".to_string())).as_deref(), Some("t"));
    assert_eq!(sync.status, ConnectionStatus::Unknown);
    assert!(sync.in_flight);
    assert_eq!(sync.on_click(None), None);
    assert_eq!(sync.status, ConnectionStatus::Disconnected);
}

#[test]
fn configuration_file_place_and_need() {
    assert_eq!(config_path("/home/ann"), "/home/ann/.config/.githubclock");
    assert!(config_file_needed(true, false, false, false));
    assert!(!config_file_needed(false, false, false, false));
    assert!(!config_file_needed(true, true, false, false));
    assert!(!config_file_needed(true, false, true, false));
    assert!(!config_file_needed(true, false, false, true));
}
