//! The command line.

use bliss_playlist_optimizer::command::{
    decide_action, default_parallel_workers, parse_request_command, usage, Action,
};
use bliss_playlist_optimizer::progress::{stage_of, Progress};
use bliss_playlist_optimizer::requests::Work;

fn arguments(words: &[&str]) -> Vec<String> {
    words.iter().map(|word| (*word).to_owned()).collect()
}

#[test]
fn usage_mentions_the_supported_commands() {
    assert!(usage().contains("version"));
    assert!(usage().contains("validate"));
    assert!(usage().contains("score"));
    assert!(usage().contains("route"));
    assert!(usage().contains("bridge"));
    assert!(usage().contains("--timings"));
    assert!(usage().contains("--cache-dir"));
    assert!(usage().contains("--progress"));
    assert!(usage().contains("--trusted-request"));
    assert_eq!(default_parallel_workers(1), 1);
    assert_eq!(default_parallel_workers(2), 1);
    assert_eq!(default_parallel_workers(4), 3);
}

#[test]
fn options_follow_the_request() {
    let parsed = parse_request_command(&arguments(&[
        "bridge",
        "--request",
        "in.json",
        "--timings",
        "--cache-dir",
        "cache",
    ]))
    .unwrap();
    assert_eq!(parsed.command, "bridge");
    assert_eq!(parsed.path, "in.json");
    assert!(parsed.options.timings);
    assert_eq!(parsed.options.cache_dir.as_deref(), Some("cache"));
}

#[test]
fn arguments_decide_what_is_done() {
    let decided = |words: &[&str]| decide_action(&arguments(words));
    assert_eq!(
        decided(&["validate", "--request", "a"]),
        Action::Validate("a".to_owned())
    );
    assert_eq!(
        decided(&["score", "--request", "a"]),
        Action::Score("a".to_owned())
    );
    assert!(matches!(
        decided(&["route", "--request", "a", "--timings"]),
        Action::Route(path, options) if path == "a" && options.timings && options.cache_dir.is_none()
    ));
    assert!(matches!(
        decided(&["bridge", "--request", "a"]),
        Action::Bridge(path, options) if path == "a" && !options.timings
    ));
    assert_eq!(decided(&["version"]), Action::Version);
    assert_eq!(decided(&["version", "--json"]), Action::VersionJson);
}

#[test]
fn everything_else_gets_the_usage() {
    for words in [
        &[][..],
        &["version", "--yaml"],
        &["validate", "--request", "a", "--timings"],
        &["score", "--request", "a", "--cache-dir", "c"],
        &["route", "a"],
        &["route", "--request"],
        &["route", "--request", "a", "--timings", "--timings"],
        &["route", "--request", "a", "--cache-dir"],
        &["polish", "--request", "a"],
    ] {
        assert_eq!(decide_action(&arguments(words)), Action::Usage);
    }
}

#[test]
fn progress_and_trust_are_options_of_long_commands() {
    let parsed = parse_request_command(&arguments(&[
        "bridge",
        "--request",
        "request.json",
        "--timings",
        "--cache-dir",
        "/path/to/cache",
        "--progress",
        "/path/to/progress.json",
    ]))
    .unwrap();
    assert_eq!(parsed.command, "bridge");
    assert_eq!(parsed.options.progress.as_deref(), Some("/path/to/progress.json"));
    assert!(parsed.options.timings && !parsed.options.trusted_request);
    for command in ["route", "bridge"] {
        let trusting =
            parse_request_command(&arguments(&[command, "--request", "a", "--trusted-request"]))
                .unwrap();
        assert!(trusting.options.trusted_request);
        assert!(trusting.options.progress.is_none());
    }
    for words in [
        &["validate", "--request", "a", "--trusted-request"][..],
        &["score", "--request", "a", "--trusted-request"],
        &["route", "--request", "a", "--trusted-request", "--trusted-request"],
        &["route", "--request", "a", "--progress"],
        &["bridge", "--request", "a", "--progress", "p", "--progress", "q"],
    ] {
        assert_eq!(decide_action(&arguments(words)), Action::Usage);
    }
}

#[test]
fn progress_counts_what_can_be_counted() {
    let started = Progress::at("library", "Reading the library", 3);
    assert_eq!((started.current, started.percent), (None, None));
    let half = started.counted(1, 2);
    assert_eq!((half.current, half.total, half.percent), (Some(1), Some(2), Some(50)));
    assert_eq!(half.elapsed_seconds, 3);
    assert_eq!(started.counted(u64::MAX - 1, u64::MAX).percent, Some(99));
    assert_eq!(started.counted(5, 4).percent, Some(100));
    assert_eq!(started.counted(0, 0).percent, Some(100));
    assert_eq!(stage_of(Work::ReadMatrix).0, "matrix");
}
