use shoehorn::sort::{comes_before, ranks, stable_order};
use shoehorn::text::{chars_of, lines_of, parse_number, push_padded, string_of, to_decimal};
use shoehorn::ui::{
    fit_args, is_progress, log_start, parse_request, route, LineSplitter, Phase, Poll, Route,
    State, UiError,
};

fn request(body: &str) -> Result<Vec<String>, UiError> {
    parse_request(body).map(|q| fit_args(&q))
}

fn strings(v: &[&str]) -> Vec<String> {
    v.iter().map(|s| s.to_string()).collect()
}

#[test]
fn requests_become_arguments() {
    let args = request(r#"{"model": " o/m ", "ctx": 4096, "kv": "q8_0", "budget": " 8GiB "}"#);
    assert_eq!(
        args.unwrap(),
        strings(&["fit", "o/m", "--ctx", "4096", "--kv", "q8_0", "--budget", "8GiB"])
    );
    assert_eq!(
        request(r#"{"model": "m"}"#).unwrap(),
        strings(&["fit", "m", "--ctx", "8192", "--kv", "f16"])
    );
    assert_eq!(request(r#"{"model": " "}"#), Err(UiError::NoModel));
    assert_eq!(request(r#"{"ctx": 1}"#), Err(UiError::NoModel));
    assert_eq!(request("[]"), Err(UiError::NoModel));
    assert_eq!(request("{"), Err(UiError::BadBody));
    assert_eq!(UiError::BadBody.text(), "bad request body");
    assert_eq!(UiError::NoModel.text(), "pick a model first");
}

#[test]
fn a_fit_runs_to_its_end() {
    let mut s = State::new();
    assert_eq!(s.phase, Phase::Idle);
    assert_eq!(s.server_args(1), Err(UiError::NothingFitted));
    let q = parse_request(r#"{"model": "m", "ctx": 64}"#).unwrap();
    assert_eq!(s.may_start(), Ok(()));
    s.start(&q);
    assert_eq!(s.phase.name(), "running");
    assert_eq!(s.may_start(), Err(UiError::AlreadyRunning));
    s.push_line("measuring".to_string());
    assert!(s.poll(Poll::Running));
    assert!(!s.poll(Poll::Ended { success: true }));
    // nothing was written
    assert_eq!(s.phase, Phase::Failed);
    assert!(!s.poll(Poll::Running));
    assert_eq!(s.may_start(), Ok(()));
}

#[test]
fn a_preview_writes_nothing() {
    let q = parse_request(r#"{"model": "m", "preview": true, "calibrate": true}"#).unwrap();
    assert_eq!(fit_args(&q)[6..], strings(&["--dry-run"])[..]);
    let mut s = State::new();
    s.start(&q);
    assert_eq!(s.log, strings(&["$ shoehorn fit m --ctx 8192 --kv f16 --dry-run"]));
    s.poll(Poll::Ended { success: true });
    assert_eq!(s.phase, Phase::Done);
    let q = parse_request(r#"{"model": "m", "calibrate": true}"#).unwrap();
    assert_eq!(fit_args(&q)[6..], strings(&["--calibrate"])[..]);
}

#[test]
fn failures_and_cancellation() {
    let q = parse_request(r#"{"model": "m"}"#).unwrap();
    let mut s = State::new();
    s.start(&q);
    assert!(!s.must_kill());
    s.cancel();
    assert!(s.must_kill());
    assert!(!s.poll(Poll::Ended { success: false }));
    assert_eq!(s.phase, Phase::Idle);
    assert_eq!(s.log.last().map(|l| l.as_str()), Some("stopped"));
    assert!(!s.must_kill());
    s.start(&q);
    assert!(!s.must_kill(), "a new fit is not cancelled");
    assert!(!s.poll(Poll::Lost));
    assert_eq!(s.phase, Phase::Failed);
}

#[test]
fn progress_replaces_progress() {
    assert!(!is_progress("wrote file"));
    assert!(!is_progress("###"));
    assert!(!is_progress(""));
    let bar = "####      40.0%";
    assert!(is_progress(bar));
    let mut s = State::new();
    let q = parse_request(r#"{"model": "m"}"#).unwrap();
    s.start(&q);
    let before = s.log.len();
    s.push_line("a".to_string());
    s.push_line(bar.to_string());
    s.push_line("######### 90.0%".to_string());
    s.push_line("b".to_string());
    assert_eq!(s.log.len(), before + 3);
    assert_eq!(s.log[before + 1], "######### 90.0%");
}

#[test]
fn the_written_file_is_served() {
    let mut s = State::new();
    let q = parse_request(r#"{"model": "m", "ctx": 64, "kv": "q8_0"}"#).unwrap();
    s.start(&q);
    s.push_line("wrote m-fit.gguf (10.00 GiB)".to_string());
    assert_eq!(s.output.as_deref(), Some("m-fit.gguf"));
    s.poll(Poll::Ended { success: true });
    assert_eq!(s.phase, Phase::Done);
    let args = s.server_args(8080).unwrap();
    assert_eq!(
        args,
        strings(&[
            "-m", "m-fit.gguf", "-c", "64", "-ngl", "99", "--port", "8080",
            "--cache-type-k", "q8_0", "--cache-type-v", "q8_0",
        ])
    );
}

#[test]
fn output_is_split_at_either_line_end() {
    let text: &[u8] = b"one\ntwo\rthree\r\n\n\xff";
    let mut whole = LineSplitter::new();
    let lines = whole.feed(text);
    assert_eq!(lines, strings(&["one", "two", "three"]));
    assert_eq!(whole.finish().as_deref(), Some("\u{fffd}"));
    // how the bytes come in pieces does not matter
    for cut in 0..text.len() {
        let mut s = LineSplitter::new();
        let mut got = s.feed(&text[..cut]);
        got.extend(s.feed(&text[cut..]));
        assert_eq!(got, lines);
    }
    assert!(LineSplitter::new().finish().is_none());
}

#[test]
fn routes_and_log_positions() {
    assert_eq!(route(false, "/"), Route::Page);
    assert_eq!(route(false, "/api/info"), Route::Info);
    assert_eq!(route(false, "/api/log?from=3"), Route::Log);
    assert_eq!(route(true, "/api/fit"), Route::Fit);
    assert_eq!(route(true, "/api/serve"), Route::Serve);
    assert_eq!(route(true, "/api/cancel"), Route::Cancel);
    assert_eq!(route(true, "/"), Route::NotFound);
    assert_eq!(route(false, "/nowhere"), Route::NotFound);
    assert_eq!(log_start("/api/log?from=12"), 12);
    assert_eq!(log_start("/api/log"), 0);
    assert_eq!(log_start("/api/log?from=x"), 0);
}

#[test]
fn orders_are_stable() {
    assert_eq!(stable_order(&[3, 1, 3, 0, 1]), vec![3, 1, 4, 0, 2]);
    assert_eq!(stable_order(&[]), Vec::<usize>::new());
    let texts: Vec<Vec<char>> = ["b", "a", "ab", "b"].iter().map(|s| chars_of(s)).collect();
    let order = stable_order(&ranks(&texts));
    assert_eq!(order, vec![1, 2, 0, 3]);
    assert!(comes_before(&['a'], &['a', 'b']));
    assert!(!comes_before(&['b'], &['a', 'b']));
    assert!(!comes_before(&['a'], &['a']));
}

#[test]
fn texts_and_numbers() {
    let lines = lines_of(&chars_of("a\r\nb\n\nc"));
    let lines: Vec<String> = lines.iter().map(|l| string_of(l)).collect();
    assert_eq!(lines, "a\r\nb\n\nc".lines().collect::<Vec<_>>());
    for s in ["0", "+7", "18446744073709551615", "18446744073709551616", "", "-1", "1x", "+"] {
        assert_eq!(parse_number(&chars_of(s)), s.parse::<u64>().ok(), "{s}");
    }
    assert_eq!(to_decimal(u64::MAX), "18446744073709551615");
    let mut out = String::from("x");
    push_padded(&mut out, 42, 5);
    push_padded(&mut out, 123456, 3);
    assert_eq!(out, "x00042123456");
}
