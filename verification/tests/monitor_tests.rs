use std::time::Duration;
use website_monitor::monitor::{
    error_display, status_display, status_of, successful_time_total, summarize, Config, RequestOutcome,
    ResultCollector, WebsiteMonitor, WorkerAction, WorkerEvent, WorkerState, WorkItem,
};

#[test]
fn test_config_default() {
    let config = Config::default();
    assert_eq!(config.worker_threads, 10);
    assert_eq!(config.request_timeout, Duration::from_secs(5));
    assert_eq!(config.max_retries, 3);
}

#[test]
fn test_website_monitor_creation() {
    let config = Config {
        worker_threads: 5,
        request_timeout: Duration::from_secs(10),
        max_retries: 2,
    };
    let monitor = WebsiteMonitor::new(config);
    // Monitor created successfully if we reach here
    assert!(true);
    assert_eq!(monitor.config().worker_threads, 5);
    assert_eq!(monitor.config().request_timeout, Duration::from_secs(10));
    assert_eq!(monitor.config().max_retries, 2);
}

#[test]
fn work_items_carry_urls_and_retries() {
    let monitor = WebsiteMonitor::new(Config {
        worker_threads: 2,
        request_timeout: Duration::from_secs(1),
        max_retries: 4,
    });
    let items = monitor.work_items(vec!["https://a.example".to_string(), "b".to_string()]);
    assert_eq!(items.len(), 2);
    assert_eq!(items[0].url, "https://a.example");
    assert_eq!(items[1].url, "b");
    assert!(items.iter().all(|i| i.retries_left == 4));
    assert!(monitor.work_items(vec![]).is_empty());
}

fn item(url: &str, retries_left: u32) -> WorkItem {
    WorkItem { url: url.to_string(), retries_left }
}

#[test]
fn worker_retries_a_failed_check_once() {
    let (state, action) = WorkerState::start();
    assert!(matches!(action, WorkerAction::AwaitItem));
    let (state, action) = state.step(WorkerEvent::ItemArrived(item("u", 2)));
    assert!(matches!(action, WorkerAction::Check { ref url } if url == "u"));
    let (state, action) = state.step(WorkerEvent::CheckDone { failed: true });
    assert!(matches!(action, WorkerAction::PauseThenCheck { ref url, pause_ms: 100 } if url == "u"));
    let (state, action) = state.step(WorkerEvent::CheckDone { failed: true });
    assert!(matches!(action, WorkerAction::Report));
    let (state, action) = state.step(WorkerEvent::ReportSent);
    assert!(matches!(action, WorkerAction::AwaitItem));
    let (state, action) = state.step(WorkerEvent::QueueClosed);
    assert!(matches!(action, WorkerAction::Stop));
    assert!(state.is_stopped());
}

#[test]
fn worker_does_not_retry_without_retries_or_on_success() {
    let (state, _) = WorkerState::start();
    let (state, _) = state.step(WorkerEvent::ItemArrived(item("u", 0)));
    let (state, action) = state.step(WorkerEvent::CheckDone { failed: true });
    assert!(matches!(action, WorkerAction::Report));
    let (state, _) = state.step(WorkerEvent::ReportSent);
    let (state, _) = state.step(WorkerEvent::ItemArrived(item("v", 3)));
    let (state, action) = state.step(WorkerEvent::CheckDone { failed: false });
    assert!(matches!(action, WorkerAction::Report));
    let (state, action) = state.step(WorkerEvent::ReportFailed);
    assert!(matches!(action, WorkerAction::Stop));
    assert!(state.is_stopped());
}

#[test]
fn worker_stops_on_unexpected_events() {
    let (state, _) = WorkerState::start();
    let (state, action) = state.step(WorkerEvent::ReportSent);
    assert!(matches!(action, WorkerAction::Stop));
    let (state, action) = state.step(WorkerEvent::ItemArrived(item("u", 1)));
    assert!(matches!(action, WorkerAction::Stop));
    assert!(state.is_stopped());
    let (state, _) = WorkerState::start();
    let (state, action) = state.step(WorkerEvent::QueueUnavailable);
    assert!(matches!(action, WorkerAction::Stop));
    assert!(state.is_stopped());
}

#[test]
fn outcomes_become_statuses() {
    assert_eq!(status_of(RequestOutcome::Response(200)), Ok(200));
    assert_eq!(status_of(RequestOutcome::ErrorStatus(404)), Ok(404));
    assert_eq!(
        status_of(RequestOutcome::Transport("connection refused".to_string())),
        Err("Transport error: connection refused".to_string())
    );
}

#[test]
fn status_column() {
    assert_eq!(status_display(&Ok(200)), "200");
    assert_eq!(status_display(&Ok(0)), "0");
    assert_eq!(status_display(&Ok(65535)), "65535");
    assert_eq!(status_display(&Err("boom".to_string())), "ERROR");
}

#[test]
fn error_column() {
    assert_eq!(error_display(&Ok(200)), "None");
    assert_eq!(error_display(&Err("short".to_string())), "short");
    let exactly = "x".repeat(45);
    assert_eq!(error_display(&Err(exactly.clone())), exactly);
    let long = "abcdefghij".repeat(5);
    let shown = error_display(&Err(long.clone()));
    assert_eq!(shown, format!("{}...", &long[..42]));
    assert_eq!(shown.len(), 45);
    // A multi-byte character that ends exactly at byte 42 is kept whole.
    let wide = format!("{}é{}", "a".repeat(40), "b".repeat(10));
    assert_eq!(error_display(&Err(wide)), format!("{}é...", "a".repeat(40)));
}

#[test]
fn summary_counts() {
    let statuses = vec![Ok(200), Err("x".to_string()), Ok(500), Err("y".to_string()), Ok(301)];
    let s = summarize(&statuses);
    assert_eq!(s.total, 5);
    assert_eq!(s.successful, 3);
    assert_eq!(s.failed, 2);
    let empty = summarize(&vec![]);
    assert_eq!((empty.total, empty.successful, empty.failed), (0, 0, 0));
}

#[test]
fn url_list_parsing() {
    let content = "  https://a.example  \n\n# comment\r\n\thttps://b.example\r\n   # indented comment\nc";
    let urls = WebsiteMonitor::parse_url_list(content);
    assert_eq!(urls, vec!["https://a.example", "https://b.example", "c"]);
    assert!(WebsiteMonitor::parse_url_list("").is_empty());
    assert!(WebsiteMonitor::parse_url_list("\n \n#x\n").is_empty());
}

#[test]
fn collector_stops_at_expected() {
    let mut c: ResultCollector<u32> = ResultCollector::new(2);
    assert!(c.wants_more());
    c.add(7);
    assert!(c.wants_more());
    c.add(9);
    assert!(!c.wants_more());
    assert_eq!(c.into_results(), vec![7, 9]);
    let none: ResultCollector<u32> = ResultCollector::new(0);
    assert!(!none.wants_more());
}

#[test]
fn worker_reports_once_per_item_in_a_session() {
    let items = vec![item("a", 0), item("b", 2), item("c", 1), item("d", 3)];
    let outcomes = [(true, true), (true, false), (false, true), (true, true)];
    let (mut state, mut action) = WorkerState::start();
    let mut reports = 0;
    let mut checks = 0;
    for (it, (first, second)) in items.into_iter().zip(outcomes.iter()) {
        assert!(matches!(action, WorkerAction::AwaitItem));
        let (s, a) = state.step(WorkerEvent::ItemArrived(it));
        state = s;
        action = a;
        let mut attempt = 0;
        loop {
            match action {
                WorkerAction::Check { .. } | WorkerAction::PauseThenCheck { .. } => {
                    checks += 1;
                    let failed = if attempt == 0 { *first } else { *second };
                    attempt += 1;
                    let (s, a) = state.step(WorkerEvent::CheckDone { failed });
                    state = s;
                    action = a;
                }
                WorkerAction::Report => {
                    reports += 1;
                    let (s, a) = state.step(WorkerEvent::ReportSent);
                    state = s;
                    action = a;
                    break;
                }
                _ => panic!("unexpected action"),
            }
        }
    }
    assert_eq!(reports, 4);
    assert_eq!(checks, 1 + 2 + 1 + 2);
    assert!(!state.is_stopped());
}

#[test]
fn successful_times_are_totalled() {
    let statuses = vec![Ok(200), Err("x".to_string()), Ok(404), Ok(500)];
    let millis: Vec<u128> = vec![150, 9000, 50, 100];
    assert_eq!(successful_time_total(&statuses, &millis), (3, Some(300)));
    assert_eq!(successful_time_total(&vec![], &vec![]), (0, Some(0)));
    assert_eq!(successful_time_total(&vec![Err("e".to_string())], &vec![7]), (0, Some(0)));
    let huge = vec![u128::MAX, 1];
    assert_eq!(successful_time_total(&vec![Ok(200), Ok(200)], &huge), (2, None));
    assert_eq!(successful_time_total(&vec![Ok(200), Err("e".to_string())], &huge), (1, Some(u128::MAX)));
}
