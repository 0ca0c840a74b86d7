use metrics_exporter_prometheus::{PrometheusBuilder, PrometheusRecorder};
use riffy::metrics::proxy_request_timer;

fn recorder() -> PrometheusRecorder {
    PrometheusBuilder::new().build_recorder()
}

fn endpoint(pattern: &str) -> String {
    pattern.to_owned()
}

fn lines_for(rendered: &str, metric: &str, endpoint: &str) -> Vec<String> {
    let label = format!("endpoint=\"{}\"", endpoint);
    rendered
        .lines()
        .filter(|line| line.starts_with(metric) && line.contains(&label))
        .map(|line| line.to_owned())
        .collect()
}

#[test]
fn completed_request_records_real_status() {
    let recorder = recorder();
    let _local = metrics::set_default_local_recorder(&recorder);
    let handle = recorder.handle();

    proxy_request_timer("GET".to_owned(), endpoint("/t/completed")).finish("200");

    let rendered = handle.render();
    let lines = lines_for(&rendered, "riffy_proxy_request_total", "/t/completed");
    assert_eq!(lines.len(), 1);
    assert!(lines[0].contains("status=\"200\""));
}

#[test]
fn dropped_request_records_cancelled_status() {
    let recorder = recorder();
    let _local = metrics::set_default_local_recorder(&recorder);
    let handle = recorder.handle();

    drop(proxy_request_timer("GET".to_owned(), endpoint("/t/dropped")));

    let rendered = handle.render();
    let lines = lines_for(&rendered, "riffy_proxy_request_total", "/t/dropped");
    assert_eq!(lines.len(), 1);
    assert!(lines[0].contains("status=\"cancelled\""));
}

#[test]
fn dropped_request_still_records_duration() {
    let recorder = recorder();
    let _local = metrics::set_default_local_recorder(&recorder);
    let handle = recorder.handle();

    drop(proxy_request_timer("GET".to_owned(), endpoint("/t/dropped-duration")));

    let rendered = handle.render();
    assert!(!lines_for(&rendered, "riffy_proxy_request_duration_seconds", "/t/dropped-duration").is_empty());
}

#[test]
fn request_is_recorded_exactly_once() {
    let recorder = recorder();
    let _local = metrics::set_default_local_recorder(&recorder);
    let handle = recorder.handle();

    proxy_request_timer("GET".to_owned(), endpoint("/t/once")).finish("200");

    let rendered = handle.render();
    let lines = lines_for(&rendered, "riffy_proxy_request_total", "/t/once");
    assert_eq!(lines.len(), 1);
    assert!(lines[0].contains("status=\"200\""));
    assert!(lines[0].ends_with(" 1"));
}

#[test]
fn stored_sample_is_counted_per_endpoint() {
    let recorder = recorder();
    let _local = metrics::set_default_local_recorder(&recorder);
    let handle = recorder.handle();

    riffy::metrics::record_sample_stored("/t/stored", std::time::Duration::from_millis(5));
    riffy::metrics::record_sample_stored("/t/stored", std::time::Duration::from_millis(7));

    let rendered = handle.render();
    let lines = lines_for(&rendered, "riffy_samples_stored_total", "/t/stored");
    assert_eq!(lines.len(), 1);
    assert!(lines[0].ends_with(" 2"));
}
