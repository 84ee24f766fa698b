use std::time::Duration;

use reassembly::tcp_client::Config;

#[test]
fn config_keeps_the_backoff_bounds() {
    let initial = Duration::from_millis(50);
    let maximum = Duration::from_secs(10);
    let config = Config::new(initial, maximum);
    assert_eq!(initial, config.initial_reconnection_backoff);
    assert_eq!(maximum, config.maximum_reconnection_backoff);
}
