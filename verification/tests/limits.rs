use snirelay::config::AppConfig;
use snirelay::limits::{
    apply, effective_connection_limit, nofile_target, raise_nofile_limit, rlim_is_infinity,
};

const INFINITY: u64 = u64::MAX;

#[test]
fn effective_limit_respects_fds_and_config() {
    assert_eq!(effective_connection_limit(1024, 65535, 128), 448);
    assert_eq!(effective_connection_limit(1_048_576, 10_000, 128), 10_000);
    assert_eq!(effective_connection_limit(256, 65535, 128), 64);
}

#[test]
fn want_soft_caps_at_hard() {
    let target = 1_048_576_u64;
    let hard = 65_536_u64;
    assert_eq!(target.min(hard), hard);
    assert_eq!(raise_nofile_limit(target, 1024, hard, INFINITY), Some(hard));
}

#[test]
fn sessions_fit_the_descriptors() {
    assert_eq!(effective_connection_limit(0, 10, 128), 1);
    assert_eq!(effective_connection_limit(127, 10, 128), 1);
    assert_eq!(effective_connection_limit(127, 0, 128), 0);
    assert_eq!(effective_connection_limit(128, 10, 128), 0);
    assert_eq!(effective_connection_limit(129, 10, 128), 0);
    assert_eq!(effective_connection_limit(130, 10, 128), 1);
    assert_eq!(effective_connection_limit(132, 10, 128), 2);
    assert_eq!(effective_connection_limit(1024, 0, 128), 0);
}

#[test]
fn soft_limit_is_raised_only_where_it_can_be() {
    assert_eq!(raise_nofile_limit(1000, 1024, 4096, INFINITY), None);
    assert_eq!(raise_nofile_limit(1024, 1024, 4096, INFINITY), None);
    assert_eq!(raise_nofile_limit(9000, 4096, 4096, INFINITY), None);
    assert_eq!(raise_nofile_limit(9000, 1024, 10_000, INFINITY), Some(9000));
    assert_eq!(raise_nofile_limit(9000, 1024, INFINITY, INFINITY), Some(9000));
    assert!(rlim_is_infinity(7, 7));
    assert!(!rlim_is_infinity(7, 8));
}

#[test]
fn limits_of_the_process() {
    let mut cfg = AppConfig::default();
    cfg.max_connections = 500;
    cfg.nofile_limit = 0;
    assert_eq!(nofile_target(&cfg), None);
    let limits = apply(&cfg, None, 1024);
    assert_eq!(limits.soft_nofile, 1024);
    assert_eq!(limits.max_connections, 448);
    assert!(limits.is_capped(&cfg));
    assert!(limits.is_low());
    assert_eq!(apply(&cfg, Some(4096), 1024).soft_nofile, 1024);

    cfg.nofile_limit = 9000;
    assert_eq!(nofile_target(&cfg), Some(9000));
    assert_eq!(apply(&cfg, None, 1024).soft_nofile, 1024);
    let limits = apply(&cfg, Some(4096), 1024);
    assert_eq!(limits.soft_nofile, 4096);
    assert_eq!(limits.max_connections, 500);
    assert!(!limits.is_capped(&cfg));
    assert!(!limits.is_low());
}
