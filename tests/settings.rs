use processor::settings::{parse_settings, Generation, MAX_PAIRS};

fn args(list: &[&str]) -> Vec<String> {
    list.iter().map(|s| s.to_string()).collect()
}

#[test]
fn parses_uniform_settings() {
    let s = parse_settings(&args(&["uniform", "12345", "1000"])).unwrap();
    assert_eq!(s.generation_type, Generation::Uniform);
    assert_eq!(s.generation_seed, 12345);
    assert_eq!(s.requested_count, 1000);
}

#[test]
fn parses_cluster_settings_and_caps_the_count() {
    let s = parse_settings(&args(&["cluster", "+7", "99999999999", "extra"])).unwrap();
    assert_eq!(s.generation_type, Generation::Cluster);
    assert_eq!(s.generation_seed, 7);
    assert_eq!(s.requested_count, MAX_PAIRS);
    assert_eq!(MAX_PAIRS, 1 << 34);
}

#[test]
fn rejects_malformed_settings() {
    assert!(parse_settings(&args(&["uniform", "1"])).is_none());
    assert!(parse_settings(&args(&["spiral", "1", "2"])).is_none());
    assert!(parse_settings(&args(&["uniform", "-1", "2"])).is_none());
    assert!(parse_settings(&args(&["uniform", "1", " 2"])).is_none());
    assert!(parse_settings(&args(&["uniform", "18446744073709551616", "2"])).is_none());
    assert!(parse_settings(&args(&[])).is_none());
}

#[test]
fn largest_seed_is_accepted() {
    let s = parse_settings(&args(&["uniform", "18446744073709551615", "0"])).unwrap();
    assert_eq!(s.generation_seed, u64::MAX);
    assert_eq!(s.requested_count, 0);
}

#[test]
fn generation_names() {
    assert_eq!(Generation::Uniform.name(), "uniform");
    assert_eq!(Generation::Cluster.name(), "cluster");
}
