use rust_http::cli::{usage, version_info};

#[test]
fn usage_names_the_program_and_lists_the_flags() {
    assert_eq!(
        usage("http"),
        "Usage: http [options] pattern subject\nOptions:\n  -h, --help      Print usage and exit\n  --version       Print version information and exit\n"
    );
    assert!(usage("").starts_with("Usage:  [options]"));
    assert_eq!(usage("/usr/bin/x y").lines().next(), Some("Usage: /usr/bin/x y [options] pattern subject"));
    assert_eq!(usage("p").lines().count(), 4);
}

#[test]
fn version_line() {
    assert_eq!(version_info(), "rust-http 0.1\n");
}
