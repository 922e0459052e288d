use git_chai::config::log_filter;

#[test]
fn empty_log_settings_count_as_unset() {
    assert_eq!(log_filter(None, false), "info");
    assert_eq!(log_filter(None, true), "debug");
    assert_eq!(log_filter(Some(""), false), "info");
    assert_eq!(log_filter(Some("  \t"), true), "debug");
    assert_eq!(log_filter(Some(" warn "), false), " warn ");
    assert_eq!(log_filter(Some("git_chai=trace"), true), "git_chai=trace");
}
