use sudoers::check_permission;
use sudoers::Tag;
use sudoers::UserInfo;

fn lines(xs: &[&str]) -> Vec<String> {
    xs.iter().map(|s| s.to_string()).collect()
}

fn root() -> UserInfo {
    UserInfo { user: "root".to_string(), group: "root".to_string() }
}

#[test]
fn sudoer_test() {
    let root = root();
    assert_eq!(
        check_permission(&lines(&["user ALL=(ALL:ALL) ALL"]), "nobody", &root, "server", "/bin/hello"),
        None
    );
    assert_eq!(
        check_permission(&lines(&["user ALL=(ALL:ALL) ALL"]), "user", &root, "server", "/bin/hello"),
        Some(vec![])
    );
    assert_eq!(
        check_permission(&lines(&["user ALL=(ALL:ALL) /bin/foo"]), "user", &root, "server", "/bin/foo"),
        Some(vec![])
    );
    assert_eq!(
        check_permission(&lines(&["user ALL=(ALL:ALL) /bin/foo"]), "user", &root, "server", "/bin/hello"),
        None
    );
    assert_eq!(
        check_permission(
            &lines(&["user ALL=(ALL:ALL) /bin/foo, NOPASSWD: /bin/bar"]),
            "user",
            &root,
            "server",
            "/bin/foo"
        ),
        Some(vec![])
    );
    assert_eq!(
        check_permission(
            &lines(&["user ALL=(ALL:ALL) /bin/foo, NOPASSWD: /bin/bar"]),
            "user",
            &root,
            "server",
            "/bin/bar"
        ),
        Some(vec![Tag::NoPasswd])
    );
    assert_eq!(
        check_permission(&lines(&["user server=(ALL:ALL) ALL"]), "user", &root, "server", "/bin/hello"),
        Some(vec![])
    );
    assert_eq!(
        check_permission(&lines(&["user laptop=(ALL:ALL) ALL"]), "user", &root, "server", "/bin/hello"),
        None
    );
    assert_eq!(
        check_permission(
            &lines(&["user ALL=!/bin/hello", "user ALL=/bin/hello"]),
            "user",
            &root,
            "server",
            "/bin/hello"
        ),
        Some(vec![])
    );
    assert_eq!(
        check_permission(
            &lines(&["user ALL=/bin/hello", "user ALL=!/bin/hello"]),
            "user",
            &root,
            "server",
            "/bin/hello"
        ),
        None
    );
}

#[test]
fn empty_policy_denies_every_request() {
    let root = root();
    assert_eq!(check_permission(&lines(&[]), "user", &root, "server", "/bin/hello"), None);
    assert_eq!(check_permission(&lines(&[]), "root", &root, "host", "ls"), None);
}

#[test]
fn evaluation_is_repeatable() {
    let root = root();
    let policy = lines(&["user ALL=(ALL:ALL) NOPASSWD: /bin/a, /bin/b"]);
    let first = check_permission(&policy, "user", &root, "server", "/bin/b");
    let second = check_permission(&policy, "user", &root, "server", "/bin/b");
    assert_eq!(first, second);
    assert_eq!(first, Some(vec![Tag::NoPasswd]));
}

#[test]
fn later_forbid_overrides_within_one_list() {
    let root = root();
    let policy = lines(&["user ALL=(ALL:ALL) ALL, !/bin/hello"]);
    assert_eq!(check_permission(&policy, "user", &root, "server", "/bin/hello"), None);
    assert_eq!(check_permission(&policy, "user", &root, "server", "/bin/other"), Some(vec![]));
}

#[test]
fn later_allow_overrides_within_one_list() {
    let root = root();
    let policy = lines(&["user ALL=(ALL:ALL) !/bin/hello, ALL"]);
    assert_eq!(check_permission(&policy, "user", &root, "server", "/bin/hello"), Some(vec![]));
}

#[test]
fn missing_runas_scope_admits_only_root() {
    let policy = lines(&["user ALL=/bin/x"]);
    let as_root = root();
    let as_alice = UserInfo { user: "alice".to_string(), group: "alice".to_string() };
    let as_root_other_group = UserInfo { user: "root".to_string(), group: "wheel".to_string() };
    assert_eq!(check_permission(&policy, "user", &as_root, "server", "/bin/x"), Some(vec![]));
    assert_eq!(check_permission(&policy, "user", &as_alice, "server", "/bin/x"), None);
    assert_eq!(check_permission(&policy, "user", &as_root_other_group, "server", "/bin/x"), None);
}

#[test]
fn empty_runas_user_list_admits_self_as_target() {
    let policy = lines(&["user ALL=() /bin/x"]);
    let as_self = UserInfo { user: "user".to_string(), group: "user".to_string() };
    let as_root = root();
    assert_eq!(check_permission(&policy, "user", &as_self, "server", "/bin/x"), Some(vec![]));
    assert_eq!(check_permission(&policy, "user", &as_root, "server", "/bin/x"), None);
}

#[test]
fn runas_lists_scope_the_target_identity() {
    let policy = lines(&["user ALL=(root:wheel) /bin/x"]);
    let root_wheel = UserInfo { user: "root".to_string(), group: "wheel".to_string() };
    let root_other = UserInfo { user: "root".to_string(), group: "other".to_string() };
    let alice_wheel = UserInfo { user: "alice".to_string(), group: "wheel".to_string() };
    assert_eq!(check_permission(&policy, "user", &root_wheel, "server", "/bin/x"), Some(vec![]));
    assert_eq!(check_permission(&policy, "user", &root_other, "server", "/bin/x"), None);
    assert_eq!(check_permission(&policy, "user", &alice_wheel, "server", "/bin/x"), None);
}

#[test]
fn tags_attach_to_later_entries_of_the_run() {
    let root = root();
    let policy = lines(&["user ALL=(ALL:ALL) NOPASSWD: /bin/a, /bin/b"]);
    assert_eq!(check_permission(&policy, "user", &root, "server", "/bin/a"), Some(vec![Tag::NoPasswd]));
    assert_eq!(check_permission(&policy, "user", &root, "server", "/bin/b"), Some(vec![Tag::NoPasswd]));
}

#[test]
fn tags_of_earlier_entries_never_leak() {
    let root = root();
    let policy = lines(&["user ALL=(ALL:ALL) /bin/plain, NOPASSWD: /bin/tagged"]);
    assert_eq!(check_permission(&policy, "user", &root, "server", "/bin/plain"), Some(vec![]));
    assert_eq!(
        check_permission(&policy, "user", &root, "server", "/bin/tagged"),
        Some(vec![Tag::NoPasswd])
    );
}

#[test]
fn group_entry_matches_by_default_membership() {
    let root = root();
    let policy = lines(&["%admin ALL=(ALL:ALL) ALL"]);
    assert_eq!(check_permission(&policy, "admin", &root, "server", "/bin/x"), Some(vec![]));
    assert_eq!(check_permission(&policy, "bob", &root, "server", "/bin/x"), None);
}

#[test]
fn username_starting_with_all_is_no_wildcard() {
    let root = root();
    let policy = lines(&["ALLY ALL=(ALL:ALL) ALL"]);
    assert_eq!(check_permission(&policy, "ALLY", &root, "server", "/bin/x"), Some(vec![]));
    assert_eq!(check_permission(&policy, "other", &root, "server", "/bin/x"), None);
}

#[test]
fn negated_host_entry_forbids() {
    let root = root();
    let policy = lines(&["user !server=(ALL:ALL) ALL"]);
    assert_eq!(check_permission(&policy, "user", &root, "server", "/bin/x"), None);
    assert_eq!(check_permission(&policy, "user", &root, "laptop", "/bin/x"), None);
}

#[test]
fn escaped_comma_stays_inside_one_command() {
    let root = root();
    let policy = lines(&["user ALL=(ALL:ALL) /bin/f\\,oo"]);
    assert_eq!(check_permission(&policy, "user", &root, "server", "/bin/f\\,oo"), Some(vec![]));
    assert_eq!(check_permission(&policy, "user", &root, "server", "/bin/f"), None);
}

#[test]
fn malformed_line_contributes_no_verdict() {
    let root = root();
    let policy = lines(&["user ALL=(ALL:ALL", "user ALL=(ALL:ALL) ALL"]);
    assert_eq!(check_permission(&policy, "user", &root, "server", "/bin/x"), Some(vec![]));
    let only_bad = lines(&["user ALL=(ALL:ALL"]);
    assert_eq!(check_permission(&only_bad, "user", &root, "server", "/bin/x"), None);
}

#[test]
fn whitespace_between_tokens_is_tolerated() {
    let root = root();
    let policy = lines(&["user  ALL = ( ALL : ALL )  /bin/x"]);
    assert_eq!(check_permission(&policy, "user", &root, "server", "/bin/x"), Some(vec![]));
}

#[test]
fn command_over_length_cap_rejects_the_line() {
    let root = root();
    let long_ok = "x".repeat(1024);
    let line_ok = format!("user ALL=(ALL:ALL) {}", long_ok);
    let policy_ok = vec![line_ok];
    assert_eq!(
        check_permission(&policy_ok, "user", &root, "server", long_ok.as_str()),
        Some(vec![])
    );
    let long_bad = "x".repeat(1025);
    let line_bad = format!("user ALL=(ALL:ALL) {}", long_bad);
    let policy_bad = vec![line_bad];
    assert_eq!(check_permission(&policy_bad, "user", &root, "server", long_bad.as_str()), None);
}
