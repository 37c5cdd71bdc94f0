use sudoers::All;
use sudoers::Decimal;
use sudoers::Hostname;
use sudoers::Qualified;
use sudoers::Tag;
use sudoers::Upper;
use sudoers::UserSpecifier;
use sudoers::Username;
use sudoers::exact;
use sudoers::find_item;
use sudoers::in_group;
use sudoers::match_token;
use sudoers::match_user;
use sudoers::parse_line;

#[test]
fn later_forbid_wins_in_find_item() {
    let items = vec![
        Qualified::Allow(All::All),
        Qualified::Forbid(All::Only(Hostname("server".to_string()))),
    ];
    assert_eq!(find_item(&items, "server"), None);
    assert_eq!(find_item(&items, "laptop"), Some(0));
}

#[test]
fn later_allow_wins_in_find_item() {
    let items = vec![
        Qualified::Forbid(All::Only(Hostname("server".to_string()))),
        Qualified::Allow(All::All),
    ];
    assert_eq!(find_item(&items, "server"), Some(1));
}

#[test]
fn inapplicable_entries_are_invisible_to_find_item() {
    let items = vec![
        Qualified::Allow(All::Only(Hostname("server".to_string()))),
        Qualified::Forbid(All::Only(Hostname("laptop".to_string()))),
    ];
    assert_eq!(find_item(&items, "server"), Some(0));
    let empty: Vec<Qualified<All<Hostname>>> = vec![];
    assert_eq!(find_item(&empty, "server"), None);
}

#[test]
fn match_user_distinguishes_users_and_groups() {
    let user = UserSpecifier::User(Username("alice".to_string()));
    let group = UserSpecifier::Group(Username("wheel".to_string()));
    assert!(match_user("alice", &user));
    assert!(!match_user("bob", &user));
    assert!(match_user("wheel", &group));
    assert!(!match_user("alice", &group));
}

#[test]
fn exact_and_in_group_compare_whole_strings() {
    assert!(exact("abc", "abc"));
    assert!(!exact("abc", "abd"));
    assert!(!exact("abc", "ab"));
    assert!(exact("", ""));
    assert!(in_group("staff", "staff"));
    assert!(!in_group("staff", "wheel"));
    assert!(match_token("x", "x"));
    assert!(!match_token("x", "y"));
}

#[test]
fn parse_line_builds_the_rule_shape() {
    let rule = parse_line("user ALL=(ALL:ALL) /bin/foo, NOPASSWD: /bin/bar").unwrap();
    assert_eq!(rule.users.len(), 1);
    assert!(matches!(
        rule.users[0],
        Qualified::Allow(All::Only(UserSpecifier::User(ref n))) if n.0 == "user"
    ));
    assert_eq!(rule.clauses.len(), 1);
    let clause = &rule.clauses[0];
    assert!(matches!(clause.hosts[0], Qualified::Allow(All::All)));
    let runas = clause.runas.as_ref().unwrap();
    assert!(matches!(runas.users[0], Qualified::Allow(All::All)));
    assert!(matches!(runas.groups[0], Qualified::Allow(All::All)));
    assert_eq!(clause.cmds.len(), 2);
    assert!(clause.cmds[0].tags.is_empty());
    assert!(matches!(clause.cmds[0].cmd, Qualified::Allow(All::Only(ref c)) if c.0 == "/bin/foo"));
    assert_eq!(clause.cmds[1].tags, vec![Tag::NoPasswd]);
    assert!(matches!(clause.cmds[1].cmd, Qualified::Allow(All::Only(ref c)) if c.0 == "/bin/bar"));
}

#[test]
fn parse_line_reads_negation_and_group_markers() {
    let rule = parse_line("!%admin ALL=/bin/x").unwrap();
    assert!(matches!(
        rule.users[0],
        Qualified::Forbid(All::Only(UserSpecifier::Group(ref n))) if n.0 == "admin"
    ));
    assert!(rule.clauses[0].runas.is_none());
}

#[test]
fn parse_line_rejects_malformed_lines() {
    assert!(parse_line("").is_none());
    assert!(parse_line("user").is_none());
    assert!(parse_line("user ALL").is_none());
    assert!(parse_line("user ALL=(ALL:ALL").is_none());
    assert!(parse_line("user ALL=(ALL:ALL) BADTAG: /bin/x").is_none());
    assert!(parse_line("_user ALL=/bin/x").is_none());
}

#[test]
fn tag_keyword_without_separator_is_a_command() {
    let rule = parse_line("user ALL=NOPASSWD").unwrap();
    let clause = &rule.clauses[0];
    assert!(clause.cmds[0].tags.is_empty());
    assert!(matches!(clause.cmds[0].cmd, Qualified::Allow(All::Only(ref c)) if c.0 == "NOPASSWD"));
}

#[test]
fn parse_line_trims_command_text() {
    let rule = parse_line("user ALL=/bin/x , /bin/y").unwrap();
    let clause = &rule.clauses[0];
    assert!(matches!(clause.cmds[0].cmd, Qualified::Allow(All::Only(ref c)) if c.0 == "/bin/x"));
    assert!(matches!(clause.cmds[1].cmd, Qualified::Allow(All::Only(ref c)) if c.0 == "/bin/y"));
}

#[test]
fn upper_accepts_every_unicode_uppercase_character() {
    assert!(Upper::accept('N'));
    assert!(Upper::accept('\u{C4}'));
    assert!(!Upper::accept('a'));
    assert!(!Upper::accept('\u{E4}'));
    assert!(!Upper::accept('7'));
}

#[test]
fn command_trim_covers_all_whitespace() {
    let rule = parse_line("user ALL=/bin/x\r").unwrap();
    let clause = &rule.clauses[0];
    assert!(matches!(clause.cmds[0].cmd, Qualified::Allow(All::Only(ref c)) if c.0 == "/bin/x"));
}

#[test]
fn decimal_construction_parses_signed_values() {
    assert_eq!(Decimal::from_text("42").unwrap().0, 42);
    assert_eq!(Decimal::from_text("+8").unwrap().0, 8);
    assert_eq!(Decimal::from_text("-17").unwrap().0, -17);
    assert_eq!(Decimal::from_text("007").unwrap().0, 7);
    assert_eq!(Decimal::from_text("2147483647").unwrap().0, 2147483647);
    assert_eq!(Decimal::from_text("-2147483648").unwrap().0, -2147483648);
}

#[test]
fn decimal_construction_rejects_bad_text() {
    assert!(Decimal::from_text("").is_none());
    assert!(Decimal::from_text("+").is_none());
    assert!(Decimal::from_text("-").is_none());
    assert!(Decimal::from_text("12a").is_none());
    assert!(Decimal::from_text("2147483648").is_none());
    assert!(Decimal::from_text("-2147483649").is_none());
    assert!(Decimal::from_text("99999999999999999999").is_none());
}
