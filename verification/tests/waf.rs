use olwsx::security::waf::{
    contains_ci, default_rules, eq_ci, short, Action, Engine, Field, Matcher, RequestView, Rule,
};

fn request<'a>(path: &'a str, headers: &'a [(&'a str, &'a str)], body: &'a [u8]) -> RequestView<'a> {
    RequestView { path, user_agent: "curl/7.79.1", headers, body, ip: "203.0.113.10" }
}

fn rule(id: u32, field: Field, matcher: Matcher, action: Action) -> Rule {
    Rule { id, field, matcher, action, tags: &["t"], severity: id as u8 }
}

#[test]
fn test_decide() {
    let eng = Engine::new(default_rules());
    let req = RequestView {
        path: "/../../etc/passwd",
        user_agent: "curl/7.79.1",
        headers: &[("X-Forwarded-For", "bad-proxy")],
        body: b"GET /?q=UNION SELECT id FROM users",
        ip: "203.0.113.10",
    };
    let d = eng.decide(&req);
    match d.action {
        Action::Deny(code) => assert_eq!(code, 403),
        _ => panic!("expected deny"),
    }
}

#[test]
fn decide_reports_the_rule_it_applied() {
    let eng = Engine::new(default_rules());
    let d = eng.decide(&request("/../../etc/passwd", &[], b""));
    assert_eq!(d.applied_rule_id, Some(1));
    assert_eq!(d.action, Action::Deny(403));
    assert_eq!(d.reason, "path matched contains(../)");
    assert_eq!(d.tags, vec!["traversal"]);
    assert_eq!(d.severity, 8);
    assert!(d.ts_ms > 1_000_000_000_000);
}

#[test]
fn decide_allows_when_no_rule_matches() {
    let eng = Engine::new(default_rules());
    let d = eng.decide(&request("/index.html", &[("Accept", "*/*")], b"hello"));
    assert_eq!(d.applied_rule_id, None);
    assert_eq!(d.action, Action::Allow);
    assert_eq!(d.reason, "no rule matched");
    assert_eq!(d.tags, Vec::<&'static str>::new());
    assert_eq!(d.severity, 0);
    let none = Engine::new(vec![]);
    assert_eq!(none.decide(&request("/../", &[], b"")).applied_rule_id, None);
}

#[test]
fn decide_default_rules_one_by_one() {
    let eng = Engine::new(default_rules());
    let mut req = request("/", &[], b"");
    req.user_agent = "SQLMap/1.5";
    let d = eng.decide(&req);
    assert_eq!(d.applied_rule_id, Some(2));
    assert_eq!(d.reason, "ua matched contains(sqlmap)");
    assert_eq!(d.tags, vec!["sql_injection_bot"]);
    assert_eq!(d.severity, 7);

    let d = eng.decide(&request("/", &[("x-forwarded-for", "a BAD-PROXY b")], b""));
    assert_eq!(d.applied_rule_id, Some(3));
    assert_eq!(d.action, Action::Challenge(429));
    assert_eq!(d.reason, "header X-Forwarded-For matched regex-lite(bad-proxy)");
    assert_eq!(d.tags, vec!["proxy_abuse"]);
    assert_eq!(d.severity, 5);

    let d = eng.decide(&request("/", &[], b"q=1 union select 1"));
    assert_eq!(d.applied_rule_id, Some(4));
    assert_eq!(d.action, Action::Deny(403));
    assert_eq!(d.reason, "body matched");
    assert_eq!(d.tags, vec!["sql_injection"]);
    assert_eq!(d.severity, 9);

    let d = eng.decide(&request("/.Well-Known/acme", &[], b""));
    assert_eq!(d.applied_rule_id, Some(5));
    assert_eq!(d.action, Action::Allow);
    assert_eq!(d.reason, "explicit allow");
    assert_eq!(d.tags, vec!["safe_allowlist"]);
    assert_eq!(d.severity, 1);
}

#[test]
fn decide_a_later_deny_beats_an_earlier_challenge() {
    let eng = Engine::new(default_rules());
    let d = eng.decide(&request("/", &[("X-Forwarded-For", "bad-proxy")], b"UNION SELECT"));
    assert_eq!(d.applied_rule_id, Some(4));
    assert_eq!(d.action, Action::Deny(403));
}

#[test]
fn decide_the_first_settling_rule_wins() {
    let rules = vec![
        rule(1, Field::Path, Matcher::Prefix("/a".to_string()), Action::LogOnly),
        rule(2, Field::Path, Matcher::Prefix("/a".to_string()), Action::Challenge(401)),
        rule(3, Field::Path, Matcher::Prefix("/a".to_string()), Action::Allow),
        rule(4, Field::Path, Matcher::Prefix("/a".to_string()), Action::Deny(403)),
    ];
    let d = Engine::new(rules).decide(&request("/abc", &[], b""));
    assert_eq!(d.applied_rule_id, Some(3));
    assert_eq!(d.action, Action::Allow);
    assert_eq!(d.reason, "explicit allow");
    let rules = vec![
        rule(1, Field::Path, Matcher::Prefix("/a".to_string()), Action::Deny(451)),
        rule(2, Field::Path, Matcher::Prefix("/a".to_string()), Action::Allow),
    ];
    let d = Engine::new(rules).decide(&request("/abc", &[], b""));
    assert_eq!(d.applied_rule_id, Some(1));
    assert_eq!(d.action, Action::Deny(451));
    assert_eq!(d.reason, "path matched prefix(/a)");
}

#[test]
fn decide_the_last_challenge_wins_over_logs() {
    let rules = vec![
        rule(1, Field::Path, Matcher::Contains("a".to_string()), Action::LogOnly),
        rule(2, Field::Path, Matcher::Contains("a".to_string()), Action::Challenge(401)),
        rule(3, Field::Path, Matcher::Contains("zzz".to_string()), Action::Deny(403)),
        rule(4, Field::Path, Matcher::Contains("a".to_string()), Action::LogOnly),
        rule(5, Field::Path, Matcher::Contains("a".to_string()), Action::Challenge(429)),
        rule(6, Field::Path, Matcher::Contains("a".to_string()), Action::LogOnly),
    ];
    let d = Engine::new(rules).decide(&request("/abc", &[], b""));
    assert_eq!(d.applied_rule_id, Some(5));
    assert_eq!(d.action, Action::Challenge(429));
    assert_eq!(d.reason, "path matched contains(a)");
    assert_eq!(d.severity, 5);
}

#[test]
fn decide_the_first_log_wins_without_a_challenge() {
    let rules = vec![
        rule(1, Field::Ip, Matcher::Eq("10.0.0.1".to_string()), Action::LogOnly),
        rule(2, Field::Ip, Matcher::Suffix(".10".to_string()), Action::LogOnly),
        rule(3, Field::Ip, Matcher::Prefix("203.".to_string()), Action::LogOnly),
    ];
    let d = Engine::new(rules).decide(&request("/", &[], b""));
    assert_eq!(d.applied_rule_id, Some(2));
    assert_eq!(d.action, Action::LogOnly);
    assert_eq!(d.reason, "ip matched suffix(.10)");
}

#[test]
fn header_rules_look_at_the_first_header_of_the_name() {
    let eng = Engine::new(vec![rule(
        1,
        Field::Header("X-Tag".to_string()),
        Matcher::Eq("bad".to_string()),
        Action::Deny(403),
    )]);
    assert_eq!(eng.decide(&request("/", &[("x-tag", "BAD")], b"")).applied_rule_id, Some(1));
    assert_eq!(eng.decide(&request("/", &[("x-tag", "good"), ("X-Tag", "bad")], b"")).applied_rule_id, None);
    assert_eq!(eng.decide(&request("/", &[("other", "bad"), ("X-TAG", "bad")], b"")).applied_rule_id, Some(1));
    assert_eq!(eng.decide(&request("/", &[], b"")).applied_rule_id, None);
    assert_eq!(eng.decide(&request("/", &[("X-Tag2", "bad")], b"")).applied_rule_id, None);
    let d = eng.decide(&request("/", &[("x-tag", "bad")], b""));
    assert_eq!(d.reason, "header X-Tag matched eq(bad)");
}

#[test]
fn match_str_by_kind() {
    let eng = Engine::new(vec![]);
    assert!(eng.match_str("/Admin/Panel", &Matcher::Contains("admin".to_string())));
    assert!(eng.match_str("/Admin/Panel", &Matcher::Regex("PANEL".to_string())));
    assert!(!eng.match_str("/Admin/Panel", &Matcher::Contains("root".to_string())));
    assert!(eng.match_str("anything", &Matcher::Contains("".to_string())));
    assert!(eng.match_str("/Admin/Panel", &Matcher::Prefix("/admin".to_string())));
    assert!(!eng.match_str("/Admin/Panel", &Matcher::Prefix("admin".to_string())));
    assert!(!eng.match_str("/a", &Matcher::Prefix("/admin".to_string())));
    assert!(eng.match_str("/Admin/Panel", &Matcher::Suffix("PANEL".to_string())));
    assert!(!eng.match_str("/Admin/Panel", &Matcher::Suffix("/admin".to_string())));
    assert!(!eng.match_str("l", &Matcher::Suffix("panel".to_string())));
    assert!(eng.match_str("/Admin/Panel", &Matcher::Eq("/admin/panel".to_string())));
    assert!(!eng.match_str("/Admin/Panel", &Matcher::Eq("/admin".to_string())));
    assert!(eng.match_str("", &Matcher::Eq("".to_string())));
}

#[test]
fn match_str_prefix_inside_a_character_is_no_match() {
    let eng = Engine::new(vec![]);
    assert!(!eng.match_str("\u{e9}t\u{e9}", &Matcher::Prefix("a".to_string())));
    assert!(!eng.match_str("\u{e9}t\u{e9}", &Matcher::Suffix("a".to_string())));
    assert!(eng.match_str("\u{e9}t\u{e9}", &Matcher::Prefix("\u{e9}T".to_string())));
}

#[test]
fn match_bytes_by_kind() {
    let eng = Engine::new(vec![]);
    let body = b"id=1 UNION select *";
    assert!(eng.match_bytes(body, &Matcher::Contains("union SELECT".to_string())));
    assert!(eng.match_bytes(body, &Matcher::Regex("union".to_string())));
    assert!(eng.match_bytes(body, &Matcher::Eq("union".to_string())));
    assert!(!eng.match_bytes(body, &Matcher::Eq("drop".to_string())));
    assert!(eng.match_bytes(body, &Matcher::Prefix("ID=".to_string())));
    assert!(!eng.match_bytes(body, &Matcher::Prefix("union".to_string())));
    assert!(eng.match_bytes(body, &Matcher::Suffix("SELECT *".to_string())));
    assert!(!eng.match_bytes(body, &Matcher::Suffix("select".to_string())));
    assert!(eng.match_bytes(b"", &Matcher::Contains("".to_string())));
    assert!(!eng.match_bytes(b"", &Matcher::Contains("x".to_string())));
    assert!(eng.match_bytes(&[0xff, b'A', 0x00], &Matcher::Contains("a".to_string())));
}

#[test]
fn matches_picks_the_field() {
    let eng = Engine::new(vec![]);
    let req = RequestView {
        path: "/p",
        user_agent: "agent",
        headers: &[("H", "hv")],
        body: b"body",
        ip: "1.2.3.4",
    };
    assert!(eng.matches(&req, &rule(1, Field::Path, Matcher::Eq("/P".to_string()), Action::Allow)));
    assert!(eng.matches(&req, &rule(1, Field::UserAgent, Matcher::Eq("AGENT".to_string()), Action::Allow)));
    assert!(eng.matches(&req, &rule(1, Field::Ip, Matcher::Eq("1.2.3.4".to_string()), Action::Allow)));
    assert!(eng.matches(&req, &rule(1, Field::Body, Matcher::Eq("od".to_string()), Action::Allow)));
    assert!(eng.matches(&req, &rule(1, Field::Header("h".to_string()), Matcher::Eq("HV".to_string()), Action::Allow)));
    assert!(!eng.matches(&req, &rule(1, Field::Path, Matcher::Eq("agent".to_string()), Action::Allow)));
    assert!(!eng.matches(&req, &rule(1, Field::Header("hv".to_string()), Matcher::Eq("hv".to_string()), Action::Allow)));
}

#[test]
fn contains_ci_lowers_by_unicode_rules() {
    assert!(contains_ci("HELLO WORLD", "lo wo"));
    assert!(contains_ci("hello world", "LO WO"));
    assert!(contains_ci("GR\u{dc}SSE", "gr\u{fc}ss"));
    assert!(!contains_ci("hello", "world"));
    assert!(contains_ci("", ""));
    assert!(!contains_ci("", "a"));
}

#[test]
fn eq_ci_is_blind_to_ascii_case_only() {
    assert!(eq_ci("Content-Type", "content-type"));
    assert!(eq_ci("", ""));
    assert!(!eq_ci("a", "ab"));
    assert!(!eq_ci("\u{dc}", "\u{fc}"));
    assert!(eq_ci("\u{fc}B", "\u{fc}b"));
    assert!(!eq_ci("@", "`"));
    assert!(!eq_ci("[", "{"));
}

#[test]
fn short_names_the_matcher() {
    assert_eq!(short(&Matcher::Contains("a".to_string())), "contains(a)");
    assert_eq!(short(&Matcher::Prefix("/x".to_string())), "prefix(/x)");
    assert_eq!(short(&Matcher::Suffix(".php".to_string())), "suffix(.php)");
    assert_eq!(short(&Matcher::Regex("a|b".to_string())), "regex-lite(a|b)");
    assert_eq!(short(&Matcher::Eq("".to_string())), "eq()");
}

#[test]
fn describe_match_names_the_field() {
    let req = request("/", &[], b"");
    let r = rule(1, Field::UserAgent, Matcher::Suffix("bot".to_string()), Action::LogOnly);
    assert_eq!(Engine::describe_match(&req, &r), "ua matched suffix(bot)");
    let r = rule(1, Field::Ip, Matcher::Prefix("10.".to_string()), Action::LogOnly);
    assert_eq!(Engine::describe_match(&req, &r), "ip matched prefix(10.)");
    let r = rule(1, Field::Body, Matcher::Prefix("10.".to_string()), Action::LogOnly);
    assert_eq!(Engine::describe_match(&req, &r), "body matched");
}

#[test]
fn default_rules_are_the_five_frozen_ones() {
    let rules = default_rules();
    assert_eq!(rules.len(), 5);
    let ids: Vec<u32> = rules.iter().map(|r| r.id).collect();
    assert_eq!(ids, vec![1, 2, 3, 4, 5]);
    let severities: Vec<u8> = rules.iter().map(|r| r.severity).collect();
    assert_eq!(severities, vec![8, 7, 5, 9, 1]);
    let actions: Vec<Action> = rules.iter().map(|r| r.action).collect();
    assert_eq!(
        actions,
        vec![Action::Deny(403), Action::Deny(403), Action::Challenge(429), Action::Deny(403), Action::Allow]
    );
    match &rules[2].field {
        Field::Header(name) => assert_eq!(name, "X-Forwarded-For"),
        _ => panic!("expected a header rule"),
    }
    match &rules[4].matcher {
        Matcher::Prefix(p) => assert_eq!(p, "/.well-known/"),
        _ => panic!("expected a prefix matcher"),
    }
    assert_eq!(rules[3].tags, &["sql_injection"]);
}
