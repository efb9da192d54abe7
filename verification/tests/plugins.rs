use olwsx::plugins::filter_example::GuardFilter;
use olwsx::plugins::handler_example::StaticJsonHandler;
use olwsx::plugins::sdk::{
    add_header, json, set_body, Config, FilterPlugin, FilterVerdict, HandlerPlugin, HandlerResult,
    PluginMeta, Registry, Request, Response,
};
use olwsx::text::{parse_u16, starts_with_str, str_eq, Table};

struct NopFilter;

impl FilterPlugin for NopFilter {
    fn meta(&self) -> PluginMeta {
        PluginMeta { name: "nop_filter", version: "1.0.0", author: "OLWSX", flags: 0 }
    }
    fn init(&mut self, _cfg: &Config) -> Result<(), String> {
        Ok(())
    }
    fn process(&self, _req: &Request) -> FilterVerdict {
        FilterVerdict::Continue
    }
}

struct EchoHandler;

impl HandlerPlugin for EchoHandler {
    fn meta(&self) -> PluginMeta {
        PluginMeta { name: "echo_handler", version: "1.0.0", author: "OLWSX", flags: 0x0010_0000 }
    }
    fn init(&mut self, _cfg: &Config) -> Result<(), String> {
        Ok(())
    }
    fn handle(&self, req: &Request) -> HandlerResult {
        let mut r = Response::new(200);
        add_header(&mut r, "X-Plugin", "echo_handler");
        set_body(&mut r, req.body.as_slice());
        HandlerResult { resp: r, meta_flags: 0x0010_0000 }
    }
}

struct FailingFilter {
    message: &'static str,
}

impl FilterPlugin for FailingFilter {
    fn meta(&self) -> PluginMeta {
        PluginMeta { name: "failing", version: "0", author: "", flags: 0 }
    }
    fn init(&mut self, cfg: &Config) -> Result<(), String> {
        match cfg.get("ok") {
            Some(_) => Ok(()),
            None => Err(self.message.to_string()),
        }
    }
    fn process(&self, _req: &Request) -> FilterVerdict {
        FilterVerdict::ShortCircuit(Response::new(500))
    }
}

fn get(path: &'static str) -> Request {
    Request { method: "GET", path, headers: vec![], body: vec![], tenant: "default" }
}

#[test]
fn registry_flow() {
    let mut reg = Registry::new();
    reg.register_filter("pre_nop", Box::new(NopFilter)).unwrap();
    reg.register_handler("echo", Box::new(EchoHandler)).unwrap();

    reg.init_all(&Table::new()).unwrap();

    let req = Request { method: "GET", path: "/hello", headers: vec![], body: b"hi".to_vec(), tenant: "default" };
    match reg.filter("pre_nop", &req) {
        FilterVerdict::Continue => {}
        _ => panic!("unexpected"),
    }
    let out = reg.handle("echo", &req).unwrap();
    assert_eq!(out.resp.status, 200);
    assert_eq!(out.resp.body, b"hi".to_vec());
    reg.teardown_all();
}

#[test]
fn deny_and_rewrite() {
    let mut f = GuardFilter::new();
    let mut cfg = Config::new();
    cfg.insert("rewrite_from".to_string(), "/old/".to_string());
    cfg.insert("rewrite_to".to_string(), "/new/".to_string());
    f.init(&cfg).unwrap();

    let req = Request { method: "GET", path: "/old/page", headers: vec![], body: vec![], tenant: "default" };
    match f.process(&req) {
        FilterVerdict::Mutate(m) => assert_eq!(m.path, "/new/page"),
        _ => panic!("expected mutate"),
    }

    let bad = Request { method: "GET", path: "/../../etc/passwd", headers: vec![], body: vec![], tenant: "default" };
    match f.process(&bad) {
        FilterVerdict::ShortCircuit(r) => assert_eq!(r.status, 403),
        _ => panic!("expected deny"),
    }
}

#[test]
fn health_and_echo() {
    let h = StaticJsonHandler::new();
    let health = Request { method: "GET", path: "/__health", headers: vec![], body: vec![], tenant: "default" };
    let r = h.handle(&health);
    assert_eq!(r.resp.status, 200);
    assert!(String::from_utf8(r.resp.body.clone()).unwrap().contains("\"ok\""));

    let echo = Request { method: "POST", path: "/echo", headers: vec![], body: b"OLWSX".to_vec(), tenant: "default" };
    let r2 = h.handle(&echo);
    assert_eq!(r2.resp.status, 200);
    assert_eq!(r2.resp.body, b"OLWSX".to_vec());
}

#[test]
fn registry_refuses_a_key_that_is_taken() {
    let mut reg = Registry::new();
    assert_eq!(reg.register_filter("k", Box::new(NopFilter)), Ok(()));
    assert_eq!(
        reg.register_filter("k", Box::new(NopFilter)),
        Err("filter key 'k' already registered".to_string())
    );
    assert_eq!(reg.register_handler("k", Box::new(EchoHandler)), Ok(()));
    assert_eq!(
        reg.register_handler("k", Box::new(EchoHandler)),
        Err("handler key 'k' already registered".to_string())
    );
    assert_eq!(reg.register_filter("", Box::new(NopFilter)), Ok(()));
    assert_eq!(reg.register_filter("", Box::new(NopFilter)), Err("filter key '' already registered".to_string()));
}

#[test]
fn registry_without_the_plugin_lets_pass() {
    let mut reg = Registry::new();
    reg.register_filter("deny", Box::new(FailingFilter { message: "x" })).unwrap();
    let req = get("/");
    match reg.filter("other", &req) {
        FilterVerdict::Continue => {}
        _ => panic!("expected continue"),
    }
    match reg.filter("deny", &req) {
        FilterVerdict::ShortCircuit(r) => assert_eq!(r.status, 500),
        _ => panic!("expected short circuit"),
    }
    assert!(reg.handle("deny", &req).is_none());
    assert!(reg.handle("", &req).is_none());
}

#[test]
fn registry_init_all_hands_each_plugin_its_settings() {
    let mut reg = Registry::new();
    reg.register_filter("first", Box::new(FailingFilter { message: "first failed" })).unwrap();
    reg.register_filter("second", Box::new(FailingFilter { message: "second failed" })).unwrap();
    assert_eq!(reg.init_all(&Table::new()), Err("first failed".to_string()));
    let mut ok = Config::new();
    ok.insert("ok".to_string(), "1".to_string());
    let mut cfgs: Table<Config> = Table::new();
    cfgs.insert("first".to_string(), ok);
    assert_eq!(reg.init_all(&cfgs), Err("second failed".to_string()));
    let mut ok = Config::new();
    ok.insert("ok".to_string(), "1".to_string());
    cfgs.insert("second".to_string(), ok);
    assert_eq!(reg.init_all(&cfgs), Ok(()));
    reg.teardown_all();
}

#[test]
fn registry_init_all_reaches_the_shipped_plugins() {
    let mut reg = Registry::new();
    reg.register_filter("guard", Box::new(GuardFilter::new())).unwrap();
    reg.register_handler("static", Box::new(StaticJsonHandler::new())).unwrap();
    let mut guard = Config::new();
    guard.insert("deny_traversal".to_string(), "false".to_string());
    let mut fixed = Config::new();
    fixed.insert("route".to_string(), "/up".to_string());
    fixed.insert("status".to_string(), "204".to_string());
    let mut cfgs: Table<Config> = Table::new();
    cfgs.insert("guard".to_string(), guard);
    cfgs.insert("static".to_string(), fixed);
    assert_eq!(reg.init_all(&cfgs), Ok(()));
    match reg.filter("guard", &get("/../x")) {
        FilterVerdict::Continue => {}
        _ => panic!("expected continue"),
    }
    let out = reg.handle("static", &get("/up")).unwrap();
    assert_eq!(out.resp.status, 204);
    assert_eq!(out.meta_flags, 0x0010_0000);
    let mut bad = Config::new();
    bad.insert("status".to_string(), "20x".to_string());
    cfgs.insert("static".to_string(), bad);
    assert_eq!(reg.init_all(&cfgs), Err("invalid status".to_string()));
}

#[test]
fn response_helpers() {
    let r = Response::new(204);
    assert_eq!(r.status, 204);
    assert!(r.headers.is_empty());
    assert!(r.body.is_empty());
    let mut r = Response::new(200);
    add_header(&mut r, "A", "1");
    add_header(&mut r, "A", "2");
    assert_eq!(r.headers, vec![("A".to_string(), "1".to_string()), ("A".to_string(), "2".to_string())]);
    set_body(&mut r, b"abc");
    set_body(&mut r, b"de");
    assert_eq!(r.body, b"de".to_vec());
    assert_eq!(r.status, 200);
    let j = json(b"{}");
    assert_eq!(j.status, 200);
    assert_eq!(j.headers, vec![("Content-Type".to_string(), "application/json".to_string())]);
    assert_eq!(j.body, b"{}".to_vec());
}

#[test]
fn guard_filter_denies_traversal_with_its_fixed_answer() {
    let f = GuardFilter::new();
    assert_eq!(f.meta().name, "guard_filter");
    assert_eq!(f.meta().version, "1.0.0");
    assert_eq!(f.meta().author, "OverLab");
    assert_eq!(f.meta().flags, 0x0010_0000);
    match f.process(&get("/a/../b")) {
        FilterVerdict::ShortCircuit(r) => {
            assert_eq!(r.status, 403);
            assert_eq!(
                r.headers,
                vec![
                    ("Content-Type".to_string(), "text/plain".to_string()),
                    ("X-WAF".to_string(), "guard_filter".to_string()),
                ]
            );
            assert_eq!(r.body, b"path traversal denied".to_vec());
        }
        _ => panic!("expected deny"),
    }
    match f.process(&get("/a/..b/./c")) {
        FilterVerdict::Continue => {}
        _ => panic!("expected continue"),
    }
}

#[test]
fn guard_filter_settings() {
    let mut f = GuardFilter::new();
    let mut cfg = Config::new();
    cfg.insert("deny_traversal".to_string(), "no".to_string());
    cfg.insert("rewrite_from".to_string(), "/../".to_string());
    f.init(&cfg).unwrap();
    // Traversal passes, and a rewrite needs both ends.
    match f.process(&get("/../x")) {
        FilterVerdict::Continue => {}
        _ => panic!("expected continue"),
    }
    cfg.insert("rewrite_to".to_string(), "/safe/".to_string());
    cfg.insert("deny_traversal".to_string(), "true".to_string());
    f.init(&cfg).unwrap();
    match f.process(&get("/../x")) {
        FilterVerdict::ShortCircuit(r) => assert_eq!(r.status, 403),
        _ => panic!("expected deny"),
    }
    f.init(&Config::new()).unwrap();
    match f.process(&get("/../x")) {
        FilterVerdict::ShortCircuit(r) => assert_eq!(r.status, 403),
        _ => panic!("expected deny"),
    }
    f.teardown();
}

#[test]
fn guard_filter_rewrites_only_a_prefix_and_keeps_the_rest() {
    let mut f = GuardFilter::new();
    let mut cfg = Config::new();
    cfg.insert("rewrite_from".to_string(), "/old/".to_string());
    cfg.insert("rewrite_to".to_string(), "/n\u{e9}w/".to_string());
    f.init(&cfg).unwrap();
    let req = Request {
        method: "PUT",
        path: "/old/p\u{e4}ge/old/",
        headers: vec![("A".to_string(), "b".to_string())],
        body: vec![1, 2],
        tenant: "t1",
    };
    match f.process(&req) {
        FilterVerdict::Mutate(m) => {
            assert_eq!(m.path, "/n\u{e9}w/p\u{e4}ge/old/");
            assert_eq!(m.method, "PUT");
            assert_eq!(m.headers, vec![("A".to_string(), "b".to_string())]);
            assert_eq!(m.body, vec![1, 2]);
            assert_eq!(m.tenant, "t1");
        }
        _ => panic!("expected mutate"),
    }
    match f.process(&get("/x/old/")) {
        FilterVerdict::Continue => {}
        _ => panic!("expected continue"),
    }
    match f.process(&get("/old")) {
        FilterVerdict::Continue => {}
        _ => panic!("expected continue"),
    }
    match f.process(&get("/old/")) {
        FilterVerdict::Mutate(m) => assert_eq!(m.path, "/n\u{e9}w/"),
        _ => panic!("expected mutate"),
    }
}

#[test]
fn static_handler_answers() {
    let h = StaticJsonHandler::new();
    assert_eq!(h.meta().name, "static_json");
    assert_eq!(h.meta().flags, 0x0010_0000);
    let r = h.handle(&get("/__health"));
    assert_eq!(r.meta_flags, 0x0010_0000);
    assert_eq!(r.resp.body, b"{\"status\":\"ok\",\"server\":\"OLWSX\"}".to_vec());
    assert_eq!(
        r.resp.headers,
        vec![
            ("Content-Type".to_string(), "application/json".to_string()),
            ("Cache-Control".to_string(), "no-store".to_string()),
        ]
    );
    let echo = Request { method: "POST", path: "/echo/any", headers: vec![], body: b"x".to_vec(), tenant: "default" };
    let r = h.handle(&echo);
    assert_eq!(r.meta_flags, 0x0001_0000);
    assert_eq!(r.resp.headers, vec![("Content-Type".to_string(), "application/octet-stream".to_string())]);
    let r = h.handle(&get("/echo"));
    assert_eq!(r.resp.status, 404);
    assert_eq!(r.meta_flags, 0);
    assert_eq!(r.resp.body, b"not found".to_vec());
    assert_eq!(r.resp.headers, vec![("Content-Type".to_string(), "text/plain".to_string())]);
    let post = Request { method: "POST", path: "/ech", headers: vec![], body: vec![], tenant: "default" };
    assert_eq!(h.handle(&post).resp.status, 404);
}

#[test]
fn static_handler_settings() {
    let mut h = StaticJsonHandler::new();
    let mut cfg = Config::new();
    cfg.insert("route".to_string(), "/status".to_string());
    cfg.insert("status".to_string(), "+0203".to_string());
    assert_eq!(h.init(&cfg), Ok(()));
    assert_eq!(h.handle(&get("/status")).resp.status, 203);
    assert_eq!(h.handle(&get("/__health")).resp.status, 404);
    let mut cfg = Config::new();
    cfg.insert("route".to_string(), "/up".to_string());
    cfg.insert("status".to_string(), "65536".to_string());
    assert_eq!(h.init(&cfg), Err("invalid status".to_string()));
    // The route was taken before the status was refused.
    assert_eq!(h.handle(&get("/up")).resp.status, 203);
    assert_eq!(h.init(&Config::new()), Ok(()));
    assert_eq!(h.handle(&get("/up")).resp.status, 203);
    h.teardown();
}

#[test]
fn parse_u16_reads_decimal() {
    assert_eq!(parse_u16("0"), Some(0));
    assert_eq!(parse_u16("200"), Some(200));
    assert_eq!(parse_u16("+7"), Some(7));
    assert_eq!(parse_u16("007"), Some(7));
    assert_eq!(parse_u16("65535"), Some(65535));
    assert_eq!(parse_u16("0000000000000000000065535"), Some(65535));
    assert_eq!(parse_u16("65536"), None);
    assert_eq!(parse_u16("99999999999999999999999"), None);
    assert_eq!(parse_u16(""), None);
    assert_eq!(parse_u16("+"), None);
    assert_eq!(parse_u16("-1"), None);
    assert_eq!(parse_u16("++1"), None);
    assert_eq!(parse_u16("1+"), None);
    assert_eq!(parse_u16(" 1"), None);
    assert_eq!(parse_u16("1 "), None);
    assert_eq!(parse_u16("12a"), None);
    assert_eq!(parse_u16("7000a"), None);
    assert_eq!(parse_u16("\u{661}"), None);
}

#[test]
fn string_helpers() {
    assert!(str_eq("", ""));
    assert!(str_eq("a\u{e9}", "a\u{e9}"));
    assert!(!str_eq("a", "A"));
    assert!(!str_eq("a", "ab"));
    assert!(starts_with_str("/echo/x", "/echo"));
    assert!(starts_with_str("/echo", "/echo"));
    assert!(starts_with_str("/echo", ""));
    assert!(!starts_with_str("/ech", "/echo"));
    assert!(!starts_with_str("x/echo", "/echo"));
    assert!(starts_with_str("\u{e9}\u{e9}", "\u{e9}"));
}

#[test]
fn table_holds_one_value_per_key() {
    let mut t: Table<u32> = Table::new();
    assert!(!t.contains_key("a"));
    assert_eq!(t.get("a"), None);
    t.insert("a".to_string(), 1);
    t.insert("b".to_string(), 2);
    t.insert("a".to_string(), 3);
    assert!(t.contains_key("a"));
    assert_eq!(t.get("a"), Some(&3));
    assert_eq!(t.get("b"), Some(&2));
    assert_eq!(t.get("A"), None);
    assert_eq!(t.get(""), None);
}
