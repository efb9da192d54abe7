//! A handler that answers a health route with fixed JSON and echoes what is
//! posted under `/echo`.

use vstd::prelude::*;
use vstd::string::StringSliceAdditionalSpecFns;
use vstd::utf8::encode_utf8;
use crate::plugins::sdk::{
    Config, HandlerPlugin, HandlerResult, PluginMeta, ReqView, Request, RespView, Response,
    ResultView, add_header, set_body,
};
use crate::text::{decimal_u16, leak, parse_u16, starts_with_str, str_eq};

verus! {

/// The static handler and its settings.
pub struct StaticJsonHandler {
    meta: PluginMeta,
    route: &'static str,
    content: &'static [u8],
    status: u16,
}

/// The flags of an answer on the health route.
pub const FLAGS_HEALTH: u32 = 0x0010_0000;

/// The flags of an echo.
pub const FLAGS_ECHO: u32 = 0x0001_0000;

/// The flags of an answer to a request that the handler does not serve.
pub const FLAGS_UNSERVED: u32 = 0x0000_0000;

impl StaticJsonHandler {
    /// What the handler says of itself.
    pub closed spec fn about(&self) -> PluginMeta {
        self.meta
    }

    /// The path of the health route.
    pub closed spec fn route(&self) -> Seq<char> {
        self.route@
    }

    /// The bytes served on the health route.
    pub closed spec fn content(&self) -> Seq<u8> {
        self.content@
    }

    /// The status served on the health route.
    pub closed spec fn status(&self) -> u16 {
        self.status
    }

    /// What the handler answers to a request: on the health route, the
    /// fixed content with the set status; to a `POST` under `/echo`, the
    /// body of the request; to anything else, `404`.
    pub open spec fn answer(&self, req: ReqView) -> ResultView {
        if req.path == self.route() {
            ResultView {
                resp: RespView {
                    status: self.status(),
                    headers: seq![
                        ("Content-Type"@, "application/json"@),
                        ("Cache-Control"@, "no-store"@),
                    ],
                    body: self.content(),
                },
                meta_flags: FLAGS_HEALTH,
            }
        } else if "/echo"@.is_prefix_of(req.path) && req.method == "POST"@ {
            ResultView {
                resp: RespView {
                    status: 200,
                    headers: seq![("Content-Type"@, "application/octet-stream"@)],
                    body: req.body,
                },
                meta_flags: FLAGS_ECHO,
            }
        } else {
            ResultView {
                resp: RespView {
                    status: 404,
                    headers: seq![("Content-Type"@, "text/plain"@)],
                    body: "not found".spec_bytes(),
                },
                meta_flags: FLAGS_UNSERVED,
            }
        }
    }

    /// A handler that serves `/__health` with status `200`.
    pub fn new() -> (h: StaticJsonHandler)
        ensures
            h.about() == (PluginMeta {
                name: "static_json",
                version: "1.0.0",
                author: "OverLab",
                flags: 0x0010_0000,
            }),
            h.route() == "/__health"@,
            h.content() == "{\"status\":\"ok\",\"server\":\"OLWSX\"}".spec_bytes(),
            h.status() == 200,
    {
        StaticJsonHandler {
            meta: PluginMeta {
                name: "static_json",
                version: "1.0.0",
                author: "OverLab",
                flags: 0x0010_0000,
            },
            route: "/__health",
            content: "{\"status\":\"ok\",\"server\":\"OLWSX\"}".as_bytes(),
            status: 200,
        }
    }
}

impl HandlerPlugin for StaticJsonHandler {
    open spec fn responds(&self, req: ReqView, result: ResultView) -> bool {
        result == self.answer(req)
    }

    open spec fn starts(&self, cfg: Map<Seq<char>, String>, r: Result<(), String>) -> bool {
        if cfg.contains_key("status"@) && decimal_u16(encode_utf8(cfg["status"@]@)).is_none() {
            r matches Err(msg) && msg@ == "invalid status"@
        } else {
            r is Ok
        }
    }

    fn meta(&self) -> (m: PluginMeta)
        ensures
            m == self.about(),
    {
        self.meta
    }

    /// Takes the settings `route` and `status`. A status that is not a
    /// decimal number of sixteen bits is refused; the route is taken even
    /// then.
    fn init(&mut self, cfg: &Config) -> (r: Result<(), String>)
        ensures
            final(self).about() == old(self).about(),
            final(self).content() == old(self).content(),
            final(self).route() == if cfg@.contains_key("route"@) {
                cfg@["route"@]@
            } else {
                old(self).route()
            },
            !cfg@.contains_key("status"@) ==> r is Ok && final(self).status() == old(
                self,
            ).status(),
            cfg@.contains_key("status"@) ==> match decimal_u16(encode_utf8(cfg@["status"@]@)) {
                Some(n) => r is Ok && final(self).status() == n,
                None => r matches Err(msg) && msg@ == "invalid status"@ && final(self).status()
                    == old(self).status(),
            },
    {
        match cfg.get("route") {
            Some(r) => {
                self.route = leak(r.clone());
            },
            None => {},
        }
        match cfg.get("status") {
            Some(s) => {
                match parse_u16(s.as_str()) {
                    Some(n) => {
                        self.status = n;
                    },
                    None => {
                        return Err(String::from_str("invalid status"));
                    },
                }
            },
            None => {},
        }
        Ok(())
    }

    fn handle(&self, req: &Request) -> (result: HandlerResult)
        ensures
            result@ == self.answer(req@),
    {
        if str_eq(req.path, self.route) {
            let mut resp = Response::new(self.status);
            add_header(&mut resp, "Content-Type", "application/json");
            add_header(&mut resp, "Cache-Control", "no-store");
            set_body(&mut resp, self.content);
            assert(resp@.headers =~= seq![
                ("Content-Type"@, "application/json"@),
                ("Cache-Control"@, "no-store"@),
            ]);
            HandlerResult { resp, meta_flags: FLAGS_HEALTH }
        } else if starts_with_str(req.path, "/echo") && str_eq(req.method, "POST") {
            let mut resp = Response::new(200);
            add_header(&mut resp, "Content-Type", "application/octet-stream");
            set_body(&mut resp, req.body.as_slice());
            assert(resp@.headers =~= seq![("Content-Type"@, "application/octet-stream"@)]);
            HandlerResult { resp, meta_flags: FLAGS_ECHO }
        } else {
            let mut resp = Response::new(404);
            add_header(&mut resp, "Content-Type", "text/plain");
            set_body(&mut resp, "not found".as_bytes());
            assert(resp@.headers =~= seq![("Content-Type"@, "text/plain"@)]);
            HandlerResult { resp, meta_flags: FLAGS_UNSERVED }
        }
    }

    /// Has nothing to release.
    fn teardown(&mut self)
        ensures
            *final(self) == *old(self),
    {
    }
}

} // verus!
