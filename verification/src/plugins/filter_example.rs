//! A filter that refuses path traversal and rewrites a path prefix.

use vstd::prelude::*;
use vstd::string::StrSliceExecFns;
use vstd::string::StringExecFns;
use vstd::string::StringSliceAdditionalSpecFns;
use vstd::utf8::encode_utf8;
use crate::bytes::{contains, occurs_in, to_owned_bytes};
use crate::plugins::sdk::{
    Config, FilterPlugin, FilterVerdict, PluginMeta, ReqView, Request, RespView, Response,
    VerdictView, add_header,
};
use crate::text::{copy_pairs, leak, starts_with_str, str_eq};

verus! {

/// The guard filter and its settings.
pub struct GuardFilter {
    meta: PluginMeta,
    deny_traversal: bool,
    add_server_header: bool,
    rewrite_prefix_from: Option<String>,
    rewrite_prefix_to: Option<String>,
}

/// A switch in the settings: on unless the settings hold something other
/// than `true` under `key`.
pub open spec fn switch(cfg: Map<Seq<char>, String>, key: Seq<char>) -> bool {
    cfg.contains_key(key) ==> cfg[key]@ == "true"@
}

/// A text in the settings, if there is one under `key`.
pub open spec fn setting(cfg: Map<Seq<char>, String>, key: Seq<char>) -> Option<Seq<char>> {
    if cfg.contains_key(key) {
        Some(cfg[key]@)
    } else {
        None
    }
}

/// The answer to a request whose path tries to leave the served tree.
pub open spec fn traversal_denied() -> RespView {
    RespView {
        status: 403,
        headers: seq![("Content-Type"@, "text/plain"@), ("X-WAF"@, "guard_filter"@)],
        body: "path traversal denied".spec_bytes(),
    }
}

fn switch_of(cfg: &Config, key: &str) -> (r: bool)
    requires
        cfg.wf(),
    ensures
        r == switch(cfg@, key@),
{
    match cfg.get(key) {
        Some(v) => str_eq(v.as_str(), "true"),
        None => true,
    }
}

fn setting_of(cfg: &Config, key: &str) -> (r: Option<String>)
    requires
        cfg.wf(),
    ensures
        match r {
            Some(v) => setting(cfg@, key@) == Some(v@),
            None => setting(cfg@, key@).is_none(),
        },
{
    match cfg.get(key) {
        Some(v) => Some(v.clone()),
        None => None,
    }
}

impl GuardFilter {
    /// What the filter says of itself.
    pub closed spec fn about(&self) -> PluginMeta {
        self.meta
    }

    /// Whether the filter refuses paths that hold `../`.
    pub closed spec fn denies_traversal(&self) -> bool {
        self.deny_traversal
    }

    /// Whether the filter is set to announce the server.
    pub closed spec fn adds_server_header(&self) -> bool {
        self.add_server_header
    }

    /// The path prefix that the filter replaces, if it is set.
    pub closed spec fn rewrite_from(&self) -> Option<Seq<char>> {
        match self.rewrite_prefix_from {
            Some(s) => Some(s@),
            None => None,
        }
    }

    /// What the filter puts in place of the prefix, if it is set.
    pub closed spec fn rewrite_to(&self) -> Option<Seq<char>> {
        match self.rewrite_prefix_to {
            Some(s) => Some(s@),
            None => None,
        }
    }

    /// What the filter decides for a request: a path that holds `../` is
    /// refused, if the filter is set to refuse; else a path that begins with
    /// the prefix to replace is rewritten, if both ends of the rewrite are
    /// set; else the request passes.
    pub open spec fn decides(&self, req: ReqView) -> VerdictView {
        if self.denies_traversal() && occurs_in("../".spec_bytes(), encode_utf8(req.path)) {
            VerdictView::ShortCircuit(traversal_denied())
        } else if self.rewrite_from().is_some() && self.rewrite_to().is_some()
            && self.rewrite_from().unwrap().is_prefix_of(req.path) {
            VerdictView::Mutate(
                ReqView {
                    path: self.rewrite_to().unwrap() + req.path.skip(
                        self.rewrite_from().unwrap().len() as int,
                    ),
                    ..req
                },
            )
        } else {
            VerdictView::Continue
        }
    }

    /// A filter that refuses traversal and rewrites nothing.
    pub fn new() -> (f: GuardFilter)
        ensures
            f.about() == (PluginMeta {
                name: "guard_filter",
                version: "1.0.0",
                author: "OverLab",
                flags: 0x0010_0000,
            }),
            f.denies_traversal(),
            f.adds_server_header(),
            f.rewrite_from().is_none(),
            f.rewrite_to().is_none(),
    {
        GuardFilter {
            meta: PluginMeta {
                name: "guard_filter",
                version: "1.0.0",
                author: "OverLab",
                flags: 0x0010_0000,
            },
            deny_traversal: true,
            add_server_header: true,
            rewrite_prefix_from: None,
            rewrite_prefix_to: None,
        }
    }
}

impl FilterPlugin for GuardFilter {
    open spec fn answers(&self, req: ReqView, verdict: VerdictView) -> bool {
        verdict == self.decides(req)
    }

    open spec fn starts(&self, cfg: Map<Seq<char>, String>, r: Result<(), String>) -> bool {
        r is Ok
    }

    fn meta(&self) -> (m: PluginMeta)
        ensures
            m == self.about(),
    {
        self.meta
    }

    /// Takes the settings `deny_traversal`, `add_server_header`,
    /// `rewrite_from` and `rewrite_to`. Never fails.
    fn init(&mut self, cfg: &Config) -> (r: Result<(), String>)
        ensures
            r is Ok,
            final(self).about() == old(self).about(),
            final(self).denies_traversal() == switch(cfg@, "deny_traversal"@),
            final(self).adds_server_header() == switch(cfg@, "add_server_header"@),
            final(self).rewrite_from() == setting(cfg@, "rewrite_from"@),
            final(self).rewrite_to() == setting(cfg@, "rewrite_to"@),
    {
        self.deny_traversal = switch_of(cfg, "deny_traversal");
        self.add_server_header = switch_of(cfg, "add_server_header");
        self.rewrite_prefix_from = setting_of(cfg, "rewrite_from");
        self.rewrite_prefix_to = setting_of(cfg, "rewrite_to");
        Ok(())
    }

    fn process(&self, req: &Request) -> (verdict: FilterVerdict)
        ensures
            verdict@ == self.decides(req@),
    {
        if self.deny_traversal && contains(req.path.as_bytes(), "../".as_bytes()) {
            let mut r = Response::new(403);
            add_header(&mut r, "Content-Type", "text/plain");
            add_header(&mut r, "X-WAF", "guard_filter");
            r.body = to_owned_bytes("path traversal denied".as_bytes());
            assert(r@.headers =~= traversal_denied().headers);
            return FilterVerdict::ShortCircuit(r);
        }
        match (&self.rewrite_prefix_from, &self.rewrite_prefix_to) {
            (Some(from), Some(to)) => {
                if starts_with_str(req.path, from.as_str()) {
                    let rest = req.path.substring_char(
                        from.as_str().unicode_len(),
                        req.path.unicode_len(),
                    );
                    let replaced = String::from_str(to.as_str()).concat(rest);
                    let new_req = Request {
                        method: req.method,
                        path: leak(replaced),
                        headers: copy_pairs(&req.headers),
                        body: to_owned_bytes(req.body.as_slice()),
                        tenant: req.tenant,
                    };
                    assert(new_req@.path =~= to@ + req@.path.skip(from@.len() as int));
                    return FilterVerdict::Mutate(new_req);
                }
            },
            _ => {},
        }
        FilterVerdict::Continue
    }

    /// Has nothing to release.
    fn teardown(&mut self)
        ensures
            *final(self) == *old(self),
    {
    }
}

} // verus!
