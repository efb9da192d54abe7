//! The types that plugins see, the two plugin traits, and the registry that
//! holds plugins by key and runs them.

use vstd::prelude::*;
use crate::bytes::to_owned_bytes;
use crate::text::{Table, pair_texts, str_eq};

verus! {

/// The settings handed to a plugin when it is initialised.
pub type Config = Table<String>;

/// A request as a plugin sees it.
#[derive(Clone, Debug)]
pub struct Request {
    pub method: &'static str,
    pub path: &'static str,
    pub headers: Vec<(String, String)>,
    pub body: Vec<u8>,
    pub tenant: &'static str,
}

/// A response as a plugin builds it.
#[derive(Clone, Debug)]
pub struct Response {
    pub status: u16,
    pub headers: Vec<(String, String)>,
    pub body: Vec<u8>,
}

/// What a filter decides: let the request pass, answer it at once, or let
/// a changed request pass in its place.
#[derive(Clone, Debug)]
pub enum FilterVerdict {
    Continue,
    ShortCircuit(Response),
    Mutate(Request),
}

/// What a handler answers, with the flags that describe the answer.
#[derive(Clone, Debug)]
pub struct HandlerResult {
    pub resp: Response,
    pub meta_flags: u32,
}

/// What a plugin says of itself.
#[derive(Clone, Copy, Debug)]
pub struct PluginMeta {
    pub name: &'static str,
    pub version: &'static str,
    pub author: &'static str,
    pub flags: u32,
}

/// The mathematical value of a [`Request`].
pub struct ReqView {
    pub method: Seq<char>,
    pub path: Seq<char>,
    pub headers: Seq<(Seq<char>, Seq<char>)>,
    pub body: Seq<u8>,
    pub tenant: Seq<char>,
}

/// The mathematical value of a [`Response`].
pub struct RespView {
    pub status: u16,
    pub headers: Seq<(Seq<char>, Seq<char>)>,
    pub body: Seq<u8>,
}

/// The mathematical value of a [`FilterVerdict`].
pub enum VerdictView {
    Continue,
    ShortCircuit(RespView),
    Mutate(ReqView),
}

/// The mathematical value of a [`HandlerResult`].
pub struct ResultView {
    pub resp: RespView,
    pub meta_flags: u32,
}

impl View for Request {
    type V = ReqView;

    open spec fn view(&self) -> ReqView {
        ReqView {
            method: self.method@,
            path: self.path@,
            headers: pair_texts(self.headers@),
            body: self.body@,
            tenant: self.tenant@,
        }
    }
}

impl View for Response {
    type V = RespView;

    open spec fn view(&self) -> RespView {
        RespView { status: self.status, headers: pair_texts(self.headers@), body: self.body@ }
    }
}

impl View for FilterVerdict {
    type V = VerdictView;

    open spec fn view(&self) -> VerdictView {
        match self {
            FilterVerdict::Continue => VerdictView::Continue,
            FilterVerdict::ShortCircuit(r) => VerdictView::ShortCircuit(r@),
            FilterVerdict::Mutate(r) => VerdictView::Mutate(r@),
        }
    }
}

impl View for HandlerResult {
    type V = ResultView;

    open spec fn view(&self) -> ResultView {
        ResultView { resp: self.resp@, meta_flags: self.meta_flags }
    }
}

impl Response {
    /// A response with the given status, no headers and an empty body.
    pub fn new(status: u16) -> (r: Response)
        ensures
            r@ == (RespView { status, headers: Seq::empty(), body: Seq::empty() }),
    {
        let r = Response { status, headers: Vec::new(), body: Vec::new() };
        assert(r@.headers =~= Seq::empty());
        r
    }
}

/// A filter: a plugin that looks at a request before any handler does.
pub trait FilterPlugin: Send + Sync {
    /// What the filter may decide for a request: anything, unless an
    /// implementation states its own rule here. `process` keeps to it.
    open spec fn answers(&self, req: ReqView, verdict: VerdictView) -> bool {
        true
    }

    /// How the filter may answer to being initialised with the given
    /// settings: in any way, unless an implementation states its own rule
    /// here. `init` keeps to it.
    open spec fn starts(&self, cfg: Map<Seq<char>, String>, r: Result<(), String>) -> bool {
        true
    }

    fn meta(&self) -> PluginMeta;

    fn init(&mut self, cfg: &Config) -> (r: Result<(), String>)
        requires
            cfg.wf(),
        ensures
            old(self).starts(cfg@, r),
    ;

    fn process(&self, req: &Request) -> (verdict: FilterVerdict)
        ensures
            self.answers(req@, verdict@),
    ;

    fn teardown(&mut self) {
    }
}

/// A handler: a plugin that answers requests.
pub trait HandlerPlugin: Send + Sync {
    /// What the handler may answer to a request: anything, unless an
    /// implementation states its own rule here. `handle` keeps to it.
    open spec fn responds(&self, req: ReqView, result: ResultView) -> bool {
        true
    }

    /// How the handler may answer to being initialised with the given
    /// settings: in any way, unless an implementation states its own rule
    /// here. `init` keeps to it.
    open spec fn starts(&self, cfg: Map<Seq<char>, String>, r: Result<(), String>) -> bool {
        true
    }

    fn meta(&self) -> PluginMeta;

    fn init(&mut self, cfg: &Config) -> (r: Result<(), String>)
        requires
            cfg.wf(),
        ensures
            old(self).starts(cfg@, r),
    ;

    fn handle(&self, req: &Request) -> (result: HandlerResult)
        ensures
            self.responds(req@, result@),
    ;

    fn teardown(&mut self) {
    }
}

/// The plugins of a server, by key, in the order in which they were
/// registered.
pub struct Registry {
    filter_keys: Vec<&'static str>,
    filters: Vec<Box<dyn FilterPlugin>>,
    handler_keys: Vec<&'static str>,
    handlers: Vec<Box<dyn HandlerPlugin>>,
}

/// The texts of a list of keys.
spec fn names(keys: Seq<&'static str>) -> Seq<Seq<char>> {
    keys.map_values(|k: &'static str| k@)
}

/// The settings that `cfgs` holds for the plugin registered under `name`:
/// those under that key, or none.
pub open spec fn settings_for(cfgs: Map<Seq<char>, Config>, name: Seq<char>) -> Map<
    Seq<char>,
    String,
> {
    if cfgs.contains_key(name) {
        cfgs[name]@
    } else {
        Map::empty()
    }
}

/// The message for a key that is registered already.
pub open spec fn taken(kind: Seq<char>, key: Seq<char>) -> Seq<char> {
    kind + " key '"@ + key + "' already registered"@
}

/// A key that a list of distinct keys does not hold can join it.
proof fn lemma_push_distinct(s: Seq<Seq<char>>, key: Seq<char>)
    requires
        s.no_duplicates(),
        !s.contains(key),
    ensures
        s.push(key).no_duplicates(),
{
    let t = s.push(key);
    assert forall|i: int, j: int| 0 <= i < t.len() && 0 <= j < t.len() && i != j implies t[i]
        != t[j] by {
        if i < s.len() && j < s.len() {
        } else if i < s.len() {
            assert(s[i] == t[i]);
            assert(s.contains(t[i]));
        } else {
            assert(s[j] == t[j]);
            assert(s.contains(t[j]));
        }
    }
}

/// Appends `item` to `list`.
fn append<T>(list: &mut Vec<T>, item: T)
    ensures
        final(list)@ == old(list)@.push(item),
        final(list)@.len() == old(list)@.len() + 1,
{
    list.push(item);
}

fn taken_message(kind: &str, key: &str) -> (msg: String)
    ensures
        msg@ == taken(kind@, key@),
{
    let mut msg = String::from_str(kind);
    msg.append(" key '");
    msg.append(key);
    msg.append("' already registered");
    msg
}

fn position_of(keys: &Vec<&'static str>, key: &str) -> (r: Option<usize>)
    ensures
        match r {
            Some(i) => i < keys@.len() && names(keys@)[i as int] == key@ && forall|j: int|
                0 <= j < i ==> names(keys@)[j] != key@,
            None => !names(keys@).contains(key@),
        },
{
    let mut i: usize = 0;
    while i < keys.len()
        invariant
            i <= keys.len(),
            forall|j: int| 0 <= j < i ==> names(keys@)[j] != key@,
        decreases keys.len() - i,
    {
        if str_eq(keys[i], key) {
            return Some(i);
        }
        i += 1;
    }
    None
}

impl Registry {
    /// The keys of the registered filters, in order of registration.
    pub closed spec fn filter_names(&self) -> Seq<Seq<char>> {
        names(self.filter_keys@)
    }

    /// The registered filters, in order of registration.
    pub closed spec fn filter_plugins(&self) -> Seq<Box<dyn FilterPlugin>> {
        self.filters@
    }

    /// The keys of the registered handlers, in order of registration.
    pub closed spec fn handler_names(&self) -> Seq<Seq<char>> {
        names(self.handler_keys@)
    }

    /// The registered handlers, in order of registration.
    pub closed spec fn handler_plugins(&self) -> Seq<Box<dyn HandlerPlugin>> {
        self.handlers@
    }

    /// Filter `i` may answer `r` to being initialised with its settings.
    pub open spec fn filter_starts(
        &self,
        cfgs: Map<Seq<char>, Config>,
        i: int,
        r: Result<(), String>,
    ) -> bool {
        self.filter_plugins()[i].starts(settings_for(cfgs, self.filter_names()[i]), r)
    }

    /// Handler `i` may answer `r` to being initialised with its settings.
    pub open spec fn handler_starts(
        &self,
        cfgs: Map<Seq<char>, Config>,
        i: int,
        r: Result<(), String>,
    ) -> bool {
        self.handler_plugins()[i].starts(settings_for(cfgs, self.handler_names()[i]), r)
    }

    /// Every plugin has one key and no key is registered twice.
    pub open spec fn wf(&self) -> bool {
        &&& self.filter_names().len() == self.filter_plugins().len()
        &&& self.filter_names().no_duplicates()
        &&& self.handler_names().len() == self.handler_plugins().len()
        &&& self.handler_names().no_duplicates()
    }

    /// A registry without plugins.
    pub fn new() -> (r: Registry)
        ensures
            r.wf(),
            r.filter_names() == Seq::<Seq<char>>::empty(),
            r.handler_names() == Seq::<Seq<char>>::empty(),
    {
        let r = Registry {
            filter_keys: Vec::new(),
            filters: Vec::new(),
            handler_keys: Vec::new(),
            handlers: Vec::new(),
        };
        assert(r.filter_names() =~= Seq::<Seq<char>>::empty());
        assert(r.handler_names() =~= Seq::<Seq<char>>::empty());
        r
    }

    /// Registers a filter under `key`. A key that is taken is refused with
    /// a message that names it, and nothing changes.
    pub fn register_filter(&mut self, key: &'static str, plugin: Box<dyn FilterPlugin>) -> (r:
        Result<(), String>)
        requires
            old(self).wf(),
        ensures
            final(self).wf(),
            final(self).handler_names() == old(self).handler_names(),
            final(self).handler_plugins() == old(self).handler_plugins(),
            match r {
                Ok(_) => {
                    &&& !old(self).filter_names().contains(key@)
                    &&& final(self).filter_names() == old(self).filter_names().push(key@)
                    &&& final(self).filter_plugins() == old(self).filter_plugins().push(plugin)
                },
                Err(msg) => {
                    &&& old(self).filter_names().contains(key@)
                    &&& msg@ == taken("filter"@, key@)
                    &&& final(self).filter_names() == old(self).filter_names()
                    &&& final(self).filter_plugins() == old(self).filter_plugins()
                },
            },
    {
        match position_of(&self.filter_keys, key) {
            Some(i) => {
                assert(old(self).filter_names()[i as int] == key@);
                Err(taken_message("filter", key))
            },
            None => {
                self.filter_keys.push(key);
                append(&mut self.filters, plugin);
                assert(self.filter_names() =~= old(self).filter_names().push(key@));
                proof {
                    lemma_push_distinct(old(self).filter_names(), key@);
                }

                Ok(())
            },
        }
    }

    /// Registers a handler under `key`. A key that is taken is refused with
    /// a message that names it, and nothing changes.
    pub fn register_handler(&mut self, key: &'static str, plugin: Box<dyn HandlerPlugin>) -> (r:
        Result<(), String>)
        requires
            old(self).wf(),
        ensures
            final(self).wf(),
            final(self).filter_names() == old(self).filter_names(),
            final(self).filter_plugins() == old(self).filter_plugins(),
            match r {
                Ok(_) => {
                    &&& !old(self).handler_names().contains(key@)
                    &&& final(self).handler_names() == old(self).handler_names().push(key@)
                    &&& final(self).handler_plugins() == old(self).handler_plugins().push(plugin)
                },
                Err(msg) => {
                    &&& old(self).handler_names().contains(key@)
                    &&& msg@ == taken("handler"@, key@)
                    &&& final(self).handler_names() == old(self).handler_names()
                    &&& final(self).handler_plugins() == old(self).handler_plugins()
                },
            },
    {
        match position_of(&self.handler_keys, key) {
            Some(i) => {
                assert(old(self).handler_names()[i as int] == key@);
                Err(taken_message("handler", key))
            },
            None => {
                self.handler_keys.push(key);
                append(&mut self.handlers, plugin);
                assert(self.handler_names() =~= old(self).handler_names().push(key@));
                proof {
                    lemma_push_distinct(old(self).handler_names(), key@);
                }
                Ok(())
            },
        }
    }

    /// Initialises every filter and then every handler, in order of
    /// registration, each with the settings that `cfgs` holds under its key,
    /// or with none. Stops at the first plugin that fails and returns its
    /// error. The keys stay as they are.
    pub fn init_all(&mut self, cfgs: &Table<Config>) -> (r: Result<(), String>)
        requires
            old(self).wf(),
            cfgs.wf(),
            forall|k: Seq<char>| cfgs@.contains_key(k) ==> (#[trigger] cfgs@[k]).wf(),
        ensures
            final(self).wf(),
            final(self).filter_names() == old(self).filter_names(),
            final(self).handler_names() == old(self).handler_names(),
            match r {
                Ok(_) => {
                    &&& forall|i: int|
                        0 <= i < old(self).filter_names().len() ==> #[trigger] old(
                            self,
                        ).filter_starts(cfgs@, i, Ok(()))
                    &&& forall|i: int|
                        0 <= i < old(self).handler_names().len() ==> #[trigger] old(
                            self,
                        ).handler_starts(cfgs@, i, Ok(()))
                },
                Err(e) => {
                    ||| exists|k: int|
                        {
                            &&& 0 <= k < old(self).filter_names().len()
                            &&& #[trigger] old(self).filter_starts(cfgs@, k, Err(e))
                            &&& forall|i: int|
                                0 <= i < k ==> #[trigger] old(self).filter_starts(cfgs@, i, Ok(()))
                        }
                    ||| exists|k: int|
                        {
                            &&& 0 <= k < old(self).handler_names().len()
                            &&& #[trigger] old(self).handler_starts(cfgs@, k, Err(e))
                            &&& forall|i: int|
                                0 <= i < k ==> #[trigger] old(self).handler_starts(
                                    cfgs@,
                                    i,
                                    Ok(()),
                                )
                            &&& forall|i: int|
                                0 <= i < old(self).filter_names().len() ==> #[trigger] old(
                                    self,
                                ).filter_starts(cfgs@, i, Ok(()))
                        }
                },
            },
    {
        let none: Config = Table::new();
        let n = self.filters.len();
        let mut i: usize = 0;
        while i < n
            invariant
                i <= n,
                n == self.filters@.len(),
                self.wf(),
                self.filter_names() == old(self).filter_names(),
                self.handler_names() == old(self).handler_names(),
                self.handlers@ == old(self).handlers@,
                cfgs.wf(),
                none.wf(),
                none@ == Map::<Seq<char>, String>::empty(),
                forall|k: Seq<char>| cfgs@.contains_key(k) ==> (#[trigger] cfgs@[k]).wf(),
                forall|j: int| i <= j < n ==> self.filters@[j] == old(self).filters@[j],
                forall|j: int| 0 <= j < i ==> #[trigger] old(self).filter_starts(cfgs@, j, Ok(())),
            decreases n - i,
        {
            let cfg = match cfgs.get(self.filter_keys[i]) {
                Some(c) => c,
                None => &none,
            };
            assert(cfg@ == settings_for(cfgs@, old(self).filter_names()[i as int]));
            let ghost before = self.filters@;
            let started = self.filters[i].init(cfg);
            assert(forall|j: int| i < j < n ==> self.filters@[j] == before[j]);
            match started {
                Ok(unit) => {
                    assert(unit == ());
                    assert(old(self).filter_starts(cfgs@, i as int, Ok(())));
                },
                Err(e) => {
                    assert(old(self).filter_starts(cfgs@, i as int, Err(e)));
                    return Err(e);
                },
            }
            i += 1;
        }
        let m = self.handlers.len();
        let mut j: usize = 0;
        while j < m
            invariant
                j <= m,
                m == self.handlers@.len(),
                self.wf(),
                self.filter_names() == old(self).filter_names(),
                self.handler_names() == old(self).handler_names(),
                cfgs.wf(),
                none.wf(),
                none@ == Map::<Seq<char>, String>::empty(),
                forall|k: Seq<char>| cfgs@.contains_key(k) ==> (#[trigger] cfgs@[k]).wf(),
                forall|k: int| j <= k < m ==> self.handlers@[k] == old(self).handlers@[k],
                forall|k: int| 0 <= k < j ==> #[trigger] old(self).handler_starts(cfgs@, k, Ok(())),
                forall|k: int|
                    0 <= k < old(self).filter_names().len() ==> #[trigger] old(self).filter_starts(
                        cfgs@,
                        k,
                        Ok(()),
                    ),
            decreases m - j,
        {
            let cfg = match cfgs.get(self.handler_keys[j]) {
                Some(c) => c,
                None => &none,
            };
            assert(cfg@ == settings_for(cfgs@, old(self).handler_names()[j as int]));
            let ghost before = self.handlers@;
            let started = self.handlers[j].init(cfg);
            assert(forall|k: int| j < k < m ==> self.handlers@[k] == before[k]);
            match started {
                Ok(unit) => {
                    assert(unit == ());
                    assert(old(self).handler_starts(cfgs@, j as int, Ok(())));
                },
                Err(e) => {
                    assert(old(self).handler_starts(cfgs@, j as int, Err(e)));
                    return Err(e);
                },
            }
            j += 1;
        }
        Ok(())
    }

    /// Runs the filter registered under `key` on `req`. Without such a
    /// filter the request passes.
    pub fn filter(&self, key: &str, req: &Request) -> (verdict: FilterVerdict)
        requires
            self.wf(),
        ensures
            self.filter_names().contains(key@) ==> {
                let i = self.filter_names().index_of(key@);
                self.filter_plugins()[i].answers(req@, verdict@)
            },
            !self.filter_names().contains(key@) ==> verdict@ == VerdictView::Continue,
    {
        match position_of(&self.filter_keys, key) {
            Some(i) => {
                assert(self.filter_names()[i as int] == key@);
                assert(self.filter_names().index_of(key@) == i);
                self.filters[i].process(req)
            },
            None => FilterVerdict::Continue,
        }
    }

    /// Runs the handler registered under `key` on `req`, if there is one.
    pub fn handle(&self, key: &str, req: &Request) -> (result: Option<HandlerResult>)
        requires
            self.wf(),
        ensures
            match result {
                Some(r) => {
                    &&& self.handler_names().contains(key@)
                    &&& self.handler_plugins()[self.handler_names().index_of(key@)].responds(
                        req@,
                        r@,
                    )
                },
                None => !self.handler_names().contains(key@),
            },
    {
        match position_of(&self.handler_keys, key) {
            Some(i) => {
                assert(self.handler_names()[i as int] == key@);
                assert(self.handler_names().index_of(key@) == i);
                Some(self.handlers[i].handle(req))
            },
            None => None,
        }
    }

    /// Tears down every filter and then every handler, in order of
    /// registration. The keys stay as they are.
    pub fn teardown_all(&mut self)
        requires
            old(self).wf(),
        ensures
            final(self).wf(),
            final(self).filter_names() == old(self).filter_names(),
            final(self).handler_names() == old(self).handler_names(),
    {
        let n = self.filters.len();
        let mut i: usize = 0;
        while i < n
            invariant
                i <= n,
                n == self.filters@.len(),
                self.wf(),
                self.filter_names() == old(self).filter_names(),
                self.handler_names() == old(self).handler_names(),
            decreases n - i,
        {
            self.filters[i].teardown();
            i += 1;
        }
        let m = self.handlers.len();
        let mut j: usize = 0;
        while j < m
            invariant
                j <= m,
                m == self.handlers@.len(),
                self.wf(),
                self.filter_names() == old(self).filter_names(),
                self.handler_names() == old(self).handler_names(),
            decreases m - j,
        {
            self.handlers[j].teardown();
            j += 1;
        }
    }
}

/// Appends the header `k: v` to `resp`.
pub fn add_header(resp: &mut Response, k: &str, v: &str)
    ensures
        final(resp)@ == (RespView { headers: old(resp)@.headers.push((k@, v@)), ..old(resp)@ }),
{
    resp.headers.push((String::from_str(k), String::from_str(v)));
    assert(final(resp)@.headers =~= old(resp)@.headers.push((k@, v@)));
}

/// Sets the body of `resp` to a copy of `bytes`.
pub fn set_body(resp: &mut Response, bytes: &[u8])
    ensures
        final(resp)@ == (RespView { body: bytes@, ..old(resp)@ }),
{
    resp.body = to_owned_bytes(bytes);
}

/// A `200` response that carries `bytes` as JSON.
pub fn json(bytes: &[u8]) -> (r: Response)
    ensures
        r@ == (RespView {
            status: 200,
            headers: seq![("Content-Type"@, "application/json"@)],
            body: bytes@,
        }),
{
    let mut r = Response::new(200);
    add_header(&mut r, "Content-Type", "application/json");
    set_body(&mut r, bytes);
    assert(r@.headers =~= seq![("Content-Type"@, "application/json"@)]);
    r
}

} // verus!
