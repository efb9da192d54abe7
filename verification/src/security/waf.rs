//! The request firewall: rules that match a field of a request, and the
//! engine that picks the rule to apply.

use vstd::prelude::*;
use vstd::slice::slice_to_vec;
use vstd::string::StringExecFns;
use vstd::string::StringSliceAdditionalSpecFns;
use vstd::utf8::encode_utf8;
use crate::bytes::{
    ends_with, eq_ci_bytes, find_subslice_ci, has_prefix_ci, has_suffix_ci, lowered, occurs_in,
    same_ignoring_case, starts_with,
};
use crate::time::now_ms;

verus! {

/// What a rule does to a request that it matches.
#[derive(Clone, Copy, Debug, PartialEq, Eq, Structural)]
pub enum Action {
    /// Refuse, with the HTTP status to answer.
    Deny(u16),
    /// Ask the client to prove itself, with the HTTP status to answer.
    Challenge(u16),
    /// Record, and let pass.
    LogOnly,
    /// Let pass, whatever later rules say.
    Allow,
}

/// The part of a request that a rule looks at.
#[derive(Clone, Debug)]
pub enum Field {
    Path,
    UserAgent,
    Header(String),
    Body,
    Ip,
}

/// How a rule looks at its field. Every comparison is blind to case.
#[derive(Clone, Debug)]
pub enum Matcher {
    Contains(String),
    Prefix(String),
    Suffix(String),
    /// A pattern, looked for as plain text.
    Regex(String),
    Eq(String),
}

/// One rule of the firewall.
#[derive(Clone, Debug)]
pub struct Rule {
    pub id: u32,
    pub field: Field,
    pub matcher: Matcher,
    pub action: Action,
    pub tags: &'static [&'static str],
    pub severity: u8,
}

/// The parts of a request that the firewall looks at.
#[derive(Clone, Debug)]
pub struct RequestView<'a> {
    pub path: &'a str,
    pub user_agent: &'a str,
    pub headers: &'a [(&'a str, &'a str)],
    pub body: &'a [u8],
    pub ip: &'a str,
}

/// What the firewall decided, when, and why.
#[derive(Clone, Debug)]
pub struct Decision {
    pub ts_ms: u64,
    pub applied_rule_id: Option<u32>,
    pub action: Action,
    pub reason: String,
    pub tags: Vec<&'static str>,
    pub severity: u8,
}

/// The mathematical value of a [`Field`].
pub enum FieldView {
    Path,
    UserAgent,
    Header(Seq<char>),
    Body,
    Ip,
}

/// The mathematical value of a [`Matcher`].
pub enum MatcherView {
    Contains(Seq<char>),
    Prefix(Seq<char>),
    Suffix(Seq<char>),
    Regex(Seq<char>),
    Eq(Seq<char>),
}

/// The mathematical value of a [`Rule`].
pub struct RuleView {
    pub id: u32,
    pub field: FieldView,
    pub matcher: MatcherView,
    pub action: Action,
    pub tags: Seq<Seq<char>>,
    pub severity: u8,
}

impl View for Field {
    type V = FieldView;

    open spec fn view(&self) -> FieldView {
        match self {
            Field::Path => FieldView::Path,
            Field::UserAgent => FieldView::UserAgent,
            Field::Header(name) => FieldView::Header(name@),
            Field::Body => FieldView::Body,
            Field::Ip => FieldView::Ip,
        }
    }
}

impl View for Matcher {
    type V = MatcherView;

    open spec fn view(&self) -> MatcherView {
        match self {
            Matcher::Contains(s) => MatcherView::Contains(s@),
            Matcher::Prefix(s) => MatcherView::Prefix(s@),
            Matcher::Suffix(s) => MatcherView::Suffix(s@),
            Matcher::Regex(s) => MatcherView::Regex(s@),
            Matcher::Eq(s) => MatcherView::Eq(s@),
        }
    }
}

/// The texts of a list of tags.
pub open spec fn tag_texts(tags: Seq<&'static str>) -> Seq<Seq<char>> {
    tags.map_values(|t: &'static str| t@)
}

impl View for Rule {
    type V = RuleView;

    open spec fn view(&self) -> RuleView {
        RuleView {
            id: self.id,
            field: self.field@,
            matcher: self.matcher@,
            action: self.action,
            tags: tag_texts(self.tags@),
            severity: self.severity,
        }
    }
}

/// The rules that a firewall starts with: no traversal in the path, no
/// `sqlmap` as user agent, a challenge for a forwarding header that names a
/// bad proxy, no `UNION SELECT` in the body, and free passage below
/// `/.well-known/`.
pub open spec fn default_rule_views() -> Seq<RuleView> {
    seq![
        RuleView {
            id: 1,
            field: FieldView::Path,
            matcher: MatcherView::Contains("../"@),
            action: Action::Deny(403),
            tags: seq!["traversal"@],
            severity: 8,
        },
        RuleView {
            id: 2,
            field: FieldView::UserAgent,
            matcher: MatcherView::Contains("sqlmap"@),
            action: Action::Deny(403),
            tags: seq!["sql_injection_bot"@],
            severity: 7,
        },
        RuleView {
            id: 3,
            field: FieldView::Header("X-Forwarded-For"@),
            matcher: MatcherView::Regex("bad-proxy"@),
            action: Action::Challenge(429),
            tags: seq!["proxy_abuse"@],
            severity: 5,
        },
        RuleView {
            id: 4,
            field: FieldView::Body,
            matcher: MatcherView::Contains("UNION SELECT"@),
            action: Action::Deny(403),
            tags: seq!["sql_injection"@],
            severity: 9,
        },
        RuleView {
            id: 5,
            field: FieldView::Path,
            matcher: MatcherView::Prefix("/.well-known/"@),
            action: Action::Allow,
            tags: seq!["safe_allowlist"@],
            severity: 1,
        },
    ]
}

/// A decision without its time, as a mathematical value.
pub struct Ruling {
    pub applied_rule_id: Option<u32>,
    pub action: Action,
    pub reason: Seq<char>,
    pub tags: Seq<&'static str>,
    pub severity: u8,
}

impl Decision {
    /// The decision without its time.
    pub open spec fn ruling(&self) -> Ruling {
        Ruling {
            applied_rule_id: self.applied_rule_id,
            action: self.action,
            reason: self.reason@,
            tags: self.tags@,
            severity: self.severity,
        }
    }
}

/// The rules of a firewall, in the order in which they are tried.
pub struct Engine {
    rules: Vec<Rule>,
}

/// The lower-case form of a text, as `str::to_lowercase` gives it.
pub uninterp spec fn lowercase(text: Seq<char>) -> Seq<char>;

/// `str::to_lowercase`: the lower-case form of `text` by the rules of
/// Unicode.
#[verifier::external_body]
fn to_lowercase(text: &str) -> (r: String)
    ensures
        r@ == lowercase(text@),
{
    text.to_lowercase()
}

/// `needle`, in lower case, stands in `hay`, in lower case.
pub open spec fn holds_ci(hay: Seq<char>, needle: Seq<char>) -> bool {
    occurs_in(encode_utf8(lowercase(needle)), encode_utf8(lowercase(hay)))
}

/// Whether two texts are equal up to the case of ASCII letters.
pub fn eq_ci(a: &str, b: &str) -> (r: bool)
    ensures
        r == same_ignoring_case(a.spec_bytes(), b.spec_bytes()),
{
    eq_ci_bytes(a.as_bytes(), b.as_bytes())
}

/// Whether `needle` stands in `hay` when both are put in lower case.
pub fn contains_ci(hay: &str, needle: &str) -> (r: bool)
    ensures
        r == holds_ci(hay@, needle@),
{
    let h = to_lowercase(hay);
    let n = to_lowercase(needle);
    crate::bytes::contains(h.as_str().as_bytes(), n.as_str().as_bytes())
}

impl Matcher {
    /// The text that the matcher looks for.
    pub open spec fn text(self) -> Seq<char> {
        match self {
            Matcher::Contains(s) => s@,
            Matcher::Prefix(s) => s@,
            Matcher::Suffix(s) => s@,
            Matcher::Regex(s) => s@,
            Matcher::Eq(s) => s@,
        }
    }

    /// Whether the matcher accepts a text. Containment is blind to case by
    /// the rules of Unicode; the other comparisons are blind to the case of
    /// ASCII letters.
    pub open spec fn accepts_text(self, hay: Seq<char>) -> bool {
        match self {
            Matcher::Contains(s) => holds_ci(hay, s@),
            Matcher::Regex(s) => holds_ci(hay, s@),
            Matcher::Prefix(s) => starts_with(lowered(encode_utf8(hay)), lowered(encode_utf8(s@))),
            Matcher::Suffix(s) => ends_with(lowered(encode_utf8(hay)), lowered(encode_utf8(s@))),
            Matcher::Eq(s) => same_ignoring_case(encode_utf8(hay), encode_utf8(s@)),
        }
    }

    /// Whether the matcher accepts a body. Every comparison is blind to the
    /// case of ASCII letters, and equality asks no more than containment.
    pub open spec fn accepts_bytes(self, hay: Seq<u8>) -> bool {
        match self {
            Matcher::Contains(s) => occurs_in(lowered(encode_utf8(s@)), lowered(hay)),
            Matcher::Regex(s) => occurs_in(lowered(encode_utf8(s@)), lowered(hay)),
            Matcher::Eq(s) => occurs_in(lowered(encode_utf8(s@)), lowered(hay)),
            Matcher::Prefix(s) => starts_with(lowered(hay), lowered(encode_utf8(s@))),
            Matcher::Suffix(s) => ends_with(lowered(hay), lowered(encode_utf8(s@))),
        }
    }

    /// The matcher in short, for the reason of a decision.
    pub open spec fn short(self) -> Seq<char> {
        match self {
            Matcher::Contains(s) => "contains("@ + s@ + ")"@,
            Matcher::Prefix(s) => "prefix("@ + s@ + ")"@,
            Matcher::Suffix(s) => "suffix("@ + s@ + ")"@,
            Matcher::Regex(s) => "regex-lite("@ + s@ + ")"@,
            Matcher::Eq(s) => "eq("@ + s@ + ")"@,
        }
    }
}

/// Whether `i` is the first header of the request that is named `name`, up
/// to the case of ASCII letters.
pub open spec fn names_header(req: &RequestView, name: Seq<char>, i: int) -> bool {
    &&& 0 <= i < req.headers@.len()
    &&& same_ignoring_case(req.headers@[i].0.spec_bytes(), encode_utf8(name))
    &&& forall|j: int|
        0 <= j < i ==> !same_ignoring_case(
            (#[trigger] req.headers@[j]).0.spec_bytes(),
            encode_utf8(name),
        )
}

/// Whether header `i` of the request is the first that is named `name`, and
/// the matcher accepts its value.
pub open spec fn header_hit(req: &RequestView, name: Seq<char>, matcher: Matcher, i: int) -> bool {
    names_header(req, name, i) && matcher.accepts_text(req.headers@[i].1@)
}

impl Rule {
    /// Whether the rule matches a request. A rule on a header looks at the
    /// first header of that name only, and matches no request without one.
    pub open spec fn hits(&self, req: &RequestView) -> bool {
        match self.field {
            Field::Path => self.matcher.accepts_text(req.path@),
            Field::UserAgent => self.matcher.accepts_text(req.user_agent@),
            Field::Ip => self.matcher.accepts_text(req.ip@),
            Field::Body => self.matcher.accepts_bytes(req.body@),
            Field::Header(name) => exists|i: int| header_hit(req, name@, self.matcher, i),
        }
    }

    /// Why the rule matched, in words.
    pub open spec fn reason(&self) -> Seq<char> {
        match self.field {
            Field::Path => "path matched "@ + self.matcher.short(),
            Field::UserAgent => "ua matched "@ + self.matcher.short(),
            Field::Header(name) => "header "@ + name@ + " matched "@ + self.matcher.short(),
            Field::Body => "body matched"@,
            Field::Ip => "ip matched "@ + self.matcher.short(),
        }
    }

    /// The ruling that applies the rule: an allowance says that it was
    /// explicit, any other ruling says why the rule matched.
    pub open spec fn ruling(&self) -> Ruling {
        Ruling {
            applied_rule_id: Some(self.id),
            action: self.action,
            reason: if self.action is Allow {
                "explicit allow"@
            } else {
                self.reason()
            },
            tags: self.tags@,
            severity: self.severity,
        }
    }
}

/// The matcher in short, for the reason of a decision.
pub fn short(m: &Matcher) -> (r: String)
    ensures
        r@ == m.short(),
{
    match m {
        Matcher::Contains(s) => String::from_str("contains(").concat(s.as_str()).concat(")"),
        Matcher::Prefix(s) => String::from_str("prefix(").concat(s.as_str()).concat(")"),
        Matcher::Suffix(s) => String::from_str("suffix(").concat(s.as_str()).concat(")"),
        Matcher::Regex(s) => String::from_str("regex-lite(").concat(s.as_str()).concat(")"),
        Matcher::Eq(s) => String::from_str("eq(").concat(s.as_str()).concat(")"),
    }
}

/// Rule `i` matches the request.
pub open spec fn hit(rules: Seq<Rule>, req: &RequestView, i: int) -> bool {
    0 <= i < rules.len() && rules[i].hits(req)
}

/// Rule `i` matches the request and settles it: it denies or allows.
pub open spec fn settles(rules: Seq<Rule>, req: &RequestView, i: int) -> bool {
    hit(rules, req, i) && (rules[i].action is Deny || rules[i].action is Allow)
}

/// Rule `i` matches the request and challenges it.
pub open spec fn challenges(rules: Seq<Rule>, req: &RequestView, i: int) -> bool {
    hit(rules, req, i) && rules[i].action is Challenge
}

/// Rule `i` matches the request and only logs it.
pub open spec fn logs(rules: Seq<Rule>, req: &RequestView, i: int) -> bool {
    hit(rules, req, i) && rules[i].action is LogOnly
}

/// The rule that the engine applies to a request, if any: the first rule
/// that settles it; without one, the last rule that challenges it; without
/// one, the first rule that logs it.
pub open spec fn applied(rules: Seq<Rule>, req: &RequestView) -> Option<int> {
    if exists|i: int| settles(rules, req, i) {
        Some(
            choose|i: int|
                settles(rules, req, i) && forall|j: int| 0 <= j < i ==> !settles(rules, req, j),
        )
    } else if exists|i: int| challenges(rules, req, i) {
        Some(
            choose|i: int|
                challenges(rules, req, i) && forall|j: int|
                    i < j < rules.len() ==> !challenges(rules, req, j),
        )
    } else if exists|i: int| logs(rules, req, i) {
        Some(
            choose|i: int|
                logs(rules, req, i) && forall|j: int| 0 <= j < i ==> !logs(rules, req, j),
        )
    } else {
        None
    }
}

/// The ruling of the engine on a request: that of the rule it applies, or
/// an allowance without a rule.
pub open spec fn ruling(rules: Seq<Rule>, req: &RequestView) -> Ruling {
    match applied(rules, req) {
        Some(i) => rules[i].ruling(),
        None => Ruling {
            applied_rule_id: None,
            action: Action::Allow,
            reason: "no rule matched"@,
            tags: Seq::empty(),
            severity: 0,
        },
    }
}

/// Rule `c` is the one to apply among the first `n` rules, none of which
/// settles the request: it is the last of them that challenges the request,
/// or none of them challenges it and it is the first that logs it.
spec fn stands(rules: Seq<Rule>, req: &RequestView, c: int, n: int) -> bool {
    ||| {
        &&& challenges(rules, req, c)
        &&& forall|j: int| c < j < n ==> !challenges(rules, req, j)
    }
    ||| {
        &&& logs(rules, req, c)
        &&& forall|j: int| 0 <= j < n ==> !challenges(rules, req, j)
        &&& forall|j: int| 0 <= j < c ==> !logs(rules, req, j)
    }
}

/// The first rule that settles a request is the rule applied.
proof fn lemma_settled(rules: Seq<Rule>, req: &RequestView, i: int)
    requires
        settles(rules, req, i),
        forall|j: int| 0 <= j < i ==> !settles(rules, req, j),
    ensures
        applied(rules, req) == Some(i),
{
    let k = choose|k: int|
        settles(rules, req, k) && forall|j: int| 0 <= j < k ==> !settles(rules, req, j);
    if k < i {
        assert(!settles(rules, req, k));
    }
    if k > i {
        assert(!settles(rules, req, i));
    }
}

/// Where no rule settles a request, the last rule that challenges it is the
/// rule applied, or without one the first rule that logs it.
proof fn lemma_unsettled(rules: Seq<Rule>, req: &RequestView, c: int)
    requires
        forall|j: int| 0 <= j < rules.len() ==> !settles(rules, req, j),
        stands(rules, req, c, rules.len() as int),
    ensures
        applied(rules, req) == Some(c),
{
    assert(!exists|i: int| settles(rules, req, i)) by {
        if exists|i: int| settles(rules, req, i) {
            let i = choose|i: int| settles(rules, req, i);
            assert(0 <= i < rules.len());
        }
    }
    if challenges(rules, req, c) {
        let k = choose|k: int|
            challenges(rules, req, k) && forall|j: int|
                k < j < rules.len() ==> !challenges(rules, req, j);
        if k < c {
            assert(!challenges(rules, req, c));
        }
        if k > c {
            assert(!challenges(rules, req, k));
        }
    } else {
        assert(!exists|i: int| challenges(rules, req, i)) by {
            if exists|i: int| challenges(rules, req, i) {
                let i = choose|i: int| challenges(rules, req, i);
                assert(0 <= i < rules.len());
            }
        }
        let k = choose|k: int|
            logs(rules, req, k) && forall|j: int| 0 <= j < k ==> !logs(rules, req, j);
        if k < c {
            assert(!logs(rules, req, k));
        }
        if k > c {
            assert(!logs(rules, req, c));
        }
    }
}

impl Engine {
    /// The rules, in the order in which they are tried.
    pub closed spec fn rules(&self) -> Seq<Rule> {
        self.rules@
    }

    /// An engine with the given rules.
    pub fn new(rules: Vec<Rule>) -> (e: Engine)
        ensures
            e.rules() == rules@,
    {
        Engine { rules }
    }

    /// Whether a matcher accepts a text.
    pub fn match_str(&self, hay: &str, m: &Matcher) -> (r: bool)
        ensures
            r == m.accepts_text(hay@),
    {
        match m {
            Matcher::Contains(needle) => contains_ci(hay, needle.as_str()),
            Matcher::Prefix(p) => has_prefix_ci(hay.as_bytes(), p.as_str().as_bytes()),
            Matcher::Suffix(s) => has_suffix_ci(hay.as_bytes(), s.as_str().as_bytes()),
            Matcher::Eq(x) => eq_ci(hay, x.as_str()),
            Matcher::Regex(pseudo) => contains_ci(hay, pseudo.as_str()),
        }
    }

    /// Whether a matcher accepts a body.
    pub fn match_bytes(&self, hay: &[u8], m: &Matcher) -> (r: bool)
        ensures
            r == m.accepts_bytes(hay@),
    {
        match m {
            Matcher::Contains(needle) => find_subslice_ci(hay, needle.as_str().as_bytes()),
            Matcher::Regex(needle) => find_subslice_ci(hay, needle.as_str().as_bytes()),
            Matcher::Eq(needle) => find_subslice_ci(hay, needle.as_str().as_bytes()),
            Matcher::Prefix(p) => has_prefix_ci(hay, p.as_str().as_bytes()),
            Matcher::Suffix(s) => has_suffix_ci(hay, s.as_str().as_bytes()),
        }
    }

    /// Whether a rule matches a request.
    pub fn matches(&self, req: &RequestView, r: &Rule) -> (b: bool)
        ensures
            b == r.hits(req),
    {
        match &r.field {
            Field::Path => self.match_str(req.path, &r.matcher),
            Field::UserAgent => self.match_str(req.user_agent, &r.matcher),
            Field::Ip => self.match_str(req.ip, &r.matcher),
            Field::Body => self.match_bytes(req.body, &r.matcher),
            Field::Header(name) => {
                let mut i: usize = 0;
                while i < req.headers.len()
                    invariant
                        i <= req.headers.len(),
                        r.field == Field::Header(*name),
                        forall|j: int|
                            0 <= j < i ==> !same_ignoring_case(
                                (#[trigger] req.headers@[j]).0.spec_bytes(),
                                encode_utf8(name@),
                            ),
                    decreases req.headers.len() - i,
                {
                    let (k, v) = req.headers[i];
                    if eq_ci(k, name.as_str()) {
                        let b = self.match_str(v, &r.matcher);
                        proof {
                            assert(r.field->Header_0 == *name);
                            assert(r.hits(req) == (exists|w: int|
                                header_hit(req, name@, r.matcher, w)));
                            assert(names_header(req, name@, i as int));
                            assert(v@ == req.headers@[i as int].1@);
                            if r.hits(req) {
                                let w = choose|w: int| header_hit(req, name@, r.matcher, w);
                                if w < i {
                                    assert(!same_ignoring_case(
                                        req.headers@[w].0.spec_bytes(),
                                        encode_utf8(name@),
                                    ));
                                }
                                if w > i {
                                    assert(!same_ignoring_case(
                                        req.headers@[i as int].0.spec_bytes(),
                                        encode_utf8(name@),
                                    ));
                                }
                                assert(w == i);
                                assert(b);
                            }
                            if b {
                                assert(header_hit(req, name@, r.matcher, i as int));
                            }
                        }
                        return b;
                    }
                    i += 1;
                }
                false
            },
        }
    }

    /// Decides what to do with a request: the ruling of the first rule that
    /// denies or allows it; without one, of the last rule that challenges
    /// it; without one, of the first rule that only logs it; without one,
    /// an allowance. The decision is stamped with the wall clock.
    pub fn decide(&self, req: &RequestView) -> (d: Decision)
        ensures
            d.ruling() == ruling(self.rules(), req),
    {
        let ghost rs = self.rules();
        let n = self.rules.len();
        let mut candidate: Option<usize> = None;
        let mut i: usize = 0;
        while i < n
            invariant
                i <= n,
                n == rs.len(),
                rs == self.rules(),
                forall|j: int| 0 <= j < i ==> !settles(rs, req, j),
                match candidate {
                    Some(c) => c < i && stands(rs, req, c as int, i as int),
                    None => forall|j: int| 0 <= j < i ==> !hit(rs, req, j),
                },
            decreases n - i,
        {
            let r = &self.rules[i];
            if self.matches(req, r) {
                match r.action {
                    Action::Deny(_) => {
                        proof {
                            lemma_settled(rs, req, i as int);
                        }
                        return Self::apply(req, r);
                    },
                    Action::Allow => {
                        proof {
                            lemma_settled(rs, req, i as int);
                        }
                        return Self::apply(req, r);
                    },
                    Action::Challenge(_) => {
                        candidate = Some(i);
                    },
                    Action::LogOnly => {
                        if candidate.is_none() {
                            candidate = Some(i);
                        }
                    },
                }
            }
            i += 1;
        }
        match candidate {
            Some(c) => {
                proof {
                    lemma_unsettled(rs, req, c as int);
                }
                Self::apply(req, &self.rules[c])
            },
            None => {
                assert(applied(rs, req).is_none());
                Decision {
                    ts_ms: now_ms(),
                    applied_rule_id: None,
                    action: Action::Allow,
                    reason: String::from_str("no rule matched"),
                    tags: Vec::new(),
                    severity: 0,
                }
            },
        }
    }

    /// The decision that applies a rule, stamped with the wall clock.
    fn apply(req: &RequestView, r: &Rule) -> (d: Decision)
        ensures
            d.ruling() == r.ruling(),
    {
        let reason = match r.action {
            Action::Allow => String::from_str("explicit allow"),
            _ => Self::describe_match(req, r),
        };
        Decision {
            ts_ms: now_ms(),
            applied_rule_id: Some(r.id),
            action: r.action,
            reason,
            tags: slice_to_vec(r.tags),
            severity: r.severity,
        }
    }

    /// Why a rule matched, in words.
    pub fn describe_match(req: &RequestView, r: &Rule) -> (why: String)
        ensures
            why@ == r.reason(),
    {
        match &r.field {
            Field::Path => String::from_str("path matched ").concat(short(&r.matcher).as_str()),
            Field::UserAgent => String::from_str("ua matched ").concat(short(&r.matcher).as_str()),
            Field::Header(h) => String::from_str("header ").concat(h.as_str()).concat(
                " matched ",
            ).concat(short(&r.matcher).as_str()),
            Field::Body => String::from_str("body matched"),
            Field::Ip => String::from_str("ip matched ").concat(short(&r.matcher).as_str()),
        }
    }
}

/// The rules that the firewall starts with.
pub fn default_rules() -> (rules: Vec<Rule>)
    ensures
        rules@.map_values(|r: Rule| r@) == default_rule_views(),
{
    let mut rules: Vec<Rule> = Vec::new();
    rules.push(
        Rule {
            id: 1,
            field: Field::Path,
            matcher: Matcher::Contains(String::from_str("../")),
            action: Action::Deny(403),
            tags: &["traversal"],
            severity: 8,
        },
    );
    rules.push(
        Rule {
            id: 2,
            field: Field::UserAgent,
            matcher: Matcher::Contains(String::from_str("sqlmap")),
            action: Action::Deny(403),
            tags: &["sql_injection_bot"],
            severity: 7,
        },
    );
    rules.push(
        Rule {
            id: 3,
            field: Field::Header(String::from_str("X-Forwarded-For")),
            matcher: Matcher::Regex(String::from_str("bad-proxy")),
            action: Action::Challenge(429),
            tags: &["proxy_abuse"],
            severity: 5,
        },
    );
    rules.push(
        Rule {
            id: 4,
            field: Field::Body,
            matcher: Matcher::Contains(String::from_str("UNION SELECT")),
            action: Action::Deny(403),
            tags: &["sql_injection"],
            severity: 9,
        },
    );
    rules.push(
        Rule {
            id: 5,
            field: Field::Path,
            matcher: Matcher::Prefix(String::from_str("/.well-known/")),
            action: Action::Allow,
            tags: &["safe_allowlist"],
            severity: 1,
        },
    );
    proof {
        let views = rules@.map_values(|r: Rule| r@);
        assert(views[0].tags =~= seq!["traversal"@]);
        assert(views[1].tags =~= seq!["sql_injection_bot"@]);
        assert(views[2].tags =~= seq!["proxy_abuse"@]);
        assert(views[3].tags =~= seq!["sql_injection"@]);
        assert(views[4].tags =~= seq!["safe_allowlist"@]);
        assert(views =~= default_rule_views());
    }
    rules
}

} // verus!
