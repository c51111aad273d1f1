//! The host names of SAP systems, taken from the SAP GUI landscape, so a
//! scan knows which configuration files mention a system.
//!
//! One `SapSystem` is one service of the landscape, not one system: the
//! same system ID routinely appears several times (clients, load balancers,
//! sandboxes), and all of them are scanned.

use vstd::prelude::*;
use crate::error::AppError;
use crate::landscape::{Pairs, lookup, pairs_view, attr_of};
use crate::saplogon::{prefix_until, is_authority_end, seq_lt, seq_lt_exec};
use crate::text::{self, trim, upper_seq, lower_seq, starts_with, find, find_char, rsplit_once, trim_end_char, trim_start_char, eq_ignore_case, is_digit};

verus! {

#[derive(Debug, Clone, Default)]
pub struct SapSystem {
    pub service_id: String,
    pub name: String,
    pub service_type: String,
    pub system_id: String,
    pub client: String,
    pub language: String,
    pub description: String,
    /// Raw `server` attribute exactly as written in the file.
    pub server: String,
    /// Host names and IPs from `server`, the router, the message server or the URL.
    pub hosts: Vec<String>,
    /// Each host and its parent domains, for substring matching in a scan.
    pub domains: Vec<String>,
    pub router: String,
    pub message_server: String,
    pub url: String,
    pub workspace: String,
    pub source_file: String,
}

#[derive(Debug, Clone)]
pub struct DuplicateSystemId {
    pub system_id: String,
    pub count: usize,
    pub hosts: Vec<String>,
}

#[derive(Debug, Clone, Default)]
pub struct LandscapeReport {
    pub files: Vec<String>,
    pub systems: Vec<SapSystem>,
    pub warnings: Vec<String>,
    pub duplicates: Vec<DuplicateSystemId>,
    pub parsed_at: String,
}

// ---------------------------------------------------------------------------
// Splitting
// ---------------------------------------------------------------------------

/// `str::split` on one character: the pieces between its occurrences.
pub open spec fn split_on(s: Seq<char>, c: char) -> Seq<Seq<char>>
    decreases s.len(),
{
    if s.len() == 0 {
        seq![seq![]]
    } else {
        let p = split_on(s.drop_last(), c);
        if s.last() == c {
            p.push(seq![])
        } else {
            p.update(p.len() - 1, p.last().push(s.last()))
        }
    }
}

proof fn lemma_split_on_nonempty(s: Seq<char>, c: char)
    ensures
        split_on(s, c).len() >= 1,
    decreases s.len(),
{
    if s.len() > 0 {
        lemma_split_on_nonempty(s.drop_last(), c);
    }
}

pub fn split_on_exec(s: &Vec<char>, c: char) -> (r: Vec<Vec<char>>)
    ensures
        text::line_views(r@) == split_on(s@, c),
{
    let mut parts: Vec<Vec<char>> = Vec::new();
    let mut cur: Vec<char> = Vec::new();
    let mut i: usize = 0;
    assert(s@.take(0) =~= Seq::<char>::empty());
    while i < s.len()
        invariant
            i <= s.len(),
            text::line_views(parts@).push(cur@) == split_on(s@.take(i as int), c),
        decreases s.len() - i,
    {
        assert(s@.take(i + 1).drop_last() =~= s@.take(i as int));
        assert(s@.take(i + 1).last() == s@[i as int]);
        proof {
            lemma_split_on_nonempty(s@.take(i as int), c);
        }
        let ghost before = text::line_views(parts@).push(cur@);
        if s[i] == c {
            let done = cur;
            parts.push(done);
            cur = Vec::new();
            assert(text::line_views(parts@).push(cur@) =~= before.push(seq![]));
        } else {
            cur.push(s[i]);
            assert(text::line_views(parts@).push(cur@) =~= before.update(before.len() - 1, before.last().push(s@[i as int])));
        }
        i += 1;
    }
    assert(s@.take(s.len() as int) =~= s@);
    parts.push(cur);
    parts
}

/// Index of the first `a` or `b` at or after `i`, or the length.
pub open spec fn index_of2(s: Seq<char>, a: char, b: char, i: int) -> int
    decreases s.len() - i,
{
    if i < 0 || i >= s.len() {
        s.len() as int
    } else if s[i] == a || s[i] == b {
        i
    } else {
        index_of2(s, a, b, i + 1)
    }
}

proof fn lemma_index_of2_bounds(s: Seq<char>, a: char, b: char, i: int)
    requires
        0 <= i <= s.len(),
    ensures
        i <= index_of2(s, a, b, i) <= s.len(),
    decreases s.len() - i,
{
    if i < s.len() {
        lemma_index_of2_bounds(s, a, b, i + 1);
    }
}

/// The part before the first `a` or `b` (`split([a, b]).next()`).
pub fn before_any(s: &Vec<char>, a: char, b: char) -> (r: Vec<char>)
    ensures
        r@ == s@.take(index_of2(s@, a, b, 0)),
{
    let mut j: usize = 0;
    proof {
        lemma_index_of2_bounds(s@, a, b, 0);
    }
    while j < s.len() && !(s[j] == a || s[j] == b)
        invariant
            j <= s.len(),
            index_of2(s@, a, b, 0) == index_of2(s@, a, b, j as int),
        decreases s.len() - j,
    {
        j += 1;
    }
    text::slice_of(s, 0, j)
}

// ---------------------------------------------------------------------------
// Hosts
// ---------------------------------------------------------------------------

/// `server` is `host:port`, `sapms<SYS>` for message-server logon, or a
/// placeholder such as `SPACE` that only groups the logon tree.
pub open spec fn host_from_server_spec(server: Seq<char>) -> Option<Seq<char>> {
    let v = trim(server);
    let u = upper_seq(v);
    if v.len() == 0 || u == "SPACE"@ || u == "LOADBALANCING"@ || u == "MS"@ || starts_with(u, "SAPMS"@) {
        None
    } else {
        let h = trim(v.take(index_of2(v, ':', ',', 0)));
        if h.len() == 0 {
            None
        } else {
            Some(h)
        }
    }
}

pub fn host_from_server(server: &str) -> (r: Option<String>)
    ensures
        match host_from_server_spec(server@) {
            Some(h) => r matches Some(s) && s@ == h,
            None => r is None,
        },
{
    let v = text::trim_str(server);
    let u = text::to_upper(&v);
    let us = text::string_of(&u);
    if v.len() == 0 || text::str_eq(us.as_str(), "SPACE") || text::str_eq(us.as_str(), "LOADBALANCING")
        || text::str_eq(us.as_str(), "MS") || text::starts_with_str(&u, "SAPMS") {
        return None;
    }
    let h = text::trim_vec(&before_any(&v, ':', ','));
    if h.len() == 0 {
        None
    } else {
        Some(text::string_of(&h))
    }
}

/// The first piece after an `H` piece (`/H/router.host/S/3299`) that is not
/// blank, trimmed.
pub open spec fn router_host_from(parts: Seq<Seq<char>>, i: int) -> Option<Seq<char>>
    decreases parts.len() - i,
{
    if i < 0 || i >= parts.len() {
        None
    } else if eq_ignore_case(parts[i], "H"@) && i + 1 < parts.len() && trim(parts[i + 1]).len() > 0 {
        Some(trim(parts[i + 1]))
    } else {
        router_host_from(parts, i + 1)
    }
}

pub open spec fn host_from_router_spec(router: Seq<char>) -> Option<Seq<char>> {
    router_host_from(split_on(router, '/'), 0)
}

pub fn host_from_router(router: &str) -> (r: Option<String>)
    ensures
        match host_from_router_spec(router@) {
            Some(h) => r matches Some(s) && s@ == h,
            None => r is None,
        },
{
    let parts = split_on_exec(&text::chars_of(router), '/');
    let ghost pv = text::line_views(parts@);
    let h = text::chars_of("H");
    let mut i: usize = 0;
    while i < parts.len()
        invariant
            i <= parts.len(),
            pv == text::line_views(parts@),
            pv.len() == parts@.len(),
            host_from_router_spec(router@) == router_host_from(pv, i as int),
            h@ == "H"@,
        decreases parts.len() - i,
    {
        assert(pv[i as int] == parts@[i as int]@);
        if text::eq_ignore_ascii_case(&parts[i], &h) && i + 1 < parts.len() {
            let t = text::trim_vec(&parts[i + 1]);
            assert(pv[i + 1] == parts@[i + 1]@);
            if t.len() > 0 {
                return Some(text::string_of(&t));
            }
        }
        i += 1;
    }
    None
}

/// The host of a URL: after the first `://` (up to a second one), before
/// the path, after any `user@`, inside `[…]` for an IPv6 literal, else
/// before any `:port`.
pub open spec fn host_from_url_spec(url: Seq<char>) -> Option<Seq<char>> {
    match find(url, "://"@) {
        None => None,
        Some(i) => {
            let tail = url.skip(i + 3);
            let rest = match find(tail, "://"@) {
                Some(j) => tail.take(j),
                None => tail,
            };
            let authority0 = rest.take(prefix_until(rest, 0));
            let authority = match rsplit_once(authority0, '@') {
                Some(p) => p.1,
                None => authority0,
            };
            if authority.len() == 0 {
                None
            } else {
                let host = if starts_with(authority, "["@) {
                    let t = trim_start_char(authority, '[');
                    match find_char(t, ']') {
                        Some(k) => t.take(k),
                        None => t,
                    }
                } else {
                    match find_char(authority, ':') {
                        Some(k) => authority.take(k),
                        None => authority,
                    }
                };
                if host.len() == 0 {
                    None
                } else {
                    Some(host)
                }
            }
        },
    }
}

pub fn host_from_url(url: &str) -> (r: Option<String>)
    ensures
        match host_from_url_spec(url@) {
            Some(h) => r matches Some(s) && s@ == h,
            None => r is None,
        },
{
    let u = text::chars_of(url);
    let sep = text::chars_of("://");
    proof {
        reveal_strlit("://");
        reveal_strlit("[");
        text::lemma_find_from_bounds(u@, sep@, 0);
    }
    let i = match text::find_vec(&u, &sep) {
        None => {
            return None;
        },
        Some(i) => i,
    };
    assert(sep@.len() == 3);
    assert(text::matches_at(u@, sep@, i as int));
    assert(i + 3 <= u.len());
    let tail = text::slice_of(&u, i + 3, u.len());
    proof {
        text::lemma_find_from_bounds(tail@, sep@, 0);
    }
    let rest = match text::find_vec(&tail, &sep) {
        Some(j) => text::slice_of(&tail, 0, j),
        None => tail,
    };
    let mut j: usize = 0;
    proof {
        crate::saplogon::lemma_prefix_until_bounds(rest@, 0);
    }
    while j < rest.len() && !(rest[j] == '/' || rest[j] == '?' || rest[j] == '#')
        invariant
            j <= rest.len(),
            prefix_until(rest@, 0) == prefix_until(rest@, j as int),
        decreases rest.len() - j,
    {
        j += 1;
    }
    let authority0 = text::slice_of(&rest, 0, j);
    let authority = match text::rsplit_once_exec(&authority0, '@') {
        Some((_, b)) => b,
        None => authority0,
    };
    if authority.len() == 0 {
        return None;
    }
    let host = if text::starts_with_str(&authority, "[") {
        let t = text::trim_start_char_exec(&authority, '[');
        proof {
            text::lemma_find_char_from_bounds(t@, ']', 0);
        }
        match text::find_char_exec(&t, ']') {
            Some(k) => text::slice_of(&t, 0, k),
            None => t,
        }
    } else {
        proof {
            text::lemma_find_char_from_bounds(authority@, ':', 0);
        }
        match text::find_char_exec(&authority, ':') {
            Some(k) => text::slice_of(&authority, 0, k),
            None => authority,
        }
    };
    if host.len() == 0 {
        None
    } else {
        Some(text::string_of(&host))
    }
}

/// Strips `.` and ` ` from both ends.
pub open spec fn trim_dots(s: Seq<char>) -> Seq<char>
    decreases s.len(),
{
    if s.len() > 0 && (s[0] == '.' || s[0] == ' ') {
        trim_dots(s.drop_first())
    } else if s.len() > 0 && (s.last() == '.' || s.last() == ' ') {
        trim_dots(s.drop_last())
    } else {
        s
    }
}

/// An IP address: anything with a `:` (IPv6), or digits and dots with at
/// least one dot once surrounding dots and spaces are ignored.
pub open spec fn is_ip_spec(host: Seq<char>) -> bool {
    host.contains(':') || {
        let v = trim_dots(host);
        v.len() > 0 && v.contains('.') && forall|i: int| 0 <= i < v.len() ==> (is_digit(#[trigger] v[i]) || v[i] == '.')
    }
}

pub fn is_ip(host: &str) -> (r: bool)
    ensures
        r == is_ip_spec(host@),
{
    let h = text::chars_of(host);
    if text::has_char(&h, ':') {
        return true;
    }
    let mut v = h;
    assert(!host@.contains(':'));
    while v.len() > 0 && (v[0] == '.' || v[0] == ' ' || v[v.len() - 1] == '.' || v[v.len() - 1] == ' ')
        invariant
            trim_dots(v@) == trim_dots(host@),
        decreases v.len(),
    {
        let ghost before = v@;
        if v[0] == '.' || v[0] == ' ' {
            v.remove(0);
            assert(v@ =~= before.drop_first());
        } else {
            v.pop();
            assert(v@ =~= before.drop_last());
        }
    }
    assert(trim_dots(v@) == v@);
    if v.len() == 0 || !text::has_char(&v, '.') {
        return false;
    }
    let mut i: usize = 0;
    while i < v.len()
        invariant
            i <= v.len(),
            v@ == trim_dots(host@),
            !host@.contains(':'),
            forall|k: int| 0 <= k < i ==> (is_digit(#[trigger] v@[k]) || v@[k] == '.'),
        decreases v.len() - i,
    {
        if !(text::char_is_digit(v[i]) || v[i] == '.') {
            assert(!(is_digit(v@[i as int]) || v@[i as int] == '.'));
            return false;
        }
        i += 1;
    }
    true
}

} // verus!

verus! {

// ---------------------------------------------------------------------------
// Domains
// ---------------------------------------------------------------------------

/// The host and each parent domain, longest first; an IP or a single label
/// stays as it is.
pub open spec fn domain_suffixes_spec(host: Seq<char>) -> Seq<Seq<char>> {
    let labels = crate::landscape::nonempty(split_on(host, '.'));
    if is_ip_spec(host) || labels.len() < 2 {
        seq![host]
    } else {
        Seq::new((labels.len() - 1) as nat, |k: int| text::join_dot(labels.skip(k)))
    }
}

fn nonempty_parts(parts: &Vec<Vec<char>>) -> (r: Vec<Vec<char>>)
    ensures
        text::line_views(r@) == crate::landscape::nonempty(text::line_views(parts@)),
{
    let ghost pv = text::line_views(parts@);
    let mut r: Vec<Vec<char>> = Vec::new();
    let mut i: usize = 0;
    assert(pv.take(0) =~= Seq::<Seq<char>>::empty());
    while i < parts.len()
        invariant
            i <= parts.len(),
            pv == text::line_views(parts@),
            text::line_views(r@) == crate::landscape::nonempty(pv.take(i as int)),
        decreases parts.len() - i,
    {
        assert(pv.take(i + 1).drop_last() =~= pv.take(i as int));
        assert(pv.take(i + 1).last() == parts@[i as int]@);
        if parts[i].len() > 0 {
            let ghost before = text::line_views(r@);
            let piece = text::slice_of(&parts[i], 0, parts[i].len());
            assert(piece@ =~= parts@[i as int]@);
            r.push(piece);
            assert(text::line_views(r@) =~= before.push(parts@[i as int]@));
        }
        i += 1;
    }
    assert(pv.take(parts.len() as int) =~= pv);
    r
}

fn tail_parts(parts: &Vec<Vec<char>>, start: usize) -> (r: Vec<Vec<char>>)
    requires
        start <= parts.len(),
    ensures
        text::line_views(r@) == text::line_views(parts@).skip(start as int),
{
    let mut r: Vec<Vec<char>> = Vec::new();
    let mut i: usize = start;
    while i < parts.len()
        invariant
            start <= i <= parts.len(),
            text::line_views(r@) == text::line_views(parts@).subrange(start as int, i as int),
        decreases parts.len() - i,
    {
        let ghost before = text::line_views(r@);
        let piece = text::slice_of(&parts[i], 0, parts[i].len());
        assert(piece@ =~= parts@[i as int]@);
        r.push(piece);
        assert(text::line_views(r@) =~= before.push(parts@[i as int]@));
        assert(text::line_views(r@) =~= text::line_views(parts@).subrange(start as int, i + 1));
        i += 1;
    }
    assert(text::line_views(parts@).subrange(start as int, parts.len() as int) =~= text::line_views(parts@).skip(start as int));
    r
}

pub fn domain_suffixes(host: &str) -> (r: Vec<String>)
    ensures
        crate::model::strings_view(r@) == domain_suffixes_spec(host@),
{
    let h = text::chars_of(host);
    let parts = split_on_exec(&h, '.');
    let labels = nonempty_parts(&parts);
    let ghost lv = text::line_views(labels@);
    let mut out: Vec<String> = Vec::new();
    if is_ip(host) || labels.len() < 2 {
        out.push(host.to_owned());
        assert(crate::model::strings_view(out@) =~= seq![host@]);
        return out;
    }
    let mut start: usize = 0;
    while start + 1 < labels.len()
        invariant
            start + 1 <= labels.len(),
            lv == text::line_views(labels@),
            labels.len() >= 2,
            crate::model::strings_view(out@) == domain_suffixes_spec(host@).take(start as int),
            domain_suffixes_spec(host@) == Seq::new((lv.len() - 1) as nat, |k: int| text::join_dot(lv.skip(k))),
        decreases labels.len() - start,
    {
        let rest = tail_parts(&labels, start);
        let joined = text::join_dot_exec(&rest);
        let ghost before = crate::model::strings_view(out@);
        out.push(text::string_of(&joined));
        assert(crate::model::strings_view(out@) =~= before.push(text::join_dot(lv.skip(start as int))));
        start += 1;
        assert(crate::model::strings_view(out@) =~= domain_suffixes_spec(host@).take(start as int));
    }
    assert(domain_suffixes_spec(host@).take(start as int) =~= domain_suffixes_spec(host@));
    out
}

// ---------------------------------------------------------------------------
// One service as a system
// ---------------------------------------------------------------------------

/// A `<Service>` as read: its attributes (lower-case names), the workspace
/// location of its item, and the file it came from.
#[derive(Debug, Clone)]
pub struct SapRawService {
    pub attrs: Vec<(String, String)>,
    pub workspace: String,
    pub source_file: String,
}

pub open spec fn value_or_empty(v: Option<Seq<char>>) -> Seq<char> {
    match v {
        Some(x) => x,
        None => seq![],
    }
}

/// `x` appended unless it is already there.
pub open spec fn push_unique(acc: Seq<Seq<char>>, x: Seq<char>) -> Seq<Seq<char>> {
    if acc.contains(x) {
        acc
    } else {
        acc.push(x)
    }
}

pub open spec fn push_all_unique(acc: Seq<Seq<char>>, xs: Seq<Seq<char>>) -> Seq<Seq<char>>
    decreases xs.len(),
{
    if xs.len() == 0 {
        acc
    } else {
        push_unique(push_all_unique(acc, xs.drop_last()), xs.last())
    }
}

/// A host candidate as stored: trimmed, trailing dots dropped, lower case.
pub open spec fn clean_host(c: Seq<char>) -> Seq<char> {
    lower_seq(trim_end_char(trim(c), '.'))
}

/// The cleaned candidates that are not empty, each once.
pub open spec fn hosts_of(acc: Seq<Seq<char>>, cands: Seq<Option<Seq<char>>>) -> Seq<Seq<char>>
    decreases cands.len(),
{
    if cands.len() == 0 {
        acc
    } else {
        let prev = hosts_of(acc, cands.drop_last());
        match cands.last() {
            Some(c) => if clean_host(c).len() > 0 {
                push_unique(prev, clean_host(c))
            } else {
                prev
            },
            None => prev,
        }
    }
}

/// Every domain suffix of every host, each once.
pub open spec fn domains_of(hosts: Seq<Seq<char>>) -> Seq<Seq<char>>
    decreases hosts.len(),
{
    if hosts.len() == 0 {
        seq![]
    } else {
        push_all_unique(domains_of(hosts.drop_last()), domain_suffixes_spec(hosts.last()))
    }
}

/// The system a service describes: its fields, the router and message
/// server it points at, and its hosts from `server`, the router, the
/// message server and the URL, in that order.
pub open spec fn build_rel(raw: SapRawService, routers: Pairs, msg_servers: Pairs, s: SapSystem) -> bool {
    let a = pairs_view(raw.attrs@);
    let get = |k: Seq<char>| value_or_empty(lookup(a, k));
    let router = match lookup(a, "routerid"@) {
        Some(id) => value_or_empty(lookup(routers, id)),
        None => seq![],
    };
    let ms = match lookup(a, "msid"@) {
        Some(id) => value_or_empty(lookup(msg_servers, id)),
        None => seq![],
    };
    let cands = seq![
        host_from_server_spec(get("server"@)),
        host_from_router_spec(router),
        if ms.len() > 0 { Some(ms) } else { None },
        host_from_url_spec(get("url"@)),
    ];
    let hosts = hosts_of(seq![], cands);
    &&& s.service_id@ == get("uuid"@)
    &&& s.name@ == get("name"@)
    &&& s.service_type@ == get("type"@)
    &&& s.system_id@ == upper_seq(trim(get("systemid"@)))
    &&& s.client@ == get("client"@)
    &&& s.language@ == get("language"@)
    &&& s.description@ == get("description"@)
    &&& s.server@ == get("server"@)
    &&& crate::model::strings_view(s.hosts@) == hosts
    &&& crate::model::strings_view(s.domains@) == domains_of(hosts)
    &&& s.router@ == router
    &&& s.message_server@ == ms
    &&& s.url@ == get("url"@)
    &&& s.workspace@ == raw.workspace@
    &&& s.source_file@ == raw.source_file@
}

fn get_or_empty(a: &Vec<(String, String)>, key: &str) -> (r: String)
    ensures
        r@ == value_or_empty(lookup(pairs_view(a@), key@)),
{
    match crate::landscape::pairs_get(a, key) {
        Some(i) => a[i].1.clone(),
        None => String::new(),
    }
}

/// `push_unique` in place.
pub fn push_unique_exec(acc: &mut Vec<String>, x: String)
    ensures
        crate::model::strings_view(final(acc)@) == push_unique(crate::model::strings_view(old(acc)@), x@),
{
    let ghost av = crate::model::strings_view(acc@);
    let mut i: usize = 0;
    while i < acc.len()
        invariant
            i <= acc.len(),
            av == crate::model::strings_view(acc@),
            acc@ == old(acc)@,
            forall|k: int| 0 <= k < i ==> av[k] != x@,
        decreases acc.len() - i,
    {
        if text::str_eq(acc[i].as_str(), x.as_str()) {
            assert(av[i as int] == x@);
            return;
        }
        i += 1;
    }
    assert(!av.contains(x@));
    acc.push(x);
    assert(crate::model::strings_view(acc@) =~= av.push(x@));
}

pub fn push_all_unique_exec(acc: &mut Vec<String>, xs: &Vec<String>)
    ensures
        crate::model::strings_view(final(acc)@) == push_all_unique(crate::model::strings_view(old(acc)@), crate::model::strings_view(xs@)),
{
    let ghost xv = crate::model::strings_view(xs@);
    let mut i: usize = 0;
    assert(xv.take(0) =~= Seq::<Seq<char>>::empty());
    while i < xs.len()
        invariant
            i <= xs.len(),
            xv == crate::model::strings_view(xs@),
            crate::model::strings_view(acc@) == push_all_unique(crate::model::strings_view(old(acc)@), xv.take(i as int)),
        decreases xs.len() - i,
    {
        assert(xv.take(i + 1).drop_last() =~= xv.take(i as int));
        assert(xv.take(i + 1).last() == xs@[i as int]@);
        push_unique_exec(acc, xs[i].clone());
        i += 1;
    }
    assert(xv.take(xs.len() as int) =~= xv);
}

pub open spec fn opt_view(o: Option<String>) -> Option<Seq<char>> {
    match o {
        Some(c) => Some(c@),
        None => None,
    }
}

fn add_candidate(hosts: &mut Vec<String>, cand: Option<String>)
    ensures
        crate::model::strings_view(final(hosts)@) == hosts_of(crate::model::strings_view(old(hosts)@), seq![opt_view(cand)]),
{
    let ghost c0 = opt_view(cand);
    assert(seq![c0].drop_last() =~= Seq::<Option<Seq<char>>>::empty());
    assert(hosts_of(crate::model::strings_view(hosts@), Seq::<Option<Seq<char>>>::empty()) == crate::model::strings_view(hosts@));
    match cand {
        None => {},
        Some(c) => {
            let t = text::trim_str(c.as_str());
            let h = text::to_lower(&text::trim_end_char_exec(&t, '.'));
            if h.len() > 0 {
                push_unique_exec(hosts, text::string_of(&h));
            }
        },
    }
}

proof fn lemma_hosts_of_step(acc: Seq<Seq<char>>, cands: Seq<Option<Seq<char>>>, c: Option<Seq<char>>)
    ensures
        hosts_of(acc, cands.push(c)) == hosts_of(hosts_of(acc, cands), seq![c]),
{
    assert(cands.push(c).drop_last() =~= cands);
    assert(seq![c].drop_last() =~= Seq::<Option<Seq<char>>>::empty());
    assert(hosts_of(hosts_of(acc, cands), Seq::<Option<Seq<char>>>::empty()) == hosts_of(acc, cands));
}

pub fn build_system(raw: &SapRawService, routers: &Vec<(String, String)>, msg_servers: &Vec<(String, String)>) -> (s: SapSystem)
    ensures
        build_rel(*raw, pairs_view(routers@), pairs_view(msg_servers@), s),
{
    let a = &raw.attrs;
    let server = get_or_empty(a, "server");
    let url = get_or_empty(a, "url");
    let router = match crate::landscape::pairs_get(a, "routerid") {
        Some(i) => get_or_empty(routers, a[i].1.as_str()),
        None => String::new(),
    };
    let message_server = match crate::landscape::pairs_get(a, "msid") {
        Some(i) => get_or_empty(msg_servers, a[i].1.as_str()),
        None => String::new(),
    };
    let c1 = host_from_server(server.as_str());
    let c2 = host_from_router(router.as_str());
    let c3 = if text::chars_of_string(&message_server).len() > 0 {
        Some(message_server.clone())
    } else {
        None
    };
    let c4 = host_from_url(url.as_str());
    let ghost v1 = opt_view(c1);
    let ghost v2 = opt_view(c2);
    let ghost v3 = opt_view(c3);
    let ghost v4 = opt_view(c4);
    let mut hosts: Vec<String> = Vec::new();
    add_candidate(&mut hosts, c1);
    add_candidate(&mut hosts, c2);
    add_candidate(&mut hosts, c3);
    add_candidate(&mut hosts, c4);
    proof {
        let e = Seq::<Seq<char>>::empty();
        assert(crate::model::strings_view(Seq::<String>::empty()) =~= e);
        lemma_hosts_of_step(e, seq![], v1);
        assert(seq![v1] =~= Seq::<Option<Seq<char>>>::empty().push(v1));
        lemma_hosts_of_step(e, seq![v1], v2);
        assert(seq![v1].push(v2) =~= seq![v1, v2]);
        lemma_hosts_of_step(e, seq![v1, v2], v3);
        assert(seq![v1, v2].push(v3) =~= seq![v1, v2, v3]);
        lemma_hosts_of_step(e, seq![v1, v2, v3], v4);
        assert(seq![v1, v2, v3].push(v4) =~= seq![v1, v2, v3, v4]);
        assert(hosts_of(e, Seq::<Option<Seq<char>>>::empty()) == e);
    }
    let ghost hv = crate::model::strings_view(hosts@);
    let mut domains: Vec<String> = Vec::new();
    let mut i: usize = 0;
    assert(hv.take(0) =~= Seq::<Seq<char>>::empty());
    assert(crate::model::strings_view(domains@) =~= Seq::<Seq<char>>::empty());
    while i < hosts.len()
        invariant
            i <= hosts.len(),
            hv == crate::model::strings_view(hosts@),
            crate::model::strings_view(domains@) == domains_of(hv.take(i as int)),
        decreases hosts.len() - i,
    {
        assert(hv.take(i + 1).drop_last() =~= hv.take(i as int));
        assert(hv.take(i + 1).last() == hosts@[i as int]@);
        let suffixes = domain_suffixes(hosts[i].as_str());
        push_all_unique_exec(&mut domains, &suffixes);
        i += 1;
    }
    assert(hv.take(hosts.len() as int) =~= hv);
    let sid = text::trim_str(get_or_empty(a, "systemid").as_str());
    SapSystem {
        service_id: get_or_empty(a, "uuid"),
        name: get_or_empty(a, "name"),
        service_type: get_or_empty(a, "type"),
        system_id: text::string_of(&text::to_upper(&sid)),
        client: get_or_empty(a, "client"),
        language: get_or_empty(a, "language"),
        description: get_or_empty(a, "description"),
        server,
        hosts,
        domains,
        router,
        message_server,
        url,
        workspace: raw.workspace.clone(),
        source_file: raw.source_file.clone(),
    }
}

} // verus!

verus! {

// ---------------------------------------------------------------------------
// Looking systems up
// ---------------------------------------------------------------------------

/// A system as plain values.
pub struct SysView {
    pub service_id: Seq<char>,
    pub name: Seq<char>,
    pub service_type: Seq<char>,
    pub system_id: Seq<char>,
    pub client: Seq<char>,
    pub language: Seq<char>,
    pub description: Seq<char>,
    pub server: Seq<char>,
    pub hosts: Seq<Seq<char>>,
    pub domains: Seq<Seq<char>>,
    pub router: Seq<char>,
    pub message_server: Seq<char>,
    pub url: Seq<char>,
    pub workspace: Seq<char>,
    pub source_file: Seq<char>,
}

impl View for SapSystem {
    type V = SysView;

    open spec fn view(&self) -> SysView {
        SysView {
            service_id: self.service_id@,
            name: self.name@,
            service_type: self.service_type@,
            system_id: self.system_id@,
            client: self.client@,
            language: self.language@,
            description: self.description@,
            server: self.server@,
            hosts: crate::model::strings_view(self.hosts@),
            domains: crate::model::strings_view(self.domains@),
            router: self.router@,
            message_server: self.message_server@,
            url: self.url@,
            workspace: self.workspace@,
            source_file: self.source_file@,
        }
    }
}

pub open spec fn sys_views(v: Seq<SapSystem>) -> Seq<SysView> {
    v.map_values(|s: SapSystem| s@)
}

/// The systems whose ID, in ASCII upper case, is `needle`.
pub open spec fn with_sid(vs: Seq<SysView>, needle: Seq<char>) -> Seq<SysView>
    decreases vs.len(),
{
    if vs.len() == 0 {
        seq![]
    } else {
        with_sid(vs.drop_last(), needle) + if upper_seq(vs.last().system_id) == needle {
            seq![vs.last()]
        } else {
            seq![]
        }
    }
}

/// Every connection of the system ID (trimmed, any ASCII case); none for an
/// empty ID.
pub open spec fn resolve_spec(vs: Seq<SysView>, system_id: Seq<char>) -> Seq<SysView> {
    let needle = upper_seq(trim(system_id));
    if needle.len() == 0 {
        seq![]
    } else {
        with_sid(vs, needle)
    }
}

/// Domains then hosts of every connection of the system ID, each once, in
/// the order found.
pub open spec fn hosts_for_from(acc: Seq<Seq<char>>, vs: Seq<SysView>) -> Seq<Seq<char>>
    decreases vs.len(),
{
    if vs.len() == 0 {
        acc
    } else {
        push_all_unique(hosts_for_from(acc, vs.drop_last()), vs.last().domains + vs.last().hosts)
    }
}

pub fn copy_system(s: &SapSystem) -> (r: SapSystem)
    ensures
        r@ == s@,
{
    SapSystem {
        service_id: s.service_id.clone(),
        name: s.name.clone(),
        service_type: s.service_type.clone(),
        system_id: s.system_id.clone(),
        client: s.client.clone(),
        language: s.language.clone(),
        description: s.description.clone(),
        server: s.server.clone(),
        hosts: crate::state::copy_strings(&s.hosts),
        domains: crate::state::copy_strings(&s.domains),
        router: s.router.clone(),
        message_server: s.message_server.clone(),
        url: s.url.clone(),
        workspace: s.workspace.clone(),
        source_file: s.source_file.clone(),
    }
}

impl LandscapeReport {
    pub fn resolve(&self, system_id: &str) -> (r: Vec<SapSystem>)
        ensures
            sys_views(r@) == resolve_spec(sys_views(self.systems@), system_id@),
    {
        let needle = text::to_upper(&text::trim_str(system_id));
        let mut out: Vec<SapSystem> = Vec::new();
        if needle.len() == 0 {
            assert(sys_views(out@) =~= Seq::<SysView>::empty());
            return out;
        }
        let ghost vs = sys_views(self.systems@);
        let mut i: usize = 0;
        assert(vs.take(0) =~= Seq::<SysView>::empty());
        assert(sys_views(out@) =~= Seq::<SysView>::empty());
        while i < self.systems.len()
            invariant
                i <= self.systems.len(),
                vs == sys_views(self.systems@),
                needle@ == upper_seq(trim(system_id@)),
                needle@.len() > 0,
                sys_views(out@) == with_sid(vs.take(i as int), needle@),
            decreases self.systems.len() - i,
        {
            assert(vs.take(i + 1).drop_last() =~= vs.take(i as int));
            assert(vs.take(i + 1).last() == self.systems@[i as int]@);
            let sid = text::to_upper(&text::chars_of_string(&self.systems[i].system_id));
            let ghost before = sys_views(out@);
            if text::seq_eq(&sid, &needle) {
                out.push(copy_system(&self.systems[i]));
                assert(sys_views(out@) =~= before.push(self.systems@[i as int]@));
            }
            i += 1;
            assert(sys_views(out@) =~= with_sid(vs.take(i as int), needle@));
        }
        assert(vs.take(self.systems.len() as int) =~= vs);
        out
    }

    /// Every host name and parent domain of every connection sharing this
    /// system ID, each once, in the order found.
    pub fn hosts_for(&self, system_id: &str) -> (r: Vec<String>)
        ensures
            crate::model::strings_view(r@) == hosts_for_from(seq![], resolve_spec(sys_views(self.systems@), system_id@)),
    {
        let found = self.resolve(system_id);
        let ghost fv = sys_views(found@);
        let mut out: Vec<String> = Vec::new();
        let mut i: usize = 0;
        assert(fv.take(0) =~= Seq::<SysView>::empty());
        assert(crate::model::strings_view(out@) =~= Seq::<Seq<char>>::empty());
        while i < found.len()
            invariant
                i <= found.len(),
                fv == sys_views(found@),
                crate::model::strings_view(out@) == hosts_for_from(seq![], fv.take(i as int)),
            decreases found.len() - i,
        {
            assert(fv.take(i + 1).drop_last() =~= fv.take(i as int));
            assert(fv.take(i + 1).last() == found@[i as int]@);
            let mut both = crate::state::copy_strings(&found[i].domains);
            let mut hs = crate::state::copy_strings(&found[i].hosts);
            both.append(&mut hs);
            assert(crate::model::strings_view(both@) =~= found@[i as int]@.domains + found@[i as int]@.hosts);
            push_all_unique_exec(&mut out, &both);
            i += 1;
        }
        assert(fv.take(found.len() as int) =~= fv);
        out
    }
}

} // verus!

verus! {

pub open spec fn distinct(s: Seq<Seq<char>>) -> bool {
    forall|i: int, j: int| 0 <= i < j < s.len() ==> s[i] != s[j]
}

proof fn lemma_push_unique_distinct(acc: Seq<Seq<char>>, x: Seq<char>)
    requires
        distinct(acc),
    ensures
        distinct(push_unique(acc, x)),
        push_unique(acc, x).contains(x),
        forall|y: Seq<char>| acc.contains(y) ==> push_unique(acc, x).contains(y),
{
    if !acc.contains(x) {
        let r = acc.push(x);
        assert forall|i: int, j: int| 0 <= i < j < r.len() implies r[i] != r[j] by {
            if j == r.len() - 1 {
                assert(acc[i] == r[i]);
            }
        }
        assert(r[r.len() - 1] == x);
        assert forall|y: Seq<char>| acc.contains(y) implies r.contains(y) by {
            let k = choose|k: int| 0 <= k < acc.len() && acc[k] == y;
            assert(r[k] == y);
        }
    }
}

proof fn lemma_push_all_unique_distinct(acc: Seq<Seq<char>>, xs: Seq<Seq<char>>)
    requires
        distinct(acc),
    ensures
        distinct(push_all_unique(acc, xs)),
    decreases xs.len(),
{
    if xs.len() > 0 {
        lemma_push_all_unique_distinct(acc, xs.drop_last());
        lemma_push_unique_distinct(push_all_unique(acc, xs.drop_last()), xs.last());
    }
}

/// The hosts of a system are listed once each, none empty; its domains are
/// listed once each too.
pub proof fn law_hosts_are_distinct(cands: Seq<Option<Seq<char>>>)
    ensures
        distinct(hosts_of(seq![], cands)),
        forall|i: int| 0 <= i < hosts_of(seq![], cands).len() ==> #[trigger] hosts_of(seq![], cands)[i].len() > 0,
        distinct(domains_of(hosts_of(seq![], cands))),
    decreases cands.len(),
{
    lemma_hosts_of_props(cands);
    lemma_domains_distinct(hosts_of(seq![], cands));
}

proof fn lemma_hosts_of_props(cands: Seq<Option<Seq<char>>>)
    ensures
        distinct(hosts_of(seq![], cands)),
        forall|i: int| 0 <= i < hosts_of(seq![], cands).len() ==> #[trigger] hosts_of(seq![], cands)[i].len() > 0,
    decreases cands.len(),
{
    if cands.len() > 0 {
        lemma_hosts_of_props(cands.drop_last());
        let prev = hosts_of(seq![], cands.drop_last());
        match cands.last() {
            Some(c) => {
                if clean_host(c).len() > 0 {
                    lemma_push_unique_distinct(prev, clean_host(c));
                    let r = push_unique(prev, clean_host(c));
                    assert forall|i: int| 0 <= i < r.len() implies #[trigger] r[i].len() > 0 by {
                        if i < prev.len() {
                            assert(r[i] == prev[i]);
                        }
                    }
                }
            },
            None => {},
        }
    }
}

proof fn lemma_domains_distinct(hosts: Seq<Seq<char>>)
    ensures
        distinct(domains_of(hosts)),
    decreases hosts.len(),
{
    if hosts.len() > 0 {
        lemma_domains_distinct(hosts.drop_last());
        lemma_push_all_unique_distinct(domains_of(hosts.drop_last()), domain_suffixes_spec(hosts.last()));
    }
}

} // verus!

verus! {

// ---------------------------------------------------------------------------
// Reading one landscape file
// ---------------------------------------------------------------------------

/// One attribute of a tag: its name and value, or why it is malformed.
pub type AttrItem = Result<(String, String), String>;

/// What one landscape file declares: its services, routers and message
/// servers by uuid (a later declaration overrides an earlier one), and the
/// files it includes.
#[derive(Debug, Clone)]
pub struct RawLandscape {
    pub services: Vec<SapRawService>,
    pub routers: Vec<(String, String)>,
    pub msg_servers: Vec<(String, String)>,
    pub includes: Vec<String>,
}

/// An event of the XML reader: an opening tag with its attributes
/// (self-closing when the flag is set), or a closing tag.
pub enum SapEvent {
    Open(String, Vec<AttrItem>, bool),
    Close(String),
}

pub struct SapServiceView {
    pub attrs: Pairs,
    pub workspace: Seq<char>,
    pub source_file: Seq<char>,
}

impl View for SapRawService {
    type V = SapServiceView;

    open spec fn view(&self) -> SapServiceView {
        SapServiceView { attrs: pairs_view(self.attrs@), workspace: self.workspace@, source_file: self.source_file@ }
    }
}

pub open spec fn services_view(v: Seq<SapRawService>) -> Seq<SapServiceView> {
    v.map_values(|s: SapRawService| s@)
}

pub struct RawView {
    pub services: Seq<SapServiceView>,
    pub routers: Pairs,
    pub msg_servers: Pairs,
    pub includes: Seq<Seq<char>>,
}

impl View for RawLandscape {
    type V = RawView;

    open spec fn view(&self) -> RawView {
        RawView {
            services: services_view(self.services@),
            routers: pairs_view(self.routers@),
            msg_servers: pairs_view(self.msg_servers@),
            includes: crate::model::strings_view(self.includes@),
        }
    }
}

/// The reader between two events: what was declared so far, the open tags,
/// the workspace and node names around the current position, and the
/// workspace items seen (service uuid, location).
pub struct ReaderView {
    pub raw: RawView,
    pub stack: Seq<Seq<char>>,
    pub workspace: Seq<Seq<char>>,
    pub nodes: Seq<Seq<char>>,
    pub item_map: Pairs,
}

pub open spec fn empty_reader() -> ReaderView {
    ReaderView {
        raw: RawView { services: seq![], routers: seq![], msg_servers: seq![], includes: seq![] },
        stack: seq![],
        workspace: seq![],
        nodes: seq![],
        item_map: seq![],
    }
}

/// The value of the first attribute named `key` (in lower case), unless a
/// malformed attribute comes first.
pub open spec fn attr_lookup(items: Seq<AttrItem>, key: Seq<char>) -> Result<Option<Seq<char>>, Seq<char>>
    decreases items.len(),
{
    if items.len() == 0 {
        Ok(None)
    } else {
        match items[0] {
            Err(m) => Err(m@),
            Ok(a) => if lower_seq(a.0@) == key {
                Ok(Some(a.1@))
            } else {
                attr_lookup(items.skip(1), key)
            },
        }
    }
}

/// Every attribute, names in lower case, unless one is malformed.
pub open spec fn read_attrs_spec(items: Seq<AttrItem>) -> Result<Pairs, Seq<char>>
    decreases items.len(),
{
    if items.len() == 0 {
        Ok(seq![])
    } else {
        match items[0] {
            Err(m) => Err(m@),
            Ok(a) => match read_attrs_spec(items.skip(1)) {
                Err(m) => Err(m),
                Ok(rest) => Ok(seq![(lower_seq(a.0@), a.1@)] + rest),
            },
        }
    }
}

/// Where the reader stands in the logon tree, as ` / `-joined names.
pub open spec fn here(r: ReaderView) -> Seq<char> {
    crate::landscape::location_label(r.workspace + r.nodes)
}

pub open spec fn with_raw(r: ReaderView, raw: RawView) -> ReaderView {
    ReaderView { raw, ..r }
}

/// What an opening tag declares: a service, a router, a message server, an
/// include, or (inside `<Workspaces>`) the location of a service.
pub open spec fn element_step(r: ReaderView, tag: Seq<char>, items: Seq<AttrItem>, source: Seq<char>) -> Result<ReaderView, Seq<char>> {
    if tag == "service"@ {
        match read_attrs_spec(items) {
            Err(m) => Err(m),
            Ok(a) => Ok(with_raw(r, RawView {
                services: r.raw.services.push(SapServiceView { attrs: a, workspace: here(r), source_file: source }),
                ..r.raw
            })),
        }
    } else if tag == "router"@ {
        match attr_lookup(items, "uuid"@) {
            Err(m) => Err(m),
            Ok(None) => Ok(r),
            Ok(Some(uuid)) => match attr_lookup(items, "router"@) {
                Err(m) => Err(m),
                Ok(router) => match attr_lookup(items, "name"@) {
                    Err(m) => Err(m),
                    Ok(name) => {
                        let chosen = match router {
                            Some(v) => if v.len() > 0 { Some(v) } else { name },
                            None => name,
                        };
                        match chosen {
                            Some(v) => Ok(with_raw(r, RawView { routers: r.raw.routers.push((uuid, v)), ..r.raw })),
                            None => Ok(r),
                        }
                    },
                },
            },
        }
    } else if tag == "messageserver"@ {
        match attr_lookup(items, "uuid"@) {
            Err(m) => Err(m),
            Ok(uuid) => match attr_lookup(items, "host"@) {
                Err(m) => Err(m),
                Ok(host) => match (uuid, host) {
                    (Some(u), Some(h)) => Ok(with_raw(r, RawView { msg_servers: r.raw.msg_servers.push((u, h)), ..r.raw })),
                    _ => Ok(r),
                },
            },
        }
    } else if tag == "include"@ {
        match attr_lookup(items, "url"@) {
            Err(m) => Err(m),
            Ok(url) => match attr_lookup(items, "filename"@) {
                Err(m) => Err(m),
                Ok(file) => {
                    let chosen = match url {
                        Some(v) => Some(v),
                        None => file,
                    };
                    match chosen {
                        Some(v) => if v.len() > 0 {
                            Ok(with_raw(r, RawView { includes: r.raw.includes.push(v), ..r.raw }))
                        } else {
                            Ok(r)
                        },
                        None => Ok(r),
                    }
                },
            },
        }
    } else if tag == "item"@ && r.stack.contains("workspaces"@) {
        match attr_lookup(items, "serviceid"@) {
            Err(m) => Err(m),
            Ok(Some(id)) => Ok(ReaderView { item_map: r.item_map.push((id, here(r))), ..r }),
            Ok(None) => Ok(r),
        }
    } else {
        Ok(r)
    }
}

/// Entering a `<Workspace>` or a `<Node>` records its name.
pub open spec fn scope_open(r: ReaderView, tag: Seq<char>, items: Seq<AttrItem>) -> Result<ReaderView, Seq<char>> {
    if tag == "workspace"@ {
        match attr_lookup(items, "name"@) {
            Err(m) => Err(m),
            Ok(n) => Ok(ReaderView { workspace: r.workspace.push(value_or_empty(n)), ..r }),
        }
    } else if tag == "node"@ {
        match attr_lookup(items, "name"@) {
            Err(m) => Err(m),
            Ok(n) => Ok(ReaderView { nodes: r.nodes.push(value_or_empty(n)), ..r }),
        }
    } else {
        Ok(r)
    }
}

pub open spec fn pop_last(s: Seq<Seq<char>>) -> Seq<Seq<char>> {
    if s.len() > 0 {
        s.drop_last()
    } else {
        s
    }
}

/// Leaving a tag: leaving a workspace forgets its nodes too.
pub open spec fn scope_close(r: ReaderView, tag: Seq<char>) -> ReaderView {
    let stack = pop_last(r.stack);
    if tag == "workspace"@ {
        ReaderView { stack, workspace: pop_last(r.workspace), nodes: seq![], ..r }
    } else if tag == "node"@ {
        ReaderView { stack, nodes: pop_last(r.nodes), ..r }
    } else {
        ReaderView { stack, ..r }
    }
}

pub open spec fn event_step(r: ReaderView, e: SapEvent, source: Seq<char>) -> Result<ReaderView, Seq<char>> {
    match e {
        SapEvent::Open(raw, items, empty) => {
            let tag = lower_seq(raw@);
            match element_step(r, tag, items@, source) {
                Err(m) => Err(m),
                Ok(r1) => if empty {
                    Ok(r1)
                } else {
                    match scope_open(r1, tag, items@) {
                        Err(m) => Err(m),
                        Ok(r2) => Ok(ReaderView { stack: r2.stack.push(tag), ..r2 }),
                    }
                },
            }
        },
        SapEvent::Close(raw) => Ok(scope_close(r, lower_seq(raw@))),
    }
}

/// The reader after the events, or the first malformed attribute.
pub open spec fn read_events_spec(r: ReaderView, evs: Seq<SapEvent>, source: Seq<char>) -> Result<ReaderView, Seq<char>>
    decreases evs.len(),
{
    if evs.len() == 0 {
        Ok(r)
    } else {
        match read_events_spec(r, evs.drop_last(), source) {
            Err(m) => Err(m),
            Ok(r1) => event_step(r1, evs.last(), source),
        }
    }
}

/// A service placed at the location of the last workspace item naming it.
pub open spec fn placed(s: SapServiceView, item_map: Pairs) -> SapServiceView {
    match lookup(s.attrs, "uuid"@) {
        Some(u) => match lookup(item_map, u) {
            Some(loc) => SapServiceView { workspace: loc, ..s },
            None => s,
        },
        None => s,
    }
}

pub open spec fn finish_raw(r: ReaderView) -> RawView {
    RawView { services: r.raw.services.map_values(|s: SapServiceView| placed(s, r.item_map)), ..r.raw }
}

} // verus!

verus! {

/// The reader of one landscape file (see [`ReaderView`]).
pub struct SapReader {
    pub raw: RawLandscape,
    pub stack: Vec<String>,
    pub workspace: Vec<String>,
    pub nodes: Vec<String>,
    pub item_map: Vec<(String, String)>,
}

impl View for SapReader {
    type V = ReaderView;

    open spec fn view(&self) -> ReaderView {
        ReaderView {
            raw: self.raw@,
            stack: crate::model::strings_view(self.stack@),
            workspace: crate::model::strings_view(self.workspace@),
            nodes: crate::model::strings_view(self.nodes@),
            item_map: pairs_view(self.item_map@),
        }
    }
}

fn attr_value(items: &Vec<AttrItem>, key: &str) -> (r: Result<Option<String>, String>)
    ensures
        match attr_lookup(items@, key@) {
            Ok(Some(v)) => r matches Ok(Some(s)) && s@ == v,
            Ok(None) => r matches Ok(None),
            Err(m) => r matches Err(s) && s@ == m,
        },
{
    let k = text::chars_of(key);
    let mut i: usize = 0;
    assert(items@.skip(0) =~= items@);
    while i < items.len()
        invariant
            i <= items.len(),
            k@ == key@,
            attr_lookup(items@, key@) == attr_lookup(items@.skip(i as int), key@),
        decreases items.len() - i,
    {
        assert(items@.skip(i as int).skip(1) =~= items@.skip(i + 1));
        assert(items@.skip(i as int)[0] == items@[i as int]);
        match &items[i] {
            Err(m) => {
                return Err(m.clone());
            },
            Ok(a) => {
                let name = text::to_lower(&text::chars_of_string(&a.0));
                if text::seq_eq(&name, &k) {
                    return Ok(Some(a.1.clone()));
                }
            },
        }
        i += 1;
    }
    Ok(None)
}

pub open spec fn prepend_ok(p: Pairs, r: Result<Pairs, Seq<char>>) -> Result<Pairs, Seq<char>> {
    match r {
        Err(m) => Err(m),
        Ok(rest) => Ok(p + rest),
    }
}

fn read_attrs(items: &Vec<AttrItem>) -> (r: Result<Vec<(String, String)>, String>)
    ensures
        match read_attrs_spec(items@) {
            Ok(p) => r matches Ok(v) && pairs_view(v@) == p,
            Err(m) => r matches Err(s) && s@ == m,
        },
{
    let mut out: Vec<(String, String)> = Vec::new();
    let mut i: usize = 0;
    assert(items@.skip(0) =~= items@);
    assert(pairs_view(out@) + Seq::<(Seq<char>, Seq<char>)>::empty() =~= Seq::<(Seq<char>, Seq<char>)>::empty());
    while i < items.len()
        invariant
            i <= items.len(),
            read_attrs_spec(items@) == prepend_ok(pairs_view(out@), read_attrs_spec(items@.skip(i as int))),
        decreases items.len() - i,
    {
        assert(items@.skip(i as int).skip(1) =~= items@.skip(i + 1));
        assert(items@.skip(i as int)[0] == items@[i as int]);
        match &items[i] {
            Err(m) => {
                return Err(m.clone());
            },
            Ok(a) => {
                let name = text::string_of(&text::to_lower(&text::chars_of_string(&a.0)));
                let ghost before = pairs_view(out@);
                out.push((name, a.1.clone()));
                assert(pairs_view(out@) =~= before.push((lower_seq(a.0@), a.1@)));
                proof {
                    match read_attrs_spec(items@.skip(i + 1)) {
                        Err(_) => {},
                        Ok(rest) => {
                            assert(before + (seq![(lower_seq(a.0@), a.1@)] + rest) =~= pairs_view(out@) + rest);
                        },
                    }
                }
            },
        }
        i += 1;
    }
    assert(items@.skip(items.len() as int) =~= Seq::<AttrItem>::empty());
    assert(pairs_view(out@) + Seq::<(Seq<char>, Seq<char>)>::empty() =~= pairs_view(out@));
    Ok(out)
}

fn value_or_empty_exec(v: Option<String>) -> (r: String)
    ensures
        r@ == value_or_empty(match v {
            Some(s) => Some(s@),
            None => None,
        }),
{
    match v {
        Some(s) => s,
        None => String::new(),
    }
}

pub(crate) fn contains_str(v: &Vec<String>, x: &str) -> (r: bool)
    ensures
        r == crate::model::strings_view(v@).contains(x@),
{
    let ghost sv = crate::model::strings_view(v@);
    let mut i: usize = 0;
    while i < v.len()
        invariant
            i <= v.len(),
            sv == crate::model::strings_view(v@),
            forall|k: int| 0 <= k < i ==> sv[k] != x@,
        decreases v.len() - i,
    {
        if text::str_eq(v[i].as_str(), x) {
            assert(sv[i as int] == x@);
            return true;
        }
        i += 1;
    }
    false
}

impl SapReader {
    pub fn new() -> (r: SapReader)
        ensures
            r@ == empty_reader(),
    {
        let r = SapReader {
            raw: RawLandscape { services: Vec::new(), routers: Vec::new(), msg_servers: Vec::new(), includes: Vec::new() },
            stack: Vec::new(),
            workspace: Vec::new(),
            nodes: Vec::new(),
            item_map: Vec::new(),
        };
        assert(r@.raw.services =~= Seq::<SapServiceView>::empty());
        assert(r@.raw.routers =~= Seq::<(Seq<char>, Seq<char>)>::empty());
        assert(r@.raw.msg_servers =~= Seq::<(Seq<char>, Seq<char>)>::empty());
        assert(r@.raw.includes =~= Seq::<Seq<char>>::empty());
        assert(r@.stack =~= Seq::<Seq<char>>::empty());
        assert(r@.workspace =~= Seq::<Seq<char>>::empty());
        assert(r@.nodes =~= Seq::<Seq<char>>::empty());
        assert(r@.item_map =~= Seq::<(Seq<char>, Seq<char>)>::empty());
        r
    }

    /// The current location (see [`here`]).
    fn location(&self) -> (r: String)
        ensures
            r@ == here(self@),
    {
        let mut parts: Vec<String> = Vec::new();
        let mut i: usize = 0;
        while i < self.workspace.len()
            invariant
                i <= self.workspace.len(),
                parts@ == self.workspace@.take(i as int),
            decreases self.workspace.len() - i,
        {
            parts.push(self.workspace[i].clone());
            i += 1;
            assert(parts@ =~= self.workspace@.take(i as int));
        }
        let mut j: usize = 0;
        while j < self.nodes.len()
            invariant
                j <= self.nodes.len(),
                i == self.workspace.len(),
                parts@ == self.workspace@.take(i as int) + self.nodes@.take(j as int),
            decreases self.nodes.len() - j,
        {
            parts.push(self.nodes[j].clone());
            j += 1;
            assert(parts@ =~= self.workspace@.take(i as int) + self.nodes@.take(j as int));
        }
        assert(parts@ =~= self.workspace@ + self.nodes@);
        assert(crate::model::strings_view(parts@) =~= crate::model::strings_view(self.workspace@) + crate::model::strings_view(self.nodes@));
        crate::landscape::location_label_exec(&parts)
    }

    /// What an opening tag declares (see [`element_step`]); the message of a
    /// malformed attribute otherwise.
    fn handle_element(&mut self, tag: &Vec<char>, items: &Vec<AttrItem>, source: &str) -> (r: Result<(), String>)
        ensures
            match element_step(old(self)@, tag@, items@, source@) {
                Ok(v) => r is Ok && final(self)@ == v,
                Err(m) => r matches Err(s) && s@ == m,
            },
    {
        if text::seq_eq(tag, &text::chars_of("service")) {
            let attrs = match read_attrs(items) {
                Ok(a) => a,
                Err(m) => {
                    return Err(m);
                },
            };
            let workspace = self.location();
            let ghost before = self.raw.services@;
            let service = SapRawService { attrs, workspace, source_file: source.to_owned() };
            self.raw.services.push(service);
            assert(services_view(self.raw.services@) =~= services_view(before).push(service@));
            return Ok(());
        }
        if text::seq_eq(tag, &text::chars_of("router")) {
            let uuid = match attr_value(items, "uuid") {
                Err(m) => {
                    return Err(m);
                },
                Ok(None) => {
                    return Ok(());
                },
                Ok(Some(u)) => u,
            };
            let router = match attr_value(items, "router") {
                Err(m) => {
                    return Err(m);
                },
                Ok(v) => v,
            };
            let name = match attr_value(items, "name") {
                Err(m) => {
                    return Err(m);
                },
                Ok(v) => v,
            };
            let chosen = match router {
                Some(v) => if text::chars_of_string(&v).len() > 0 {
                    Some(v)
                } else {
                    name
                },
                None => name,
            };
            match chosen {
                Some(v) => {
                    let ghost before = pairs_view(self.raw.routers@);
                    self.raw.routers.push((uuid, v));
                    assert(pairs_view(self.raw.routers@) =~= before.push((uuid@, v@)));
                },
                None => {},
            }
            return Ok(());
        }
        if text::seq_eq(tag, &text::chars_of("messageserver")) {
            let uuid = match attr_value(items, "uuid") {
                Err(m) => {
                    return Err(m);
                },
                Ok(v) => v,
            };
            let host = match attr_value(items, "host") {
                Err(m) => {
                    return Err(m);
                },
                Ok(v) => v,
            };
            match (uuid, host) {
                (Some(u), Some(h)) => {
                    let ghost before = pairs_view(self.raw.msg_servers@);
                    self.raw.msg_servers.push((u, h));
                    assert(pairs_view(self.raw.msg_servers@) =~= before.push((u@, h@)));
                },
                _ => {},
            }
            return Ok(());
        }
        if text::seq_eq(tag, &text::chars_of("include")) {
            let url = match attr_value(items, "url") {
                Err(m) => {
                    return Err(m);
                },
                Ok(v) => v,
            };
            let file = match attr_value(items, "filename") {
                Err(m) => {
                    return Err(m);
                },
                Ok(v) => v,
            };
            let chosen = match url {
                Some(v) => Some(v),
                None => file,
            };
            match chosen {
                Some(v) => {
                    if text::chars_of_string(&v).len() > 0 {
                        let ghost before = crate::model::strings_view(self.raw.includes@);
                        self.raw.includes.push(v);
                        assert(crate::model::strings_view(self.raw.includes@) =~= before.push(v@));
                    }
                },
                None => {},
            }
            return Ok(());
        }
        if text::seq_eq(tag, &text::chars_of("item")) && contains_str(&self.stack, "workspaces") {
            match attr_value(items, "serviceid") {
                Err(m) => {
                    return Err(m);
                },
                Ok(None) => {},
                Ok(Some(id)) => {
                    let loc = self.location();
                    let ghost before = pairs_view(self.item_map@);
                    self.item_map.push((id, loc));
                    assert(pairs_view(self.item_map@) =~= before.push((id@, loc@)));
                },
            }
        }
        Ok(())
    }

    fn scope_open(&mut self, tag: &Vec<char>, items: &Vec<AttrItem>) -> (r: Result<(), String>)
        ensures
            match scope_open(old(self)@, tag@, items@) {
                Ok(v) => r is Ok && final(self)@ == v,
                Err(m) => r matches Err(s) && s@ == m,
            },
    {
        let is_workspace = text::seq_eq(tag, &text::chars_of("workspace"));
        if is_workspace || text::seq_eq(tag, &text::chars_of("node")) {
            let name = match attr_value(items, "name") {
                Err(m) => {
                    return Err(m);
                },
                Ok(v) => value_or_empty_exec(v),
            };
            if is_workspace {
                let ghost before = crate::model::strings_view(self.workspace@);
                self.workspace.push(name);
                assert(crate::model::strings_view(self.workspace@) =~= before.push(name@));
            } else {
                let ghost before = crate::model::strings_view(self.nodes@);
                self.nodes.push(name);
                assert(crate::model::strings_view(self.nodes@) =~= before.push(name@));
            }
        }
        Ok(())
    }

    fn scope_close(&mut self, tag: &Vec<char>)
        ensures
            final(self)@ == scope_close(old(self)@, tag@),
    {
        let ghost before = self@;
        if self.stack.len() > 0 {
            self.stack.pop();
            assert(crate::model::strings_view(self.stack@) =~= before.stack.drop_last());
        }
        if text::seq_eq(tag, &text::chars_of("workspace")) {
            if self.workspace.len() > 0 {
                self.workspace.pop();
                assert(crate::model::strings_view(self.workspace@) =~= before.workspace.drop_last());
            }
            self.nodes = Vec::new();
            assert(crate::model::strings_view(self.nodes@) =~= Seq::<Seq<char>>::empty());
        } else if text::seq_eq(tag, &text::chars_of("node")) {
            if self.nodes.len() > 0 {
                self.nodes.pop();
                assert(crate::model::strings_view(self.nodes@) =~= before.nodes.drop_last());
            }
        }
    }

    /// One event (see [`event_step`]).
    pub fn on_event(&mut self, e: &SapEvent, source: &str) -> (r: Result<(), String>)
        ensures
            match event_step(old(self)@, *e, source@) {
                Ok(v) => r is Ok && final(self)@ == v,
                Err(m) => r matches Err(s) && s@ == m,
            },
    {
        match e {
            SapEvent::Open(raw, items, empty) => {
                let tag = text::to_lower(&text::chars_of_string(raw));
                match self.handle_element(&tag, items, source) {
                    Err(m) => {
                        return Err(m);
                    },
                    Ok(()) => {},
                }
                if !*empty {
                    match self.scope_open(&tag, items) {
                        Err(m) => {
                            return Err(m);
                        },
                        Ok(()) => {},
                    }
                    let ghost before = crate::model::strings_view(self.stack@);
                    let t = text::string_of(&tag);
                    self.stack.push(t);
                    assert(crate::model::strings_view(self.stack@) =~= before.push(tag@));
                }
                Ok(())
            },
            SapEvent::Close(raw) => {
                let tag = text::to_lower(&text::chars_of_string(raw));
                self.scope_close(&tag);
                Ok(())
            },
        }
    }

    /// The declarations with every service placed at the location of the
    /// last workspace item naming it (see [`finish_raw`]).
    pub fn finish(self) -> (r: RawLandscape)
        ensures
            r@ == finish_raw(self@),
    {
        let ghost sv = self@;
        let SapReader { raw, stack: _, workspace: _, nodes: _, item_map } = self;
        let RawLandscape { services, routers, msg_servers, includes } = raw;
        let mut placed_services: Vec<SapRawService> = Vec::new();
        let mut i: usize = 0;
        while i < services.len()
            invariant
                i <= services.len(),
                services_view(services@) == sv.raw.services,
                pairs_view(item_map@) == sv.item_map,
                services_view(placed_services@) == sv.raw.services.take(i as int).map_values(
                    |s: SapServiceView| placed(s, sv.item_map),
                ),
            decreases services.len() - i,
        {
            let s = &services[i];
            let mut workspace = s.workspace.clone();
            match crate::landscape::pairs_get(&s.attrs, "uuid") {
                Some(u) => match crate::landscape::pairs_get(&item_map, s.attrs[u].1.as_str()) {
                    Some(k) => {
                        workspace = item_map[k].1.clone();
                    },
                    None => {},
                },
                None => {},
            }
            let ghost before = services_view(placed_services@);
            let p = SapRawService { attrs: crate::landscape::copy_pairs(&s.attrs), workspace, source_file: s.source_file.clone() };
            placed_services.push(p);
            assert(services@[i as int]@ == sv.raw.services[i as int]);
            assert(p@ == placed(sv.raw.services[i as int], sv.item_map));
            assert(services_view(placed_services@) =~= before.push(p@));
            assert(sv.raw.services.take(i + 1).map_values(|s: SapServiceView| placed(s, sv.item_map)) =~= sv.raw.services.take(
                i as int,
            ).map_values(|s: SapServiceView| placed(s, sv.item_map)).push(placed(sv.raw.services[i as int], sv.item_map)));
            i += 1;
        }
        assert(sv.raw.services.take(services.len() as int) =~= sv.raw.services);
        RawLandscape { services: placed_services, routers, msg_servers, includes }
    }
}

} // verus!

verus! {

proof fn lemma_read_error_sticks(r: ReaderView, evs: Seq<SapEvent>, source: Seq<char>, n: int)
    requires
        0 <= n <= evs.len(),
        read_events_spec(r, evs.take(n), source) is Err,
    ensures
        read_events_spec(r, evs, source) == read_events_spec(r, evs.take(n), source),
    decreases evs.len() - n,
{
    if n == evs.len() {
        assert(evs.take(n) =~= evs);
    } else {
        assert(evs.take(n + 1).drop_last() =~= evs.take(n));
        lemma_read_error_sticks(r, evs, source, n + 1);
    }
}

/// The declarations of a file given as its reader events (see
/// [`read_events_spec`] and [`finish_raw`]); a malformed attribute is an
/// XML error.
pub fn read_events(events: &Vec<SapEvent>, source: &str) -> (r: Result<RawLandscape, AppError>)
    ensures
        match read_events_spec(empty_reader(), events@, source@) {
            Ok(v) => r matches Ok(raw) && raw@ == finish_raw(v),
            Err(m) => r matches Err(AppError::Xml(s)) && s@ == m,
        },
{
    let mut reader = SapReader::new();
    let mut i: usize = 0;
    assert(events@.take(0) =~= Seq::<SapEvent>::empty());
    while i < events.len()
        invariant
            i <= events.len(),
            read_events_spec(empty_reader(), events@.take(i as int), source@) == Ok::<ReaderView, Seq<char>>(reader@),
        decreases events.len() - i,
    {
        assert(events@.take(i + 1).drop_last() =~= events@.take(i as int));
        assert(events@.take(i + 1).last() == events@[i as int]);
        match reader.on_event(&events[i], source) {
            Err(m) => {
                proof {
                    lemma_read_error_sticks(empty_reader(), events@, source@, i + 1);
                }
                return Err(AppError::Xml(m));
            },
            Ok(()) => {},
        }
        i += 1;
    }
    assert(events@.take(events.len() as int) =~= events@);
    Ok(reader.finish())
}

/// What reading a file gives: the first malformed attribute, the reader's
/// syntax error (after the file's name), or the declarations.
pub open spec fn parse_outcome(res: Result<ReaderView, Seq<char>>, failure: Option<Seq<char>>, source: Seq<char>, r: Result<RawLandscape, AppError>) -> bool {
    match res {
        Err(m) => r matches Err(AppError::Xml(s)) && s@ == m,
        Ok(v) => match failure {
            Some(f) => r matches Err(AppError::Xml(s)) && s@ == source + ": "@ + f,
            None => r matches Ok(raw) && raw@ == finish_raw(v),
        },
    }
}

/// The events of the landscape file reader that one event of the XML
/// reader gives: tags with their attributes, and closing tags.
pub open spec fn sap_event(p: (crate::keys::XmlEvent, (String, Vec<AttrItem>))) -> Seq<SapEvent> {
    match p.0 {
        crate::keys::XmlEvent::Open(empty) => seq![SapEvent::Open(p.1.0, p.1.1, empty)],
        crate::keys::XmlEvent::End(n) => seq![SapEvent::Close(n)],
        _ => seq![],
    }
}

pub open spec fn sap_events(evs: Seq<(crate::keys::XmlEvent, (String, Vec<AttrItem>))>) -> Seq<SapEvent>
    decreases evs.len(),
{
    if evs.len() == 0 {
        seq![]
    } else {
        sap_events(evs.drop_last()) + sap_event(evs.last())
    }
}

/// The text of a landscape file: its bytes as UTF-8 (invalid sequences
/// replaced), leading byte-order marks dropped.
pub open spec fn landscape_text(bytes: Seq<u8>) -> Seq<char> {
    trim_start_char(text::utf8_lossy(bytes), '\u{feff}')
}

/// Reads one landscape file: its text (see [`landscape_text`]), then every
/// event of the XML reader up to the end of the document or its first
/// syntax error.
pub fn parse_file(bytes: &[u8], source: &str) -> (r: Result<RawLandscape, AppError>)
    ensures
        ({
            let t = landscape_text(bytes@);
            let f = crate::keys::xml_fuel(t);
            parse_outcome(
                read_events_spec(empty_reader(), sap_events(crate::keys::xml_events(t, f)), source@),
                opt_view(crate::keys::xml_failure(t, f)),
                source@,
                r,
            )
        }),
{
    let decoded = text::from_utf8_lossy(bytes);
    let chars = text::trim_start_char_exec(&text::chars_of_string(&decoded), '\u{feff}');
    let content = text::string_of(&chars);
    let ghost t = content@;
    assert(t == landscape_text(bytes@));
    let mut reader = crate::keys::xml_reader(content.as_str());
    let mut events: Vec<SapEvent> = Vec::new();
    let mut failure: Option<String> = None;
    let fuel = content.as_str().len() as u128 + 1;
    let ghost gf: nat = crate::keys::xml_fuel(t);
    assert(fuel == gf);
    proof {
        crate::keys::lemma_stop_bounds(t, 0, gf);
    }
    let mut n: u128 = 0;
    while n < fuel
        invariant_except_break
            reader.events_read() == n,
            failure is None,
        invariant
            fuel == gf,
            n <= fuel,
            reader.source() == t,
            crate::keys::xml_stop_from(t, 0, gf) == crate::keys::xml_stop_from(t, n as nat, gf),
            events@ == sap_events(crate::keys::xml_prefix(t, n as nat)),
        ensures
            n == fuel || (n < fuel && crate::keys::ends_stream(crate::keys::xml_event(t, n as nat)) && (match crate::keys::xml_event(t, n as nat) {
                crate::keys::XmlEvent::Failed(m) => failure == Some(m),
                _ => failure is None,
            })),
            n == fuel ==> failure is None,
        decreases fuel - n,
    {
        let ghost before = crate::keys::xml_prefix(t, n as nat);
        let e = crate::keys::xml_next(&mut reader);
        let ghost ev = (e, crate::keys::xml_tag_at(t, n as nat));
        let ghost ebefore = events@;
        match e {
            crate::keys::XmlEvent::Eof => {
                break;
            },
            crate::keys::XmlEvent::Failed(m) => {
                failure = Some(m);
                break;
            },
            crate::keys::XmlEvent::Open(empty) => {
                let (name, items) = crate::keys::xml_tag(&reader);
                events.push(SapEvent::Open(name, items, empty));
            },
            crate::keys::XmlEvent::End(name) => {
                events.push(SapEvent::Close(name));
            },
            crate::keys::XmlEvent::Text(_) | crate::keys::XmlEvent::Other => {},
        }
        n += 1;
        proof {
            let after = crate::keys::xml_prefix(t, n as nat);
            assert(after.drop_last() =~= before);
            assert(after.last() == ev);
            assert(events@ =~= ebefore + sap_event(ev));
        }
    }
    proof {
        let k = crate::keys::xml_stop_from(t, 0, gf);
        assert(k == n);
        assert(crate::keys::xml_prefix(t, n as nat) =~= crate::keys::xml_events(t, gf));
        if n < fuel {
            assert(crate::keys::xml_failure(t, gf) == failure);
        } else {
            assert(crate::keys::xml_failure(t, gf) is None);
        }
    }
    let ghost fv: Option<Seq<char>> = crate::sap::opt_view(failure);
    let r = match read_events(&events, source) {
        Err(e) => Err(e),
        Ok(raw) => match failure {
            Some(f) => {
                let mut m = text::chars_of(source);
                text::push_str(&mut m, ": ");
                text::push_str(&mut m, f.as_str());
                Err(AppError::Xml(text::string_of(&m)))
            },
            None => Ok(raw),
        },
    };
    assert(parse_outcome(read_events_spec(empty_reader(), events@, source@), fv, source@, r));
    r
}

} // verus!

verus! {

// ---------------------------------------------------------------------------
// System IDs that occur more than once
// ---------------------------------------------------------------------------

/// How many systems have the ID.
pub open spec fn count_sid(vs: Seq<SysView>, id: Seq<char>) -> nat
    decreases vs.len(),
{
    if vs.len() == 0 {
        0
    } else {
        count_sid(vs.drop_last(), id) + if vs.last().system_id == id {
            1nat
        } else {
            0nat
        }
    }
}

/// The hosts of the systems with the ID, each once, in the order found.
pub open spec fn hosts_of_sid(vs: Seq<SysView>, id: Seq<char>) -> Seq<Seq<char>>
    decreases vs.len(),
{
    if vs.len() == 0 {
        seq![]
    } else {
        let prev = hosts_of_sid(vs.drop_last(), id);
        if vs.last().system_id == id {
            push_all_unique(prev, vs.last().hosts)
        } else {
            prev
        }
    }
}

pub open spec fn ascending(ids: Seq<Seq<char>>) -> bool {
    forall|k: int, l: int| 0 <= k < l < ids.len() ==> seq_lt(#[trigger] ids[k], #[trigger] ids[l])
}

/// Every system ID that is not empty and occurs more than once, in
/// ascending order, with how often it occurs and its hosts.
pub open spec fn duplicates_rel(vs: Seq<SysView>, out: Seq<DuplicateSystemId>) -> bool {
    &&& forall|k: int|
        0 <= k < out.len() ==> {
            let d = #[trigger] out[k];
            &&& d.system_id@.len() > 0
            &&& d.count == count_sid(vs, d.system_id@)
            &&& d.count > 1
            &&& crate::model::strings_view(d.hosts@) == hosts_of_sid(vs, d.system_id@)
        }
    &&& ascending(out.map_values(|d: DuplicateSystemId| d.system_id@))
    &&& forall|i: int|
        0 <= i < vs.len() && (#[trigger] vs[i]).system_id.len() > 0 && count_sid(vs, vs[i].system_id) > 1 ==> exists|k: int|
            0 <= k < out.len() && out[k].system_id@ == vs[i].system_id
}

fn count_and_hosts(systems: &Vec<SapSystem>, id: &String) -> (r: (usize, Vec<String>))
    ensures
        r.0 == count_sid(sys_views(systems@), id@),
        crate::model::strings_view(r.1@) == hosts_of_sid(sys_views(systems@), id@),
{
    let ghost vs = sys_views(systems@);
    let mut count: usize = 0;
    let mut hosts: Vec<String> = Vec::new();
    let mut i: usize = 0;
    assert(vs.take(0) =~= Seq::<SysView>::empty());
    assert(crate::model::strings_view(hosts@) =~= Seq::<Seq<char>>::empty());
    while i < systems.len()
        invariant
            i <= systems.len(),
            vs == sys_views(systems@),
            count <= i,
            count == count_sid(vs.take(i as int), id@),
            crate::model::strings_view(hosts@) == hosts_of_sid(vs.take(i as int), id@),
        decreases systems.len() - i,
    {
        assert(vs.take(i + 1).drop_last() =~= vs.take(i as int));
        assert(vs.take(i + 1).last() == systems@[i as int]@);
        if text::str_eq(systems[i].system_id.as_str(), id.as_str()) {
            count += 1;
            push_all_unique_exec(&mut hosts, &systems[i].hosts);
        }
        i += 1;
    }
    assert(vs.take(systems.len() as int) =~= vs);
    (count, hosts)
}

/// `x` added to the ascending IDs, unless it is there already.
pub(crate) fn insert_id(ids: &mut Vec<String>, x: String)
    requires
        ascending(crate::model::strings_view(old(ids)@)),
    ensures
        ascending(crate::model::strings_view(final(ids)@)),
        crate::model::strings_view(final(ids)@).contains(x@),
        forall|k: int|
            0 <= k < old(ids)@.len() ==> crate::model::strings_view(final(ids)@).contains(#[trigger] old(ids)@[k]@),
        forall|k: int|
            0 <= k < final(ids)@.len() ==> (#[trigger] final(ids)@[k])@ == x@
                || crate::model::strings_view(old(ids)@).contains(final(ids)@[k]@),
{
    let ghost o = crate::model::strings_view(ids@);
    let xc = text::chars_of_string(&x);
    let mut p: usize = 0;
    while p < ids.len() && seq_lt_exec(&text::chars_of_string(&ids[p]), &xc)
        invariant
            p <= ids.len(),
            o == crate::model::strings_view(ids@),
            xc@ == x@,
            forall|k: int| 0 <= k < p ==> seq_lt(o[k], x@),
        decreases ids.len() - p,
    {
        p += 1;
    }
    if p < ids.len() && text::str_eq(ids[p].as_str(), x.as_str()) {
        assert(o[p as int] == x@);
        assert forall|k: int| 0 <= k < ids@.len() implies o.contains(#[trigger] ids@[k]@) by {
            assert(o[k] == ids@[k]@);
        }
        return;
    }
    proof {
        if p < o.len() {
            crate::saplogon::lemma_seq_lt_total(o[p as int], x@);
            assert forall|k: int| p <= k < o.len() implies seq_lt(x@, #[trigger] o[k]) by {
                if k > p {
                    crate::saplogon::lemma_seq_lt_transitive(x@, o[p as int], o[k]);
                }
            }
        }
    }
    ids.insert(p, x);
    let ghost n = crate::model::strings_view(ids@);
    assert(n =~= o.take(p as int).push(x@) + o.skip(p as int));
    assert(n[p as int] == x@);
    assert forall|k: int, l: int| 0 <= k < l < n.len() implies seq_lt(#[trigger] n[k], #[trigger] n[l]) by {
        if l < p {
            assert(n[k] == o[k] && n[l] == o[l]);
        } else if l == p {
            assert(n[k] == o[k]);
        } else if k < p {
            assert(n[k] == o[k] && n[l] == o[l - 1]);
            crate::saplogon::lemma_seq_lt_transitive(o[k], x@, o[l - 1]);
        } else if k == p {
            assert(n[l] == o[l - 1]);
        } else {
            assert(n[k] == o[k - 1] && n[l] == o[l - 1]);
        }
    }
    assert forall|k: int| 0 <= k < o.len() implies n.contains(#[trigger] old(ids)@[k]@) by {
        assert(o[k] == old(ids)@[k]@);
        if k < p {
            assert(n[k] == o[k]);
        } else {
            assert(n[k + 1] == o[k]);
        }
    }
    assert forall|k: int| 0 <= k < n.len() implies (#[trigger] ids@[k])@ == x@ || o.contains(ids@[k]@) by {
        assert(n[k] == ids@[k]@);
        if k < p {
            assert(n[k] == o[k]);
        } else if k > p {
            assert(n[k] == o[k - 1]);
        }
    }
}

/// The distinct system IDs that are not empty, ascending.
fn sorted_ids(systems: &Vec<SapSystem>) -> (ids: Vec<String>)
    ensures
        ascending(crate::model::strings_view(ids@)),
        forall|i: int|
            0 <= i < systems.len() && (#[trigger] systems@[i])@.system_id.len() > 0 ==> crate::model::strings_view(
                ids@,
            ).contains(systems@[i]@.system_id),
{
    let mut ids: Vec<String> = Vec::new();
    let mut i: usize = 0;
    while i < systems.len()
        invariant
            i <= systems.len(),
            ascending(crate::model::strings_view(ids@)),
            forall|j: int|
                0 <= j < i && (#[trigger] systems@[j])@.system_id.len() > 0 ==> crate::model::strings_view(ids@).contains(
                    systems@[j]@.system_id,
                ),
        decreases systems.len() - i,
    {
        if text::chars_of_string(&systems[i].system_id).len() > 0 {
            let ghost before = crate::model::strings_view(ids@);
            insert_id(&mut ids, systems[i].system_id.clone());
            assert forall|j: int|
                0 <= j < i && (#[trigger] systems@[j])@.system_id.len() > 0 implies crate::model::strings_view(ids@).contains(
                systems@[j]@.system_id,
            ) by {
                let k = choose|k: int| 0 <= k < before.len() && before[k] == systems@[j]@.system_id;
                assert(before[k] == before[k]);
            }
        }
        i += 1;
    }
    ids
}

pub open spec fn qualifies(vs: Seq<SysView>, id: Seq<char>) -> bool {
    id.len() > 0 && count_sid(vs, id) > 1
}

/// The IDs that are not empty and occur more than once, in the order given.
pub open spec fn qual_ids(vs: Seq<SysView>, ids: Seq<Seq<char>>) -> Seq<Seq<char>>
    decreases ids.len(),
{
    if ids.len() == 0 {
        seq![]
    } else {
        qual_ids(vs, ids.drop_last()) + if qualifies(vs, ids.last()) {
            seq![ids.last()]
        } else {
            seq![]
        }
    }
}

proof fn lemma_qual_ids_ascending(vs: Seq<SysView>, ids: Seq<Seq<char>>)
    requires
        ascending(ids),
    ensures
        ascending(qual_ids(vs, ids)),
        forall|k: int| 0 <= k < qual_ids(vs, ids).len() ==> ids.contains(#[trigger] qual_ids(vs, ids)[k]),
        forall|k: int| 0 <= k < qual_ids(vs, ids).len() ==> qualifies(vs, #[trigger] qual_ids(vs, ids)[k]),
    decreases ids.len(),
{
    if ids.len() > 0 {
        let prev = ids.drop_last();
        assert(ascending(prev)) by {
            assert forall|k: int, l: int| 0 <= k < l < prev.len() implies seq_lt(#[trigger] prev[k], #[trigger] prev[l]) by {
                assert(prev[k] == ids[k] && prev[l] == ids[l]);
            }
        }
        lemma_qual_ids_ascending(vs, prev);
        let q = qual_ids(vs, ids);
        let qp = qual_ids(vs, prev);
        assert forall|k: int| 0 <= k < q.len() implies ids.contains(#[trigger] q[k]) && qualifies(vs, q[k]) by {
            if k < qp.len() {
                assert(q[k] == qp[k]);
                let j = choose|j: int| 0 <= j < prev.len() && prev[j] == qp[k];
                assert(ids[j] == prev[j]);
            } else {
                assert(q[k] == ids[ids.len() - 1]);
            }
        }
        if qualifies(vs, ids.last()) {
            assert forall|k: int, l: int| 0 <= k < l < q.len() implies seq_lt(#[trigger] q[k], #[trigger] q[l]) by {
                if l == q.len() - 1 {
                    assert(q[k] == qp[k]);
                    let j = choose|j: int| 0 <= j < prev.len() && prev[j] == qp[k];
                    assert(seq_lt(ids[j], ids[ids.len() - 1]));
                } else {
                    assert(q[k] == qp[k] && q[l] == qp[l]);
                }
            }
        } else {
            assert(q =~= qp);
        }
    }
}

proof fn lemma_qual_ids_complete(vs: Seq<SysView>, ids: Seq<Seq<char>>, i: int)
    requires
        0 <= i < ids.len(),
        qualifies(vs, ids[i]),
    ensures
        qual_ids(vs, ids).contains(ids[i]),
    decreases ids.len(),
{
    let q = qual_ids(vs, ids);
    if i == ids.len() - 1 {
        assert(q[q.len() - 1] == ids[i]);
    } else {
        lemma_qual_ids_complete(vs, ids.drop_last(), i);
        let qp = qual_ids(vs, ids.drop_last());
        let k = choose|k: int| 0 <= k < qp.len() && qp[k] == ids[i];
        assert(q[k] == qp[k]);
    }
}

/// Every system ID that occurs more than once, ascending (see
/// [`duplicates_rel`]).
pub fn duplicate_system_ids(systems: &Vec<SapSystem>) -> (r: Vec<DuplicateSystemId>)
    ensures
        duplicates_rel(sys_views(systems@), r@),
{
    let ghost vs = sys_views(systems@);
    let ids = sorted_ids(systems);
    let ghost iv = crate::model::strings_view(ids@);
    let mut out: Vec<DuplicateSystemId> = Vec::new();
    let mut k: usize = 0;
    assert(iv.take(0) =~= Seq::<Seq<char>>::empty());
    assert(out@.map_values(|d: DuplicateSystemId| d.system_id@) =~= Seq::<Seq<char>>::empty());
    while k < ids.len()
        invariant
            k <= ids.len(),
            vs == sys_views(systems@),
            iv == crate::model::strings_view(ids@),
            forall|j: int|
                0 <= j < out.len() ==> {
                    let d = #[trigger] out@[j];
                    &&& d.count == count_sid(vs, d.system_id@)
                    &&& crate::model::strings_view(d.hosts@) == hosts_of_sid(vs, d.system_id@)
                },
            out@.map_values(|d: DuplicateSystemId| d.system_id@) == qual_ids(vs, iv.take(k as int)),
        decreases ids.len() - k,
    {
        assert(iv.take(k + 1).drop_last() =~= iv.take(k as int));
        assert(iv.take(k + 1).last() == ids@[k as int]@);
        let (count, hosts) = count_and_hosts(systems, &ids[k]);
        let ghost before = out@;
        if count > 1 && text::chars_of_string(&ids[k]).len() > 0 {
            let d = DuplicateSystemId { system_id: ids[k].clone(), count, hosts };
            out.push(d);
            assert(out@.map_values(|d: DuplicateSystemId| d.system_id@) =~= before.map_values(
                |d: DuplicateSystemId| d.system_id@,
            ).push(d.system_id@));
        }
        k += 1;
    }
    assert(iv.take(ids.len() as int) =~= iv);
    proof {
        let ov = out@.map_values(|d: DuplicateSystemId| d.system_id@);
        lemma_qual_ids_ascending(vs, iv);
        assert forall|j: int| 0 <= j < out.len() implies {
            let d = #[trigger] out@[j];
            &&& d.system_id@.len() > 0
            &&& d.count > 1
        } by {
            assert(ov[j] == out@[j].system_id@);
            assert(qualifies(vs, qual_ids(vs, iv)[j]));
        }
        assert forall|i: int|
            0 <= i < vs.len() && (#[trigger] vs[i]).system_id.len() > 0 && count_sid(vs, vs[i].system_id) > 1 implies exists|j: int|
            0 <= j < out.len() && out@[j].system_id@ == vs[i].system_id by {
            assert(vs[i] == systems@[i]@);
            let q = choose|q: int| 0 <= q < iv.len() && iv[q] == systems@[i]@.system_id;
            lemma_qual_ids_complete(vs, iv, q);
            let j = choose|j: int| 0 <= j < ov.len() && ov[j] == iv[q];
            assert(ov[j] == out@[j].system_id@);
        }
    }
    out
}

} // verus!

verus! {

// ---------------------------------------------------------------------------
// Following includes and assembling the report
// ---------------------------------------------------------------------------

/// `a` before `b`: by system ID, then by name (`String`'s order).
pub open spec fn id_name_lt(a: SapSystem, b: SapSystem) -> bool {
    seq_lt(a.system_id@, b.system_id@) || (a.system_id@ == b.system_id@ && seq_lt(a.name@, b.name@))
}

/// One step of a stable insertion sort: `x` after every entry that does not
/// sort after it, counting from the end.
pub open spec fn insert_by_id(s: Seq<SapSystem>, x: SapSystem) -> Seq<SapSystem>
    decreases s.len(),
{
    if s.len() == 0 {
        seq![x]
    } else if id_name_lt(x, s.last()) {
        insert_by_id(s.drop_last(), x).push(s.last())
    } else {
        s.push(x)
    }
}

/// The systems by system ID and name; equal keys keep their order
/// (`slice::sort_by` is stable).
pub open spec fn sort_by_id(s: Seq<SapSystem>) -> Seq<SapSystem>
    decreases s.len(),
{
    if s.len() == 0 {
        seq![]
    } else {
        insert_by_id(sort_by_id(s.drop_last()), s.last())
    }
}

fn sorts_before_id(b: &SapSystem, a: &SapSystem) -> (r: bool)
    ensures
        r == id_name_lt(*b, *a),
{
    let sb = text::chars_of_string(&b.system_id);
    let sa = text::chars_of_string(&a.system_id);
    if !text::seq_eq(&sb, &sa) {
        return seq_lt_exec(&sb, &sa);
    }
    proof {
        crate::saplogon::lemma_seq_lt_total(sb@, sa@);
    }
    let nb = text::chars_of_string(&b.name);
    let na = text::chars_of_string(&a.name);
    seq_lt_exec(&nb, &na)
}

fn insert_system(out: &mut Vec<SapSystem>, x: SapSystem)
    ensures
        final(out)@ == insert_by_id(old(out)@, x),
{
    let ghost o = out@;
    let mut j: usize = out.len();
    let mut stop = false;
    assert(o.take(o.len() as int) =~= o);
    assert(o.skip(o.len() as int) =~= Seq::<SapSystem>::empty());
    while j > 0 && !stop
        invariant
            j <= out.len(),
            out@ == o,
            insert_by_id(o, x) == insert_by_id(o.take(j as int), x) + o.skip(j as int),
            stop ==> j > 0 && !id_name_lt(x, o[j - 1]),
        decreases j + (if stop { 0int } else { 1int }),
    {
        if sorts_before_id(&x, &out[j - 1]) {
            assert(o.take(j as int).drop_last() =~= o.take(j - 1));
            assert(o.take(j as int).last() == o[j - 1]);
            assert(o.skip(j - 1) =~= seq![o[j - 1]] + o.skip(j as int));
            j -= 1;
        } else {
            stop = true;
        }
    }
    if stop {
        assert(o.take(j as int).last() == o[j - 1]);
    }
    out.insert(j, x);
    assert(out@ =~= insert_by_id(o, x));
}

fn sort_systems_by_id(v: Vec<SapSystem>) -> (r: Vec<SapSystem>)
    ensures
        r@ == sort_by_id(v@),
{
    let ghost orig = v@;
    let mut rest = v;
    let mut out: Vec<SapSystem> = Vec::new();
    let ghost mut i: int = 0;
    assert(orig.skip(0) =~= orig);
    assert(orig.take(0) =~= Seq::<SapSystem>::empty());
    while rest.len() > 0
        invariant
            0 <= i <= orig.len(),
            rest@ == orig.skip(i),
            out@ == sort_by_id(orig.take(i)),
        decreases rest.len(),
    {
        let x = rest.remove(0);
        assert(orig.take(i + 1).drop_last() =~= orig.take(i));
        assert(orig.take(i + 1).last() == x);
        assert(rest@ =~= orig.skip(i + 1));
        insert_system(&mut out, x);
        proof {
            i = i + 1;
        }
    }
    assert(orig.take(i) =~= orig);
    out
}

proof fn lemma_insert_by_id_multiset(s: Seq<SapSystem>, x: SapSystem)
    ensures
        insert_by_id(s, x).to_multiset() == s.to_multiset().insert(x),
    decreases s.len(),
{
    broadcast use vstd::seq_lib::group_to_multiset_ensures;
    if s.len() == 0 {
        assert(seq![x] =~= Seq::<SapSystem>::empty().push(x));
    } else if id_name_lt(x, s.last()) {
        lemma_insert_by_id_multiset(s.drop_last(), x);
        assert(s =~= s.drop_last().push(s.last()));
        assert(insert_by_id(s, x).to_multiset() =~= s.to_multiset().insert(x));
    }
}

/// Sorting the systems only reorders them: the same systems, each as often.
pub proof fn law_sorting_systems_keeps_them(s: Seq<SapSystem>)
    ensures
        sort_by_id(s).to_multiset() == s.to_multiset(),
        sort_by_id(s).len() == s.len(),
    decreases s.len(),
{
    broadcast use vstd::seq_lib::group_to_multiset_ensures;
    if s.len() > 0 {
        law_sorting_systems_keeps_them(s.drop_last());
        lemma_insert_by_id_multiset(sort_by_id(s.drop_last()), s.last());
        assert(s =~= s.drop_last().push(s.last()));
        assert(sort_by_id(s).to_multiset() =~= s.to_multiset());
    }
    assert(sort_by_id(s).to_multiset().len() == sort_by_id(s).len());
    assert(s.to_multiset().len() == s.len());
}

/// Includes deeper than this are not followed.
pub const MAX_INCLUDE_DEPTH: usize = 6;

/// The landscape files read so far while following includes (as their
/// canonical paths), what they declared, and the warnings.
pub struct LandscapeCollection {
    pub seen: Vec<String>,
    pub merged: RawLandscape,
    pub warnings: Vec<String>,
}

impl LandscapeCollection {
    pub fn new() -> (c: LandscapeCollection)
        ensures
            c.seen@.len() == 0,
            c.warnings@.len() == 0,
            c.merged@ == empty_reader().raw,
    {
        let c = LandscapeCollection {
            seen: Vec::new(),
            merged: RawLandscape { services: Vec::new(), routers: Vec::new(), msg_servers: Vec::new(), includes: Vec::new() },
            warnings: Vec::new(),
        };
        assert(c.merged@.services =~= Seq::<SapServiceView>::empty());
        assert(c.merged@.routers =~= Seq::<(Seq<char>, Seq<char>)>::empty());
        assert(c.merged@.msg_servers =~= Seq::<(Seq<char>, Seq<char>)>::empty());
        assert(c.merged@.includes =~= Seq::<Seq<char>>::empty());
        c
    }

    /// Whether the file is to be read: not more than six includes deep (a
    /// deeper one is warned about) and not read before; it then counts as
    /// read.
    pub fn begin(&mut self, canonical: &str, display: &str, depth: usize) -> (r: bool)
        ensures
            final(self).merged == old(self).merged,
            depth > MAX_INCLUDE_DEPTH ==> !r && final(self).seen == old(self).seen && crate::model::strings_view(
                final(self).warnings@,
            ) == crate::model::strings_view(old(self).warnings@).push("包含层级过深，已跳过："@ + display@),
            depth <= MAX_INCLUDE_DEPTH ==> final(self).warnings == old(self).warnings && r == !crate::model::strings_view(
                old(self).seen@,
            ).contains(canonical@) && (r ==> crate::model::strings_view(final(self).seen@) == crate::model::strings_view(
                old(self).seen@,
            ).push(canonical@)) && (!r ==> final(self).seen == old(self).seen),
    {
        if depth > MAX_INCLUDE_DEPTH {
            let mut m = text::chars_of("包含层级过深，已跳过：");
            text::push_str(&mut m, display);
            let ghost before = crate::model::strings_view(self.warnings@);
            self.warnings.push(text::string_of(&m));
            assert(crate::model::strings_view(self.warnings@) =~= before.push("包含层级过深，已跳过："@ + display@));
            return false;
        }
        if contains_str(&self.seen, canonical) {
            return false;
        }
        let ghost before = crate::model::strings_view(self.seen@);
        self.seen.push(canonical.to_owned());
        assert(crate::model::strings_view(self.seen@) =~= before.push(canonical@));
        true
    }

    /// Adds what a file declared and hands back its includes; a file that
    /// could not be read or parsed is warned about instead.
    pub fn absorb(&mut self, display: &str, parsed: Result<RawLandscape, AppError>) -> (includes: Vec<String>)
        ensures
            final(self).seen == old(self).seen,
            match parsed {
                Ok(raw) => {
                    &&& final(self).merged.services@ == old(self).merged.services@ + raw.services@
                    &&& final(self).merged.routers@ == old(self).merged.routers@ + raw.routers@
                    &&& final(self).merged.msg_servers@ == old(self).merged.msg_servers@ + raw.msg_servers@
                    &&& final(self).merged.includes == old(self).merged.includes
                    &&& final(self).warnings == old(self).warnings
                    &&& includes@ == raw.includes@
                },
                Err(e) => {
                    &&& final(self).merged == old(self).merged
                    &&& crate::model::strings_view(final(self).warnings@) == crate::model::strings_view(old(self).warnings@).push(
                        display@ + " 解析失败："@ + crate::error::message_spec(e),
                    )
                    &&& includes@.len() == 0
                },
            },
    {
        match parsed {
            Ok(raw) => {
                let RawLandscape { mut services, mut routers, mut msg_servers, includes } = raw;
                self.merged.services.append(&mut services);
                self.merged.routers.append(&mut routers);
                self.merged.msg_servers.append(&mut msg_servers);
                includes
            },
            Err(e) => {
                let mut m = text::chars_of(display);
                text::push_str(&mut m, " 解析失败：");
                let em = e.message();
                text::push_str(&mut m, em.as_str());
                let ghost before = crate::model::strings_view(self.warnings@);
                self.warnings.push(text::string_of(&m));
                assert(crate::model::strings_view(self.warnings@) =~= before.push(
                    display@ + " 解析失败："@ + crate::error::message_spec(e),
                ));
                Vec::new()
            },
        }
    }

    /// The report of every file read: each service resolved against the
    /// routers and message servers of all files, sorted by system ID and
    /// name, and the system IDs that occur more than once.
    pub fn report(self, parsed_at: String) -> (r: LandscapeReport)
        ensures
            r.files == self.seen,
            r.warnings == self.warnings,
            r.parsed_at == parsed_at,
            exists|built: Seq<SapSystem>|
                built.len() == self.merged.services@.len() && (forall|i: int|
                    0 <= i < built.len() ==> build_rel(
                        #[trigger] self.merged.services@[i],
                        pairs_view(self.merged.routers@),
                        pairs_view(self.merged.msg_servers@),
                        built[i],
                    )) && r.systems@ == sort_by_id(built),
            duplicates_rel(sys_views(r.systems@), r.duplicates@),
    {
        let LandscapeCollection { seen, merged, warnings } = self;
        let mut built: Vec<SapSystem> = Vec::new();
        let mut i: usize = 0;
        while i < merged.services.len()
            invariant
                i <= merged.services.len(),
                built@.len() == i,
                forall|k: int|
                    0 <= k < i ==> build_rel(
                        #[trigger] merged.services@[k],
                        pairs_view(merged.routers@),
                        pairs_view(merged.msg_servers@),
                        built@[k],
                    ),
            decreases merged.services.len() - i,
        {
            built.push(build_system(&merged.services[i], &merged.routers, &merged.msg_servers));
            i += 1;
        }
        let ghost bv = built@;
        let systems = sort_systems_by_id(built);
        let duplicates = duplicate_system_ids(&systems);
        LandscapeReport { files: seen, systems, warnings, duplicates, parsed_at }
    }
}

/// The files to read: the given paths (trimmed, empty ones left out), or
/// the default locations when none is given.
pub fn landscape_candidates(paths: &Vec<String>, defaults: Vec<String>) -> (r: Vec<String>)
    ensures
        ({
            let given = crate::landscape::nonempty(paths@.map_values(|p: String| trim(p@)));
            if given.len() > 0 {
                crate::model::strings_view(r@) == given
            } else {
                r == defaults
            }
        }),
{
    let ghost tv = paths@.map_values(|p: String| trim(p@));
    let mut out: Vec<String> = Vec::new();
    let mut i: usize = 0;
    assert(tv.take(0) =~= Seq::<Seq<char>>::empty());
    while i < paths.len()
        invariant
            i <= paths.len(),
            tv == paths@.map_values(|p: String| trim(p@)),
            crate::model::strings_view(out@) == crate::landscape::nonempty(tv.take(i as int)),
        decreases paths.len() - i,
    {
        assert(tv.take(i + 1).drop_last() =~= tv.take(i as int));
        assert(tv.take(i + 1).last() == trim(paths@[i as int]@));
        let t = text::trim_str(paths[i].as_str());
        if t.len() > 0 {
            let ghost before = crate::model::strings_view(out@);
            out.push(text::string_of(&t));
            assert(crate::model::strings_view(out@) =~= before.push(t@));
        }
        i += 1;
    }
    assert(tv.take(paths.len() as int) =~= tv);
    if out.len() > 0 {
        out
    } else {
        defaults
    }
}

} // verus!

verus! {

/// A path that no platform takes as absolute: it starts with neither a
/// slash nor a backslash and has no drive colon in second place.
pub open spec fn plain_relative(p: Seq<char>) -> bool {
    &&& (p.len() == 0 || (p[0] != '/' && p[0] != '\\'))
    &&& (p.len() < 2 || p[1] != ':')
}

/// `Path::is_absolute`: on Windows a drive or UNC prefix followed by a root,
/// elsewhere a leading `/`. Which of the two holds depends on the platform,
/// so only what holds on both is claimed: a plain relative path is not
/// absolute.
#[verifier::external_body]
fn path_is_absolute(p: &str) -> (r: bool)
    ensures
        plain_relative(p@) ==> !r,
{
    std::path::Path::new(p).is_absolute()
}

/// A `file://` URL as a Windows path: what follows the scheme,
/// percent-decoded, with `\` for `/`.
pub open spec fn file_url_path(t: Seq<char>) -> Option<Seq<char>> {
    if starts_with(t, "file:///"@) {
        Some(text::replace_all(crate::saplogon::percent_decode_spec(t.skip(8)), "/"@, "\\"@))
    } else if starts_with(t, "file://"@) {
        Some(text::replace_all(crate::saplogon::percent_decode_spec(t.skip(7)), "/"@, "\\"@))
    } else {
        None
    }
}

/// Where an include points: a `file://` URL as a Windows path, an absolute
/// path as written, a relative one joined to the folder of the including
/// file with the platform's separator `sep` (nothing when that folder is
/// unknown).
pub fn include_to_path(url: &str, base: Option<&str>, sep: char) -> (r: Option<String>)
    ensures
        trim(url@).len() == 0 ==> r is None,
        trim(url@).len() > 0 ==> match file_url_path(trim(url@)) {
            Some(p) => r matches Some(s) && s@ == p,
            None => match base {
                Some(dir) => r matches Some(s) && (s@ == trim(url@) || s@ == crate::store::join_path(dir@, trim(url@), sep))
                    && (plain_relative(trim(url@)) ==> s@ == crate::store::join_path(dir@, trim(url@), sep)),
                None => (r is None || (r matches Some(s) && s@ == trim(url@))) && (plain_relative(trim(url@)) ==> r is None),
            },
        },
{
    let t = text::trim_str(url);
    if t.len() == 0 {
        return None;
    }
    proof {
        reveal_strlit("file:///");
        reveal_strlit("file://");
    }
    if text::starts_with_str(&t, "file:///") || text::starts_with_str(&t, "file://") {
        let from: usize = if text::starts_with_str(&t, "file:///") {
            8
        } else {
            7
        };
        let rest = text::string_of(&text::slice_of(&t, from, t.len()));
        let d = crate::saplogon::percent_decode(rest.as_str());
        let dc = text::chars_of_string(&d);
        return Some(text::string_of(&text::replace_exec(&dc, "/", "\\")));
    }
    let value = text::string_of(&t);
    if path_is_absolute(value.as_str()) {
        Some(value)
    } else {
        match base {
            Some(dir) => Some(crate::store::join(dir, value.as_str(), sep)),
            None => None,
        }
    }
}

} // verus!
