//! The SAP GUI logon configuration (`SAPUILandscape.xml`), read so an
//! account can be started with one click.
//!
//! A system ID is not unique (the same SID can appear several times with
//! different servers), and a host can come from four places: `server`, a
//! message server via `msid`, a router, or a URL for Fiori/NWBC entries.

use vstd::prelude::*;
use crate::landscape::{self, Collector, RawService, ServiceView, MessageServer, Pairs, MessagesView, lookup, pairs_view, messages_view, services_view};
use crate::model::strings_view;
use crate::text::{self, trim, starts_with, ends_with, contains, lower_seq, eq_ignore_case, all_digits, rsplit_once};

verus! {

/// Guards against a landscape that includes itself in a loop.
pub const MAX_INCLUDE_DEPTH: usize = 4;
/// Default port of a saprouter; used only when the landscape omits one.
pub const DEFAULT_ROUTER_PORT: &'static str = "3299";

#[derive(Debug, Clone, Default)]
pub struct SapSystem {
    /// `uuid` of the `<Service>`; lets the user pin one entry when a SID repeats.
    pub service_uuid: String,
    /// Name shown in SAP Logon.
    pub name: String,
    pub system_id: String,
    /// `type` attribute: `SAPGUI`, `Reference`, `FIORI`, `NWBC`, …
    pub entry_type: String,
    /// `applicationServer` | `serverGroup` | `web` | `other`
    pub kind: String,
    /// Raw `server` attribute (`host:port`, or the logon group name).
    pub server: String,
    pub host: String,
    pub port: String,
    /// SAP instance number derived from the port (`3200` → `00`).
    pub instance: String,
    pub message_server: String,
    pub message_server_port: String,
    /// Logon group for `serverGroup` entries (SAP's default is `SPACE`).
    pub group: String,
    pub router: String,
    pub url: String,
    /// Connection string handed to `sapshcut -guiparm`.
    pub guiparm: String,
    /// Workspace / node path inside SAP Logon, when the file defines one.
    pub workspace: String,
    pub source_file: String,
    /// Only set on `Reference` entries (a saved shortcut).
    pub client: String,
    pub language: String,
    pub user: String,
    /// `sapguiid`: a saved shortcut points at the SAP GUI connection it copies.
    pub sapgui_id: String,
}

#[derive(Debug, Clone, Default)]
pub struct Landscape {
    /// Files that were read, in the order they were merged.
    pub files: Vec<String>,
    pub systems: Vec<SapSystem>,
    /// Files that were searched but missing, plus anything unreadable.
    pub warnings: Vec<String>,
}

pub open spec fn launchable(s: SapSystem) -> bool {
    trim(s.system_id@).len() > 0 && (s.kind@ == "applicationServer"@ || s.kind@ == "serverGroup"@)
}

impl SapSystem {
    /// True when the entry can be started with `sapshcut.exe`.
    pub fn is_launchable(&self) -> (r: bool)
        ensures
            r == launchable(*self),
    {
        let sid = text::trim_str(self.system_id.as_str());
        let k = self.kind.as_str();
        sid.len() > 0 && (text::str_eq(k, "applicationServer") || text::str_eq(k, "serverGroup"))
    }
}

// ---------------------------------------------------------------------------
// Picking the entry of an account
// ---------------------------------------------------------------------------

pub open spec fn first_uuid(systems: Seq<SapSystem>, uuid: Seq<char>) -> Option<int>
    decreases systems.len(),
{
    if systems.len() == 0 {
        None
    } else {
        match first_uuid(systems.drop_last(), uuid) {
            Some(i) => Some(i),
            None => if systems.last().service_uuid@ == uuid {
                Some(systems.len() - 1)
            } else {
                None
            },
        }
    }
}

/// The launchable entries whose system ID equals `wanted` up to ASCII case.
pub open spec fn sid_matches(systems: Seq<SapSystem>, wanted: Seq<char>) -> Seq<int>
    decreases systems.len(),
{
    if systems.len() == 0 {
        seq![]
    } else {
        sid_matches(systems.drop_last(), wanted) + (if eq_ignore_case(systems.last().system_id@, wanted)
            && launchable(systems.last()) {
            seq![systems.len() - 1]
        } else {
            seq![]
        })
    }
}

/// The entry of an account: the one with the pinned service UUID, otherwise
/// the only launchable entry with the system ID.
pub open spec fn find_system_spec(systems: Seq<SapSystem>, uuid: Seq<char>, system_id: Seq<char>) -> Option<int> {
    if trim(uuid).len() > 0 && first_uuid(systems, uuid) is Some {
        first_uuid(systems, uuid)
    } else if trim(system_id).len() == 0 {
        None
    } else if sid_matches(systems, trim(system_id)).len() == 1 {
        Some(sid_matches(systems, trim(system_id))[0])
    } else {
        None
    }
}

proof fn lemma_first_uuid_prefix(s: Seq<SapSystem>, uuid: Seq<char>, n: int, k: int)
    requires
        0 < n <= s.len(),
        first_uuid(s.take(n), uuid) == Some(k),
    ensures
        first_uuid(s, uuid) == Some(k),
    decreases s.len() - n,
{
    if n < s.len() {
        assert(s.take(n + 1).drop_last() =~= s.take(n));
        lemma_first_uuid_prefix(s, uuid, n + 1, k);
    } else {
        assert(s.take(n) =~= s);
    }
}

proof fn lemma_sid_matches_bounds(s: Seq<SapSystem>, wanted: Seq<char>)
    ensures
        forall|j: int| 0 <= j < sid_matches(s, wanted).len() ==> 0 <= #[trigger] sid_matches(s, wanted)[j] < s.len(),
    decreases s.len(),
{
    if s.len() > 0 {
        lemma_sid_matches_bounds(s.drop_last(), wanted);
        let prev = sid_matches(s.drop_last(), wanted);
        assert forall|j: int| 0 <= j < sid_matches(s, wanted).len() implies 0 <= #[trigger] sid_matches(s, wanted)[j] < s.len() by {
            if j < prev.len() {
                assert(sid_matches(s, wanted)[j] == prev[j]);
            }
        }
    }
}

pub fn find_system<'a>(systems: &'a [SapSystem], service_uuid: &str, system_id: &str) -> (r: Option<&'a SapSystem>)
    ensures
        match find_system_spec(systems@, service_uuid@, system_id@) {
            Some(i) => r matches Some(s) && *s == systems@[i],
            None => r is None,
        },
{
    let u = text::trim_str(service_uuid);
    if u.len() > 0 {
        let mut i: usize = 0;
        assert(systems@.take(0) =~= Seq::<SapSystem>::empty());
        while i < systems.len()
            invariant
                i <= systems.len(),
                u@ == trim(service_uuid@),
                u@.len() > 0,
                first_uuid(systems@.take(i as int), service_uuid@) is None,
            decreases systems.len() - i,
        {
            assert(systems@.take(i + 1).drop_last() =~= systems@.take(i as int));
            if text::str_eq(systems[i].service_uuid.as_str(), service_uuid) {
                proof {
                    lemma_first_uuid_prefix(systems@, service_uuid@, i + 1, i as int);
                }
                return Some(&systems[i]);
            }
            i += 1;
        }
        assert(systems@.take(systems.len() as int) =~= systems@);
    }
    let wanted = text::trim_str(system_id);
    if wanted.len() == 0 {
        return None;
    }
    let mut found: Option<usize> = None;
    let mut count: usize = 0;
    let mut i: usize = 0;
    assert(systems@.take(0) =~= Seq::<SapSystem>::empty());
    while i < systems.len()
        invariant
            i <= systems.len(),
            wanted@ == trim(system_id@),
            count == sid_matches(systems@.take(i as int), wanted@).len(),
            count <= i,
            count >= 1 ==> found == Some(sid_matches(systems@.take(i as int), wanted@)[0] as usize),
        decreases systems.len() - i,
    {
        assert(systems@.take(i + 1).drop_last() =~= systems@.take(i as int));
        let sid = text::chars_of_string(&systems[i].system_id);
        if text::eq_ignore_ascii_case(&sid, &wanted) && systems[i].is_launchable() {
            if count == 0 {
                found = Some(i);
            }
            count += 1;
        }
        i += 1;
    }
    assert(systems@.take(systems.len() as int) =~= systems@);
    proof {
        lemma_sid_matches_bounds(systems@, wanted@);
    }
    if count == 1 {
        match found {
            Some(k) => Some(&systems[k]),
            None => None,
        }
    } else {
        None
    }
}

/// How many entries carry the system ID (up to ASCII case).
pub open spec fn count_sid(systems: Seq<SapSystem>, sid: Seq<char>) -> nat
    decreases systems.len(),
{
    if systems.len() == 0 {
        0
    } else {
        count_sid(systems.drop_last(), sid) + (if eq_ignore_case(systems.last().system_id@, sid) {
            1nat
        } else {
            0nat
        })
    }
}

/// How many landscape entries carry this system ID (a repeated SID means the
/// connection string has to be pinned explicitly).
pub fn count_system_id(systems: &[SapSystem], system_id: &str) -> (n: usize)
    ensures
        n == count_sid(systems@, trim(system_id@)),
{
    let wanted = text::trim_str(system_id);
    let mut n: usize = 0;
    let mut i: usize = 0;
    assert(systems@.take(0) =~= Seq::<SapSystem>::empty());
    while i < systems.len()
        invariant
            i <= systems.len(),
            wanted@ == trim(system_id@),
            n == count_sid(systems@.take(i as int), wanted@),
            n <= i,
        decreases systems.len() - i,
    {
        assert(systems@.take(i + 1).drop_last() =~= systems@.take(i as int));
        let sid = text::chars_of_string(&systems[i].system_id);
        if text::eq_ignore_ascii_case(&sid, &wanted) {
            n += 1;
        }
        i += 1;
    }
    assert(systems@.take(systems.len() as int) =~= systems@);
    n
}

} // verus!

verus! {

// ---------------------------------------------------------------------------
// Hosts, ports and connection strings
// ---------------------------------------------------------------------------

/// `sap-prd.example:3200` → (`sap-prd.example`, `3200`); without a numeric
/// port the whole trimmed value is the host.
pub open spec fn split_host_port_spec(value: Seq<char>) -> (Seq<char>, Seq<char>) {
    let t = trim(value);
    if t.len() == 0 {
        (seq![], seq![])
    } else {
        match rsplit_once(t, ':') {
            Some(hp) => if hp.0.len() > 0 && all_digits(hp.1) {
                hp
            } else {
                (t, seq![])
            },
            None => (t, seq![]),
        }
    }
}

pub fn split_host_port(value: &str) -> (r: (String, String))
    ensures
        (r.0@, r.1@) == split_host_port_spec(value@),
{
    let t = text::trim_str(value);
    if t.len() == 0 {
        return (String::new(), String::new());
    }
    match text::rsplit_once_exec(&t, ':') {
        Some((h, p)) => {
            if h.len() > 0 && text::is_all_digits(&p) {
                (text::string_of(&h), text::string_of(&p))
            } else {
                (text::string_of(&t), String::new())
            }
        },
        None => (text::string_of(&t), String::new()),
    }
}

pub open spec fn digit_value(c: char) -> nat {
    ((c as u32) - 48) as nat
}

/// Value of a run of decimal digits.
pub open spec fn digits_value(s: Seq<char>) -> nat
    decreases s.len(),
{
    if s.len() == 0 {
        0
    } else {
        10 * digits_value(s.drop_last()) + digit_value(s.last())
    }
}

/// `str::parse::<u32>`: an optional `+`, then at least one digit, within range.
pub open spec fn parse_u32_spec(s: Seq<char>) -> Option<nat> {
    let d = if s.len() > 0 && s[0] == '+' {
        s.skip(1)
    } else {
        s
    };
    if d.len() > 0 && all_digits(d) && digits_value(d) <= u32::MAX {
        Some(digits_value(d))
    } else {
        None
    }
}

proof fn lemma_digits_value_prefix(s: Seq<char>, i: int)
    requires
        0 <= i <= s.len(),
        all_digits(s),
    ensures
        digits_value(s.take(i)) <= digits_value(s),
    decreases s.len() - i,
{
    if i < s.len() {
        lemma_digits_value_prefix(s, i + 1);
        assert(s.take(i + 1).drop_last() =~= s.take(i));
    } else {
        assert(s.take(i) =~= s);
    }
}

pub fn parse_u32(s: &Vec<char>) -> (r: Option<u32>)
    ensures
        match parse_u32_spec(s@) {
            Some(v) => r == Some(v as u32),
            None => r is None,
        },
{
    let start: usize = if s.len() > 0 && s[0] == '+' {
        1
    } else {
        0
    };
    let d = text::slice_of(s, start, s.len());
    assert(d@ =~= (if s@.len() > 0 && s@[0] == '+' { s@.skip(1) } else { s@ }));
    if d.len() == 0 || !text::is_all_digits(&d) {
        return None;
    }
    let mut v: u64 = 0;
    let mut i: usize = 0;
    assert(d@.take(0) =~= Seq::<char>::empty());
    while i < d.len()
        invariant
            i <= d.len(),
            all_digits(d@),
            d@.len() > 0,
            d@ == (if s@.len() > 0 && s@[0] == '+' { s@.skip(1) } else { s@ }),
            v as nat == digits_value(d@.take(i as int)),
            v <= u32::MAX,
        decreases d.len() - i,
    {
        assert(d@.take(i + 1).drop_last() =~= d@.take(i as int));
        assert(text::is_digit(d@[i as int]));
        let digit = (d[i] as u32 - 48) as u64;
        let next = v * 10 + digit;
        assert(digits_value(d@.take(i + 1)) == next) by {
            assert(d@.take(i + 1).last() == d@[i as int]);
        }
        if next > 0xFFFF_FFFF {
            proof {
                lemma_digits_value_prefix(d@, i + 1);
            }
            return None;
        }
        v = next;
        i += 1;
    }
    assert(d@.take(d.len() as int) =~= d@);
    Some(v as u32)
}

/// Two decimal digits, zero-padded (`format!("{:02}", n)`).
pub open spec fn two_digits(n: nat) -> Seq<char> {
    if n < 10 {
        seq!['0'] + text::decimal(n)
    } else {
        text::decimal(n)
    }
}

/// `3300` → `01`; anything that is not `3200 + 100·n` yields nothing.
pub open spec fn instance_spec(port: Seq<char>) -> Seq<char> {
    match parse_u32_spec(trim(port)) {
        Some(p) => if p < 3200 || (p - 3200) % 100 != 0 {
            seq![]
        } else {
            two_digits(((p - 3200) / 100) as nat)
        },
        None => seq![],
    }
}

pub fn instance_from_port(port: &str) -> (r: String)
    ensures
        r@ == instance_spec(port@),
{
    let t = text::trim_str(port);
    match parse_u32(&t) {
        None => String::new(),
        Some(p) => {
            if p < 3200 {
                return String::new();
            }
            let offset = p - 3200;
            if offset % 100 != 0 {
                return String::new();
            }
            let n = offset / 100;
            let mut out: Vec<char> = Vec::new();
            if n < 10 {
                out.push('0');
            }
            text::push_decimal(&mut out, n as u64);
            assert(out@ =~= two_digits(n as nat));
            text::string_of(&out)
        },
    }
}

pub open spec fn is_authority_end(c: char) -> bool {
    c == '/' || c == '?' || c == '#'
}

/// Length of the prefix before the first character of the predicate.
pub open spec fn prefix_until(s: Seq<char>, i: int) -> int
    decreases s.len() - i,
{
    if i < 0 || i >= s.len() {
        s.len() as int
    } else if is_authority_end(s[i]) {
        i
    } else {
        prefix_until(s, i + 1)
    }
}

/// The host of a URL: after `://` (when present), before the path, query or
/// fragment, after any `user@`, before any `:port`.
pub open spec fn host_from_url_spec(url: Seq<char>) -> Seq<char> {
    let t = trim(url);
    let rest = match text::find(t, "://"@) {
        Some(i) => t.skip(i + 3),
        None => t,
    };
    let authority = rest.take(prefix_until(rest, 0));
    let host_port = match rsplit_once(authority, '@') {
        Some(p) => p.1,
        None => authority,
    };
    match text::find_char(host_port, ':') {
        Some(i) => host_port.take(i),
        None => host_port,
    }
}

pub proof fn lemma_prefix_until_bounds(s: Seq<char>, i: int)
    requires
        0 <= i <= s.len(),
    ensures
        i <= prefix_until(s, i) <= s.len(),
    decreases s.len() - i,
{
    if i < s.len() {
        lemma_prefix_until_bounds(s, i + 1);
    }
}

pub fn host_from_url(url: &str) -> (r: String)
    ensures
        r@ == host_from_url_spec(url@),
{
    let t = text::trim_str(url);
    let sep = text::chars_of("://");
    proof {
        reveal_strlit("://");
        text::lemma_find_from_bounds(t@, sep@, 0);
    }
    let rest = match text::find_vec(&t, &sep) {
        Some(i) => text::slice_of(&t, i + 3, t.len()),
        None => t,
    };
    let mut j: usize = 0;
    proof {
        lemma_prefix_until_bounds(rest@, 0);
    }
    while j < rest.len() && !(rest[j] == '/' || rest[j] == '?' || rest[j] == '#')
        invariant
            j <= rest.len(),
            prefix_until(rest@, 0) == prefix_until(rest@, j as int),
        decreases rest.len() - j,
    {
        j += 1;
    }
    let authority = text::slice_of(&rest, 0, j);
    let host_port = match text::rsplit_once_exec(&authority, '@') {
        Some((_, h)) => h,
        None => authority,
    };
    proof {
        text::lemma_find_char_from_bounds(host_port@, ':', 0);
    }
    let host = match text::find_char_exec(&host_port, ':') {
        Some(i) => text::slice_of(&host_port, 0, i),
        None => host_port,
    };
    text::string_of(&host)
}

/// A saprouter string as a prefix the target hop is appended to; it always
/// ends in `/H/`.
pub open spec fn router_prefix_spec(router: Seq<char>) -> Seq<char> {
    let t = trim(router);
    if t.len() == 0 {
        seq![]
    } else if !starts_with(t, "/H/"@) {
        "/H/"@ + t + "/S/"@ + DEFAULT_ROUTER_PORT@ + "/H/"@
    } else if ends_with(t, "/H/"@) {
        t
    } else if contains(t, "/S/"@) {
        t + "/H/"@
    } else {
        t + "/S/"@ + DEFAULT_ROUTER_PORT@ + "/H/"@
    }
}

pub fn router_prefix(router: &str) -> (r: String)
    ensures
        r@ == router_prefix_spec(router@),
{
    let t = text::trim_str(router);
    if t.len() == 0 {
        return String::new();
    }
    let mut out: Vec<char> = Vec::new();
    if !text::starts_with_str(&t, "/H/") {
        text::push_str(&mut out, "/H/");
        text::push_all(&mut out, &t);
        text::push_str(&mut out, "/S/");
        text::push_str(&mut out, DEFAULT_ROUTER_PORT);
        text::push_str(&mut out, "/H/");
    } else if text::ends_with_str(&t, "/H/") {
        text::push_all(&mut out, &t);
    } else if text::contains_str(&t, "/S/") {
        text::push_all(&mut out, &t);
        text::push_str(&mut out, "/H/");
    } else {
        text::push_all(&mut out, &t);
        text::push_str(&mut out, "/S/");
        text::push_str(&mut out, DEFAULT_ROUTER_PORT);
        text::push_str(&mut out, "/H/");
    }
    assert(out@ =~= router_prefix_spec(router@));
    text::string_of(&out)
}

/// The `/H/…/S/…` connection string SAP GUI accepts as `-guiparm`: the
/// router prefix, the host, `/S/<port>` when there is a port, and
/// `/G/<group>` for a logon group.
pub open spec fn connection_spec(system: SapSystem, host: Seq<char>, port: Seq<char>) -> Seq<char> {
    let h = trim(host);
    let p = trim(port);
    let prefix = router_prefix_spec(system.router@);
    if h.len() == 0 {
        prefix
    } else {
        (if prefix.len() == 0 {
            "/H/"@
        } else {
            prefix
        }) + h + (if p.len() > 0 {
            "/S/"@ + p
        } else {
            seq![]
        }) + (if system.kind@ == "serverGroup"@ && trim(system.group@).len() > 0 {
            "/G/"@ + trim(system.group@)
        } else {
            seq![]
        })
    }
}

pub fn connection_string(system: &SapSystem, host: &str, port: &str) -> (r: String)
    ensures
        r@ == connection_spec(*system, host@, port@),
{
    let h = text::trim_str(host);
    let p = text::trim_str(port);
    let prefix = router_prefix(system.router.as_str());
    let mut out = text::chars_of_string(&prefix);
    if h.len() == 0 {
        return prefix;
    }
    if out.len() == 0 {
        text::push_str(&mut out, "/H/");
    }
    let ghost head = out@;
    text::push_all(&mut out, &h);
    let ghost mid = out@;
    if p.len() > 0 {
        text::push_str(&mut out, "/S/");
        text::push_all(&mut out, &p);
    }
    let ghost mid2 = out@;
    let g = text::trim_str(system.group.as_str());
    if text::str_eq(system.kind.as_str(), "serverGroup") && g.len() > 0 {
        text::push_str(&mut out, "/G/");
        text::push_all(&mut out, &g);
    }
    assert(out@ =~= connection_spec(*system, host@, port@));
    text::string_of(&out)
}

} // verus!

verus! {

// ---------------------------------------------------------------------------
// Resolving a service into something that can be launched
// ---------------------------------------------------------------------------

/// A field of a service: its attribute, else the value of the child element
/// of that name, trimmed; empty when neither is there.
pub open spec fn get_spec(s: ServiceView, key: Seq<char>) -> Seq<char> {
    let k = lower_seq(key);
    match lookup(s.attrs, k) {
        Some(v) => trim(v),
        None => match lookup(s.nested, k) {
            Some(v) => trim(v),
            None => seq![],
        },
    }
}

/// The first of the fields that is not empty.
pub open spec fn get_any_spec(s: ServiceView, keys: Seq<Seq<char>>) -> Seq<char>
    decreases keys.len(),
{
    if keys.len() == 0 {
        seq![]
    } else if get_spec(s, keys[0]).len() > 0 {
        get_spec(s, keys[0])
    } else {
        get_any_spec(s, keys.skip(1))
    }
}

impl RawService {
    pub fn get(&self, key: &str) -> (r: String)
        ensures
            r@ == get_spec(self@, key@),
    {
        let k = text::string_of(&text::to_lower(&text::chars_of(key)));
        match landscape::pairs_get(&self.attrs, k.as_str()) {
            Some(i) => text::string_of(&text::trim_str(self.attrs[i].1.as_str())),
            None => match landscape::pairs_get(&self.nested, k.as_str()) {
                Some(i) => text::string_of(&text::trim_str(self.nested[i].1.as_str())),
                None => String::new(),
            },
        }
    }

    pub fn get_any(&self, keys: &[&str]) -> (r: String)
        ensures
            r@ == get_any_spec(self@, keys@.map_values(|k: &str| k@)),
    {
        let ghost ks = keys@.map_values(|k: &str| k@);
        let mut i: usize = 0;
        assert(ks.skip(0) =~= ks);
        while i < keys.len()
            invariant
                i <= keys.len(),
                ks == keys@.map_values(|k: &str| k@),
                get_any_spec(self@, ks) == get_any_spec(self@, ks.skip(i as int)),
            decreases keys.len() - i,
        {
            assert(ks.skip(i as int)[0] == keys@[i as int]@);
            assert(ks.skip(i as int).skip(1) =~= ks.skip(i + 1));
            let v = self.get(keys[i]);
            if text::chars_of_string(&v).len() > 0 {
                return v;
            }
            i += 1;
        }
        assert(ks.skip(keys.len() as int) =~= Seq::<Seq<char>>::empty());
        String::new()
    }
}

/// The location of the first workspace item that points at the service.
pub open spec fn first_item(items: Pairs, uuid: Seq<char>) -> Option<Seq<char>>
    decreases items.len(),
{
    if items.len() == 0 {
        None
    } else if items[0].0 == uuid {
        Some(items[0].1)
    } else {
        first_item(items.skip(1), uuid)
    }
}

pub open spec fn server_group_kind() -> Seq<char> {
    "serverGroup"@
}

pub open spec fn application_server_kind() -> Seq<char> {
    "applicationServer"@
}

/// `serverGroup` for an entry with a message server, `applicationServer` for
/// one with a host, `web` for one with only a URL, `other` otherwise.
pub open spec fn kind_spec(s: ServiceView) -> Seq<char> {
    if get_spec(s, "msid"@).len() > 0 {
        "serverGroup"@
    } else if split_host_port_spec(get_spec(s, "server"@)).0.len() > 0 {
        "applicationServer"@
    } else if trim(get_spec(s, "url"@)).len() > 0 {
        "web"@
    } else {
        "other"@
    }
}

/// Host and port: from the message server of a logon group when it is
/// known, the host of the URL for a web entry, `server` otherwise.
pub open spec fn host_port_spec(s: ServiceView, messages: MessagesView) -> (Seq<char>, Seq<char>) {
    let split = split_host_port_spec(get_spec(s, "server"@));
    let msid = get_spec(s, "msid"@);
    if msid.len() > 0 {
        match lookup(messages, msid) {
            Some(m) => m,
            None => split,
        }
    } else if split.0.len() > 0 {
        split
    } else if trim(get_spec(s, "url"@)).len() > 0 {
        (host_from_url_spec(get_spec(s, "url"@)), split.1)
    } else {
        split
    }
}

/// What `resolve` makes of a service, field by field.
pub open spec fn resolve_rel(s: ServiceView, routers: Pairs, messages: MessagesView, items: Pairs, r: SapSystem) -> bool {
    let uuid = get_spec(s, "uuid"@);
    let server = get_spec(s, "server"@);
    let msid = get_spec(s, "msid"@);
    let sid = get_any_spec(s, seq!["systemid"@, "system_id"@, "sid"@]);
    let name = get_any_spec(s, seq!["name"@, "description"@]);
    let hp = host_port_spec(s, messages);
    let message = if msid.len() > 0 { lookup(messages, msid) } else { None };
    &&& r.service_uuid@ == uuid
    &&& r.name@ == (if name.len() == 0 { sid } else { name })
    &&& r.system_id@ == sid
    &&& r.entry_type@ == get_spec(s, "type"@)
    &&& r.kind@ == kind_spec(s)
    &&& r.server@ == server
    &&& r.host@ == hp.0
    &&& r.port@ == hp.1
    &&& r.instance@ == instance_spec(hp.1)
    &&& r.message_server@ == (match message { Some(m) => m.0, None => seq![] })
    &&& r.message_server_port@ == (match message { Some(m) => m.1, None => seq![] })
    &&& r.group@ == (if msid.len() == 0 { seq![] } else if trim(server).len() == 0 { "SPACE"@ } else { trim(server) })
    &&& r.router@ == (match lookup(routers, get_spec(s, "routerid"@)) { Some(x) => x, None => seq![] })
    &&& r.url@ == get_spec(s, "url"@)
    &&& r.guiparm@ == connection_spec(r, hp.0, hp.1)
    &&& r.workspace@ == (match first_item(items, uuid) { Some(l) => l, None => seq![] })
    &&& r.source_file@ == s.source
    &&& r.client@ == get_spec(s, "client"@)
    &&& r.language@ == get_spec(s, "language"@)
    &&& r.user@ == get_spec(s, "user"@)
    &&& r.sapgui_id@ == get_spec(s, "sapguiid"@)
}

pub fn first_item_exec(items: &Vec<(String, String)>, uuid: &String) -> (r: String)
    ensures
        r@ == (match first_item(pairs_view(items@), uuid@) { Some(l) => l, None => seq![] }),
{
    let ghost pv = pairs_view(items@);
    let mut i: usize = 0;
    assert(pv.skip(0) =~= pv);
    while i < items.len()
        invariant
            i <= items.len(),
            pv == pairs_view(items@),
            first_item(pv, uuid@) == first_item(pv.skip(i as int), uuid@),
        decreases items.len() - i,
    {
        assert(pv.skip(i as int).skip(1) =~= pv.skip(i + 1));
        if text::str_eq(items[i].0.as_str(), uuid.as_str()) {
            return items[i].1.clone();
        }
        i += 1;
    }
    assert(pv.skip(items.len() as int) =~= Seq::<(Seq<char>, Seq<char>)>::empty());
    String::new()
}

pub fn str_of(s: &str) -> (r: String)
    ensures
        r@ == s@,
{
    text::string_of(&text::chars_of(s))
}

/// One `<Service>` as a [`SapSystem`] (see [`resolve_rel`]).
pub fn resolve(
    service: &RawService,
    routers: &Vec<(String, String)>,
    messages: &Vec<(String, MessageServer)>,
    items: &Vec<(String, String)>,
) -> (r: SapSystem)
    ensures
        resolve_rel(service@, pairs_view(routers@), messages_view(messages@), pairs_view(items@), r),
{
    let uuid = service.get("uuid");
    let server = service.get("server");
    let msid = service.get("msid");
    let router_id = service.get("routerid");
    let url = service.get("url");
    let sid = service.get_any(&["systemid", "system_id", "sid"]);
    let given_name = service.get_any(&["name", "description"]);
    proof {
        assert(seq!["systemid", "system_id", "sid"].map_values(|k: &str| k@) =~= seq!["systemid"@, "system_id"@, "sid"@]);
        assert(seq!["name", "description"].map_values(|k: &str| k@) =~= seq!["name"@, "description"@]);
    }
    let name = if text::chars_of_string(&given_name).len() == 0 {
        sid.clone()
    } else {
        given_name
    };
    let workspace = first_item_exec(items, &uuid);
    let (split_host, split_port) = split_host_port(server.as_str());
    let mut host = split_host;
    let mut port = split_port;
    let mut kind = String::new();
    let mut group = String::new();
    let mut message_server = String::new();
    let mut message_server_port = String::new();
    let server_trim = text::trim_str(server.as_str());
    if text::chars_of_string(&msid).len() > 0 {
        kind = str_of("serverGroup");
        group = if server_trim.len() == 0 {
            str_of("SPACE")
        } else {
            text::string_of(&server_trim)
        };
        match landscape::message_get(messages, msid.as_str()) {
            Some(k) => {
                message_server = messages[k].1.host.clone();
                message_server_port = messages[k].1.port.clone();
                host = messages[k].1.host.clone();
                port = messages[k].1.port.clone();
            },
            None => {},
        }
    } else if text::chars_of_string(&host).len() > 0 {
        kind = str_of("applicationServer");
    } else if text::trim_str(url.as_str()).len() > 0 {
        kind = str_of("web");
        host = host_from_url(url.as_str());
    } else {
        kind = str_of("other");
    }
    let instance = instance_from_port(port.as_str());
    let router = match landscape::pairs_get(routers, router_id.as_str()) {
        Some(k) => routers[k].1.clone(),
        None => String::new(),
    };
    let mut system = SapSystem {
        service_uuid: uuid,
        name,
        system_id: sid,
        entry_type: service.get("type"),
        kind,
        server,
        host: String::new(),
        port: String::new(),
        instance,
        message_server,
        message_server_port,
        group,
        router,
        url,
        guiparm: String::new(),
        workspace,
        source_file: service.source.clone(),
        client: service.get("client"),
        language: service.get("language"),
        user: service.get("user"),
        sapgui_id: service.get("sapguiid"),
    };
    let guiparm = connection_string(&system, host.as_str(), port.as_str());
    system.host = host;
    system.port = port;
    system.guiparm = guiparm;
    system
}

} // verus!

verus! {

// ---------------------------------------------------------------------------
// Saved shortcuts
// ---------------------------------------------------------------------------

/// The connection a saved shortcut points at: only an entry without a
/// connection string but with a `sapguiid` has one, and only when the first
/// entry with that service UUID is an application server or logon group
/// with a connection string.
pub open spec fn shortcut_source(snap: Seq<SapSystem>, s: SapSystem) -> Option<SapSystem> {
    if trim(s.guiparm@).len() > 0 || trim(s.sapgui_id@).len() == 0 {
        None
    } else {
        match first_uuid(snap, s.sapgui_id@) {
            Some(i) => {
                let src = snap[i];
                if (src.kind@ == "applicationServer"@ || src.kind@ == "serverGroup"@) && trim(src.guiparm@).len() > 0 {
                    Some(src)
                } else {
                    None
                }
            },
            None => None,
        }
    }
}

/// The shortcut with its target's connection; its own name, user, client
/// and language stay.
pub open spec fn inherit(s: SapSystem, src: SapSystem) -> SapSystem {
    SapSystem {
        kind: src.kind,
        server: src.server,
        host: src.host,
        port: src.port,
        instance: src.instance,
        message_server: src.message_server,
        message_server_port: src.message_server_port,
        group: src.group,
        router: src.router,
        guiparm: src.guiparm,
        ..s
    }
}

pub open spec fn with_shortcut(snap: Seq<SapSystem>, s: SapSystem) -> SapSystem {
    match shortcut_source(snap, s) {
        Some(src) => inherit(s, src),
        None => s,
    }
}

pub open spec fn with_shortcuts(snap: Seq<SapSystem>) -> Seq<SapSystem> {
    snap.map_values(|s: SapSystem| with_shortcut(snap, s))
}

/// Saved shortcuts settle in one pass: completing an entry that was already
/// completed against the same list changes nothing.
pub proof fn law_shortcuts_settle(snap: Seq<SapSystem>, s: SapSystem)
    ensures
        with_shortcut(snap, with_shortcut(snap, s)) == with_shortcut(snap, s),
{
}

pub fn copy_system(s: &SapSystem) -> (r: SapSystem)
    ensures
        r == *s,
{
    SapSystem {
        service_uuid: s.service_uuid.clone(),
        name: s.name.clone(),
        system_id: s.system_id.clone(),
        entry_type: s.entry_type.clone(),
        kind: s.kind.clone(),
        server: s.server.clone(),
        host: s.host.clone(),
        port: s.port.clone(),
        instance: s.instance.clone(),
        message_server: s.message_server.clone(),
        message_server_port: s.message_server_port.clone(),
        group: s.group.clone(),
        router: s.router.clone(),
        url: s.url.clone(),
        guiparm: s.guiparm.clone(),
        workspace: s.workspace.clone(),
        source_file: s.source_file.clone(),
        client: s.client.clone(),
        language: s.language.clone(),
        user: s.user.clone(),
        sapgui_id: s.sapgui_id.clone(),
    }
}

pub fn copy_systems(v: &Vec<SapSystem>) -> (r: Vec<SapSystem>)
    ensures
        r@ == v@,
{
    let mut r: Vec<SapSystem> = Vec::new();
    let mut i: usize = 0;
    while i < v.len()
        invariant
            i <= v.len(),
            r@ == v@.take(i as int),
        decreases v.len() - i,
    {
        r.push(copy_system(&v[i]));
        i += 1;
        assert(r@ =~= v@.take(i as int));
    }
    assert(v@.take(v.len() as int) =~= v@);
    r
}

proof fn lemma_first_uuid_bounds(s: Seq<SapSystem>, uuid: Seq<char>)
    ensures
        first_uuid(s, uuid) matches Some(i) ==> 0 <= i < s.len() && s[i].service_uuid@ == uuid,
    decreases s.len(),
{
    if s.len() > 0 {
        lemma_first_uuid_bounds(s.drop_last(), uuid);
    }
}

/// Index of the first entry with the service UUID.
pub fn first_uuid_exec(systems: &Vec<SapSystem>, uuid: &String) -> (r: Option<usize>)
    ensures
        match first_uuid(systems@, uuid@) {
            Some(i) => r matches Some(k) && k as int == i,
            None => r is None,
        },
{
    let mut i: usize = 0;
    assert(systems@.take(0) =~= Seq::<SapSystem>::empty());
    while i < systems.len()
        invariant
            i <= systems.len(),
            first_uuid(systems@.take(i as int), uuid@) is None,
        decreases systems.len() - i,
    {
        assert(systems@.take(i + 1).drop_last() =~= systems@.take(i as int));
        if text::str_eq(systems[i].service_uuid.as_str(), uuid.as_str()) {
            proof {
                lemma_first_uuid_prefix(systems@, uuid@, i + 1, i as int);
            }
            return Some(i);
        }
        i += 1;
    }
    assert(systems@.take(systems.len() as int) =~= systems@);
    None
}

/// `with_shortcut`, one entry.
pub fn shortcut_of(snapshot: &Vec<SapSystem>, s: &SapSystem) -> (r: Option<SapSystem>)
    ensures
        match shortcut_source(snapshot@, *s) {
            Some(src) => r == Some(inherit(*s, src)),
            None => r is None,
        },
{
    if text::trim_str(s.guiparm.as_str()).len() > 0 || text::trim_str(s.sapgui_id.as_str()).len() == 0 {
        return None;
    }
    proof {
        lemma_first_uuid_bounds(snapshot@, s.sapgui_id@);
    }
    match first_uuid_exec(snapshot, &s.sapgui_id) {
        None => None,
        Some(k) => {
            let src = &snapshot[k];
            let k_ok = text::str_eq(src.kind.as_str(), "applicationServer") || text::str_eq(src.kind.as_str(), "serverGroup");
            if !k_ok || text::trim_str(src.guiparm.as_str()).len() == 0 {
                return None;
            }
            let mut out = copy_system(s);
            out.kind = src.kind.clone();
            out.server = src.server.clone();
            out.host = src.host.clone();
            out.port = src.port.clone();
            out.instance = src.instance.clone();
            out.message_server = src.message_server.clone();
            out.message_server_port = src.message_server_port.clone();
            out.group = src.group.clone();
            out.router = src.router.clone();
            out.guiparm = src.guiparm.clone();
            Some(out)
        },
    }
}

/// A saved shortcut (`sapguiid`, or a `Reference` entry) stores no server of
/// its own; it takes the connection of the entry it points at, as the
/// entries stood before any was changed.
pub fn resolve_shortcut_references(systems: &mut Vec<SapSystem>)
    ensures
        final(systems)@ == with_shortcuts(old(systems)@),
{
    let snapshot = copy_systems(systems);
    let ghost snap = snapshot@;
    let ghost target = with_shortcuts(snap);
    let mut pass: usize = 0;
    let mut done = false;
    // Bounded passes: a shortcut may reference another shortcut.
    while pass < 3 && !done
        invariant
            pass <= 3,
            snapshot@ == snap,
            snap == old(systems)@,
            target == with_shortcuts(snap),
            pass == 0 ==> systems@ == snap,
            pass > 0 ==> systems@ == target,
            done ==> pass > 0,
        decreases 3 - pass,
    {
        let ghost start = systems@;
        let mut changed = false;
        let mut i: usize = 0;
        while i < systems.len()
            invariant
                i <= systems.len(),
                systems@.len() == start.len(),
                snapshot@ == snap,
                start.len() == snap.len(),
                forall|k: int| 0 <= k < i ==> systems@[k] == with_shortcut(snap, #[trigger] start[k]),
                forall|k: int| i <= k < systems@.len() ==> systems@[k] == start[k],
            decreases systems.len() - i,
        {
            match shortcut_of(&snapshot, &systems[i]) {
                None => {},
                Some(updated) => {
                    systems.set(i, updated);
                    changed = true;
                },
            }
            i += 1;
        }
        proof {
            assert forall|k: int| 0 <= k < systems@.len() implies systems@[k] == #[trigger] target[k] by {
                if pass > 0 {
                    law_shortcuts_settle(snap, snap[k]);
                }
            }
            assert(systems@ =~= target);
        }
        pass += 1;
        if !changed {
            done = true;
        }
    }
}

// ---------------------------------------------------------------------------
// Order of the list
// ---------------------------------------------------------------------------

/// Launchable entries first, then SAP GUI entries, then the rest.
pub open spec fn rank_spec(s: SapSystem) -> nat {
    if launchable(s) {
        0
    } else if eq_ignore_case(s.entry_type@, "SAPGUI"@) {
        1
    } else {
        2
    }
}

pub fn launch_rank(system: &SapSystem) -> (r: u8)
    ensures
        r == rank_spec(*system),
{
    if system.is_launchable() {
        0
    } else if text::eq_ignore_ascii_case(&text::chars_of_string(&system.entry_type), &text::chars_of("SAPGUI")) {
        1
    } else {
        2
    }
}

/// What `str::to_lowercase` makes of a string (Unicode lower case, the same
/// on every machine).
pub uninterp spec fn unicode_lower(s: Seq<char>) -> Seq<char>;

/// `str::to_lowercase`.
#[verifier::external_body]
fn to_lowercase(s: &str) -> (r: Vec<char>)
    ensures
        r@ == unicode_lower(s@),
{
    s.to_lowercase().chars().collect()
}

/// `a < b` in the order of `String`'s `Ord` (byte order of UTF-8, which is
/// the order of the code points).
pub open spec fn seq_lt(a: Seq<char>, b: Seq<char>) -> bool
    decreases a.len(),
{
    if a.len() == 0 {
        b.len() > 0
    } else if b.len() == 0 {
        false
    } else if (a[0] as u32) < (b[0] as u32) {
        true
    } else if a[0] == b[0] {
        seq_lt(a.skip(1), b.skip(1))
    } else {
        false
    }
}

proof fn lemma_seq_lt_irreflexive(a: Seq<char>)
    ensures
        !seq_lt(a, a),
    decreases a.len(),
{
    if a.len() > 0 {
        lemma_seq_lt_irreflexive(a.skip(1));
    }
}

/// Two different texts are ordered one way or the other, never both.
pub proof fn lemma_seq_lt_total(a: Seq<char>, b: Seq<char>)
    ensures
        a != b ==> (seq_lt(a, b) || seq_lt(b, a)),
        !(seq_lt(a, b) && seq_lt(b, a)),
    decreases a.len(),
{
    if a.len() > 0 && b.len() > 0 && a[0] == b[0] {
        lemma_seq_lt_total(a.skip(1), b.skip(1));
        if a != b {
            assert(a =~= seq![a[0]] + a.skip(1));
            assert(b =~= seq![b[0]] + b.skip(1));
        }
    } else if a.len() == 0 && b.len() == 0 {
        assert(a =~= b);
    } else if a.len() > 0 && b.len() > 0 {
        let (x, y) = (a[0], b[0]);
        if (x as u32) == (y as u32) {
            vstd::utf8::char_u32_cast(x, x as u32);
            vstd::utf8::char_u32_cast(y, y as u32);
        }
    }
}

pub proof fn lemma_seq_lt_transitive(a: Seq<char>, b: Seq<char>, c: Seq<char>)
    requires
        seq_lt(a, b),
        seq_lt(b, c),
    ensures
        seq_lt(a, c),
    decreases a.len(),
{
    if a.len() > 0 && b.len() > 0 && c.len() > 0 && a[0] == b[0] && b[0] == c[0] {
        lemma_seq_lt_transitive(a.skip(1), b.skip(1), c.skip(1));
    }
}

pub fn seq_lt_exec(a: &Vec<char>, b: &Vec<char>) -> (r: bool)
    ensures
        r == seq_lt(a@, b@),
{
    let mut k: usize = 0;
    assert(a@.skip(0) =~= a@);
    assert(b@.skip(0) =~= b@);
    while k < a.len() && k < b.len()
        invariant
            k <= a.len(),
            k <= b.len(),
            seq_lt(a@, b@) == seq_lt(a@.skip(k as int), b@.skip(k as int)),
        decreases a.len() - k,
    {
        assert(a@.skip(k as int)[0] == a@[k as int]);
        assert(b@.skip(k as int)[0] == b@[k as int]);
        if a[k] != b[k] {
            return (a[k] as u32) < (b[k] as u32);
        }
        assert(a@.skip(k as int).skip(1) =~= a@.skip(k + 1));
        assert(b@.skip(k as int).skip(1) =~= b@.skip(k + 1));
        k += 1;
    }
    a.len() < b.len()
}

/// The sort key: rank, then the system ID and the name in lower case.
pub open spec fn system_key(s: SapSystem) -> (nat, Seq<char>, Seq<char>) {
    (rank_spec(s), unicode_lower(s.system_id@), unicode_lower(s.name@))
}

pub open spec fn key_lt(x: (nat, Seq<char>, Seq<char>), y: (nat, Seq<char>, Seq<char>)) -> bool {
    x.0 < y.0 || (x.0 == y.0 && (seq_lt(x.1, y.1) || (x.1 == y.1 && seq_lt(x.2, y.2))))
}

/// `x` placed after every entry of `s` whose key is not greater, counting
/// from the end (one step of a stable insertion sort).
pub open spec fn insert_sorted(s: Seq<SapSystem>, x: SapSystem) -> Seq<SapSystem>
    decreases s.len(),
{
    if s.len() == 0 {
        seq![x]
    } else if key_lt(system_key(x), system_key(s.last())) {
        insert_sorted(s.drop_last(), x).push(s.last())
    } else {
        s.push(x)
    }
}

/// The entries in key order; entries with equal keys keep their order
/// (`slice::sort_by` is stable).
pub open spec fn sort_systems(s: Seq<SapSystem>) -> Seq<SapSystem>
    decreases s.len(),
{
    if s.len() == 0 {
        seq![]
    } else {
        insert_sorted(sort_systems(s.drop_last()), s.last())
    }
}

/// Whether `b` sorts before `a`.
fn sorts_before(b: &SapSystem, a: &SapSystem) -> (r: bool)
    ensures
        r == key_lt(system_key(*b), system_key(*a)),
{
    let rb = launch_rank(b);
    let ra = launch_rank(a);
    if rb != ra {
        return rb < ra;
    }
    let sb = to_lowercase(b.system_id.as_str());
    let sa = to_lowercase(a.system_id.as_str());
    if !text::seq_eq(&sb, &sa) {
        return seq_lt_exec(&sb, &sa);
    }
    proof {
        lemma_seq_lt_irreflexive(sb@);
    }
    let nb = to_lowercase(b.name.as_str());
    let na = to_lowercase(a.name.as_str());
    seq_lt_exec(&nb, &na)
}

fn insert_by_key(out: &mut Vec<SapSystem>, x: SapSystem)
    ensures
        final(out)@ == insert_sorted(old(out)@, x),
{
    let ghost o = out@;
    let mut j: usize = out.len();
    let mut stop = false;
    assert(o.take(o.len() as int) =~= o);
    assert(o.skip(o.len() as int) =~= Seq::<SapSystem>::empty());
    while j > 0 && !stop
        invariant
            j <= out.len(),
            out@ == o,
            insert_sorted(o, x) == insert_sorted(o.take(j as int), x) + o.skip(j as int),
            stop ==> j > 0 && !key_lt(system_key(x), system_key(o[j - 1])),
        decreases j + (if stop { 0int } else { 1int }),
    {
        if sorts_before(&x, &out[j - 1]) {
            assert(o.take(j as int).drop_last() =~= o.take(j - 1));
            assert(o.take(j as int).last() == o[j - 1]);
            assert(o.skip(j - 1) =~= seq![o[j - 1]] + o.skip(j as int));
            j -= 1;
        } else {
            stop = true;
        }
    }
    if stop {
        assert(o.take(j as int).last() == o[j - 1]);
    }
    out.insert(j, x);
    assert(out@ =~= insert_sorted(o, x));
}

/// The entries sorted (see [`sort_systems`]).
pub fn sort_by_launch(v: &Vec<SapSystem>) -> (r: Vec<SapSystem>)
    ensures
        r@ == sort_systems(v@),
{
    let mut out: Vec<SapSystem> = Vec::new();
    let mut i: usize = 0;
    assert(v@.take(0) =~= Seq::<SapSystem>::empty());
    while i < v.len()
        invariant
            i <= v.len(),
            out@ == sort_systems(v@.take(i as int)),
        decreases v.len() - i,
    {
        assert(v@.take(i + 1).drop_last() =~= v@.take(i as int));
        assert(v@.take(i + 1).last() == v@[i as int]);
        insert_by_key(&mut out, copy_system(&v[i]));
        i += 1;
    }
    assert(v@.take(v.len() as int) =~= v@);
    out
}

} // verus!

verus! {

// ---------------------------------------------------------------------------
// Includes
// ---------------------------------------------------------------------------

pub open spec fn is_hex_byte(b: u8) -> bool {
    (48 <= b <= 57) || (65 <= b <= 70) || (97 <= b <= 102)
}

pub open spec fn hex_value(b: u8) -> nat {
    if 48 <= b <= 57 {
        (b - 48) as nat
    } else if 65 <= b <= 70 {
        (b - 55) as nat
    } else {
        (b - 87) as nat
    }
}

/// `u8::from_str_radix` in base 16 on two bytes: two hex digits, or a `+`
/// sign and one.
pub open spec fn hex_pair(a: u8, b: u8) -> Option<u8> {
    if is_hex_byte(a) && is_hex_byte(b) {
        Some((16 * hex_value(a) + hex_value(b)) as u8)
    } else if a == 43 && is_hex_byte(b) {
        Some(hex_value(b) as u8)
    } else {
        None
    }
}

/// `%XX` escapes replaced by the byte they name; a `%` not followed by two
/// more bytes that form one stays as it is.
pub open spec fn pct_bytes(b: Seq<u8>) -> Seq<u8>
    decreases b.len(),
{
    if b.len() == 0 {
        seq![]
    } else if b[0] == 37 && 2 < b.len() && hex_pair(b[1], b[2]) is Some {
        seq![hex_pair(b[1], b[2])->0] + pct_bytes(b.skip(3))
    } else {
        seq![b[0]] + pct_bytes(b.skip(1))
    }
}

pub open spec fn percent_decode_spec(v: Seq<char>) -> Seq<char> {
    text::utf8_lossy(pct_bytes(vstd::utf8::encode_utf8(v)))
}

fn hex_byte_value(b: u8) -> (r: Option<u8>)
    ensures
        is_hex_byte(b) ==> r == Some(hex_value(b) as u8),
        !is_hex_byte(b) ==> r is None,
{
    if 48 <= b && b <= 57 {
        Some(b - 48)
    } else if 65 <= b && b <= 70 {
        Some(b - 55)
    } else if 97 <= b && b <= 102 {
        Some(b - 87)
    } else {
        None
    }
}

fn hex_pair_exec(a: u8, b: u8) -> (r: Option<u8>)
    ensures
        r == hex_pair(a, b),
{
    match (hex_byte_value(a), hex_byte_value(b)) {
        (Some(x), Some(y)) => Some(16 * x + y),
        (None, Some(y)) => {
            if a == 43 {
                Some(y)
            } else {
                None
            }
        },
        _ => None,
    }
}

pub fn percent_decode(value: &str) -> (r: String)
    ensures
        r@ == percent_decode_spec(value@),
{
    let bytes = value.as_bytes();
    let ghost b = bytes@;
    let mut out: Vec<u8> = Vec::new();
    let mut i: usize = 0;
    assert(b.skip(0) =~= b);
    while i < bytes.len()
        invariant
            i <= bytes.len(),
            b == bytes@,
            pct_bytes(b) == out@ + pct_bytes(b.skip(i as int)),
        decreases bytes.len() - i,
    {
        let ghost rest = b.skip(i as int);
        if bytes[i] == 37 && 2 < bytes.len() - i {
            match hex_pair_exec(bytes[i + 1], bytes[i + 2]) {
                Some(v) => {
                    assert(rest.skip(3) =~= b.skip(i + 3));
                    out.push(v);
                    i += 3;
                    assert(pct_bytes(b) =~= out@ + pct_bytes(b.skip(i as int)));
                    continue;
                },
                None => {},
            }
        }
        assert(rest.skip(1) =~= b.skip(i + 1));
        out.push(bytes[i]);
        i += 1;
        assert(pct_bytes(b) =~= out@ + pct_bytes(b.skip(i as int)));
    }
    assert(b.skip(bytes.len() as int) =~= Seq::<u8>::empty());
    assert(out@ =~= pct_bytes(b));
    text::from_utf8_lossy(out.as_slice())
}

/// `file:///C:/Users/x/SAPUILandscapeGlobal.xml` → `C:\Users\x\...`.
pub open spec fn include_path_spec(url: Seq<char>) -> Option<Seq<char>> {
    let t = trim(url);
    if t.len() == 0 {
        None
    } else {
        let rest = if starts_with(t, "file:///"@) {
            t.skip(8)
        } else if starts_with(t, "file://"@) {
            t.skip(7)
        } else {
            t
        };
        let d = percent_decode_spec(rest);
        if d.len() == 0 {
            None
        } else {
            Some(text::replace_all(d, "/"@, "\\"@))
        }
    }
}

pub fn include_to_path(url: &str) -> (r: Option<String>)
    ensures
        match include_path_spec(url@) {
            Some(p) => r matches Some(s) && s@ == p,
            None => r is None,
        },
{
    let t = text::trim_str(url);
    if t.len() == 0 {
        return None;
    }
    proof {
        reveal_strlit("file:///");
        reveal_strlit("file://");
    }
    let rest = if text::starts_with_str(&t, "file:///") {
        text::slice_of(&t, 8, t.len())
    } else if text::starts_with_str(&t, "file://") {
        text::slice_of(&t, 7, t.len())
    } else {
        t
    };
    let rs = text::string_of(&rest);
    let d = percent_decode(rs.as_str());
    let dc = text::chars_of_string(&d);
    if dc.len() == 0 {
        return None;
    }
    Some(text::string_of(&text::replace_exec(&dc, "/", "\\")))
}

/// Where an include points: a local file that can be read, or anything that
/// must not be followed (an `http(s)://` include would be a network request).
#[derive(Debug, Clone)]
pub enum IncludeSource {
    Local(String),
    Remote(String),
    Ignored,
}

pub fn classify_include(url: &str) -> (r: IncludeSource)
    ensures
        trim(url@).len() == 0 ==> r is Ignored,
        trim(url@).len() > 0 && (starts_with(lower_seq(trim(url@)), "http://"@) || starts_with(
            lower_seq(trim(url@)),
            "https://"@,
        )) ==> (r matches IncludeSource::Remote(u) && u@ == trim(url@)),
        trim(url@).len() > 0 && !starts_with(lower_seq(trim(url@)), "http://"@) && !starts_with(
            lower_seq(trim(url@)),
            "https://"@,
        ) ==> match include_path_spec(trim(url@)) {
            Some(p) => (r matches IncludeSource::Local(s) && s@ == p),
            None => r is Ignored,
        },
{
    let t = text::trim_str(url);
    if t.len() == 0 {
        return IncludeSource::Ignored;
    }
    let lower = text::to_lower(&t);
    if text::starts_with_str(&lower, "http://") || text::starts_with_str(&lower, "https://") {
        return IncludeSource::Remote(text::string_of(&t));
    }
    let ts = text::string_of(&t);
    match include_to_path(ts.as_str()) {
        Some(p) => IncludeSource::Local(p),
        None => IncludeSource::Ignored,
    }
}

// ---------------------------------------------------------------------------
// Merging files
// ---------------------------------------------------------------------------

/// What the files read so far declare together. A router or message server
/// of a later file overrides one with the same UUID.
#[derive(Debug, Clone)]
pub struct LandscapeParts {
    pub services: Vec<RawService>,
    pub routers: Vec<(String, String)>,
    pub messages: Vec<(String, MessageServer)>,
    pub items: Vec<(String, String)>,
}

impl LandscapeParts {
    pub fn new() -> (r: LandscapeParts)
        ensures
            r.services@.len() == 0,
            r.routers@.len() == 0,
            r.messages@.len() == 0,
            r.items@.len() == 0,
    {
        LandscapeParts { services: Vec::new(), routers: Vec::new(), messages: Vec::new(), items: Vec::new() }
    }

    /// Adds what one file declared and hands back its includes.
    pub fn absorb(&mut self, c: Collector) -> (includes: Vec<String>)
        ensures
            final(self).services@ == old(self).services@ + c.services@,
            final(self).routers@ == old(self).routers@ + c.routers@,
            final(self).messages@ == old(self).messages@ + c.messages@,
            final(self).items@ == old(self).items@ + c.items@,
            includes@ == c.includes@,
    {
        let mut c = c;
        self.services.append(&mut c.services);
        self.routers.append(&mut c.routers);
        self.messages.append(&mut c.messages);
        self.items.append(&mut c.items);
        c.includes
    }

    /// Every service resolved, saved shortcuts completed, in launch order.
    pub fn assemble(&self) -> (r: Vec<SapSystem>)
        ensures
            exists|m: Seq<SapSystem>|
                m.len() == self.services@.len() && (forall|i: int|
                    0 <= i < m.len() ==> resolve_rel(
                        #[trigger] self.services@[i]@,
                        pairs_view(self.routers@),
                        messages_view(self.messages@),
                        pairs_view(self.items@),
                        m[i],
                    )) && r@ == sort_systems(with_shortcuts(m)),
    {
        let mut mapped: Vec<SapSystem> = Vec::new();
        let mut i: usize = 0;
        while i < self.services.len()
            invariant
                i <= self.services.len(),
                mapped@.len() == i,
                forall|k: int|
                    0 <= k < i ==> resolve_rel(
                        #[trigger] self.services@[k]@,
                        pairs_view(self.routers@),
                        messages_view(self.messages@),
                        pairs_view(self.items@),
                        mapped@[k],
                    ),
            decreases self.services.len() - i,
        {
            let s = resolve(&self.services[i], &self.routers, &self.messages, &self.items);
            mapped.push(s);
            i += 1;
        }
        let ghost m = mapped@;
        resolve_shortcut_references(&mut mapped);
        sort_by_launch(&mapped)
    }
}

} // verus!

verus! {

proof fn lemma_insert_sorted_multiset(s: Seq<SapSystem>, x: SapSystem)
    ensures
        insert_sorted(s, x).to_multiset() == s.to_multiset().insert(x),
        insert_sorted(s, x).len() == s.len() + 1,
    decreases s.len(),
{
    broadcast use vstd::seq_lib::group_to_multiset_ensures;
    if s.len() == 0 {
        assert(seq![x] =~= Seq::<SapSystem>::empty().push(x));
    } else if key_lt(system_key(x), system_key(s.last())) {
        lemma_insert_sorted_multiset(s.drop_last(), x);
        assert(s =~= s.drop_last().push(s.last()));
        assert(insert_sorted(s, x).to_multiset() =~= s.to_multiset().insert(x));
    }
}

/// Sorting the list only reorders it: the same entries, each as often.
pub proof fn law_sorting_keeps_the_entries(s: Seq<SapSystem>)
    ensures
        sort_systems(s).to_multiset() == s.to_multiset(),
        sort_systems(s).len() == s.len(),
    decreases s.len(),
{
    broadcast use vstd::seq_lib::group_to_multiset_ensures;
    if s.len() > 0 {
        law_sorting_keeps_the_entries(s.drop_last());
        lemma_insert_sorted_multiset(sort_systems(s.drop_last()), s.last());
        assert(s =~= s.drop_last().push(s.last()));
        assert(sort_systems(s).to_multiset() =~= s.to_multiset());
    }
}

} // verus!

verus! {

// ---------------------------------------------------------------------------
// Loading the files, following includes
// ---------------------------------------------------------------------------

pub open spec fn queue_view(q: Seq<(String, usize)>) -> Seq<(Seq<char>, nat)> {
    q.map_values(|e: (String, usize)| (e.0@, e.1 as nat))
}

/// The paths typed in by the user, trimmed, blank ones dropped.
pub open spec fn extra_entries(extra: Seq<Seq<char>>) -> Seq<(Seq<char>, nat)>
    decreases extra.len(),
{
    if extra.len() == 0 {
        seq![]
    } else {
        let rest = extra_entries(extra.drop_last());
        let t = trim(extra.last());
        if t.len() == 0 { rest } else { rest.push((t, 0nat)) }
    }
}

pub open spec fn is_remote(t: Seq<char>) -> bool {
    starts_with(lower_seq(t), "http://"@) || starts_with(lower_seq(t), "https://"@)
}

/// The file an include entry points at, when it is one to be read.
pub open spec fn local_include(url: Seq<char>) -> Option<Seq<char>> {
    let t = trim(url);
    if t.len() == 0 || is_remote(t) { None } else { include_path_spec(t) }
}

/// Local includes, to be read one level deeper.
pub open spec fn local_entries(includes: Seq<Seq<char>>, depth: nat) -> Seq<(Seq<char>, nat)>
    decreases includes.len(),
{
    if includes.len() == 0 {
        seq![]
    } else {
        let rest = local_entries(includes.drop_last(), depth);
        match local_include(includes.last()) {
            Some(p) => rest.push((p, depth)),
            None => rest,
        }
    }
}

/// One warning for each include that would need the network.
pub open spec fn remote_warnings(includes: Seq<Seq<char>>) -> Seq<Seq<char>>
    decreases includes.len(),
{
    if includes.len() == 0 {
        seq![]
    } else {
        let rest = remote_warnings(includes.drop_last());
        let t = trim(includes.last());
        if t.len() > 0 && is_remote(t) {
            rest.push("已跳过远程 include（本程序不联网）："@ + t)
        } else {
            rest
        }
    }
}

/// What one landscape file declares: its XML events read by the collector
/// (see [`landscape::Collector::run`]).
pub open spec fn file_declares(text: Seq<char>, source: Seq<char>) -> landscape::CollectorView {
    landscape::finish(landscape::collect_from(
        landscape::empty_collector(),
        landscape::landscape_events(crate::keys::xml_events(text, landscape::run_fuel(text, 0))),
        source,
    ))
}

/// The warning for a file whose XML reading ended at a syntax error.
pub open spec fn syntax_warning(text: Seq<char>) -> Seq<Seq<char>> {
    match crate::keys::xml_failure(text, landscape::run_fuel(text, 0)) {
        Some(m) => seq!["XML 解析中断："@ + m@],
        None => seq![],
    }
}

/// The state of loading the landscape files: the files still to be read
/// (each with how many includes deep it was found; the last one is read
/// next), the canonical paths already read, the default paths (which may be
/// missing without a warning), what was read so far and the warnings.
pub struct LandscapeLoad {
    pub queue: Vec<(String, usize)>,
    pub seen: Vec<String>,
    pub defaults: Vec<String>,
    pub parts: LandscapeParts,
    pub files: Vec<String>,
    pub warnings: Vec<String>,
}

impl LandscapeLoad {
    /// The default files first, then the ones the user named.
    pub fn new(defaults: Vec<String>, extra: &Vec<String>) -> (r: LandscapeLoad)
        ensures
            queue_view(r.queue@) == strings_view(defaults@).map_values(|p: Seq<char>| (p, 0nat))
                + extra_entries(strings_view(extra@)),
            r.defaults == defaults,
            r.seen@.len() == 0,
            r.files@.len() == 0,
            r.warnings@.len() == 0,
            r.parts.services@.len() == 0,
            r.parts.routers@.len() == 0,
            r.parts.messages@.len() == 0,
            r.parts.items@.len() == 0,
    {
        let mut queue: Vec<(String, usize)> = Vec::new();
        let mut i: usize = 0;
        while i < defaults.len()
            invariant
                i <= defaults.len(),
                queue_view(queue@) == strings_view(defaults@).take(i as int).map_values(
                    |p: Seq<char>| (p, 0nat),
                ),
            decreases defaults.len() - i,
        {
            let ghost before = queue@;
            let d = defaults[i].clone();
            queue.push((d, 0));
            assert(queue_view(queue@) =~= queue_view(before).push((defaults@[i as int]@, 0nat)));
            assert(strings_view(defaults@).take(i + 1) =~= strings_view(defaults@).take(i as int).push(
                defaults@[i as int]@,
            ));
            assert(queue_view(queue@) =~= strings_view(defaults@).take(i + 1).map_values(
                |p: Seq<char>| (p, 0nat),
            ));
            i += 1;
        }
        assert(strings_view(defaults@).take(defaults.len() as int) =~= strings_view(defaults@));
        let ghost head = queue_view(queue@);
        let mut j: usize = 0;
        while j < extra.len()
            invariant
                j <= extra.len(),
                queue_view(queue@) == head + extra_entries(strings_view(extra@).take(j as int)),
            decreases extra.len() - j,
        {
            let ghost before = queue@;
            let ghost ev = strings_view(extra@);
            assert(ev.take(j + 1).drop_last() =~= ev.take(j as int));
            let t = text::trim_str(extra[j].as_str());
            if t.len() > 0 {
                queue.push((text::string_of(&t), 0));
                assert(queue_view(queue@) =~= queue_view(before).push((trim(ev[j as int]), 0nat)));
            }
            j += 1;
        }
        assert(strings_view(extra@).take(extra.len() as int) =~= strings_view(extra@));
        LandscapeLoad {
            queue,
            seen: Vec::new(),
            defaults,
            parts: LandscapeParts::new(),
            files: Vec::new(),
            warnings: Vec::new(),
        }
    }

    /// The next file to look at, with its include depth: the last one
    /// queued. Files more than four includes deep are dropped on the way.
    pub fn next(&mut self) -> (r: Option<(String, usize)>)
        ensures
            final(self).seen == old(self).seen,
            final(self).defaults == old(self).defaults,
            final(self).parts == old(self).parts,
            final(self).files == old(self).files,
            final(self).warnings == old(self).warnings,
            final(self).queue@.len() <= old(self).queue@.len(),
            final(self).queue@ == old(self).queue@.take(final(self).queue@.len() as int),
            match r {
                None => final(self).queue@.len() == 0,
                Some(e) => {
                    let k = final(self).queue@.len() as int;
                    &&& k < old(self).queue@.len()
                    &&& e == old(self).queue@[k]
                    &&& e.1 <= MAX_INCLUDE_DEPTH
                },
            },
            forall|j: int|
                #![trigger old(self).queue@[j]]
                final(self).queue@.len() + (if r is Some { 1int } else { 0int }) <= j < old(self).queue@.len()
                    ==> old(self).queue@[j].1 > MAX_INCLUDE_DEPTH,
    {
        let ghost q0 = self.queue@;
        while self.queue.len() > 0
            invariant
                self.queue@.len() <= q0.len(),
                self.queue@ == q0.take(self.queue@.len() as int),
                self.seen == old(self).seen,
                self.defaults == old(self).defaults,
                self.parts == old(self).parts,
                self.files == old(self).files,
                self.warnings == old(self).warnings,
                q0 == old(self).queue@,
                forall|j: int| #![trigger q0[j]] self.queue@.len() <= j < q0.len() ==> q0[j].1 > MAX_INCLUDE_DEPTH,
            decreases self.queue@.len(),
        {
            let ghost n = self.queue@.len();
            let e = self.queue.pop().unwrap();
            assert(self.queue@ =~= q0.take(self.queue@.len() as int));
            assert(e == q0[self.queue@.len() as int]);
            if e.1 <= MAX_INCLUDE_DEPTH {
                return Some(e);
            }
        }
        None
    }

    /// A file that does not exist: warned about when the user named it.
    pub fn missing(&mut self, path: &str, depth: usize)
        ensures
            final(self).queue == old(self).queue,
            final(self).seen == old(self).seen,
            final(self).defaults == old(self).defaults,
            final(self).parts == old(self).parts,
            final(self).files == old(self).files,
            (depth == 0 && !strings_view(old(self).defaults@).contains(path@)) ==> strings_view(
                final(self).warnings@,
            ) == strings_view(old(self).warnings@).push("找不到文件："@ + path@),
            !(depth == 0 && !strings_view(old(self).defaults@).contains(path@)) ==> final(self).warnings
                == old(self).warnings,
    {
        if depth == 0 && !crate::sap::contains_str(&self.defaults, path) {
            let mut m = text::chars_of("找不到文件：");
            text::push_str(&mut m, path);
            let ghost before = strings_view(self.warnings@);
            self.warnings.push(text::string_of(&m));
            assert(strings_view(self.warnings@) =~= before.push("找不到文件："@ + path@));
        }
    }

    /// Whether a file (by its canonical path) is still to be read; it then
    /// counts as read.
    pub fn begin(&mut self, canonical: &str) -> (r: bool)
        ensures
            final(self).queue == old(self).queue,
            final(self).defaults == old(self).defaults,
            final(self).parts == old(self).parts,
            final(self).files == old(self).files,
            final(self).warnings == old(self).warnings,
            r == !strings_view(old(self).seen@).contains(canonical@),
            r ==> strings_view(final(self).seen@) == strings_view(old(self).seen@).push(canonical@),
            !r ==> final(self).seen == old(self).seen,
    {
        if crate::sap::contains_str(&self.seen, canonical) {
            return false;
        }
        let ghost before = strings_view(self.seen@);
        self.seen.push(canonical.to_owned());
        assert(strings_view(self.seen@) =~= before.push(canonical@));
        true
    }

    /// A file that exists but could not be read.
    pub fn unreadable(&mut self, path: &str, err: &str)
        ensures
            final(self).queue == old(self).queue,
            final(self).seen == old(self).seen,
            final(self).defaults == old(self).defaults,
            final(self).parts == old(self).parts,
            final(self).files == old(self).files,
            strings_view(final(self).warnings@) == strings_view(old(self).warnings@).push(
                "无法读取 "@ + path@ + "："@ + err@,
            ),
    {
        let mut m = text::chars_of("无法读取 ");
        text::push_str(&mut m, path);
        text::push_str(&mut m, "：");
        text::push_str(&mut m, err);
        let ghost before = strings_view(self.warnings@);
        self.warnings.push(text::string_of(&m));
        assert(strings_view(self.warnings@) =~= before.push("无法读取 "@ + path@ + "："@ + err@));
    }

    /// One file's bytes, read as UTF-8 with invalid sequences replaced: it
    /// is recorded as read, what it declares is added, its local includes are
    /// queued one level deeper and a remote one is warned about.
    pub fn read(&mut self, bytes: &[u8], source: &str, depth: usize)
        requires
            depth <= MAX_INCLUDE_DEPTH,
        ensures
            final(self).seen == old(self).seen,
            final(self).defaults == old(self).defaults,
            strings_view(final(self).files@) == strings_view(old(self).files@).push(source@),
            ({
                let c = file_declares(text::utf8_lossy(bytes@), source@);
                &&& services_view(final(self).parts.services@) == services_view(old(self).parts.services@) + c.services
                &&& pairs_view(final(self).parts.routers@) == pairs_view(old(self).parts.routers@) + c.routers
                &&& messages_view(final(self).parts.messages@) == messages_view(old(self).parts.messages@) + c.messages
                &&& pairs_view(final(self).parts.items@) == pairs_view(old(self).parts.items@) + c.items
                &&& queue_view(final(self).queue@) == queue_view(old(self).queue@) + local_entries(c.includes, depth as nat + 1)
                &&& strings_view(final(self).warnings@) == strings_view(old(self).warnings@) + syntax_warning(text::utf8_lossy(bytes@))
                    + remote_warnings(c.includes)
            }),
    {
        let decoded = text::from_utf8_lossy(bytes);
        let text = decoded.as_str();
        let ghost f0 = strings_view(self.files@);
        self.files.push(source.to_owned());
        assert(strings_view(self.files@) =~= f0.push(source@));
        let ghost w0 = strings_view(self.warnings@);
        let mut collector = Collector::new();
        collector.run(text, source, &mut self.warnings);
        let ghost c = collector@;
        assert(c == file_declares(text@, source@));
        assert(strings_view(self.warnings@) =~= w0 + syntax_warning(text@));
        let ghost p0 = self.parts;
        let includes = self.parts.absorb(collector);
        proof {
            assert(services_view(self.parts.services@) =~= services_view(p0.services@) + c.services);
            assert(pairs_view(self.parts.routers@) =~= pairs_view(p0.routers@) + c.routers);
            assert(messages_view(self.parts.messages@) =~= messages_view(p0.messages@) + c.messages);
            assert(pairs_view(self.parts.items@) =~= pairs_view(p0.items@) + c.items);
            assert(strings_view(includes@) =~= c.includes);
        }
        let ghost p1 = self.parts;
        let ghost qh = queue_view(self.queue@);
        let ghost wh = strings_view(self.warnings@);
        let mut i: usize = 0;
        while i < includes.len()
            invariant
                i <= includes.len(),
                depth <= MAX_INCLUDE_DEPTH,
                queue_view(self.queue@) == qh + local_entries(strings_view(includes@).take(i as int), depth as nat + 1),
                strings_view(self.warnings@) == wh + remote_warnings(strings_view(includes@).take(i as int)),
                self.seen == old(self).seen,
                self.defaults == old(self).defaults,
                strings_view(self.files@) == strings_view(old(self).files@).push(source@),
                self.parts == p1,
            decreases includes.len() - i,
        {
            let ghost iv = strings_view(includes@);
            assert(iv.take(i + 1).drop_last() =~= iv.take(i as int));
            assert(iv.take(i + 1).last() == includes@[i as int]@);
            let ghost qb = self.queue@;
            let ghost wb = self.warnings@;
            match classify_include(includes[i].as_str()) {
                IncludeSource::Local(p) => {
                    self.queue.push((p, depth + 1));
                    assert(queue_view(self.queue@) =~= queue_view(qb).push((p@, depth as nat + 1)));
                },
                IncludeSource::Remote(url) => {
                    let mut m = text::chars_of("已跳过远程 include（本程序不联网）：");
                    text::push_str(&mut m, url.as_str());
                    self.warnings.push(text::string_of(&m));
                    assert(strings_view(self.warnings@) =~= strings_view(wb).push(
                        "已跳过远程 include（本程序不联网）："@ + url@,
                    ));
                },
                IncludeSource::Ignored => {},
            }
            i += 1;
        }
        assert(strings_view(includes@).take(includes.len() as int) =~= strings_view(includes@));
    }

    /// Everything read, resolved and in launch order.
    pub fn finish(self) -> (r: Landscape)
        ensures
            r.files == self.files,
            r.warnings == self.warnings,
            exists|m: Seq<SapSystem>|
                m.len() == self.parts.services@.len() && (forall|i: int|
                    0 <= i < m.len() ==> resolve_rel(
                        #[trigger] self.parts.services@[i]@,
                        pairs_view(self.parts.routers@),
                        messages_view(self.parts.messages@),
                        pairs_view(self.parts.items@),
                        m[i],
                    )) && r.systems@ == sort_systems(with_shortcuts(m)),
    {
        let systems = self.parts.assemble();
        Landscape { files: self.files, systems, warnings: self.warnings }
    }
}

} // verus!
