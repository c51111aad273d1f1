//! Reading `SAPUILandscape.xml`: the services, routers, message servers,
//! includes and workspace items it declares.
//!
//! The file is read as a stream of XML events. Each event moves a small state
//! machine (`Collector`) whose transitions are stated in [`step`]; what the
//! whole file yields is the fold of those transitions ([`collect_from`]).

use vstd::prelude::*;
use crate::keys::{self, XmlEvent};
use crate::model::strings_view;
use crate::text::{self, trim, lower_seq, rsplit_once, replace_all, contains, utf8_lossy};

verus! {

// ---------------------------------------------------------------------------
// Key/value lists read as maps
// ---------------------------------------------------------------------------

pub type Pairs = Seq<(Seq<char>, Seq<char>)>;

pub open spec fn pairs_view(v: Seq<(String, String)>) -> Pairs {
    Seq::new(v.len(), |i: int| (v[i].0@, v[i].1@))
}

/// The value of a key in a list read as a map: a later pair overrides an
/// earlier one, as `HashMap::insert` does.
pub open spec fn lookup<V>(v: Seq<(Seq<char>, V)>, k: Seq<char>) -> Option<V>
    decreases v.len(),
{
    if v.len() == 0 {
        None
    } else if v.last().0 == k {
        Some(v.last().1)
    } else {
        lookup(v.drop_last(), k)
    }
}

/// `HashMap::entry(k).or_insert(v)`.
pub open spec fn or_insert(p: Pairs, k: Seq<char>, v: Seq<char>) -> Pairs {
    if lookup(p, k) is None {
        p.push((k, v))
    } else {
        p
    }
}

/// Every key of `a` that `base` lacks, with its value in `a`.
pub open spec fn or_insert_all(base: Pairs, a: Pairs) -> Pairs
    decreases a.len(),
{
    if a.len() == 0 {
        base
    } else {
        or_insert_all(or_insert(base, a.last().0, a.last().1), a.drop_last())
    }
}

/// The trimmed value of an attribute, empty when it is absent.
pub open spec fn attr_of(a: Pairs, key: Seq<char>) -> Seq<char> {
    match lookup(a, key) {
        Some(v) => trim(v),
        None => seq![],
    }
}

/// Index of the pair `lookup` reads.
pub fn pairs_get(v: &Vec<(String, String)>, k: &str) -> (r: Option<usize>)
    ensures
        match lookup(pairs_view(v@), k@) {
            Some(x) => r matches Some(i) && i < v.len() && v@[i as int].1@ == x,
            None => r is None,
        },
{
    let ghost pv = pairs_view(v@);
    let mut j: usize = v.len();
    assert(pv.take(v.len() as int) =~= pv);
    while j > 0
        invariant
            j <= v.len(),
            pv == pairs_view(v@),
            lookup(pv, k@) == lookup(pv.take(j as int), k@),
        decreases j,
    {
        assert(pv.take(j as int).drop_last() =~= pv.take(j - 1));
        if text::str_eq(v[j - 1].0.as_str(), k) {
            return Some(j - 1);
        }
        j -= 1;
    }
    None
}

/// `attr_of`.
pub fn attr(attrs: &Vec<(String, String)>, key: &str) -> (r: Vec<char>)
    ensures
        r@ == attr_of(pairs_view(attrs@), key@),
{
    match pairs_get(attrs, key) {
        Some(i) => text::trim_str(attrs[i].1.as_str()),
        None => Vec::new(),
    }
}

/// `or_insert` in place.
pub fn put_absent(p: &mut Vec<(String, String)>, k: String, v: String)
    ensures
        pairs_view(final(p)@) == or_insert(pairs_view(old(p)@), k@, v@),
{
    if pairs_get(p, k.as_str()).is_none() {
        p.push((k, v));
        assert(pairs_view(p@) =~= pairs_view(old(p)@).push((k@, v@)));
    }
}

// ---------------------------------------------------------------------------
// Names
// ---------------------------------------------------------------------------

/// Local name of a tag or attribute: the part after the last `:`, in ASCII
/// lower case.
pub open spec fn local_name(raw: Seq<char>) -> Seq<char> {
    lower_seq(
        match rsplit_once(raw, ':') {
            Some(p) => p.1,
            None => raw,
        },
    )
}

pub open spec fn local_attrs(a: Pairs) -> Pairs {
    Seq::new(a.len(), |i: int| (local_name(a[i].0), a[i].1))
}

pub fn local_name_exec(raw: &str) -> (r: String)
    ensures
        r@ == local_name(raw@),
{
    let chars = text::chars_of(raw);
    let tail = match text::rsplit_once_exec(&chars, ':') {
        Some((_, b)) => b,
        None => chars,
    };
    text::string_of(&text::to_lower(&tail))
}

pub fn local_attrs_exec(a: &Vec<(String, String)>) -> (r: Vec<(String, String)>)
    ensures
        pairs_view(r@) == local_attrs(pairs_view(a@)),
{
    let mut r: Vec<(String, String)> = Vec::new();
    let mut i: usize = 0;
    while i < a.len()
        invariant
            i <= a.len(),
            pairs_view(r@) == local_attrs(pairs_view(a@)).take(i as int),
        decreases a.len() - i,
    {
        let k = local_name_exec(a[i].0.as_str());
        let v = a[i].1.clone();
        let ghost prev = r@;
        r.push((k, v));
        proof {
            assert(pairs_view(prev).len() == prev.len());
            assert(r@.len() == prev.len() + 1);
            let want = local_attrs(pairs_view(a@)).take(i + 1);
            assert forall|j: int| 0 <= j < i + 1 implies #[trigger] pairs_view(r@)[j] == want[j] by {
                if j < i {
                    assert(r@[j] == prev[j]);
                    assert(pairs_view(prev)[j] == want[j]);
                }
            }
            assert(pairs_view(r@) =~= want);
        }
        i += 1;
    }
    assert(local_attrs(pairs_view(a@)).take(a.len() as int) =~= local_attrs(pairs_view(a@)));
    r
}

/// Element text with the five predefined XML entities resolved.
pub open spec fn unescape_text(t: Seq<char>) -> Seq<char> {
    if !contains(t, "&"@) {
        t
    } else {
        replace_all(
            replace_all(
                replace_all(replace_all(replace_all(t, "&lt;"@, "<"@), "&gt;"@, ">"@), "&quot;"@, "\""@),
                "&apos;"@,
                "'"@,
            ),
            "&amp;"@,
            "&"@,
        )
    }
}

pub fn unescape_text_exec(raw: &[u8]) -> (r: Vec<char>)
    ensures
        r@ == unescape_text(utf8_lossy(raw@)),
{
    let s = text::from_utf8_lossy(raw);
    let t = text::chars_of_string(&s);
    if !text::contains_str(&t, "&") {
        return t;
    }
    let a = text::replace_exec(&t, "&lt;", "<");
    let b = text::replace_exec(&a, "&gt;", ">");
    let c = text::replace_exec(&b, "&quot;", "\"");
    let d = text::replace_exec(&c, "&apos;", "'");
    text::replace_exec(&d, "&amp;", "&")
}

/// The non-empty parts, in order.
pub open spec fn nonempty(parts: Seq<Seq<char>>) -> Seq<Seq<char>>
    decreases parts.len(),
{
    if parts.len() == 0 {
        seq![]
    } else if parts.last().len() == 0 {
        nonempty(parts.drop_last())
    } else {
        nonempty(parts.drop_last()).push(parts.last())
    }
}

/// The parts joined with `sep` between them.
pub open spec fn join_with(parts: Seq<Seq<char>>, sep: Seq<char>) -> Seq<char>
    decreases parts.len(),
{
    if parts.len() == 0 {
        seq![]
    } else if parts.len() == 1 {
        parts[0]
    } else {
        join_with(parts.drop_last(), sep) + sep + parts.last()
    }
}

/// Workspace and node names, the empty ones left out, joined with ` / `.
pub open spec fn location_label(loc: Seq<Seq<char>>) -> Seq<char> {
    join_with(nonempty(loc), " / "@)
}

pub fn location_label_exec(loc: &Vec<String>) -> (r: String)
    ensures
        r@ == location_label(strings_view(loc@)),
{
    let ghost lv = strings_view(loc@);
    let mut out: Vec<char> = Vec::new();
    let mut n: usize = 0;
    let mut i: usize = 0;
    assert(lv.take(0) =~= Seq::<Seq<char>>::empty());
    while i < loc.len()
        invariant
            i <= loc.len(),
            lv == strings_view(loc@),
            n == nonempty(lv.take(i as int)).len(),
            n <= i,
            out@ == join_with(nonempty(lv.take(i as int)), " / "@),
        decreases loc.len() - i,
    {
        assert(lv.take(i + 1).drop_last() =~= lv.take(i as int));
        assert(lv.take(i + 1).last() == loc@[i as int]@);
        let part = text::chars_of_string(&loc[i]);
        if part.len() > 0 {
            let ghost before = out@;
            if n > 0 {
                text::push_str(&mut out, " / ");
            }
            text::push_all(&mut out, &part);
            n += 1;
            proof {
                let ne = nonempty(lv.take(i + 1));
                assert(ne == nonempty(lv.take(i as int)).push(part@));
                assert(ne.drop_last() =~= nonempty(lv.take(i as int)));
                if n == 1 {
                    assert(out@ =~= ne[0]);
                } else {
                    assert(out@ =~= join_with(ne.drop_last(), " / "@) + " / "@ + ne.last());
                }
            }
        }
        i += 1;
    }
    assert(lv.take(loc.len() as int) =~= lv);
    text::string_of(&out)
}

// ---------------------------------------------------------------------------
// The collector's state
// ---------------------------------------------------------------------------

/// A `<Service>` as read: its attributes, values written as child elements
/// (older layouts), and the file it came from.
#[derive(Debug, Clone)]
pub struct RawService {
    pub attrs: Vec<(String, String)>,
    pub nested: Vec<(String, String)>,
    pub source: String,
}

pub struct ServiceView {
    pub attrs: Pairs,
    pub nested: Pairs,
    pub source: Seq<char>,
}

impl View for RawService {
    type V = ServiceView;

    open spec fn view(&self) -> ServiceView {
        ServiceView { attrs: pairs_view(self.attrs@), nested: pairs_view(self.nested@), source: self.source@ }
    }
}

#[derive(Debug, Clone)]
pub struct MessageServer {
    pub host: String,
    pub port: String,
}

pub open spec fn services_view(v: Seq<RawService>) -> Seq<ServiceView> {
    v.map_values(|s: RawService| s@)
}

pub type MessagesView = Seq<(Seq<char>, (Seq<char>, Seq<char>))>;

pub open spec fn messages_view(v: Seq<(String, MessageServer)>) -> MessagesView {
    Seq::new(v.len(), |i: int| (v[i].0@, (v[i].1.host@, v[i].1.port@)))
}

/// Index of the message server `lookup` reads.
pub fn message_get(v: &Vec<(String, MessageServer)>, k: &str) -> (r: Option<usize>)
    ensures
        match lookup(messages_view(v@), k@) {
            Some(x) => r matches Some(i) && i < v.len() && (v@[i as int].1.host@, v@[i as int].1.port@) == x,
            None => r is None,
        },
{
    let ghost mv = messages_view(v@);
    let mut j: usize = v.len();
    assert(mv.take(v.len() as int) =~= mv);
    while j > 0
        invariant
            j <= v.len(),
            mv == messages_view(v@),
            lookup(mv, k@) == lookup(mv.take(j as int), k@),
        decreases j,
    {
        assert(mv.take(j as int).drop_last() =~= mv.take(j - 1));
        if text::str_eq(v[j - 1].0.as_str(), k) {
            return Some(j - 1);
        }
        j -= 1;
    }
    None
}

/// What one landscape file declares, and where the reader stands in it.
#[derive(Debug, Clone)]
pub struct Collector {
    pub services: Vec<RawService>,
    /// Router uuid → router string.
    pub routers: Vec<(String, String)>,
    /// Message server uuid → host and port.
    pub messages: Vec<(String, MessageServer)>,
    pub includes: Vec<String>,
    /// Service id → "workspace / node".
    pub items: Vec<(String, String)>,
    /// Open `<Workspace>` / `<Node>` names.
    pub location: Vec<String>,
    /// Set while a `<Service>` is open.
    pub current: Option<RawService>,
    /// Element depth the current service started at.
    pub service_level: Option<usize>,
    /// Child element whose text belongs into the current service's values.
    pub pending: Option<String>,
    /// How many elements are open.
    pub depth: usize,
}

pub struct CollectorView {
    pub services: Seq<ServiceView>,
    pub routers: Pairs,
    pub messages: MessagesView,
    pub includes: Seq<Seq<char>>,
    pub items: Pairs,
    pub location: Seq<Seq<char>>,
    pub current: Option<ServiceView>,
    pub service_level: Option<nat>,
    pub pending: Option<Seq<char>>,
    pub depth: nat,
}

impl View for Collector {
    type V = CollectorView;

    open spec fn view(&self) -> CollectorView {
        CollectorView {
            services: services_view(self.services@),
            routers: pairs_view(self.routers@),
            messages: messages_view(self.messages@),
            includes: strings_view(self.includes@),
            items: pairs_view(self.items@),
            location: strings_view(self.location@),
            current: match self.current {
                Some(s) => Some(s@),
                None => None,
            },
            service_level: match self.service_level {
                Some(l) => Some(l as nat),
                None => None,
            },
            pending: match self.pending {
                Some(p) => Some(p@),
                None => None,
            },
            depth: self.depth as nat,
        }
    }
}

pub open spec fn empty_collector() -> CollectorView {
    CollectorView {
        services: seq![],
        routers: seq![],
        messages: seq![],
        includes: seq![],
        items: seq![],
        location: seq![],
        current: None,
        service_level: None,
        pending: None,
        depth: 0,
    }
}

// ---------------------------------------------------------------------------
// Transitions
// ---------------------------------------------------------------------------

/// Child elements whose text (or `value` attribute) is a service field.
pub open spec fn is_field_element(name: Seq<char>) -> bool {
    name == "server"@ || name == "systemid"@ || name == "system_id"@ || name == "client"@
        || name == "language"@ || name == "user"@ || name == "name"@ || name == "url"@
        || name == "routerid"@ || name == "msid"@ || name == "description"@
}

/// An opening tag outside the service rules: routers, message servers,
/// includes, workspaces, nodes and items.
pub open spec fn declare_step(c: CollectorView, name: Seq<char>, a: Pairs) -> CollectorView {
    if name == "router"@ {
        let uuid = attr_of(a, "uuid"@);
        let router = attr_of(a, "router"@);
        if uuid.len() > 0 && router.len() > 0 {
            CollectorView { routers: c.routers.push((uuid, router)), ..c }
        } else {
            c
        }
    } else if name == "messageserver"@ {
        let uuid = attr_of(a, "uuid"@);
        if uuid.len() > 0 {
            CollectorView { messages: c.messages.push((uuid, (attr_of(a, "host"@), attr_of(a, "port"@)))), ..c }
        } else {
            c
        }
    } else if name == "include"@ {
        let url = attr_of(a, "url"@);
        if url.len() > 0 {
            CollectorView { includes: c.includes.push(url), ..c }
        } else {
            c
        }
    } else if name == "workspace"@ || name == "node"@ {
        CollectorView { location: c.location.push(attr_of(a, "name"@)), ..c }
    } else if name == "item"@ {
        let id = attr_of(a, "serviceid"@);
        if id.len() > 0 {
            CollectorView { items: c.items.push((id, location_label(c.location))), ..c }
        } else {
            c
        }
    } else {
        c
    }
}

/// A child element of an open service: `<Connection>` adds its attributes,
/// `<System id>` the system ID, and a field element its `value` attribute or,
/// failing that, the text that follows.
pub open spec fn service_child_step(c: CollectorView, s: ServiceView, name: Seq<char>, a: Pairs) -> CollectorView {
    if name == "connection"@ {
        CollectorView { current: Some(ServiceView { attrs: or_insert_all(s.attrs, a), ..s }), ..c }
    } else if name == "system"@ {
        let id = attr_of(a, "id"@);
        if id.len() > 0 {
            CollectorView { current: Some(ServiceView { attrs: or_insert(s.attrs, "systemid"@, id), ..s }), ..c }
        } else {
            c
        }
    } else if is_field_element(name) {
        let inline = attr_of(a, "value"@);
        if inline.len() > 0 {
            CollectorView { current: Some(ServiceView { attrs: or_insert(s.attrs, name, inline), ..s }), ..c }
        } else {
            CollectorView { pending: Some(name), ..c }
        }
    } else {
        c
    }
}

/// An opening (or self-closing) tag with its local name and attributes.
pub open spec fn open_step(c: CollectorView, name: Seq<char>, a: Pairs, source: Seq<char>, empty: bool) -> CollectorView {
    if name == "service"@ {
        let s = ServiceView { attrs: a, nested: seq![], source };
        if empty {
            CollectorView { services: c.services.push(s), ..c }
        } else {
            CollectorView { current: Some(s), service_level: Some(c.depth), ..c }
        }
    } else {
        let c1 = declare_step(c, name, a);
        match c1.current {
            Some(s) => service_child_step(c1, s, name, a),
            None => c1,
        }
    }
}

/// Text: the pending field of the open service takes it (trimmed, entities
/// resolved) unless it is empty.
pub open spec fn text_step(c: CollectorView, bytes: Seq<u8>) -> CollectorView {
    match c.pending {
        Some(key) => {
            let v = trim(unescape_text(utf8_lossy(bytes)));
            if v.len() > 0 {
                CollectorView {
                    current: match c.current {
                        Some(s) => Some(ServiceView { nested: or_insert(s.nested, key, v), ..s }),
                        None => None,
                    },
                    pending: None,
                    ..c
                }
            } else {
                c
            }
        },
        None => c,
    }
}

/// A closing tag: a workspace or node leaves the location, and the tag that
/// brings the depth back to where the open service started completes it.
pub open spec fn close_step(c: CollectorView, name: Seq<char>) -> CollectorView {
    let depth: nat = if c.depth > 0 { (c.depth - 1) as nat } else { 0 };
    let location = if (name == "workspace"@ || name == "node"@) && c.location.len() > 0 {
        c.location.drop_last()
    } else {
        c.location
    };
    match c.service_level {
        Some(level) => if depth <= level {
            CollectorView {
                services: match c.current {
                    Some(s) => c.services.push(s),
                    None => c.services,
                },
                current: None,
                service_level: None,
                depth,
                location,
                ..c
            }
        } else {
            CollectorView { depth, location, ..c }
        },
        None => CollectorView { depth, location, ..c },
    }
}

/// One event of the reader, tags still with their names as written.
#[derive(Debug, Clone)]
pub enum LandscapeEvent {
    /// A tag, its attributes, and whether it closes itself.
    Open(String, Vec<(String, String)>, bool),
    /// Text content, the bytes as written.
    Text(Vec<u8>),
    Close(String),
}

pub enum EventView {
    Open(Seq<char>, Pairs, bool),
    Text(Seq<u8>),
    Close(Seq<char>),
}

impl View for LandscapeEvent {
    type V = EventView;

    open spec fn view(&self) -> EventView {
        match self {
            LandscapeEvent::Open(n, a, e) => EventView::Open(n@, pairs_view(a@), *e),
            LandscapeEvent::Text(b) => EventView::Text(b@),
            LandscapeEvent::Close(n) => EventView::Close(n@),
        }
    }
}

pub open spec fn events_view(v: Seq<LandscapeEvent>) -> Seq<EventView> {
    v.map_values(|e: LandscapeEvent| e@)
}

pub open spec fn step(c: CollectorView, e: EventView, source: Seq<char>) -> CollectorView {
    match e {
        EventView::Open(raw, a, empty) => {
            let c2 = open_step(c, local_name(raw), local_attrs(a), source, empty);
            if empty {
                c2
            } else {
                CollectorView { depth: c2.depth + 1, ..c2 }
            }
        },
        EventView::Text(bytes) => text_step(c, bytes),
        EventView::Close(raw) => close_step(c, local_name(raw)),
    }
}

/// The state after the events, one transition each.
pub open spec fn collect_from(c: CollectorView, evs: Seq<EventView>, source: Seq<char>) -> CollectorView
    decreases evs.len(),
{
    if evs.len() == 0 {
        c
    } else {
        step(collect_from(c, evs.drop_last(), source), evs.last(), source)
    }
}

/// A service still open at the end of the file is kept.
pub open spec fn finish(c: CollectorView) -> CollectorView {
    match c.current {
        Some(s) => CollectorView { services: c.services.push(s), current: None, ..c },
        None => c,
    }
}

impl Collector {
    pub fn new() -> (c: Collector)
        ensures
            c@ == empty_collector(),
    {
        let c = Collector {
            services: Vec::new(),
            routers: Vec::new(),
            messages: Vec::new(),
            includes: Vec::new(),
            items: Vec::new(),
            location: Vec::new(),
            current: None,
            service_level: None,
            pending: None,
            depth: 0,
        };
        assert(c@.services =~= Seq::<ServiceView>::empty());
        assert(c@.includes =~= Seq::<Seq<char>>::empty());
        assert(c@.location =~= Seq::<Seq<char>>::empty());
        assert(c@.routers =~= Seq::<(Seq<char>, Seq<char>)>::empty());
        assert(c@.items =~= Seq::<(Seq<char>, Seq<char>)>::empty());
        assert(c@.messages =~= Seq::<(Seq<char>, (Seq<char>, Seq<char>))>::empty());
        c
    }
}

} // verus!

verus! {

pub fn copy_pairs(a: &Vec<(String, String)>) -> (r: Vec<(String, String)>)
    ensures
        pairs_view(r@) == pairs_view(a@),
{
    let mut r: Vec<(String, String)> = Vec::new();
    let mut i: usize = 0;
    while i < a.len()
        invariant
            i <= a.len(),
            pairs_view(r@) == pairs_view(a@).take(i as int),
        decreases a.len() - i,
    {
        let ghost prev = r@;
        r.push((a[i].0.clone(), a[i].1.clone()));
        proof {
            assert(pairs_view(prev).len() == prev.len());
            let want = pairs_view(a@).take(i + 1);
            assert forall|j: int| 0 <= j < i + 1 implies #[trigger] pairs_view(r@)[j] == want[j] by {
                if j < i {
                    assert(r@[j] == prev[j]);
                    assert(pairs_view(prev)[j] == want[j]);
                }
            }
            assert(pairs_view(r@) =~= want);
        }
        i += 1;
    }
    assert(pairs_view(a@).take(a.len() as int) =~= pairs_view(a@));
    r
}

/// `or_insert_all` in place.
pub fn put_all_absent(p: &mut Vec<(String, String)>, a: &Vec<(String, String)>)
    ensures
        pairs_view(final(p)@) == or_insert_all(pairs_view(old(p)@), pairs_view(a@)),
{
    let ghost av = pairs_view(a@);
    let mut j: usize = a.len();
    assert(av.take(a.len() as int) =~= av);
    while j > 0
        invariant
            j <= a.len(),
            av == pairs_view(a@),
            or_insert_all(pairs_view(p@), av.take(j as int)) == or_insert_all(pairs_view(old(p)@), av),
        decreases j,
    {
        assert(av.take(j as int).drop_last() =~= av.take(j - 1));
        assert(av.take(j as int).last() == (a@[j - 1].0@, a@[j - 1].1@));
        put_absent(p, a[j - 1].0.clone(), a[j - 1].1.clone());
        j -= 1;
    }
    assert(av.take(0) =~= Seq::<(Seq<char>, Seq<char>)>::empty());
}

impl Collector {
    /// An opening tag (`name` and attribute names already local).
    pub fn on_open(&mut self, name: &String, a: &Vec<(String, String)>, source: &str, empty: bool)
        ensures
            final(self)@ == open_step(old(self)@, name@, pairs_view(a@), source@, empty),
    {
        let n = name.as_str();
        if text::str_eq(n, "service") {
            let s = RawService {
                attrs: copy_pairs(a),
                nested: Vec::new(),
                source: text::string_of(&text::chars_of(source)),
            };
            assert(s@.nested =~= Seq::<(Seq<char>, Seq<char>)>::empty());
            if empty {
                self.services.push(s);
                assert(services_view(self.services@) =~= services_view(old(self).services@).push(s@));
            } else {
                self.current = Some(s);
                self.service_level = Some(self.depth);
            }
            return;
        }
        if text::str_eq(n, "router") {
            let uuid = attr(a, "uuid");
            let router = attr(a, "router");
            if uuid.len() > 0 && router.len() > 0 {
                self.routers.push((text::string_of(&uuid), text::string_of(&router)));
                assert(pairs_view(self.routers@) =~= pairs_view(old(self).routers@).push((uuid@, router@)));
            }
        } else if text::str_eq(n, "messageserver") {
            let uuid = attr(a, "uuid");
            if uuid.len() > 0 {
                let host = attr(a, "host");
                let port = attr(a, "port");
                let m = MessageServer { host: text::string_of(&host), port: text::string_of(&port) };
                self.messages.push((text::string_of(&uuid), m));
                assert(messages_view(self.messages@) =~= messages_view(old(self).messages@).push(
                    (uuid@, (host@, port@)),
                ));
            }
        } else if text::str_eq(n, "include") {
            let url = attr(a, "url");
            if url.len() > 0 {
                self.includes.push(text::string_of(&url));
                assert(strings_view(self.includes@) =~= strings_view(old(self).includes@).push(url@));
            }
        } else if text::str_eq(n, "workspace") || text::str_eq(n, "node") {
            let label = attr(a, "name");
            self.location.push(text::string_of(&label));
            assert(strings_view(self.location@) =~= strings_view(old(self).location@).push(label@));
        } else if text::str_eq(n, "item") {
            let id = attr(a, "serviceid");
            if id.len() > 0 {
                let loc = location_label_exec(&self.location);
                self.items.push((text::string_of(&id), loc));
                assert(pairs_view(self.items@) =~= pairs_view(old(self).items@).push(
                    (id@, location_label(strings_view(self.location@))),
                ));
            }
        }
        let ghost c1 = self@;
        assert(c1 == declare_step(old(self)@, name@, pairs_view(a@)));
        match self.current.take() {
            None => {},
            Some(mut s) => {
                let ghost s0 = s@;
                if text::str_eq(n, "connection") {
                    put_all_absent(&mut s.attrs, a);
                } else if text::str_eq(n, "system") {
                    let id = attr(a, "id");
                    if id.len() > 0 {
                        put_absent(&mut s.attrs, text::string_of(&text::chars_of("systemid")), text::string_of(&id));
                    }
                } else if text::str_eq(n, "server") || text::str_eq(n, "systemid") || text::str_eq(n, "system_id")
                    || text::str_eq(n, "client") || text::str_eq(n, "language") || text::str_eq(n, "user")
                    || text::str_eq(n, "name") || text::str_eq(n, "url") || text::str_eq(n, "routerid")
                    || text::str_eq(n, "msid") || text::str_eq(n, "description") {
                    let inline = attr(a, "value");
                    if inline.len() > 0 {
                        put_absent(&mut s.attrs, name.clone(), text::string_of(&inline));
                    } else {
                        self.pending = Some(name.clone());
                    }
                }
                self.current = Some(s);
                assert(self@ == service_child_step(c1, s0, name@, pairs_view(a@)));
            },
        }
    }

    /// Text content.
    pub fn on_text(&mut self, bytes: &Vec<u8>)
        ensures
            final(self)@ == text_step(old(self)@, bytes@),
    {
        match self.pending.take() {
            None => {},
            Some(key) => {
                let v = text::trim_vec(&unescape_text_exec(bytes.as_slice()));
                if v.len() > 0 {
                    match self.current.take() {
                        None => {},
                        Some(mut s) => {
                            put_absent(&mut s.nested, key, text::string_of(&v));
                            self.current = Some(s);
                        },
                    }
                } else {
                    self.pending = Some(key);
                }
            },
        }
    }

    /// A closing tag (`name` already local).
    pub fn on_close(&mut self, name: &String)
        ensures
            final(self)@ == close_step(old(self)@, name@),
    {
        let depth = if self.depth > 0 {
            self.depth - 1
        } else {
            0
        };
        self.depth = depth;
        let n = name.as_str();
        if (text::str_eq(n, "workspace") || text::str_eq(n, "node")) && self.location.len() > 0 {
            self.location.pop();
            assert(strings_view(self.location@) =~= strings_view(old(self).location@).drop_last());
        }
        match self.service_level {
            None => {},
            Some(level) => {
                if depth <= level {
                    match self.current.take() {
                        None => {},
                        Some(s) => {
                            self.services.push(s);
                            assert(services_view(self.services@) =~= services_view(old(self).services@).push(s@));
                        },
                    }
                    self.service_level = None;
                }
            },
        }
    }

    /// Keeps a service still open at the end of the file.
    pub fn finish(&mut self)
        ensures
            final(self)@ == finish(old(self)@),
    {
        match self.current.take() {
            None => {},
            Some(s) => {
                self.services.push(s);
                assert(services_view(self.services@) =~= services_view(old(self).services@).push(s@));
            },
        }
    }

    /// All events, one transition each, then [`finish`].
    pub fn run_events(&mut self, events: &Vec<LandscapeEvent>, source: &str)
        requires
            old(self).depth + events.len() <= usize::MAX,
        ensures
            final(self)@ == finish(collect_from(old(self)@, events_view(events@), source@)),
    {
        let ghost c0 = self@;
        let ghost ev = events_view(events@);
        let mut i: usize = 0;
        assert(ev.take(0) =~= Seq::<EventView>::empty());
        while i < events.len()
            invariant
                i <= events.len(),
                ev == events_view(events@),
                self@ == collect_from(c0, ev.take(i as int), source@),
                self.depth <= c0.depth + i,
                c0.depth + events.len() <= usize::MAX,
            decreases events.len() - i,
        {
            assert(ev.take(i + 1).drop_last() =~= ev.take(i as int));
            assert(ev.take(i + 1).last() == events@[i as int]@);
            match &events[i] {
                LandscapeEvent::Open(raw, a, empty) => {
                    let name = local_name_exec(raw.as_str());
                    let la = local_attrs_exec(a);
                    self.on_open(&name, &la, source, *empty);
                    if !*empty {
                        self.depth = self.depth + 1;
                    }
                },
                LandscapeEvent::Text(b) => {
                    self.on_text(b);
                },
                LandscapeEvent::Close(raw) => {
                    let name = local_name_exec(raw.as_str());
                    self.on_close(&name);
                },
            }
            i += 1;
        }
        assert(ev.take(events.len() as int) =~= ev);
        self.finish();
    }

    /// Reads one landscape file: every event of the XML reader (see
    /// [`landscape_events`]), then [`finish`]. A syntax error ends the
    /// reading and is reported in `warnings`.
    pub fn run(&mut self, text: &str, source: &str, warnings: &mut Vec<String>)
        ensures
            final(self)@ == finish(collect_from(
                old(self)@,
                landscape_events(keys::xml_events(text@, run_fuel(text@, old(self)@.depth))),
                source@,
            )),
            match keys::xml_failure(text@, run_fuel(text@, old(self)@.depth)) {
                None => final(warnings)@ == old(warnings)@,
                Some(m) => strings_view(final(warnings)@) == strings_view(old(warnings)@).push("XML 解析中断："@ + m@),
            },
    {
        let mut reader = keys::xml_reader(text);
        let mut events: Vec<LandscapeEvent> = Vec::new();
        let mut failure: Option<String> = None;
        let limit: usize = usize::MAX - self.depth;
        let fuel: u128 = if (text.len() as u128) + 1 < limit as u128 {
            (text.len() as u128) + 1
        } else {
            limit as u128
        };
        let ghost gf: nat = run_fuel(text@, self@.depth);
        assert(fuel == gf);
        proof {
            keys::lemma_stop_bounds(text@, 0, gf);
        }
        let ghost c0 = self@;
        let mut n: u128 = 0;
        while n < fuel
            invariant_except_break
                reader.events_read() == n,
                failure is None,
            invariant
                fuel == gf,
                gf <= limit,
                limit == usize::MAX - c0.depth,
                n <= fuel,
                reader.source() == text@,
                keys::xml_stop_from(text@, 0, gf) == keys::xml_stop_from(text@, n as nat, gf),
                events_view(events@) == landscape_events(keys::xml_prefix(text@, n as nat)),
                events@.len() <= n,
            ensures
                n == fuel || (n < fuel && keys::ends_stream(keys::xml_event(text@, n as nat)) && (match keys::xml_event(text@, n as nat) {
                    keys::XmlEvent::Failed(m) => failure == Some(m),
                    _ => failure is None,
                })),
                n == fuel ==> failure is None,
            decreases fuel - n,
        {
            let ghost before = keys::xml_prefix(text@, n as nat);
            let e = keys::xml_next(&mut reader);
            let ghost ev = (e, keys::xml_tag_at(text@, n as nat));
            let ghost ebefore = events_view(events@);
            match e {
                XmlEvent::Eof => {
                    break;
                },
                XmlEvent::Failed(m) => {
                    failure = Some(m);
                    break;
                },
                XmlEvent::Open(empty) => {
                    let (name, items) = keys::xml_tag(&reader);
                    events.push(LandscapeEvent::Open(name, keys::ok_attrs(&items), empty));
                },
                XmlEvent::Text(t) => {
                    events.push(LandscapeEvent::Text(t));
                },
                XmlEvent::End(name) => {
                    events.push(LandscapeEvent::Close(name));
                },
                XmlEvent::Other => {},
            }
            n += 1;
            proof {
                let after = keys::xml_prefix(text@, n as nat);
                assert(after.drop_last() =~= before);
                assert(after.last() == ev);
                assert(events_view(events@) =~= ebefore + landscape_event(ev));
            }
        }
        proof {
            let k = keys::xml_stop_from(text@, 0, gf);
            assert(k == n);
            assert(keys::xml_prefix(text@, n as nat) =~= keys::xml_events(text@, gf));
            if n < fuel {
                assert(keys::xml_failure(text@, gf) == failure);
            } else {
                assert(keys::xml_failure(text@, gf) is None);
            }
        }
        self.run_events(&events, source);
        match failure {
            None => {},
            Some(m) => {
                let mut msg = text::chars_of("XML 解析中断：");
                let mc = text::chars_of_string(&m);
                text::push_all(&mut msg, &mc);
                let ghost w0 = strings_view(warnings@);
                warnings.push(text::string_of(&msg));
                assert(strings_view(warnings@) =~= w0.push("XML 解析中断："@ + m@));
            },
        }
    }
}

/// The events of the landscape reader that one event of the XML reader
/// gives: a tag with its well-formed attributes, text, or a closing tag.
pub open spec fn landscape_event(p: (XmlEvent, (String, Vec<Result<(String, String), String>>))) -> Seq<EventView> {
    match p.0 {
        XmlEvent::Open(empty) => seq![EventView::Open(p.1.0@, pairs_view(keys::ok_attrs_spec(p.1.1@)), empty)],
        XmlEvent::Text(t) => seq![EventView::Text(t@)],
        XmlEvent::End(n) => seq![EventView::Close(n@)],
        _ => seq![],
    }
}

pub open spec fn landscape_events(evs: Seq<(XmlEvent, (String, Vec<Result<(String, String), String>>))>) -> Seq<EventView>
    decreases evs.len(),
{
    if evs.len() == 0 {
        seq![]
    } else {
        landscape_events(evs.drop_last()) + landscape_event(evs.last())
    }
}

/// How many events one landscape file is read with: every event but the end
/// of input consumes a byte, and no more than the depth counter can take.
pub open spec fn run_fuel(text: Seq<char>, depth: nat) -> nat {
    let limit = usize::MAX - depth;
    if keys::xml_fuel(text) < limit {
        keys::xml_fuel(text)
    } else {
        limit as nat
    }
}

} // verus!
