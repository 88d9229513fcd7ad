//! The dnsmasq configuration that a record set is kept in.
//!
//! Each record set is written as blocks separated by blank lines. A block
//! starts with a comment line `# <encoding>` that holds the faithful machine
//! encoding of one endpoint, and goes on with the dnsmasq directives that
//! endpoint is the first source of. Reading goes by the comments alone; the
//! directives are a lossy projection for dnsmasq:
//!
//! - `address=/name[/name]/ip`
//! - `cname=cname[,cname],target[,ttl]`
//! - `txt-record=name[,"text"]*`
//! - `ptr-record=name[,target]`
use crate::domain_filter::DomainFilter;
use crate::text::chars_of;
use crate::endpoint::{opt_str_eq, opt_str_view, opt_strs_view, Endpoint, RecordType};
use vstd::prelude::*;
use vstd::string::{StringExecFns, StringSliceAdditionalSpecFns};

verus! {

/// `nonempty::NonEmpty`, whose fields are public: a `head` and a `tail`.
#[verifier::external_type_specification]
pub struct ExNonEmpty<T>(nonempty::NonEmpty<T>);

/// Relies on `nonempty::NonEmpty::from_vec`: `None` for an empty vector,
/// else the first element as `head` and the others, in order, as `tail`.
pub assume_specification<T>[ nonempty::NonEmpty::<T>::from_vec ](vec: Vec<T>) -> (r: Option<
    nonempty::NonEmpty<T>,
>)
    ensures
        vec@.len() == 0 <==> r is None,
        r matches Some(n) ==> seq![n.head] + n.tail@ == vec@,
;

pub open spec fn nonempty_view(n: nonempty::NonEmpty<String>) -> Seq<Seq<char>> {
    seq![n.head@] + n.tail@.map_values(|s: String| s@)
}

/// One dnsmasq directive.
#[allow(inconsistent_fields)]
pub enum Record {
    Address { domains: nonempty::NonEmpty<String>, ip: String },
    Cname { cnames: nonempty::NonEmpty<String>, target: String, ttl: Option<u32> },
    TxtRecord { name: String, texts: Option<Vec<String>> },
    PtrRecord { name: String, target: Option<String> },
}

#[allow(inconsistent_fields)]
pub enum RecordView {
    Address { domains: Seq<Seq<char>>, ip: Seq<char> },
    Cname { cnames: Seq<Seq<char>>, target: Seq<char>, ttl: Option<u32> },
    TxtRecord { name: Seq<char>, texts: Option<Seq<Seq<char>>> },
    PtrRecord { name: Seq<char>, target: Option<Seq<char>> },
}

impl View for Record {
    type V = RecordView;

    open spec fn view(&self) -> RecordView {
        match self {
            Record::Address { domains, ip } => RecordView::Address {
                domains: nonempty_view(*domains),
                ip: ip@,
            },
            Record::Cname { cnames, target, ttl } => RecordView::Cname {
                cnames: nonempty_view(*cnames),
                target: target@,
                ttl: *ttl,
            },
            Record::TxtRecord { name, texts } => RecordView::TxtRecord {
                name: name@,
                texts: match texts {
                    Some(t) => Some(t@.map_values(|s: String| s@)),
                    None => None,
                },
            },
            Record::PtrRecord { name, target } => RecordView::PtrRecord {
                name: name@,
                target: match target {
                    Some(t) => Some(t@),
                    None => None,
                },
            },
        }
    }
}

/// The decimal digit `d`.
pub open spec fn digit(d: nat) -> char {
    if d == 0 {
        '0'
    } else if d == 1 {
        '1'
    } else if d == 2 {
        '2'
    } else if d == 3 {
        '3'
    } else if d == 4 {
        '4'
    } else if d == 5 {
        '5'
    } else if d == 6 {
        '6'
    } else if d == 7 {
        '7'
    } else if d == 8 {
        '8'
    } else {
        '9'
    }
}

/// `n` in decimal, without leading zeros.
pub open spec fn decimal(n: nat) -> Seq<char>
    decreases n,
{
    if n < 10 {
        seq![digit(n)]
    } else {
        decimal(n / 10).push(digit(n % 10))
    }
}

/// Each item of `items`, between `before` and `after`, one after another.
pub open spec fn wrapped(items: Seq<Seq<char>>, before: Seq<char>, after: Seq<char>) -> Seq<char>
    decreases items.len(),
{
    if items.len() == 0 {
        Seq::empty()
    } else {
        wrapped(items.drop_last(), before, after) + before + items.last() + after
    }
}

/// The text of a directive.
pub open spec fn record_text(r: RecordView) -> Seq<char> {
    match r {
        RecordView::Address { domains, ip } => "address="@ + wrapped(domains, "/"@, ""@) + "/"@
            + ip,
        RecordView::Cname { cnames, target, ttl } => "cname="@ + wrapped(cnames, ""@, ","@)
            + target + match ttl {
            Some(t) => ","@ + decimal(t as nat),
            None => Seq::empty(),
        },
        RecordView::TxtRecord { name, texts } => "txt-record="@ + name + match texts {
            Some(t) => wrapped(t, ",\""@, "\""@),
            None => Seq::empty(),
        },
        RecordView::PtrRecord { name, target } => "ptr-record="@ + name + match target {
            Some(t) => ","@ + t,
            None => Seq::empty(),
        },
    }
}

fn digit_str(d: u32) -> (r: &'static str)
    requires
        d < 10,
    ensures
        r@ == seq![digit(d as nat)],
{
    proof {
        reveal_strlit("0");
        reveal_strlit("1");
        reveal_strlit("2");
        reveal_strlit("3");
        reveal_strlit("4");
        reveal_strlit("5");
        reveal_strlit("6");
        reveal_strlit("7");
        reveal_strlit("8");
        reveal_strlit("9");
    }
    if d == 0 {
        "0"
    } else if d == 1 {
        "1"
    } else if d == 2 {
        "2"
    } else if d == 3 {
        "3"
    } else if d == 4 {
        "4"
    } else if d == 5 {
        "5"
    } else if d == 6 {
        "6"
    } else if d == 7 {
        "7"
    } else if d == 8 {
        "8"
    } else {
        "9"
    }
}

/// Appends `n` in decimal.
fn push_decimal(out: &mut String, n: u32)
    ensures
        final(out)@ == old(out)@ + decimal(n as nat),
    decreases n,
{
    if n >= 10 {
        push_decimal(out, n / 10);
    }
    out.append(digit_str(n % 10));
}

/// Appends each string of `items` between `before` and `after`.
fn push_wrapped(out: &mut String, items: &Vec<String>, before: &str, after: &str)
    ensures
        final(out)@ == old(out)@ + wrapped(items@.map_values(|s: String| s@), before@, after@),
{
    let ghost start = out@;
    let ghost views = items@.map_values(|s: String| s@);
    let mut i: usize = 0;
    while i < items.len()
        invariant
            i <= items.len(),
            views == items@.map_values(|s: String| s@),
            out@ == start + wrapped(views.take(i as int), before@, after@),
        decreases items.len() - i,
    {
        out.append(before);
        out.append(items[i].as_str());
        out.append(after);
        proof {
            assert(views.take(i + 1).drop_last() =~= views.take(i as int));
            assert(out@ =~= start + wrapped(views.take(i + 1), before@, after@));
        }
        i = i + 1;
    }
    proof {
        assert(views.take(items.len() as int) =~= views);
    }
}

/// Appends the names of a non-empty list between `before` and `after`.
fn push_wrapped_nonempty(
    out: &mut String,
    items: &nonempty::NonEmpty<String>,
    before: &str,
    after: &str,
)
    ensures
        final(out)@ == old(out)@ + wrapped(nonempty_view(*items), before@, after@),
{
    let ghost start = out@;
    out.append(before);
    out.append(items.head.as_str());
    out.append(after);
    let ghost first = out@;
    push_wrapped(out, &items.tail, before, after);
    proof {
        let t = items.tail@.map_values(|s: String| s@);
        lemma_wrapped_concat(seq![items.head@], t, before@, after@);
        assert(wrapped(seq![items.head@], before@, after@) =~= before@ + items.head@ + after@) by {
            assert(seq![items.head@].drop_last() =~= Seq::<Seq<char>>::empty());
            assert(wrapped(Seq::<Seq<char>>::empty(), before@, after@) =~= Seq::<char>::empty());
        }
        assert(nonempty_view(*items) == seq![items.head@] + t);
    }
}

pub proof fn lemma_wrapped_concat(
    a: Seq<Seq<char>>,
    b: Seq<Seq<char>>,
    before: Seq<char>,
    after: Seq<char>,
)
    ensures
        wrapped(a + b, before, after) == wrapped(a, before, after) + wrapped(b, before, after),
    decreases b.len(),
{
    if b.len() == 0 {
        assert(a + b =~= a);
    } else {
        assert((a + b).drop_last() =~= a + b.drop_last());
        lemma_wrapped_concat(a, b.drop_last(), before, after);
    }
}

impl Record {
    /// The directive as a line of dnsmasq configuration.
    pub fn render(&self) -> (r: String)
        ensures
            r@ == record_text(self@),
    {
        match self {
            Record::Address { domains, ip } => {
                let mut out = String::from_str("address=");
                push_wrapped_nonempty(&mut out, domains, "/", "");
                out.append("/");
                out.append(ip.as_str());
                out
            },
            Record::Cname { cnames, target, ttl } => {
                let mut out = String::from_str("cname=");
                push_wrapped_nonempty(&mut out, cnames, "", ",");
                out.append(target.as_str());
                match ttl {
                    Some(t) => {
                        out.append(",");
                        push_decimal(&mut out, *t);
                    },
                    None => {},
                }
                out
            },
            Record::TxtRecord { name, texts } => {
                let mut out = String::from_str("txt-record=");
                out.append(name.as_str());
                match texts {
                    Some(t) => push_wrapped(&mut out, t, ",\"", "\""),
                    None => {},
                }
                out
            },
            Record::PtrRecord { name, target } => {
                let mut out = String::from_str("ptr-record=");
                out.append(name.as_str());
                match target {
                    Some(t) => {
                        out.append(",");
                        out.append(t.as_str());
                    },
                    None => {},
                }
                out
            },
        }
    }
}

/// The settings of the dnsmasq backend.
#[derive(Debug, Clone)]
pub struct DnsmasqConfig {
    /// The domain the provider claims.
    pub domain_name: String,
    /// Where set, every A and AAAA name resolves to this address.
    pub override_ip: Option<String>,
    /// Where set, every CNAME name points at this host.
    pub override_host: Option<String>,
}

impl DnsmasqConfig {
    /// The provider's domain filter: its domain and nothing else.
    pub fn domain_filter(&self) -> (r: DomainFilter)
        ensures
            r matches DomainFilter::Strings { included: Some(i), excluded: None } && i@.len() == 1
                && i@[0]@ == self.domain_name@,
    {
        let mut v: Vec<String> = Vec::new();
        v.push(self.domain_name.clone());
        DomainFilter::Strings { included: Some(v), excluded: None }
    }
}

/// The two kinds of directive that gather several names.
#[derive(Debug, Clone, Copy, PartialEq, Eq, Structural)]
pub enum GroupKind {
    /// `address=`, from A and AAAA records.
    Address,
    /// `cname=`, from CNAME records.
    Cname,
}

pub open spec fn of_kind(t: Option<RecordType>, kind: GroupKind) -> bool {
    match kind {
        GroupKind::Address => t == Some(RecordType::A) || t == Some(RecordType::AAAA),
        GroupKind::Cname => t == Some(RecordType::CNAME),
    }
}

/// One name that goes into a grouped directive, with the key it is
/// grouped by, and the position of the endpoint it comes from.
pub struct Member {
    pub index: usize,
    pub name: String,
    pub target: Option<String>,
    pub ttl: Option<u32>,
}

pub struct MemberView {
    pub index: int,
    pub name: Seq<char>,
    pub target: Option<Seq<char>>,
    pub ttl: Option<u32>,
}

impl View for Member {
    type V = MemberView;

    open spec fn view(&self) -> MemberView {
        MemberView {
            index: self.index as int,
            name: self.name@,
            target: opt_str_view(self.target),
            ttl: self.ttl,
        }
    }
}

pub open spec fn member_key(m: MemberView) -> (Option<Seq<char>>, Option<u32>) {
    (m.target, m.ttl)
}

/// The members that the endpoint `e` at position `i` gives: none unless it
/// is of the kind and named; where `collapse`, its name once, under no
/// target; else its name once for each target.
pub open spec fn endpoint_members(i: int, e: Endpoint, kind: GroupKind, collapse: bool) -> Seq<
    MemberView,
> {
    let ttl = if kind == GroupKind::Cname {
        e.record_ttl
    } else {
        None
    };
    if of_kind(e.record_type, kind) && e.dns_name is Some {
        if collapse {
            seq![MemberView { index: i, name: e.dns_name->0@, target: None, ttl }]
        } else if e.targets is Some {
            e.targets->0@.map_values(
                |t: String| MemberView { index: i, name: e.dns_name->0@, target: Some(t@), ttl },
            )
        } else {
            Seq::empty()
        }
    } else {
        Seq::empty()
    }
}

pub open spec fn members_of(s: Seq<Endpoint>, kind: GroupKind, collapse: bool) -> Seq<MemberView>
    decreases s.len(),
{
    if s.len() == 0 {
        Seq::empty()
    } else {
        members_of(s.drop_last(), kind, collapse) + endpoint_members(
            s.len() - 1,
            s.last(),
            kind,
            collapse,
        )
    }
}

pub open spec fn has_key(f: Seq<MemberView>, k: (Option<Seq<char>>, Option<u32>)) -> bool {
    exists|i: int| 0 <= i < f.len() && member_key(#[trigger] f[i]) == k
}

/// The first member of each key, in the order the keys first appear.
pub open spec fn firsts(ms: Seq<MemberView>) -> Seq<MemberView>
    decreases ms.len(),
{
    if ms.len() == 0 {
        Seq::empty()
    } else {
        let f = firsts(ms.drop_last());
        if has_key(f, member_key(ms.last())) {
            f
        } else {
            f.push(ms.last())
        }
    }
}

/// The names of the members with key `k`, in order.
pub open spec fn names_with_key(ms: Seq<MemberView>, k: (Option<Seq<char>>, Option<u32>)) -> Seq<
    Seq<char>,
>
    decreases ms.len(),
{
    if ms.len() == 0 {
        Seq::empty()
    } else {
        let rest = names_with_key(ms.drop_last(), k);
        if member_key(ms.last()) == k {
            rest.push(ms.last().name)
        } else {
            rest
        }
    }
}

/// A grouped directive: the names of one key, and the first endpoint they
/// come from.
pub struct GroupView {
    pub owner: int,
    pub target: Option<Seq<char>>,
    pub ttl: Option<u32>,
    pub names: Seq<Seq<char>>,
}

pub open spec fn groups_of(ms: Seq<MemberView>) -> Seq<GroupView> {
    firsts(ms).map_values(
        |f: MemberView|
            GroupView {
                owner: f.index,
                target: f.target,
                ttl: f.ttl,
                names: names_with_key(ms, member_key(f)),
            },
    )
}

pub open spec fn member_views(v: Seq<Member>) -> Seq<MemberView> {
    v.map_values(|m: Member| m@)
}

fn is_of_kind(t: Option<RecordType>, kind: GroupKind) -> (r: bool)
    ensures
        r == of_kind(t, kind),
{
    match kind {
        GroupKind::Address => match t {
            Some(RecordType::A) => true,
            Some(RecordType::AAAA) => true,
            _ => false,
        },
        GroupKind::Cname => match t {
            Some(RecordType::CNAME) => true,
            _ => false,
        },
    }
}

fn clone_opt(s: &Option<String>) -> (r: Option<String>)
    ensures
        opt_str_view(r) == opt_str_view(*s),
{
    match s {
        Some(x) => Some(x.clone()),
        None => None,
    }
}

/// Appends the members that the endpoint `e` at position `i` gives.
fn push_endpoint_members(
    out: &mut Vec<Member>,
    i: usize,
    e: &Endpoint,
    kind: GroupKind,
    collapse: bool,
)
    ensures
        member_views(final(out)@) == member_views(old(out)@) + endpoint_members(
            i as int,
            *e,
            kind,
            collapse,
        ),
{
    let ghost start = member_views(out@);
    let ttl = if kind == GroupKind::Cname {
        e.record_ttl
    } else {
        None
    };
    if !is_of_kind(e.record_type, kind) {
        assert(member_views(out@) =~= start + endpoint_members(i as int, *e, kind, collapse));
        return ;
    }
    let name = match &e.dns_name {
        Some(n) => n,
        None => {
            assert(member_views(out@) =~= start + endpoint_members(i as int, *e, kind, collapse));
            return ;
        },
    };
    if collapse {
        out.push(Member { index: i, name: name.clone(), target: None, ttl });
        assert(member_views(out@) =~= start + endpoint_members(i as int, *e, kind, collapse));
        return ;
    }
    let targets = match &e.targets {
        Some(t) => t,
        None => {
            assert(member_views(out@) =~= start + endpoint_members(i as int, *e, kind, collapse));
            return ;
        },
    };
    let ghost all = endpoint_members(i as int, *e, kind, collapse);
    let mut k: usize = 0;
    while k < targets.len()
        invariant
            k <= targets.len(),
            all.len() == targets.len(),
            forall|j: int|
                0 <= j < targets.len() ==> #[trigger] all[j] == (MemberView {
                    index: i as int,
                    name: name@,
                    target: Some(targets@[j]@),
                    ttl,
                }),
            member_views(out@) == start + all.take(k as int),
        decreases targets.len() - k,
    {
        let ghost prev = out@;
        out.push(Member { index: i, name: name.clone(), target: Some(targets[k].clone()), ttl });
        proof {
            assert(out@ =~= prev.push(out@.last()));
            assert(member_views(out@) =~= member_views(prev).push(all[k as int]));
            assert(all.take(k + 1) =~= all.take(k as int).push(all[k as int]));
            assert(member_views(out@) =~= start + all.take(k + 1));
        }
        k = k + 1;
    }
    proof {
        assert(all.take(targets.len() as int) =~= all);
    }
}

/// The members that the endpoints give, in order.
pub fn collect_members(endpoints: &Vec<Endpoint>, kind: GroupKind, collapse: bool) -> (r: Vec<
    Member,
>)
    ensures
        member_views(r@) == members_of(endpoints@, kind, collapse),
{
    let mut out: Vec<Member> = Vec::new();
    let mut i: usize = 0;
    while i < endpoints.len()
        invariant
            i <= endpoints.len(),
            member_views(out@) == members_of(endpoints@.take(i as int), kind, collapse),
        decreases endpoints.len() - i,
    {
        push_endpoint_members(&mut out, i, &endpoints[i], kind, collapse);
        proof {
            assert(endpoints@.take(i + 1).drop_last() =~= endpoints@.take(i as int));
        }
        i = i + 1;
    }
    proof {
        assert(endpoints@.take(endpoints.len() as int) =~= endpoints@);
    }
    out
}

/// A grouped directive before it becomes a record.
pub struct Group {
    pub owner: usize,
    pub target: Option<String>,
    pub ttl: Option<u32>,
    pub names: Vec<String>,
}

impl View for Group {
    type V = GroupView;

    open spec fn view(&self) -> GroupView {
        GroupView {
            owner: self.owner as int,
            target: opt_str_view(self.target),
            ttl: self.ttl,
            names: self.names@.map_values(|s: String| s@),
        }
    }
}

pub open spec fn group_views(v: Seq<Group>) -> Seq<GroupView> {
    v.map_values(|g: Group| g@)
}

fn same_key(a: &Member, b: &Member) -> (r: bool)
    ensures
        r == (member_key(a@) == member_key(b@)),
{
    opt_str_eq(&a.target, &b.target) && a.ttl == b.ttl
}

fn find_key(heads: &Vec<Member>, m: &Member) -> (r: bool)
    ensures
        r == has_key(member_views(heads@), member_key(m@)),
{
    let mut i: usize = 0;
    while i < heads.len()
        invariant
            i <= heads.len(),
            forall|j: int| 0 <= j < i ==> member_key(#[trigger] heads@[j]@) != member_key(m@),
        decreases heads.len() - i,
    {
        if same_key(&heads[i], m) {
            assert(member_key(member_views(heads@)[i as int]) == member_key(m@));
            return true;
        }
        i = i + 1;
    }
    assert forall|j: int| 0 <= j < heads@.len() implies member_key(
        #[trigger] member_views(heads@)[j],
    ) != member_key(m@) by {
        assert(member_views(heads@)[j] == heads@[j]@);
    }
    false
}

fn clone_member(m: &Member) -> (r: Member)
    ensures
        r@ == m@,
{
    Member { index: m.index, name: m.name.clone(), target: clone_opt(&m.target), ttl: m.ttl }
}

/// The names of the members with the key of `head`, in order.
fn names_for(ms: &Vec<Member>, head: &Member) -> (r: Vec<String>)
    ensures
        r@.map_values(|s: String| s@) == names_with_key(member_views(ms@), member_key(head@)),
{
    let ghost k = member_key(head@);
    let mut out: Vec<String> = Vec::new();
    let mut i: usize = 0;
    while i < ms.len()
        invariant
            i <= ms.len(),
            k == member_key(head@),
            out@.map_values(|s: String| s@) == names_with_key(member_views(ms@.take(i as int)), k),
        decreases ms.len() - i,
    {
        proof {
            assert(member_views(ms@.take(i + 1)).drop_last() =~= member_views(ms@.take(i as int)));
            assert(member_views(ms@.take(i + 1)).last() == ms@[i as int]@);
        }
        let ghost prev = out@;
        let ghost x = member_views(ms@.take(i + 1));
        proof {
            assert(x.len() == i + 1);
            assert(x.last() == ms@[i as int]@);
            assert(names_with_key(x, k) == if member_key(x.last()) == k {
                names_with_key(x.drop_last(), k).push(x.last().name)
            } else {
                names_with_key(x.drop_last(), k)
            });
        }
        if same_key(&ms[i], head) {
            out.push(ms[i].name.clone());
            proof {
                assert(out@.map_values(|s: String| s@) =~= prev.map_values(|s: String| s@).push(
                    ms@[i as int].name@,
                ));
            }
        }
        proof {
            assert(out@.map_values(|s: String| s@) =~= names_with_key(x, k));
        }
        i = i + 1;
    }
    proof {
        assert(ms@.take(ms.len() as int) =~= ms@);
    }
    out
}

/// Gathers the members by key, in the order the keys first appear.
pub fn group_members(ms: &Vec<Member>) -> (r: Vec<Group>)
    ensures
        group_views(r@) == groups_of(member_views(ms@)),
{
    let mut heads: Vec<Member> = Vec::new();
    let mut i: usize = 0;
    while i < ms.len()
        invariant
            i <= ms.len(),
            member_views(heads@) == firsts(member_views(ms@.take(i as int))),
        decreases ms.len() - i,
    {
        proof {
            assert(member_views(ms@.take(i + 1)).drop_last() =~= member_views(ms@.take(i as int)));
            assert(member_views(ms@.take(i + 1)).last() == ms@[i as int]@);
        }
        if !find_key(&heads, &ms[i]) {
            heads.push(clone_member(&ms[i]));
            proof {
                assert(member_views(heads@) =~= firsts(member_views(ms@.take(i as int))).push(
                    ms@[i as int]@,
                ));
            }
        }
        i = i + 1;
    }
    proof {
        assert(ms@.take(ms.len() as int) =~= ms@);
    }
    let ghost all = member_views(ms@);
    let mut out: Vec<Group> = Vec::new();
    let mut j: usize = 0;
    while j < heads.len()
        invariant
            j <= heads.len(),
            all == member_views(ms@),
            member_views(heads@) == firsts(all),
            group_views(out@) == groups_of(all).take(j as int),
        decreases heads.len() - j,
    {
        let names = names_for(ms, &heads[j]);
        let h = &heads[j];
        let ghost prev = out@;
        out.push(Group { owner: h.index, target: clone_opt(&h.target), ttl: h.ttl, names });
        proof {
            assert(member_views(heads@)[j as int] == heads@[j as int]@);
            assert(out@ =~= prev.push(out@.last()));
            assert(group_views(out@) =~= group_views(prev).push(out@.last()@));
            assert(out@.last()@ == groups_of(all)[j as int]);
            assert(groups_of(all).take(j + 1) =~= groups_of(all).take(j as int).push(
                groups_of(all)[j as int],
            ));
            assert(group_views(out@) =~= groups_of(all).take(j + 1));
        }
        j = j + 1;
    }
    proof {
        assert(groups_of(all).take(heads.len() as int) =~= groups_of(all));
    }
    out
}

proof fn lemma_names_present(ms: Seq<MemberView>, j: int)
    requires
        0 <= j < ms.len(),
    ensures
        names_with_key(ms, member_key(ms[j])).len() > 0,
    decreases ms.len(),
{
    if j < ms.len() - 1 {
        lemma_names_present(ms.drop_last(), j);
    }
}

proof fn lemma_firsts_from(ms: Seq<MemberView>)
    ensures
        forall|i: int|
            0 <= i < firsts(ms).len() ==> exists|j: int|
                0 <= j < ms.len() && ms[j] == #[trigger] firsts(ms)[i],
    decreases ms.len(),
{
    if ms.len() > 0 {
        lemma_firsts_from(ms.drop_last());
        let f = firsts(ms.drop_last());
        assert forall|i: int| 0 <= i < firsts(ms).len() implies exists|j: int|
            0 <= j < ms.len() && ms[j] == #[trigger] firsts(ms)[i] by {
            if i < f.len() {
                let j = choose|j: int| 0 <= j < ms.drop_last().len() && ms.drop_last()[j] == f[i];
                assert(ms[j] == firsts(ms)[i]);
            } else {
                assert(ms[ms.len() - 1] == firsts(ms)[i]);
            }
        }
    }
}

/// Every group has a name.
proof fn lemma_groups_named(ms: Seq<MemberView>)
    ensures
        forall|i: int| 0 <= i < groups_of(ms).len() ==> #[trigger] groups_of(ms)[i].names.len() > 0,
{
    lemma_firsts_from(ms);
    assert forall|i: int| 0 <= i < groups_of(ms).len() implies #[trigger] groups_of(
        ms,
    )[i].names.len() > 0 by {
        let j = choose|j: int| 0 <= j < ms.len() && ms[j] == #[trigger] firsts(ms)[i];
        lemma_names_present(ms, j);
    }
}

/// A directive, and the position of the first endpoint it comes from.
pub struct Directive {
    pub owner: usize,
    pub record: Record,
}

pub struct DirectiveView {
    pub owner: int,
    pub record: RecordView,
}

impl View for Directive {
    type V = DirectiveView;

    open spec fn view(&self) -> DirectiveView {
        DirectiveView { owner: self.owner as int, record: self.record@ }
    }
}

pub open spec fn directive_views(v: Seq<Directive>) -> Seq<DirectiveView> {
    v.map_values(|d: Directive| d@)
}

/// The target of a grouped directive: the override where one is set.
pub open spec fn group_target(g: GroupView, over: Option<Seq<char>>) -> Seq<char> {
    match over {
        Some(o) => o,
        None => match g.target {
            Some(t) => t,
            None => Seq::empty(),
        },
    }
}

pub open spec fn group_record(g: GroupView, kind: GroupKind, over: Option<Seq<char>>) -> RecordView {
    match kind {
        GroupKind::Address => RecordView::Address {
            domains: g.names,
            ip: group_target(g, over),
        },
        GroupKind::Cname => RecordView::Cname {
            cnames: g.names,
            target: group_target(g, over),
            ttl: g.ttl,
        },
    }
}

/// The `address=` or `cname=` directives of `s`: one for each key, where
/// A and AAAA names are keyed by target (or all under one key, where the
/// address is overridden), and CNAME names by target and TTL (or by TTL
/// alone, where the host is overridden).
pub open spec fn grouped_directives(s: Seq<Endpoint>, kind: GroupKind, over: Option<Seq<char>>) -> Seq<
    DirectiveView,
> {
    groups_of(members_of(s, kind, over is Some)).map_values(
        |g: GroupView| DirectiveView { owner: g.owner, record: group_record(g, kind, over) },
    )
}

/// The `txt-record=` directive of the endpoint `e` at position `i`.
pub open spec fn txt_directive(i: int, e: Endpoint) -> Seq<DirectiveView> {
    if e.record_type == Some(RecordType::TXT) && e.dns_name is Some {
        seq![
            DirectiveView {
                owner: i,
                record: RecordView::TxtRecord {
                    name: e.dns_name->0@,
                    texts: opt_strs_view(e.targets),
                },
            },
        ]
    } else {
        Seq::empty()
    }
}

/// The `ptr-record=` directive of the endpoint `e` at position `i`: its
/// first target only; none without a target.
pub open spec fn ptr_directive(i: int, e: Endpoint) -> Seq<DirectiveView> {
    if e.record_type == Some(RecordType::PTR) && e.dns_name is Some && e.targets is Some
        && e.targets->0@.len() > 0 {
        seq![
            DirectiveView {
                owner: i,
                record: RecordView::PtrRecord {
                    name: e.dns_name->0@,
                    target: Some(e.targets->0@[0]@),
                },
            },
        ]
    } else {
        Seq::empty()
    }
}

pub open spec fn single_directives(s: Seq<Endpoint>) -> Seq<DirectiveView>
    decreases s.len(),
{
    if s.len() == 0 {
        Seq::empty()
    } else {
        single_directives(s.drop_last()) + txt_directive(s.len() - 1, s.last()) + ptr_directive(
            s.len() - 1,
            s.last(),
        )
    }
}

/// The dnsmasq projection of a record set: the grouped `address=` and
/// `cname=` directives, then one `txt-record=` or `ptr-record=` directive
/// for each TXT or PTR record. Other record types have none.
pub open spec fn projection(
    s: Seq<Endpoint>,
    override_ip: Option<Seq<char>>,
    override_host: Option<Seq<char>>,
) -> Seq<DirectiveView> {
    grouped_directives(s, GroupKind::Address, override_ip) + grouped_directives(
        s,
        GroupKind::Cname,
        override_host,
    ) + single_directives(s)
}

fn project_groups(endpoints: &Vec<Endpoint>, kind: GroupKind, over: &Option<String>) -> (r: Vec<
    Directive,
>)
    ensures
        directive_views(r@) == grouped_directives(endpoints@, kind, opt_str_view(*over)),
{
    let ms = collect_members(endpoints, kind, over.is_some());
    let groups = group_members(&ms);
    let ghost all = groups_of(member_views(ms@));
    let ghost want = grouped_directives(endpoints@, kind, opt_str_view(*over));
    proof {
        lemma_groups_named(member_views(ms@));
    }
    let mut out: Vec<Directive> = Vec::new();
    for g in it: groups.into_iter()
        invariant
            group_views(it.seq()) == all,
            all == groups_of(member_views(ms@)),
            want == all.map_values(
                |g: GroupView|
                    DirectiveView {
                        owner: g.owner,
                        record: group_record(g, kind, opt_str_view(*over)),
                    },
            ),
            forall|i: int| 0 <= i < all.len() ==> #[trigger] all[i].names.len() > 0,
            directive_views(out@) == want.take(it.index() as int),
    {
        let ghost gv = g@;
        proof {
            assert(gv == all[it.index() as int]);
        }
        let Group { owner, target, ttl, names } = g;
        assert(names@.len() == gv.names.len());
        let tgt = match over {
            Some(o) => o.clone(),
            None => match target {
                Some(t) => t,
                None => String::new(),
            },
        };
        match nonempty::NonEmpty::from_vec(names) {
            Some(n) => {
                let record = match kind {
                    GroupKind::Address => Record::Address { domains: n, ip: tgt },
                    GroupKind::Cname => Record::Cname { cnames: n, target: tgt, ttl },
                };
                let ghost prev = out@;
                out.push(Directive { owner, record });
                proof {
                    assert(nonempty_view(n) =~= gv.names);
                    assert(directive_views(out@) =~= directive_views(prev).push(want[it.index() as int]));
                    assert(want.take(it.index() + 1) =~= want.take(it.index() as int).push(
                        want[it.index() as int],
                    ));
                }
            },
            None => {},
        }
    }
    proof {
        assert(want.take(want.len() as int) =~= want);
    }
    out
}

fn clone_strs(v: &Vec<String>) -> (r: Vec<String>)
    ensures
        r@.map_values(|s: String| s@) == v@.map_values(|s: String| s@),
{
    let mut out: Vec<String> = Vec::new();
    let mut i: usize = 0;
    while i < v.len()
        invariant
            i <= v.len(),
            out@.map_values(|s: String| s@) == v@.take(i as int).map_values(|s: String| s@),
        decreases v.len() - i,
    {
        let ghost prev = out@;
        out.push(v[i].clone());
        proof {
            assert(out@.map_values(|s: String| s@) =~= prev.map_values(|s: String| s@).push(
                v@[i as int]@,
            ));
            assert(v@.take(i + 1) =~= v@.take(i as int).push(v@[i as int]));
            assert(out@.map_values(|s: String| s@) =~= v@.take(i + 1).map_values(|s: String| s@));
        }
        i = i + 1;
    }
    proof {
        assert(v@.take(v.len() as int) =~= v@);
    }
    out
}

/// Appends the `txt-record=` and `ptr-record=` directives of the endpoint
/// `e` at position `i`.
fn push_single_directives(out: &mut Vec<Directive>, i: usize, e: &Endpoint)
    ensures
        directive_views(final(out)@) == directive_views(old(out)@) + txt_directive(i as int, *e)
            + ptr_directive(i as int, *e),
{
    let ghost start = directive_views(out@);
    let name = match &e.dns_name {
        Some(n) => n,
        None => {
            assert(directive_views(out@) =~= start + txt_directive(i as int, *e) + ptr_directive(
                i as int,
                *e,
            ));
            return ;
        },
    };
    match e.record_type {
        Some(RecordType::TXT) => {
            let texts = match &e.targets {
                Some(t) => Some(clone_strs(t)),
                None => None,
            };
            out.push(
                Directive { owner: i, record: Record::TxtRecord { name: name.clone(), texts } },
            );
        },
        Some(RecordType::PTR) => {
            match &e.targets {
                Some(t) => {
                    if t.len() > 0 {
                        out.push(
                            Directive {
                                owner: i,
                                record: Record::PtrRecord {
                                    name: name.clone(),
                                    target: Some(t[0].clone()),
                                },
                            },
                        );
                    }
                },
                None => {},
            }
        },
        _ => {},
    }
    assert(directive_views(out@) =~= start + txt_directive(i as int, *e) + ptr_directive(
        i as int,
        *e,
    ));
}

fn project_singles(endpoints: &Vec<Endpoint>) -> (r: Vec<Directive>)
    ensures
        directive_views(r@) == single_directives(endpoints@),
{
    let mut out: Vec<Directive> = Vec::new();
    let mut i: usize = 0;
    while i < endpoints.len()
        invariant
            i <= endpoints.len(),
            directive_views(out@) == single_directives(endpoints@.take(i as int)),
        decreases endpoints.len() - i,
    {
        push_single_directives(&mut out, i, &endpoints[i]);
        proof {
            assert(endpoints@.take(i + 1).drop_last() =~= endpoints@.take(i as int));
        }
        i = i + 1;
    }
    proof {
        assert(endpoints@.take(endpoints.len() as int) =~= endpoints@);
    }
    out
}

impl DnsmasqConfig {
    /// The dnsmasq directives for a record set.
    pub fn project(&self, endpoints: &Vec<Endpoint>) -> (r: Vec<Directive>)
        ensures
            directive_views(r@) == projection(
                endpoints@,
                opt_str_view(self.override_ip),
                opt_str_view(self.override_host),
            ),
    {
        let mut out = project_groups(endpoints, GroupKind::Address, &self.override_ip);
        let mut cnames = project_groups(endpoints, GroupKind::Cname, &self.override_host);
        let mut singles = project_singles(endpoints);
        let ghost a = out@;
        let ghost b = cnames@;
        let ghost c = singles@;
        out.append(&mut cnames);
        out.append(&mut singles);
        assert(directive_views(out@) =~= directive_views(a) + directive_views(b) + directive_views(
            c,
        ));
        out
    }
}

/// Why a configuration could not be written or read.
#[derive(Debug, Clone, Copy, PartialEq, Eq, Structural)]
pub enum ConfigError {
    /// There is not one encoding for each endpoint.
    EncodingCount,
    /// An encoding spans more than one line.
    MultilineEncoding,
    /// A block holds no encoding.
    MissingEncoding,
}

pub open spec fn has_newline(s: Seq<char>) -> bool {
    s.contains('\n')
}

/// The comment line that holds an encoding.
pub open spec fn encoding_line(enc: Seq<char>) -> Seq<char> {
    seq!['#', ' '] + enc
}

pub open spec fn is_encoding_line(l: Seq<char>) -> bool {
    l.len() >= 2 && l[0] == '#' && l[1] == ' '
}

/// The texts of the directives that the endpoint at position `i` is the
/// first source of, leaving out those that would span several lines.
pub open spec fn owned_texts(dirs: Seq<DirectiveView>, i: int) -> Seq<Seq<char>>
    decreases dirs.len(),
{
    if dirs.len() == 0 {
        Seq::empty()
    } else {
        let rest = owned_texts(dirs.drop_last(), i);
        let d = dirs.last();
        if d.owner == i && !has_newline(record_text(d.record)) {
            rest.push(record_text(d.record))
        } else {
            rest
        }
    }
}

/// The block of one endpoint: its encoding, its directives, a blank line.
pub open spec fn block_lines(enc: Seq<char>, texts: Seq<Seq<char>>) -> Seq<Seq<char>> {
    seq![encoding_line(enc)] + texts + seq![Seq::empty()]
}

pub open spec fn config_lines(encs: Seq<Seq<char>>, dirs: Seq<DirectiveView>) -> Seq<Seq<char>>
    decreases encs.len(),
{
    if encs.len() == 0 {
        Seq::empty()
    } else {
        config_lines(encs.drop_last(), dirs) + block_lines(
            encs.last(),
            owned_texts(dirs, encs.len() - 1),
        )
    }
}

/// The configuration text: each line ended by a newline.
pub open spec fn config_text(encs: Seq<Seq<char>>, dirs: Seq<DirectiveView>) -> Seq<char> {
    wrapped(config_lines(encs, dirs), Seq::empty(), seq!['\n'])
}

pub open spec fn str_views(v: Seq<String>) -> Seq<Seq<char>> {
    v.map_values(|s: String| s@)
}

/// Whether `s` holds a line break.
pub fn contains_newline(s: &str) -> (r: bool)
    ensures
        r == has_newline(s@),
{
    let c = chars_of(s);
    let mut i: usize = 0;
    while i < c.len()
        invariant
            c@ == s@,
            i <= c.len(),
            forall|k: int| 0 <= k < i ==> c@[k] != '\n',
        decreases c.len() - i,
    {
        if c[i] == '\n' {
            assert(c@[i as int] == '\n');
            return true;
        }
        i = i + 1;
    }
    false
}

/// Lays out a record set: for each endpoint, its encoding and the
/// directives it is the first source of, as one block.
pub fn render_config(encodings: &Vec<String>, directives: &Vec<Directive>) -> (r: Result<
    String,
    ConfigError,
>)
    ensures
        r is Ok <==> forall|i: int| 0 <= i < encodings@.len() ==> !has_newline(#[trigger] encodings@[i]@),
        r matches Ok(t) ==> t@ == config_text(str_views(encodings@), directive_views(directives@)),
        r matches Err(e) ==> e == ConfigError::MultilineEncoding,
{
    let ghost encs = str_views(encodings@);
    let ghost dirs = directive_views(directives@);
    let mut i: usize = 0;
    while i < encodings.len()
        invariant
            i <= encodings.len(),
            forall|k: int| 0 <= k < i ==> !has_newline(#[trigger] encodings@[k]@),
        decreases encodings.len() - i,
    {
        if contains_newline(encodings[i].as_str()) {
            return Err(ConfigError::MultilineEncoding);
        }
        i = i + 1;
    }
    let mut texts: Vec<String> = Vec::new();
    let mut fits: Vec<bool> = Vec::new();
    let mut j: usize = 0;
    while j < directives.len()
        invariant
            j <= directives.len(),
            texts.len() == j,
            fits.len() == j,
            forall|k: int|
                0 <= k < j ==> #[trigger] texts@[k]@ == record_text(directives@[k].record@),
            forall|k: int|
                0 <= k < j ==> #[trigger] fits@[k] == !has_newline(record_text(directives@[k].record@)),
        decreases directives.len() - j,
    {
        let t = directives[j].record.render();
        fits.push(!contains_newline(t.as_str()));
        texts.push(t);
        j = j + 1;
    }
    let mut out = String::new();
    let mut i: usize = 0;
    while i < encodings.len()
        invariant
            i <= encodings.len(),
            encs == str_views(encodings@),
            dirs == directive_views(directives@),
            texts.len() == directives.len(),
            fits.len() == directives.len(),
            forall|k: int|
                0 <= k < directives.len() ==> #[trigger] texts@[k]@ == record_text(directives@[k].record@),
            forall|k: int|
                0 <= k < directives.len() ==> #[trigger] fits@[k] == !has_newline(record_text(directives@[k].record@)),
            out@ == config_text(encs.take(i as int), dirs),
        decreases encodings.len() - i,
    {
        let ghost before = out@;
        out.append("# ");
        out.append(encodings[i].as_str());
        out.append("\n");
        let ghost head = out@;
        let mut j: usize = 0;
        while j < directives.len()
            invariant
                j <= directives.len(),
                i < encodings.len(),
                dirs == directive_views(directives@),
                texts.len() == directives.len(),
                fits.len() == directives.len(),
                forall|k: int|
                    0 <= k < directives.len() ==> #[trigger] texts@[k]@ == record_text(directives@[k].record@),
                forall|k: int|
                    0 <= k < directives.len() ==> #[trigger] fits@[k] == !has_newline(record_text(directives@[k].record@)),
                out@ == head + wrapped(owned_texts(dirs.take(j as int), i as int), Seq::empty(), seq!['\n']),
            decreases directives.len() - j,
        {
            proof {
                assert(dirs.take(j + 1).drop_last() =~= dirs.take(j as int));
                assert(dirs.take(j + 1).last() == directives@[j as int]@);
            }
            if directives[j].owner == i && fits[j] {
                out.append(texts[j].as_str());
                out.append("\n");
                proof {
                    reveal_strlit("\n");
                    let o = owned_texts(dirs.take(j as int), i as int);
                    assert(owned_texts(dirs.take(j + 1), i as int) == o.push(texts@[j as int]@));
                    assert(o.push(texts@[j as int]@).drop_last() =~= o);
                    assert(out@ =~= head + wrapped(o.push(texts@[j as int]@), Seq::empty(), seq!['\n']));
                }
            }
            j = j + 1;
        }
        out.append("\n");
        proof {
            reveal_strlit("# ");
            reveal_strlit("\n");
            assert(dirs.take(directives.len() as int) =~= dirs);
            let owned = owned_texts(dirs, i as int);
            let prev = config_lines(encs.take(i as int), dirs);
            assert(encs.take(i + 1).drop_last() =~= encs.take(i as int));
            assert(config_lines(encs.take(i + 1), dirs) == prev + block_lines(encs[i as int], owned));
            lemma_wrapped_concat(prev, block_lines(encs[i as int], owned), Seq::empty(), seq!['\n']);
            lemma_wrapped_concat(seq![encoding_line(encs[i as int])] + owned, seq![Seq::<char>::empty()], Seq::empty(), seq!['\n']);
            lemma_wrapped_concat(seq![encoding_line(encs[i as int])], owned, Seq::empty(), seq!['\n']);
            assert(seq![encoding_line(encs[i as int])].drop_last() =~= Seq::<Seq<char>>::empty());
            assert(seq![Seq::<char>::empty()].drop_last() =~= Seq::<Seq<char>>::empty());
            assert(wrapped(Seq::<Seq<char>>::empty(), Seq::<char>::empty(), seq!['\n']) =~= Seq::<char>::empty());
            assert(out@ =~= config_text(encs.take(i + 1), dirs));
        }
        i = i + 1;
    }
    proof {
        assert(encs.take(encodings.len() as int) =~= encs);
    }
    Ok(out)
}

/// The lines of `s`, split at each line break; a text ending in a line
/// break ends with an empty line.
pub open spec fn split_lines(s: Seq<char>) -> Seq<Seq<char>>
    decreases s.len(),
{
    if s.len() == 0 {
        seq![Seq::empty()]
    } else {
        let prev = split_lines(s.drop_last());
        if s.last() == '\n' {
            prev.push(Seq::empty())
        } else {
            prev.update(prev.len() - 1, prev.last().push(s.last()))
        }
    }
}

proof fn lemma_split_nonempty(s: Seq<char>)
    ensures
        split_lines(s).len() > 0,
    decreases s.len(),
{
    if s.len() > 0 {
        lemma_split_nonempty(s.drop_last());
    }
}

/// Where a reader stands after some lines: the encodings found, whether a
/// block is open and has an encoding, and whether a block lacked one.
pub struct ParseState {
    pub encodings: Seq<Seq<char>>,
    pub in_block: bool,
    pub has_encoding: bool,
    pub failed: bool,
}

pub open spec fn start_state() -> ParseState {
    ParseState { encodings: Seq::empty(), in_block: false, has_encoding: false, failed: false }
}

/// Reads one line: a blank line closes the block, which must have held an
/// encoding; a comment line adds an encoding; any other line is a directive.
pub open spec fn step(st: ParseState, l: Seq<char>) -> ParseState {
    if l.len() == 0 {
        ParseState {
            in_block: false,
            has_encoding: false,
            failed: st.failed || (st.in_block && !st.has_encoding),
            ..st
        }
    } else if is_encoding_line(l) {
        ParseState {
            encodings: st.encodings.push(l.subrange(2, l.len() as int)),
            in_block: true,
            has_encoding: true,
            ..st
        }
    } else {
        ParseState { in_block: true, ..st }
    }
}

pub open spec fn fold_lines(st: ParseState, lines: Seq<Seq<char>>) -> ParseState
    decreases lines.len(),
{
    if lines.len() == 0 {
        st
    } else {
        step(fold_lines(st, lines.drop_last()), lines.last())
    }
}

/// The encodings that a configuration text holds, in order; an error where
/// a block holds none.
pub open spec fn parse_result(s: Seq<char>) -> Result<Seq<Seq<char>>, ConfigError> {
    let st = fold_lines(start_state(), split_lines(s));
    if st.failed || (st.in_block && !st.has_encoding) {
        Err(ConfigError::MissingEncoding)
    } else {
        Ok(st.encodings)
    }
}

struct Reader {
    encodings: Vec<String>,
    in_block: bool,
    has_encoding: bool,
    failed: bool,
}

impl View for Reader {
    type V = ParseState;

    closed spec fn view(&self) -> ParseState {
        ParseState {
            encodings: str_views(self.encodings@),
            in_block: self.in_block,
            has_encoding: self.has_encoding,
            failed: self.failed,
        }
    }
}

/// Reads the line of `text` from `start` to `end`.
fn read_line(st: &mut Reader, text: &str, s: &Vec<char>, start: usize, end: usize)
    requires
        s@ == text@,
        start <= end <= s.len(),
    ensures
        final(st)@ == step(old(st)@, s@.subrange(start as int, end as int)),
{
    let ghost l = s@.subrange(start as int, end as int);
    if start == end {
        st.failed = st.failed || (st.in_block && !st.has_encoding);
        st.in_block = false;
        st.has_encoding = false;
    } else if end - start >= 2 && s[start] == '#' && s[start + 1] == ' ' {
        let enc = text.substring_char(start + 2, end).to_owned();
        let ghost prev = st.encodings@;
        st.encodings.push(enc);
        st.in_block = true;
        st.has_encoding = true;
        proof {
            assert(l.subrange(2, l.len() as int) =~= s@.subrange(start + 2, end as int));
            assert(str_views(st.encodings@) =~= str_views(prev).push(l.subrange(2, l.len() as int)));
        }
    } else {
        st.in_block = true;
    }
}

/// Reads the encodings out of a configuration text.
pub fn parse_config(text: &str) -> (r: Result<Vec<String>, ConfigError>)
    ensures
        match r {
            Ok(v) => parse_result(text@) == Ok::<Seq<Seq<char>>, ConfigError>(str_views(v@)),
            Err(e) => parse_result(text@) == Err::<Seq<Seq<char>>, ConfigError>(e),
        },
{
    let s = chars_of(text);
    let mut st = Reader {
        encodings: Vec::new(),
        in_block: false,
        has_encoding: false,
        failed: false,
    };
    proof {
        assert(str_views(st.encodings@) =~= Seq::<Seq<char>>::empty());
    }
    let ghost mut done: Seq<Seq<char>> = Seq::empty();
    let mut start: usize = 0;
    let mut i: usize = 0;
    proof {
        assert(s@.take(0) =~= Seq::<char>::empty());
        assert(s@.subrange(0, 0) =~= Seq::<char>::empty());
        assert(done.push(Seq::<char>::empty()) =~= seq![Seq::<char>::empty()]);
    }
    while i < s.len()
        invariant
            s@ == text@,
            start <= i <= s.len(),
            split_lines(s@.take(i as int)) == done.push(s@.subrange(start as int, i as int)),
            st@ == fold_lines(start_state(), done),
        decreases s.len() - i,
    {
        proof {
            assert(s@.take(i + 1).drop_last() =~= s@.take(i as int));
            assert(s@.take(i + 1).last() == s@[i as int]);
        }
        if s[i] == '\n' {
            read_line(&mut st, text, &s, start, i);
            proof {
                let cur = s@.subrange(start as int, i as int);
                assert(done.push(cur).drop_last() =~= done);
                done = done.push(cur);
                assert(s@.subrange(i + 1, i + 1) =~= Seq::<char>::empty());
            }
            start = i + 1;
        } else {
            proof {
                let cur = s@.subrange(start as int, i as int);
                assert(cur.push(s@[i as int]) =~= s@.subrange(start as int, i + 1));
                assert(done.push(cur).update(done.len() as int, cur.push(s@[i as int])) =~= done.push(
                    s@.subrange(start as int, i + 1),
                ));
            }
        }
        i = i + 1;
    }
    read_line(&mut st, text, &s, start, i);
    proof {
        let cur = s@.subrange(start as int, i as int);
        assert(s@.take(i as int) =~= s@);
        assert(done.push(cur).drop_last() =~= done);
    }
    if st.failed || (st.in_block && !st.has_encoding) {
        Err(ConfigError::MissingEncoding)
    } else {
        Ok(st.encodings)
    }
}

proof fn lemma_split_plain(a: Seq<char>, x: Seq<char>)
    requires
        !has_newline(x),
    ensures
        split_lines(a + x) == split_lines(a).update(
            split_lines(a).len() - 1,
            split_lines(a).last() + x,
        ),
    decreases x.len(),
{
    lemma_split_nonempty(a);
    if x.len() == 0 {
        assert(a + x =~= a);
        assert(split_lines(a).last() + x =~= split_lines(a).last());
        assert(split_lines(a).update(split_lines(a).len() - 1, split_lines(a).last())
            =~= split_lines(a));
    } else {
        let y = x.drop_last();
        assert(!has_newline(y)) by {
            if y.contains('\n') {
                let k = choose|k: int| 0 <= k < y.len() && y[k] == '\n';
                assert(x[k] == '\n');
            }
        }
        assert(x.last() != '\n') by {
            assert(x[x.len() - 1] == x.last());
        }
        lemma_split_plain(a, y);
        assert((a + x).drop_last() =~= a + y);
        assert((a + x).last() == x.last());
        let p = split_lines(a);
        let q = split_lines(a + y);
        assert(q == p.update(p.len() - 1, p.last() + y));
        assert(q.len() == p.len());
        assert(q.last() == p.last() + y);
        assert((p.last() + y).push(x.last()) =~= p.last() + x);
        assert(split_lines(a + x) == q.update(q.len() - 1, q.last().push(x.last())));
        assert(split_lines(a + x) =~= p.update(p.len() - 1, p.last() + x));
    }
}

proof fn lemma_split_wrapped(lines: Seq<Seq<char>>)
    requires
        forall|i: int| 0 <= i < lines.len() ==> !has_newline(#[trigger] lines[i]),
    ensures
        split_lines(wrapped(lines, Seq::empty(), seq!['\n'])) == lines.push(Seq::empty()),
    decreases lines.len(),
{
    if lines.len() == 0 {
        assert(split_lines(Seq::<char>::empty()) =~= seq![Seq::<char>::empty()]);
        assert(lines.push(Seq::empty()) =~= seq![Seq::<char>::empty()]);
    } else {
        let rest = lines.drop_last();
        let l = lines.last();
        assert(!has_newline(l)) by {
            assert(lines[lines.len() - 1] == l);
        }
        assert forall|i: int| 0 <= i < rest.len() implies !has_newline(#[trigger] rest[i]) by {
            assert(rest[i] == lines[i]);
        }
        lemma_split_wrapped(rest);
        let w = wrapped(rest, Seq::empty(), seq!['\n']);
        lemma_split_plain(w, l);
        assert(wrapped(lines, Seq::empty(), seq!['\n']) =~= (w + l).push('\n'));
        assert((w + l).push('\n').drop_last() =~= w + l);
        let p = split_lines(w);
        assert(p.update(p.len() - 1, p.last() + l) =~= lines);
    }
}

proof fn lemma_fold_concat(st: ParseState, a: Seq<Seq<char>>, b: Seq<Seq<char>>)
    ensures
        fold_lines(st, a + b) == fold_lines(fold_lines(st, a), b),
    decreases b.len(),
{
    if b.len() == 0 {
        assert(a + b =~= a);
    } else {
        assert((a + b).drop_last() =~= a + b.drop_last());
        lemma_fold_concat(st, a, b.drop_last());
    }
}

/// A directive line is never blank and never a comment.
proof fn lemma_record_text_shape(r: RecordView)
    ensures
        record_text(r).len() > 0,
        record_text(r)[0] != '#',
{
    reveal_strlit("address=");
    reveal_strlit("cname=");
    reveal_strlit("txt-record=");
    reveal_strlit("ptr-record=");
    match r {
        RecordView::Address { domains, ip } => {
            assert(record_text(r)[0] == "address="@[0]);
        },
        RecordView::Cname { cnames, target, ttl } => {
            assert(record_text(r)[0] == "cname="@[0]);
        },
        RecordView::TxtRecord { name, texts } => {
            assert(record_text(r)[0] == "txt-record="@[0]);
        },
        RecordView::PtrRecord { name, target } => {
            assert(record_text(r)[0] == "ptr-record="@[0]);
        },
    }
}

proof fn lemma_owned_shape(dirs: Seq<DirectiveView>, i: int)
    ensures
        forall|k: int|
            0 <= k < owned_texts(dirs, i).len() ==> {
                let t = #[trigger] owned_texts(dirs, i)[k];
                t.len() > 0 && t[0] != '#' && !has_newline(t)
            },
    decreases dirs.len(),
{
    if dirs.len() > 0 {
        lemma_owned_shape(dirs.drop_last(), i);
        lemma_record_text_shape(dirs.last().record);
        let rest = owned_texts(dirs.drop_last(), i);
        let all = owned_texts(dirs, i);
        assert forall|k: int| 0 <= k < all.len() implies {
            let t = #[trigger] all[k];
            t.len() > 0 && t[0] != '#' && !has_newline(t)
        } by {
            if k < rest.len() {
                assert(all[k] == rest[k]);
            }
        }
    }
}

/// Directive lines leave an open block that has its encoding as it is.
proof fn lemma_fold_directives(st: ParseState, texts: Seq<Seq<char>>)
    requires
        st.in_block && st.has_encoding,
        forall|k: int|
            0 <= k < texts.len() ==> {
                let t = #[trigger] texts[k];
                t.len() > 0 && t[0] != '#'
            },
    ensures
        fold_lines(st, texts) == st,
    decreases texts.len(),
{
    if texts.len() > 0 {
        let rest = texts.drop_last();
        assert forall|k: int| 0 <= k < rest.len() implies {
            let t = #[trigger] rest[k];
            t.len() > 0 && t[0] != '#'
        } by {
            assert(rest[k] == texts[k]);
        }
        lemma_fold_directives(st, rest);
        assert(texts[texts.len() - 1] == texts.last());
    }
}

pub open spec fn settled(encs: Seq<Seq<char>>) -> ParseState {
    ParseState { encodings: encs, in_block: false, has_encoding: false, failed: false }
}

proof fn lemma_fold_config(encs: Seq<Seq<char>>, dirs: Seq<DirectiveView>)
    requires
        forall|i: int| 0 <= i < encs.len() ==> !has_newline(#[trigger] encs[i]),
    ensures
        fold_lines(start_state(), config_lines(encs, dirs)) == settled(encs),
        forall|k: int|
            0 <= k < config_lines(encs, dirs).len() ==> !has_newline(
                #[trigger] config_lines(encs, dirs)[k],
            ),
    decreases encs.len(),
{
    if encs.len() == 0 {
        assert(start_state() == settled(encs)) by {
            assert(encs =~= Seq::<Seq<char>>::empty());
        }
    } else {
        let rest = encs.drop_last();
        let e = encs.last();
        let n = encs.len() - 1;
        assert forall|i: int| 0 <= i < rest.len() implies !has_newline(#[trigger] rest[i]) by {
            assert(rest[i] == encs[i]);
        }
        assert(!has_newline(e)) by {
            assert(encs[n] == e);
        }
        lemma_fold_config(rest, dirs);
        let owned = owned_texts(dirs, n);
        lemma_owned_shape(dirs, n);
        let el = encoding_line(e);
        assert(is_encoding_line(el));
        assert(el.subrange(2, el.len() as int) =~= e);
        let prev = config_lines(rest, dirs);
        let block = block_lines(e, owned);
        lemma_fold_concat(start_state(), prev, block);
        lemma_fold_concat(settled(rest), seq![el] + owned, seq![Seq::<char>::empty()]);
        lemma_fold_concat(settled(rest), seq![el], owned);
        assert(seq![el].drop_last() =~= Seq::<Seq<char>>::empty());
        let opened = ParseState {
            encodings: encs,
            in_block: true,
            has_encoding: true,
            failed: false,
        };
        assert(rest.push(e) =~= encs);
        assert(el.len() == e.len() + 2);
        assert(fold_lines(settled(rest), seq![el]) == step(settled(rest), el)) by {
            assert(seq![el].last() == el);
            assert(fold_lines(settled(rest), Seq::<Seq<char>>::empty()) == settled(rest));
        }
        assert(step(settled(rest), el) == opened);
        lemma_fold_directives(opened, owned);
        assert(seq![Seq::<char>::empty()].drop_last() =~= Seq::<Seq<char>>::empty());
        assert(fold_lines(opened, seq![Seq::<char>::empty()]) == step(opened, Seq::<char>::empty())) by {
            assert(seq![Seq::<char>::empty()].last() == Seq::<char>::empty());
            assert(fold_lines(opened, Seq::<Seq<char>>::empty()) == opened);
        }
        assert(step(opened, Seq::<char>::empty()) == settled(encs));
        assert forall|k: int| 0 <= k < config_lines(encs, dirs).len() implies !has_newline(
            #[trigger] config_lines(encs, dirs)[k],
        ) by {
            let all = config_lines(encs, dirs);
            assert(all == prev + block);
            if k < prev.len() {
                assert(all[k] == prev[k]);
            } else if k == prev.len() {
                assert(all[k] == el);
                if el.contains('\n') {
                    let j = choose|j: int| 0 <= j < el.len() && el[j] == '\n';
                    assert(e[j - 2] == '\n');
                }
            } else if k < prev.len() + 1 + owned.len() {
                assert(all[k] == owned[k - prev.len() - 1]);
            } else {
                assert(all[k] == Seq::<char>::empty());
            }
        }
    }
}

/// Reading back a written configuration gives the encodings it was
/// written with, in order, whatever the directives.
pub proof fn lemma_config_round_trip(encs: Seq<Seq<char>>, dirs: Seq<DirectiveView>)
    requires
        forall|i: int| 0 <= i < encs.len() ==> !has_newline(#[trigger] encs[i]),
    ensures
        parse_result(config_text(encs, dirs)) == Ok::<Seq<Seq<char>>, ConfigError>(encs),
{
    lemma_fold_config(encs, dirs);
    let lines = config_lines(encs, dirs);
    lemma_split_wrapped(lines);
    assert(lines.push(Seq::<char>::empty()).drop_last() =~= lines);
}

impl DnsmasqConfig {
    /// Writes a record set as configuration text; `encodings[i]` is the
    /// machine encoding of `endpoints[i]`.
    pub fn write_config(&self, endpoints: &Vec<Endpoint>, encodings: &Vec<String>) -> (r: Result<
        String,
        ConfigError,
    >)
        ensures
            r is Ok <==> encodings@.len() == endpoints@.len() && forall|i: int|
                0 <= i < encodings@.len() ==> !has_newline(#[trigger] encodings@[i]@),
            r matches Ok(t) ==> t@ == config_text(
                str_views(encodings@),
                projection(
                    endpoints@,
                    opt_str_view(self.override_ip),
                    opt_str_view(self.override_host),
                ),
            ),
            r matches Err(e) ==> (e == ConfigError::EncodingCount <==> encodings@.len()
                != endpoints@.len()),
            r matches Err(e) ==> e == ConfigError::EncodingCount || e
                == ConfigError::MultilineEncoding,
    {
        if encodings.len() != endpoints.len() {
            return Err(ConfigError::EncodingCount);
        }
        let directives = self.project(endpoints);
        render_config(encodings, &directives)
    }
}

/// The SHA-512 digest of `data`.
pub uninterp spec fn sha512_of(data: Seq<u8>) -> Seq<u8>;

/// Relies on `sha2::Sha512` through `digest::Digest::digest`: the SHA-512
/// digest of the bytes, which depends on them alone.
#[verifier::external_body]
fn sha512(data: &[u8]) -> (r: Vec<u8>)
    ensures
        r@ == sha512_of(data@),
{
    <sha2::Sha512 as sha2::Digest>::digest(data).to_vec()
}

/// The digest of a configuration text, kept beside the record set so that
/// a change made behind the provider's back shows.
pub fn config_digest(text: &str) -> (r: Vec<u8>)
    ensures
        r@ == sha512_of(text.spec_bytes()),
{
    sha512(text.as_bytes())
}

} // verus!
