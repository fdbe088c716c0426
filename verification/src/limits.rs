//! Peer classes and the rate limits that apply per class.
//!
//! A class belongs to a group: every node of a group is in the group's class. The caller decides
//! the classes; the module only knows two of them, `LP2P_CLASS_UNKNOWN` (every group nobody
//! classified) and `LP2P_CLASS_BLOCKED` (refused outright).
//!
//! A limit is a token bucket for one class, one scope and one protocol or all of them. A request
//! is admitted only if every limit that matches it has a token left. Scopes:
//!
//! ```text
//! peer        one bucket per node
//! ip prefix   one bucket per IPv4 /24 or IPv6 /56 of the connection -- not applied to relayed
//!             connections, whose visible address is the relay's
//! global      one bucket for the whole class
//! ```
//!
//! Peer ids cost nothing to create, which is why a per-peer limit alone is not a limit, and why
//! the prefix and the global scope exist.
//!
//! Time is counted in nanoseconds on a clock that does not go back. Tokens are fractions, counted
//! without rounding, so that what a rate adds or a request takes is the same whatever rates came
//! before.

use vstd::prelude::*;

use crate::abi::{
    lp2p_key, lp2p_rate, LP2P_CLASS_BLOCKED, LP2P_CLASS_UNKNOWN, LP2P_LIMITED_BLOCKED,
    LP2P_PROTOCOL_ANY, LP2P_SCOPE_IP_PREFIX, LP2P_SCOPE_PEER,
};
use crate::bytes::same_bytes;
use crate::fraction::Fraction;
use crate::keys::PeerId;
use crate::multiaddr::Ip;
use crate::table::Table;

verus! {

/// Buckets that are full again are forgotten; this bounds how many there are between sweeps.
pub const MAX_BUCKETS: usize = 65536;

/// LP2P_EV_LIMITED events per second at most; the rest are only counted. A flood of refused
/// requests must not become a flood of events.
pub const EVENTS_PER_SECOND: u32 = 10;

/// The nanoseconds of a second.
pub const SECOND: u64 = 1_000_000_000;

/// The nanoseconds of a millisecond.
pub const MILLISECOND: u64 = 1_000_000;

/// What identifies a limit: a second limit for the same class, scope and protocol replaces it.
#[derive(Clone, Copy, Debug, PartialEq, Eq, Structural)]
pub struct RuleId {
    pub class: u8,
    pub scope: u8,
    pub protocol: u16,
}

#[derive(Clone, Copy, Debug, PartialEq, Eq, Structural)]
pub struct Rule {
    pub id: RuleId,
    pub rate: lp2p_rate,
}

/// Whose bucket it is within a limit.
#[derive(Debug)]
pub enum Key {
    Peer(PeerId),
    Prefix([u8; 8]),
    Global,
}

/// Whose bucket it is, as values.
#[verifier::ext_equal]
pub enum KeyView {
    Peer((u64, Seq<u8>)),
    Prefix(Seq<u8>),
    Global,
}

impl View for Key {
    type V = KeyView;

    open spec fn view(&self) -> KeyView {
        match self {
            Key::Peer(peer) => KeyView::Peer(peer@),
            Key::Prefix(prefix) => KeyView::Prefix(prefix@),
            Key::Global => KeyView::Global,
        }
    }
}

impl Key {
    fn copy(&self) -> (key: Key)
        ensures
            key@ == self@,
    {
        match self {
            Key::Peer(peer) => Key::Peer(peer.copy()),
            Key::Prefix(prefix) => Key::Prefix(*prefix),
            Key::Global => Key::Global,
        }
    }
}

/// What identifies a bucket.
pub struct BucketKey {
    rule: RuleId,
    key: Key,
}

impl View for BucketKey {
    type V = (RuleId, KeyView);

    closed spec fn view(&self) -> (RuleId, KeyView) {
        (self.rule, self.key@)
    }
}

impl crate::table::Key for BucketKey {
    fn same(&self, other: &Self) -> (r: bool) {
        if self.rule != other.rule {
            return false;
        }
        match (&self.key, &other.key) {
            (Key::Peer(a), Key::Peer(b)) => crate::table::Key::same(a, b),
            (Key::Prefix(a), Key::Prefix(b)) => same_bytes(a.as_slice(), b.as_slice()),
            (Key::Global, Key::Global) => true,
            _ => false,
        }
    }
}

/// The tokens of a limit that are left to somebody.
#[derive(Debug)]
pub struct Bucket {
    tokens: Fraction,
    /// When it held that many.
    updated: u64,
}

/// What a bucket held, and when.
#[verifier::ext_equal]
pub struct BucketView {
    pub tokens: real,
    pub updated: u64,
}

impl View for Bucket {
    type V = BucketView;

    closed spec fn view(&self) -> BucketView {
        BucketView { tokens: self.tokens@, updated: self.updated }
    }
}

impl Bucket {
    fn copy(&self) -> (bucket: Bucket)
        ensures
            bucket@ == self@,
    {
        Bucket { tokens: self.tokens.copy(), updated: self.updated }
    }
}

/// What a full bucket of a rate holds.
pub open spec fn full(rate: lp2p_rate) -> real {
    rate.burst as real
}

/// What a rate adds to a bucket in some time: its amount for every interval, evenly.
pub open spec fn gained(rate: lp2p_rate, time: nat) -> real {
    crate::fraction::ratio(time * rate.amount as nat, (rate.interval_ms * MILLISECOND) as nat)
}

/// The time from one moment to another, none where the other is not later.
pub open spec fn elapsed(from: u64, to: u64) -> nat {
    if from < to {
        (to - from) as nat
    } else {
        0
    }
}

/// What stands in a bucket of whole parts after some time: it fills up at a rate, up to its size.
pub open spec fn filled(tokens: nat, time: nat, amount: nat, size: nat) -> nat {
    if tokens + time * amount < size {
        tokens + time * amount
    } else {
        size
    }
}

/// What a bucket holds at some moment under a rate: it fills up evenly, up to the burst.
pub open spec fn level(bucket: BucketView, rate: lp2p_rate, now: u64) -> real {
    let sum = bucket.tokens + gained(rate, elapsed(bucket.updated, now));
    if sum < full(rate) {
        sum
    } else {
        full(rate)
    }
}

/// The buckets of all limits.
pub type Buckets = Map<(RuleId, KeyView), BucketView>;

/// What a bucket holds at some moment if its limit has a rate: one that nobody has used is full.
pub open spec fn level_under(
    buckets: Buckets,
    id: RuleId,
    key: KeyView,
    rate: lp2p_rate,
    now: u64,
) -> real {
    if buckets.contains_key((id, key)) {
        level(buckets[(id, key)], rate, now)
    } else {
        full(rate)
    }
}

/// What the bucket of a limit holds at some moment.
pub open spec fn level_of(buckets: Buckets, rule: Rule, key: KeyView, now: u64) -> real {
    level_under(buckets, rule.id, key, rule.rate, now)
}

/// The bucket of a limit, brought up to date.
pub open spec fn refreshed(buckets: Buckets, rule: Rule, key: KeyView, now: u64) -> BucketView {
    BucketView { tokens: level_of(buckets, rule, key, now), updated: now }
}

/// A bucket with one token taken.
pub open spec fn less_one(bucket: BucketView) -> BucketView {
    BucketView { tokens: bucket.tokens - 1 as real, ..bucket }
}

/// The network that an IP address is in: the /24 of an IPv4 address or the /56 of an IPv6 one,
/// behind the version.
pub open spec fn prefix_of(octets: Seq<u8>) -> Seq<u8> {
    if octets.len() == 4 {
        seq![4u8] + octets.take(3) + seq![0u8, 0u8, 0u8, 0u8]
    } else {
        seq![6u8] + octets.take(7)
    }
}

fn prefix(ip: &Ip) -> (out: [u8; 8])
    ensures
        out@ == prefix_of(ip@),
{
    let mut out: [u8; 8] = [0;8];
    match ip {
        Ip::V4(octets) => {
            out[0] = 4;
            out[1] = octets[0];
            out[2] = octets[1];
            out[3] = octets[2];
        },
        Ip::V6(octets) => {
            out[0] = 6;
            let mut i: usize = 0;
            while i < 7
                invariant
                    i <= 7,
                    out@[0] == 6,
                    forall|j: int| 1 <= j <= i ==> out@[j] == octets@[j - 1],
                decreases 7 - i,
            {
                out[i + 1] = octets[i];
                i += 1;
            }
        },
    }
    assert(out@ =~= prefix_of(ip@));
    out
}

/// What a request is checked by.
pub struct Request<'a> {
    pub group: &'a lp2p_key,
    pub peer: PeerId,
    /// The remote IP, or None for a relayed connection.
    pub ip: Option<Ip>,
    pub protocol: u16,
}

/// What a request is checked by, as values.
#[verifier::ext_equal]
pub struct RequestView {
    pub group: Seq<u8>,
    pub peer: (u64, Seq<u8>),
    pub ip: Option<Seq<u8>>,
    pub protocol: u16,
}

impl<'a> View for Request<'a> {
    type V = RequestView;

    open spec fn view(&self) -> RequestView {
        RequestView {
            group: self.group@,
            peer: self.peer@,
            ip: match self.ip {
                Some(ip) => Some(ip@),
                None => None,
            },
            protocol: self.protocol,
        }
    }
}

/// Whose bucket a request is counted in under a scope, or None where the scope does not apply.
pub open spec fn key_for(scope: u8, request: RequestView) -> Option<KeyView> {
    if scope == LP2P_SCOPE_PEER {
        Some(KeyView::Peer(request.peer))
    } else if scope == LP2P_SCOPE_IP_PREFIX {
        match request.ip {
            Some(octets) => Some(KeyView::Prefix(prefix_of(octets))),
            None => None,
        }
    } else {
        Some(KeyView::Global)
    }
}

/// Whether a limit applies to a request of a class.
pub open spec fn applies(rule: Rule, class: u8, request: RequestView) -> bool {
    &&& rule.id.class == class
    &&& rule.id.protocol == LP2P_PROTOCOL_ANY || rule.id.protocol == request.protocol
    &&& key_for(rule.id.scope, request) is Some
}

/// The limits that apply to a request of a class, in their order, with whose bucket it is.
pub open spec fn matching(rules: Seq<Rule>, class: u8, request: RequestView) -> Seq<(Rule, KeyView)>
    decreases rules.len(),
{
    if rules.len() == 0 {
        Seq::empty()
    } else {
        let rest = matching(rules.drop_last(), class, request);
        let rule = rules.last();
        if applies(rule, class, request) {
            rest.push((rule, key_for(rule.id.scope, request)->0))
        } else {
            rest
        }
    }
}

/// The first of the limits whose bucket has no token left, from a given one on; their number if
/// all have.
pub open spec fn first_short(
    buckets: Buckets,
    limits: Seq<(Rule, KeyView)>,
    now: u64,
    from: int,
) -> int
    decreases limits.len() - from,
{
    if from < 0 || from >= limits.len() {
        limits.len() as int
    } else if level_of(buckets, limits[from].0, limits[from].1, now) < 1 as real {
        from
    } else {
        first_short(buckets, limits, now, from + 1)
    }
}

/// The buckets with those of the first `n` limits brought up to date, and a token taken from each
/// if `take`.
pub open spec fn touched(
    buckets: Buckets,
    limits: Seq<(Rule, KeyView)>,
    now: u64,
    n: int,
    take: bool,
) -> Buckets
    decreases n,
{
    if n <= 0 {
        buckets
    } else {
        let (rule, key) = limits[n - 1];
        touched(buckets, limits, now, n - 1, take).insert(
            (rule.id, key),
            if take {
                less_one(refreshed(buckets, rule, key, now))
            } else {
                refreshed(buckets, rule, key, now)
            },
        )
    }
}

/// The limit with an id, if there is one.
pub open spec fn rule_with(rules: Seq<Rule>, id: RuleId) -> Option<Rule>
    decreases rules.len(),
{
    if rules.len() == 0 {
        None
    } else if rules[0].id == id {
        Some(rules[0])
    } else {
        rule_with(rules.drop_first(), id)
    }
}

/// The limits but the one with an id.
pub open spec fn without(rules: Seq<Rule>, id: RuleId) -> Seq<Rule>
    decreases rules.len(),
{
    if rules.len() == 0 {
        Seq::empty()
    } else if rules.last().id == id {
        without(rules.drop_last(), id)
    } else {
        without(rules.drop_last(), id).push(rules.last())
    }
}

/// Whether a sweep keeps a bucket: its limit is still there, and it is not full again.
pub open spec fn worth_keeping(
    buckets: Buckets,
    rules: Seq<Rule>,
    key: (RuleId, KeyView),
    now: u64,
) -> bool {
    &&& buckets.contains_key(key)
    &&& match rule_with(rules, key.0) {
        Some(rule) => level(buckets[key], rule.rate, now) < full(rule.rate),
        None => false,
    }
}

/// The buckets after a sweep: those worth keeping, brought up to date.
pub open spec fn swept(buckets: Buckets, rules: Seq<Rule>, now: u64) -> Buckets {
    Map::new(
        |key: (RuleId, KeyView)| worth_keeping(buckets, rules, key, now),
        |key: (RuleId, KeyView)|
            refreshed(buckets, rule_with(rules, key.0)->0, key.1, now),
    )
}

/// The classes and limits of a node and how they are used.
#[verifier::ext_equal]
pub struct LimitsView {
    pub classes: Map<Seq<u8>, u8>,
    pub rules: Seq<Rule>,
    pub buckets: Buckets,
    /// When the second began in which reports are counted.
    pub events_window: Option<u64>,
    pub events_in_window: u32,
}

impl LimitsView {
    /// No two limits have the same id, all of them limit something, and no bucket owes anything.
    pub open spec fn wf(self) -> bool {
        &&& forall|i: int, j: int|
            0 <= i < j < self.rules.len() ==> (#[trigger] self.rules[i]).id != (
            #[trigger] self.rules[j]).id
        &&& forall|i: int| 0 <= i < self.rules.len() ==> (#[trigger] self.rules[i]).rate.is_on()
        &&& forall|k: (RuleId, KeyView)| #[trigger]
            self.buckets.contains_key(k) ==> self.buckets[k].tokens >= 0 as real
        &&& self.buckets.dom().finite()
    }

    /// No bucket was used later than at a given moment.
    pub open spec fn settled(self, now: u64) -> bool {
        forall|k: (RuleId, KeyView)| #[trigger]
            self.buckets.contains_key(k) ==> self.buckets[k].updated <= now
    }

    pub open spec fn class_of(self, group: Seq<u8>) -> u8 {
        if self.classes.contains_key(group) {
            self.classes[group]
        } else {
            LP2P_CLASS_UNKNOWN
        }
    }

    /// The limits that apply to a request.
    pub open spec fn limits_on(self, request: RequestView) -> Seq<(Rule, KeyView)> {
        matching(self.rules, self.class_of(request.group), request)
    }

    /// Whether a request is of a blocked group.
    pub open spec fn blocked(self, request: RequestView) -> bool {
        self.class_of(request.group) == LP2P_CLASS_BLOCKED
    }

    /// The first limit on a request that has no token left, or their number.
    pub open spec fn short(self, request: RequestView, now: u64) -> int {
        first_short(self.buckets, self.limits_on(request), now, 0)
    }

    /// What checking a request comes to.
    pub open spec fn verdict(self, request: RequestView, now: u64) -> Result<(), u16> {
        let limits = self.limits_on(request);
        if self.blocked(request) {
            Err(LP2P_LIMITED_BLOCKED)
        } else if self.short(request, now) < limits.len() {
            Err(limits[self.short(request, now)].0.id.scope as u16)
        } else {
            Ok(())
        }
    }

    /// The limits after a request was checked. A refused one takes no token.
    pub open spec fn checked(self, request: RequestView, now: u64) -> LimitsView {
        let limits = self.limits_on(request);
        if self.blocked(request) {
            self
        } else if self.short(request, now) < limits.len() {
            LimitsView {
                buckets: touched(
                    self.buckets,
                    limits,
                    now,
                    self.short(request, now) + 1,
                    false,
                ),
                ..self
            }
        } else {
            let buckets = touched(self.buckets, limits, now, limits.len() as int, true);
            LimitsView {
                buckets: if buckets.dom().len() > MAX_BUCKETS {
                    swept(buckets, self.rules, now)
                } else {
                    buckets
                },
                ..self
            }
        }
    }

    pub open spec fn with_class(self, group: Seq<u8>, class: u8) -> LimitsView {
        LimitsView {
            classes: if class == LP2P_CLASS_UNKNOWN {
                self.classes.remove(group)
            } else {
                self.classes.insert(group, class)
            },
            ..self
        }
    }

    /// A changed rate keeps the buckets: what a peer has used stays used. A limit that is removed
    /// takes its buckets along.
    pub open spec fn with_limit(self, id: RuleId, rate: lp2p_rate) -> LimitsView {
        if rate.is_on() {
            LimitsView { rules: without(self.rules, id).push(Rule { id, rate }), ..self }
        } else {
            LimitsView {
                rules: without(self.rules, id),
                buckets: self.buckets.restrict(
                    Set::new(|k: (RuleId, KeyView)| self.buckets.contains_key(k) && k.0 != id),
                ),
                ..self
            }
        }
    }

    /// Whether the second in which reports are counted is still on.
    pub open spec fn in_window(self, now: u64) -> bool {
        self.events_window is Some && elapsed(self.events_window->0, now) < SECOND
    }

    /// The limits after somebody asked whether to report.
    pub open spec fn asked_to_report(self, now: u64) -> LimitsView {
        if self.in_window(now) {
            LimitsView {
                events_in_window: if self.events_in_window < u32::MAX {
                    (self.events_in_window + 1) as u32
                } else {
                    u32::MAX
                },
                ..self
            }
        } else {
            LimitsView { events_window: Some(now), events_in_window: 1, ..self }
        }
    }

    /// Whether another report may be made.
    pub open spec fn may_report(self, now: u64) -> bool {
        self.asked_to_report(now).events_in_window <= EVENTS_PER_SECOND
    }
}

proof fn lemma_gained(rate: lp2p_rate, first: nat, second: nat)
    requires
        rate.is_on(),
    ensures
        gained(rate, first) >= 0 as real,
        gained(rate, second) >= 0 as real,
        gained(rate, first + second) == gained(rate, first) + gained(rate, second),
        gained(rate, 0) == 0 as real,
{
    let d = (rate.interval_ms * MILLISECOND) as real;
    let a = rate.amount as nat;
    let (x, y) = (first * a, second * a);
    assert((first + second) * a == x + y && x >= 0 && y >= 0 && 0 * a == 0) by (nonlinear_arith)
        requires
            x == first * a,
            y == second * a,
            first >= 0,
            second >= 0,
            a >= 0,
    ;
    let (p, q) = (x as real, y as real);
    assert(p / d >= 0 as real && q / d >= 0 as real && (p + q) / d == p / d + q / d && 0 as real
        / d == 0 as real) by (nonlinear_arith)
        requires
            d > 0 as real,
            p >= 0 as real,
            q >= 0 as real,
    ;
}

proof fn lemma_level(bucket: BucketView, rate: lp2p_rate, now: u64)
    requires
        bucket.tokens >= 0 as real,
        rate.is_on(),
    ensures
        0 as real <= level(bucket, rate, now) <= full(rate),
{
    lemma_gained(rate, elapsed(bucket.updated, now), 0);
}

/// The bucket brought up to date.
fn refill(bucket: &Bucket, rate: &lp2p_rate, now: u64) -> (refilled: Bucket)
    requires
        rate.is_on(),
    ensures
        refilled@ == (BucketView { tokens: level(bucket@, *rate, now), updated: now }),
{
    let time: u64 = if bucket.updated < now {
        now - bucket.updated
    } else {
        0
    };
    let interval: u64 = rate.interval_ms as u64 * MILLISECOND;
    let sum = bucket.tokens.plus(time, rate.amount, interval);
    Bucket {
        tokens: if sum.below(rate.burst) {
            sum
        } else {
            Fraction::whole(rate.burst)
        },
        updated: now,
    }
}

proof fn lemma_matching(rules: Seq<Rule>, class: u8, request: RequestView)
    ensures
        forall|i: int|
            0 <= i < matching(rules, class, request).len() ==> {
                let (rule, key) = #[trigger] matching(rules, class, request)[i];
                &&& rules.contains(rule)
                &&& applies(rule, class, request)
                &&& key == key_for(rule.id.scope, request)->0
            },
        forall|rule: Rule|
            rules.contains(rule) && #[trigger] applies(rule, class, request)
                ==> matching(rules, class, request).contains(
                (rule, key_for(rule.id.scope, request)->0),
            ),
    decreases rules.len(),
{
    if rules.len() > 0 {
        let init = rules.drop_last();
        let last = rules.last();
        lemma_matching(init, class, request);
        let m = matching(rules, class, request);
        let n = matching(init, class, request);
        assert(rules[rules.len() - 1] == last);
        assert forall|i: int| 0 <= i < m.len() implies {
            let (rule, key) = #[trigger] m[i];
            &&& rules.contains(rule)
            &&& applies(rule, class, request)
            &&& key == key_for(rule.id.scope, request)->0
        } by {
            if i < n.len() {
                assert(m[i] == n[i]);
                let at = init.index_of(m[i].0);
                assert(init.contains(m[i].0));
                assert(rules[at] == m[i].0);
            }
        }
        assert forall|rule: Rule|
            rules.contains(rule) && #[trigger] applies(rule, class, request) implies m.contains(
            (rule, key_for(rule.id.scope, request)->0),
        ) by {
            let pair = (rule, key_for(rule.id.scope, request)->0);
            if rule == last {
                assert(m[m.len() - 1] == pair);
            } else {
                let at = rules.index_of(rule);
                assert(init[at] == rule);
                assert(init.contains(rule));
                let i = n.index_of(pair);
                assert(m[i] == pair);
            }
        }
    }
}

/// No two of the limits on a request share a bucket.
proof fn lemma_matching_distinct(view: LimitsView, class: u8, request: RequestView, n: int)
    requires
        view.wf(),
        0 <= n <= view.rules.len(),
    ensures
        forall|i: int, j: int|
            0 <= i < j < matching(view.rules.take(n), class, request).len() ==> (
            #[trigger] matching(view.rules.take(n), class, request)[i]).0.id != (
            #[trigger] matching(view.rules.take(n), class, request)[j]).0.id,
    decreases n,
{
    let rules = view.rules.take(n);
    if n > 0 {
        let init = view.rules.take(n - 1);
        assert(rules.drop_last() =~= init);
        lemma_matching_distinct(view, class, request, n - 1);
        lemma_matching(init, class, request);
        let m = matching(rules, class, request);
        let before = matching(init, class, request);
        assert forall|i: int, j: int| 0 <= i < j < m.len() implies (#[trigger] m[i]).0.id != (
        #[trigger] m[j]).0.id by {
            assert(m[i] == before[i]);
            if j < before.len() {
                assert(m[j] == before[j]);
            } else {
                let at = init.index_of(before[i].0);
                assert(init.contains(before[i].0));
                assert(view.rules[at] == before[i].0);
                assert(view.rules[n - 1] == m[j].0);
            }
        }
    }
}

/// What bringing buckets up to date, or taking from them, makes of each.
proof fn lemma_touched(
    buckets: Buckets,
    limits: Seq<(Rule, KeyView)>,
    now: u64,
    n: int,
    take: bool,
)
    requires
        0 <= n <= limits.len(),
        forall|i: int, j: int|
            0 <= i < j < limits.len() ==> (#[trigger] limits[i]).0.id != (
            #[trigger] limits[j]).0.id,
    ensures
        forall|i: int|
            0 <= i < n ==> {
                let (rule, key) = #[trigger] limits[i];
                let after = touched(buckets, limits, now, n, take);
                &&& after.contains_key((rule.id, key))
                &&& after[(rule.id, key)] == if take {
                    less_one(refreshed(buckets, rule, key, now))
                } else {
                    refreshed(buckets, rule, key, now)
                }
            },
        forall|k: (RuleId, KeyView)|
            #![trigger touched(buckets, limits, now, n, take).contains_key(k)]
            (forall|i: int| 0 <= i < n ==> ((#[trigger] limits[i]).0.id, limits[i].1) != k) ==> {
                let after = touched(buckets, limits, now, n, take);
                &&& after.contains_key(k) == buckets.contains_key(k)
                &&& buckets.contains_key(k) ==> after[k] == buckets[k]
            },
        buckets.dom().finite() ==> touched(buckets, limits, now, n, take).dom().finite(),
    decreases n,
{
    if n > 0 {
        lemma_touched(buckets, limits, now, n - 1, take);
        let before = touched(buckets, limits, now, n - 1, take);
        let after = touched(buckets, limits, now, n, take);
        assert forall|i: int| 0 <= i < n implies {
            let (rule, key) = #[trigger] limits[i];
            &&& after.contains_key((rule.id, key))
            &&& after[(rule.id, key)] == if take {
                less_one(refreshed(buckets, rule, key, now))
            } else {
                refreshed(buckets, rule, key, now)
            }
        } by {
            if i < n - 1 {
                assert(limits[i].0.id != limits[n - 1].0.id);
            }
        }
        assert forall|k: (RuleId, KeyView)|
            #![trigger after.contains_key(k)]
            (forall|i: int| 0 <= i < n ==> ((#[trigger] limits[i]).0.id, limits[i].1)
                != k) implies {
            &&& after.contains_key(k) == buckets.contains_key(k)
            &&& buckets.contains_key(k) ==> after[k] == buckets[k]
        } by {
            assert((limits[n - 1].0.id, limits[n - 1].1) != k);
            assert(before.contains_key(k) == after.contains_key(k));
        }
    }
}

proof fn lemma_first_short(
    buckets: Buckets,
    limits: Seq<(Rule, KeyView)>,
    now: u64,
    from: int,
)
    requires
        0 <= from <= limits.len(),
    ensures
        from <= first_short(buckets, limits, now, from) <= limits.len(),
        forall|i: int|
            from <= i < first_short(buckets, limits, now, from) ==> level_of(
                buckets,
                (#[trigger] limits[i]).0,
                limits[i].1,
                now,
            ) >= 1 as real,
        first_short(buckets, limits, now, from) < limits.len() ==> level_of(
            buckets,
            limits[first_short(buckets, limits, now, from)].0,
            limits[first_short(buckets, limits, now, from)].1,
            now,
        ) < 1 as real,
    decreases limits.len() - from,
{
    if from < limits.len() && level_of(buckets, limits[from].0, limits[from].1, now) >= 1 as real {
        lemma_first_short(buckets, limits, now, from + 1);
    }
}

/// No bucket owes anything whatever is brought up to date or taken.
proof fn lemma_touched_wf(view: LimitsView, request: RequestView, now: u64, n: int, take: bool)
    requires
        view.wf(),
        0 <= n <= view.limits_on(request).len(),
        take ==> n <= view.short(request, now),
    ensures
        forall|k: (RuleId, KeyView)| #[trigger]
            touched(view.buckets, view.limits_on(request), now, n, take).contains_key(k)
                ==> touched(view.buckets, view.limits_on(request), now, n, take)[k].tokens
                >= 0 as real,
        touched(view.buckets, view.limits_on(request), now, n, take).dom().finite(),
    decreases n,
{
    let m = view.limits_on(request);
    let class = view.class_of(request.group);
    if n > 0 {
        lemma_touched_wf(view, request, now, n - 1, take);
        lemma_matching(view.rules, class, request);
        lemma_first_short(view.buckets, m, now, 0);
        let (rule, key) = m[n - 1];
        assert(view.rules.contains(rule));
        assert(view.rules[view.rules.index_of(rule)].rate.is_on());
        if view.buckets.contains_key((rule.id, key)) {
            lemma_level(view.buckets[(rule.id, key)], rule.rate, now);
        }
    }
}

proof fn lemma_rule_with(rules: Seq<Rule>, id: RuleId)
    ensures
        match rule_with(rules, id) {
            Some(rule) => rules.contains(rule) && rule.id == id,
            None => forall|i: int| 0 <= i < rules.len() ==> (#[trigger] rules[i]).id != id,
        },
    decreases rules.len(),
{
    if rules.len() > 0 && rules[0].id != id {
        let rest = rules.drop_first();
        lemma_rule_with(rest, id);
        match rule_with(rest, id) {
            Some(rule) => {
                let at = rest.index_of(rule);
                assert(rules[at + 1] == rule);
            },
            None => {
                assert forall|i: int| 0 <= i < rules.len() implies (#[trigger] rules[i]).id
                    != id by {
                    if i > 0 {
                        assert(rest[i - 1] == rules[i]);
                    }
                }
            },
        }
    } else if rules.len() > 0 {
        assert(rules[0] == rule_with(rules, id)->0);
    }
}

proof fn lemma_rule_with_own(view: LimitsView, rule: Rule)
    requires
        view.wf(),
        view.rules.contains(rule),
    ensures
        rule_with(view.rules, rule.id) == Some(rule),
{
    lemma_rule_with(view.rules, rule.id);
    let at = view.rules.index_of(rule);
    assert(view.rules[at] == rule);
    let found = rule_with(view.rules, rule.id)->0;
    let other = view.rules.index_of(found);
    assert(view.rules[other] == found);
}

proof fn lemma_swept(view: LimitsView, now: u64)
    requires
        view.wf(),
    ensures
        (LimitsView { buckets: swept(view.buckets, view.rules, now), ..view }).wf(),
        swept(view.buckets, view.rules, now).dom().finite(),
{
    let after = swept(view.buckets, view.rules, now);
    assert(after.dom().subset_of(view.buckets.dom()));
    vstd::set_lib::lemma_set_subset_finite(view.buckets.dom(), after.dom());
    assert forall|k: (RuleId, KeyView)| #[trigger] after.contains_key(k) implies after[k].tokens
        >= 0 as real by {
        lemma_rule_with(view.rules, k.0);
        let rule = rule_with(view.rules, k.0)->0;
        assert(view.rules[view.rules.index_of(rule)].rate.is_on());
        lemma_level(view.buckets[k], rule.rate, now);
    }
}

proof fn lemma_without(rules: Seq<Rule>, id: RuleId)
    ensures
        forall|i: int|
            0 <= i < without(rules, id).len() ==> rules.contains(#[trigger] without(rules, id)[i])
                && without(rules, id)[i].id != id,
        (forall|i: int, j: int|
            0 <= i < j < rules.len() ==> (#[trigger] rules[i]).id != (#[trigger] rules[j]).id)
            ==> (forall|i: int, j: int|
            0 <= i < j < without(rules, id).len() ==> (#[trigger] without(rules, id)[i]).id != (
            #[trigger] without(rules, id)[j]).id),
    decreases rules.len(),
{
    if rules.len() > 0 {
        let init = rules.drop_last();
        lemma_without(init, id);
        let a = without(init, id);
        let b = without(rules, id);
        assert forall|i: int| 0 <= i < b.len() implies rules.contains(#[trigger] b[i]) && b[i].id
            != id by {
            if i < a.len() {
                assert(a[i] == b[i]);
                assert(init.contains(a[i]));
                assert(rules[init.index_of(a[i])] == b[i]);
            } else {
                assert(rules[rules.len() - 1] == b[i]);
            }
        }
        if forall|i: int, j: int|
            0 <= i < j < rules.len() ==> (#[trigger] rules[i]).id != (#[trigger] rules[j]).id {
            assert forall|i: int, j: int| 0 <= i < j < init.len() implies (#[trigger] init[i]).id
                != (#[trigger] init[j]).id by {
                assert(init[i] == rules[i] && init[j] == rules[j]);
            }
            assert forall|i: int, j: int| 0 <= i < j < b.len() implies (#[trigger] b[i]).id != (
            #[trigger] b[j]).id by {
                assert(a[i] == b[i]);
                if j < a.len() {
                    assert(a[j] == b[j]);
                } else {
                    assert(init.contains(a[i]));
                    let at = init.index_of(a[i]);
                    assert(rules[at] == b[i]);
                    assert(rules[rules.len() - 1] == b[j]);
                }
            }
        }
    }
}

/// The buckets, as values.
spec fn bucket_views(buckets: Map<(RuleId, KeyView), Bucket>) -> Buckets {
    buckets.map_values(|bucket: Bucket| bucket@)
}

pub struct Limits {
    classes: Table<lp2p_key, u8>,
    rules: Vec<Rule>,
    buckets: Table<BucketKey, Bucket>,
    events_window: Option<u64>,
    events_in_window: u32,
}

impl View for Limits {
    type V = LimitsView;

    closed spec fn view(&self) -> LimitsView {
        LimitsView {
            classes: self.classes@,
            rules: self.rules@,
            buckets: bucket_views(self.buckets@),
            events_window: self.events_window,
            events_in_window: self.events_in_window,
        }
    }
}

impl Default for Limits {
    fn default() -> (limits: Self)
        ensures
            limits@ == (LimitsView {
                classes: Map::empty(),
                rules: Seq::empty(),
                buckets: Map::empty(),
                events_window: None,
                events_in_window: 0,
            }),
    {
        Limits::new()
    }
}

impl Limits {
    #[verifier::type_invariant]
    spec fn inv(self) -> bool {
        self@.wf()
    }

    pub fn new() -> (limits: Self)
        ensures
            limits@ == (LimitsView {
                classes: Map::empty(),
                rules: Seq::empty(),
                buckets: Map::empty(),
                events_window: None,
                events_in_window: 0,
            }),
            limits@.wf(),
    {
        assert(bucket_views(Map::empty()) =~= Map::empty());
        Limits {
            classes: Table::new(),
            rules: Vec::new(),
            buckets: Table::new(),
            events_window: None,
            events_in_window: 0,
        }
    }

    pub fn set_class(&mut self, group: lp2p_key, class: u8)
        ensures
            final(self)@ == old(self)@.with_class(group@, class),
            final(self)@.wf(),
    {
        proof {
            use_type_invariant(&*self);
        }
        let ghost before = self@;
        let mut classes: Table<lp2p_key, u8> = Table::new();
        std::mem::swap(&mut classes, &mut self.classes);
        if class == LP2P_CLASS_UNKNOWN {
            let _ = classes.remove(&group);
        } else {
            classes.insert(group, class);
        }
        self.classes = classes;
        assert(self@ =~= before.with_class(group@, class));
    }

    pub fn class_of(&self, group: &lp2p_key) -> (class: u8)
        ensures
            class == self@.class_of(group@),
    {
        match self.classes.get(group) {
            Some(class) => *class,
            None => LP2P_CLASS_UNKNOWN,
        }
    }

    /// Sets, replaces or -- with any zero field in `rate` -- removes the limit for this class,
    /// scope and protocol.
    pub fn set_limit(&mut self, class: u8, scope: u8, protocol: u16, rate: lp2p_rate)
        ensures
            final(self)@ == old(self)@.with_limit(RuleId { class, scope, protocol }, rate),
            final(self)@.wf(),
    {
        proof {
            use_type_invariant(&*self);
        }
        let ghost before = self@;
        let id = RuleId { class, scope, protocol };
        let mut rules: Vec<Rule> = Vec::new();
        let mut i: usize = 0;
        assert(before.rules.take(0) =~= Seq::empty());
        while i < self.rules.len()
            invariant
                self@ == before,
                i <= before.rules.len(),
                rules@ == without(before.rules.take(i as int), id),
            decreases before.rules.len() - i,
        {
            let rule = self.rules[i];
            assert(before.rules.take(i + 1).drop_last() =~= before.rules.take(i as int));
            if rule.id != id {
                rules.push(rule);
            }
            i += 1;
        }
        assert(before.rules.take(i as int) =~= before.rules);
        proof {
            lemma_without(before.rules, id);
            let kept = without(before.rules, id);
            assert forall|a: int| 0 <= a < kept.len() implies (
            #[trigger] kept[a]).rate.is_on() by {
                assert(before.rules.contains(kept[a]));
                assert(before.rules[before.rules.index_of(kept[a])].rate.is_on());
            }
        }
        if rate.amount != 0 && rate.interval_ms != 0 && rate.burst != 0 {
            // A changed rate keeps the buckets: what a peer has used stays used.
            rules.push(Rule { id, rate });
            self.rules = rules;
        } else {
            self.rules = rules;
            self.forget(id);
        }
    }

    /// Forgets the buckets of a limit.
    fn forget(&mut self, id: RuleId)
        ensures
            final(self)@ == (LimitsView {
                buckets: old(self)@.buckets.restrict(
                    Set::new(
                        |k: (RuleId, KeyView)| old(self)@.buckets.contains_key(k) && k.0 != id,
                    ),
                ),
                ..old(self)@
            }),
            final(self)@.wf(),
    {
        proof {
            use_type_invariant(&*self);
        }
        let ghost before = self.buckets@;
        let mut buckets: Table<BucketKey, Bucket> = Table::new();
        assert(bucket_views(Map::empty()) =~= Map::empty());
        std::mem::swap(&mut buckets, &mut self.buckets);
        let mut kept: Table<BucketKey, Bucket> = Table::new();
        let mut n: usize = buckets.len();
        while n > 0
            invariant
                buckets@.dom().finite(),
                n == buckets@.dom().len(),
                forall|k: (RuleId, KeyView)| #[trigger]
                    buckets@.contains_key(k) ==> before.contains_key(k) && buckets@[k]
                        == before[k] && !kept@.contains_key(k),
                forall|k: (RuleId, KeyView)| #[trigger]
                    kept@.contains_key(k) ==> before.contains_key(k) && kept@[k] == before[k]
                        && k.0 != id,
                forall|k: (RuleId, KeyView)| #[trigger]
                    before.contains_key(k) && k.0 != id ==> buckets@.contains_key(k)
                        || kept@.contains_key(k),
            decreases n,
        {
            match buckets.pop() {
                Some(entry) => {
                    if entry.0.rule != id {
                        kept.insert_new(entry.0, entry.1);
                    }
                },
                None => {},
            }
            n -= 1;
        }
        proof {
            buckets@.dom().lemma_len0_is_empty();
            let wanted = before.restrict(
                Set::new(|k: (RuleId, KeyView)| before.contains_key(k) && k.0 != id),
            );
            assert(kept@ =~= wanted);
            assert(kept@.dom().subset_of(before.dom()));
            assert(bucket_views(before).dom() =~= before.dom());
            vstd::set_lib::lemma_set_subset_finite(before.dom(), kept@.dom());
            let views = bucket_views(before);
            assert(bucket_views(kept@).dom() =~= kept@.dom());
            assert(bucket_views(kept@) =~= views.restrict(
                Set::new(|k: (RuleId, KeyView)| views.contains_key(k) && k.0 != id),
            ));
        }
        self.buckets = kept;
    }

    /// The limit with an id.
    fn rule(&self, id: RuleId) -> (rule: Option<Rule>)
        ensures
            rule == rule_with(self@.rules, id),
            match rule {
                Some(rule) => self@.rules.contains(rule),
                None => true,
            },
    {
        let mut i: usize = 0;
        let ghost rules = self@.rules;
        assert(rules.skip(0) =~= rules);
        proof {
            lemma_rule_with(rules, id);
        }
        while i < self.rules.len()
            invariant
                i <= rules.len(),
                rules == self@.rules,
                rules == self.rules@,
                rule_with(rules, id) == rule_with(rules.skip(i as int), id),
            decreases rules.len() - i,
        {
            if self.rules[i].id == id {
                return Some(self.rules[i]);
            }
            assert(rules.skip(i as int).drop_first() =~= rules.skip(i + 1));
            i += 1;
        }
        None
    }

    /// Admits the request, or answers the reason it is refused: LP2P_LIMITED_BLOCKED, or the
    /// scope of the first limit that had no token left.
    pub fn check(&mut self, request: &Request, now: u64) -> (r: Result<(), u16>)
        ensures
            r == old(self)@.verdict(request@, now),
            final(self)@ == old(self)@.checked(request@, now),
            final(self)@.wf(),
    {
        proof {
            use_type_invariant(&*self);
        }
        let ghost before = self@;
        let class = self.class_of(request.group);
        if class == LP2P_CLASS_BLOCKED {
            return Err(LP2P_LIMITED_BLOCKED);
        }
        let found = self.matching(class, request);
        let ghost m = before.limits_on(request@);
        // Checked before anything is taken, so a request refused by one limit does not use up
        // the tokens of the others.
        let mut levels: Vec<Bucket> = Vec::new();
        let mut i: usize = 0;
        while i < found.len()
            invariant
                self@ == before,
                before == old(self)@,
                before.wf(),
                !before.blocked(request@),
                m == before.limits_on(request@),
                found@.len() == m.len(),
                forall|j: int|
                    0 <= j < m.len() ==> (#[trigger] found@[j]).0 == m[j].0 && found@[j].1@
                        == m[j].1,
                i <= m.len(),
                before.short(request@, now) == first_short(before.buckets, m, now, i as int),
                levels@.len() == i,
                forall|j: int|
                    0 <= j < i ==> (#[trigger] levels@[j])@ == refreshed(
                        before.buckets,
                        m[j].0,
                        m[j].1,
                        now,
                    ) && levels@[j]@.tokens >= 1 as real,
            decreases m.len() - i,
        {
            let rule = found[i].0;
            proof {
                lemma_matching(before.rules, before.class_of(request.group@), request@);
                assert(found@[i as int].0 == m[i as int].0);
            }
            let bucket = self.refreshed(&rule, &found[i].1, now);
            let short = bucket.tokens.below(1);
            levels.push(bucket);
            i += 1;
            if short {
                proof {
                    lemma_first_short(before.buckets, m, now, 0);
                }
                self.store(&found, &levels, false, request, now);
                return Err(rule.id.scope as u16);
            }
        }
        self.store(&found, &levels, true, request, now);
        if self.bucket_count() > MAX_BUCKETS {
            self.sweep(now);
        }
        Ok(())
    }

    /// The limits that apply to a request, and whose bucket it is.
    fn matching(&self, class: u8, request: &Request) -> (found: Vec<(Rule, Key)>)
        ensures
            found@.len() == matching(self@.rules, class, request@).len(),
            forall|j: int|
                0 <= j < found@.len() ==> (#[trigger] found@[j]).0 == matching(
                    self@.rules,
                    class,
                    request@,
                )[j].0 && found@[j].1@ == matching(self@.rules, class, request@)[j].1,
    {
        let ghost rules = self@.rules;
        let mut found: Vec<(Rule, Key)> = Vec::new();
        let mut i: usize = 0;
        assert(rules.take(0) =~= Seq::empty());
        while i < self.rules.len()
            invariant
                rules == self.rules@,
                i <= rules.len(),
                found@.len() == matching(rules.take(i as int), class, request@).len(),
                forall|j: int|
                    0 <= j < found@.len() ==> (#[trigger] found@[j]).0 == matching(
                        rules.take(i as int),
                        class,
                        request@,
                    )[j].0 && found@[j].1@ == matching(rules.take(i as int), class, request@)[j].1,
            decreases rules.len() - i,
        {
            let rule = self.rules[i];
            assert(rules.take(i + 1).drop_last() =~= rules.take(i as int));
            assert(rules.take(i + 1).last() == rule);
            if rule.id.class == class && (rule.id.protocol == LP2P_PROTOCOL_ANY
                || rule.id.protocol == request.protocol) {
                if rule.id.scope == LP2P_SCOPE_PEER {
                    found.push((rule, Key::Peer(request.peer.copy())));
                } else if rule.id.scope == LP2P_SCOPE_IP_PREFIX {
                    if let Some(ip) = &request.ip {
                        found.push((rule, Key::Prefix(prefix(ip))));
                    }
                } else {
                    found.push((rule, Key::Global));
                }
            }
            i += 1;
        }
        assert(rules.take(i as int) =~= rules);
        found
    }

    /// The bucket of a limit brought up to date, a full one where there is none yet.
    fn refreshed(&self, rule: &Rule, key: &Key, now: u64) -> (bucket: Bucket)
        requires
            self@.rules.contains(*rule),
        ensures
            bucket@ == refreshed(self@.buckets, *rule, key@, now),
    {
        proof {
            use_type_invariant(self);
            assert(self@.rules[self@.rules.index_of(*rule)].rate.is_on());
        }
        match self.buckets.get(&BucketKey { rule: rule.id, key: key.copy() }) {
            Some(bucket) => refill(bucket, &rule.rate, now),
            None => Bucket { tokens: Fraction::whole(rule.rate.burst), updated: now },
        }
    }

    /// Puts the first buckets of the limits on a request in their place, less a token each if
    /// `take`.
    fn store(
        &mut self,
        found: &Vec<(Rule, Key)>,
        levels: &Vec<Bucket>,
        take: bool,
        request: &Request,
        now: u64,
    )
        requires
            !old(self)@.blocked(request@),
            found@.len() == old(self)@.limits_on(request@).len(),
            forall|j: int|
                0 <= j < found@.len() ==> (#[trigger] found@[j]).0 == old(self)@.limits_on(
                    request@,
                )[j].0 && found@[j].1@ == old(self)@.limits_on(request@)[j].1,
            levels@.len() <= found@.len(),
            take ==> levels@.len() <= old(self)@.short(request@, now),
            forall|j: int|
                0 <= j < levels@.len() ==> (#[trigger] levels@[j])@ == refreshed(
                    old(self)@.buckets,
                    found@[j].0,
                    found@[j].1@,
                    now,
                ) && (take ==> levels@[j]@.tokens >= 1 as real),
        ensures
            final(self)@ == (LimitsView {
                buckets: touched(
                    old(self)@.buckets,
                    old(self)@.limits_on(request@),
                    now,
                    levels@.len() as int,
                    take,
                ),
                ..old(self)@
            }),
            final(self)@.wf(),
    {
        proof {
            use_type_invariant(&*self);
        }
        let ghost view = self@;
        let ghost m = view.limits_on(request@);
        let ghost before = view.buckets;
        let mut buckets: Table<BucketKey, Bucket> = Table::new();
        assert(bucket_views(Map::empty()) =~= Map::empty());
        std::mem::swap(&mut buckets, &mut self.buckets);
        let mut i: usize = 0;
        while i < levels.len()
            invariant
                before == view.buckets,
                view == old(self)@,
                m == view.limits_on(request@),
                i <= levels@.len() <= m.len() == found@.len(),
                forall|j: int|
                    0 <= j < found@.len() ==> (#[trigger] found@[j]).0 == m[j].0 && found@[j].1@
                        == m[j].1,
                forall|j: int|
                    0 <= j < levels@.len() ==> (#[trigger] levels@[j])@ == refreshed(
                        before,
                        found@[j].0,
                        found@[j].1@,
                        now,
                    ) && (take ==> levels@[j]@.tokens >= 1 as real),
                bucket_views(buckets@) == touched(before, m, now, i as int, take),
            decreases levels@.len() - i,
        {
            let rule = found[i].0;
            assert(found@[i as int].0 == m[i as int].0);
            assert(levels@[i as int]@ == refreshed(before, rule, m[i as int].1, now));
            let bucket = if take {
                Bucket { tokens: levels[i].tokens.minus_one(), updated: levels[i].updated }
            } else {
                levels[i].copy()
            };
            let ghost raw = buckets@;
            let ghost k = (rule.id, m[i as int].1);
            buckets.insert(BucketKey { rule: rule.id, key: found[i].1.copy() }, bucket);
            assert(bucket_views(buckets@) =~= bucket_views(raw).insert(k, bucket@));
            i += 1;
        }
        proof {
            lemma_touched_wf(view, request@, now, levels@.len() as int, take);
        }
        self.buckets = buckets;
        assert(self@ =~= (LimitsView {
            buckets: touched(view.buckets, m, now, levels@.len() as int, take),
            ..view
        }));
    }

    /// Forgets buckets that have refilled completely: they are indistinguishable from new ones.
    pub fn sweep(&mut self, now: u64)
        ensures
            final(self)@ == (LimitsView {
                buckets: swept(old(self)@.buckets, old(self)@.rules, now),
                ..old(self)@
            }),
            final(self)@.wf(),
    {
        proof {
            use_type_invariant(&*self);
        }
        let ghost view = self@;
        let ghost raw = self.buckets@;
        let ghost before = view.buckets;
        let ghost rules = self.rules@;
        let mut buckets: Table<BucketKey, Bucket> = Table::new();
        assert(bucket_views(Map::empty()) =~= Map::empty());
        std::mem::swap(&mut buckets, &mut self.buckets);
        let mut kept: Table<BucketKey, Bucket> = Table::new();
        let mut n: usize = buckets.len();
        while n > 0
            invariant
                view.wf(),
                before == view.buckets,
                before == bucket_views(raw),
                rules == view.rules,
                self@ == (LimitsView { buckets: Map::empty(), ..view }),
                buckets@.dom().finite(),
                n == buckets@.dom().len(),
                forall|k: (RuleId, KeyView)| #[trigger]
                    buckets@.contains_key(k) ==> before.contains_key(k) && buckets@[k]@
                        == before[k] && !kept@.contains_key(k),
                forall|k: (RuleId, KeyView)| #[trigger]
                    kept@.contains_key(k) ==> worth_keeping(before, rules, k, now) && kept@[k]@
                        == swept(before, rules, now)[k],
                forall|k: (RuleId, KeyView)| #[trigger]
                    worth_keeping(before, rules, k, now) ==> buckets@.contains_key(k)
                        || kept@.contains_key(k),
            decreases n,
        {
            match buckets.pop() {
                Some(entry) => {
                    if let Some(rule) = self.rule(entry.0.rule) {
                        proof {
                            assert(view.rules[view.rules.index_of(rule)].rate.is_on());
                            lemma_rule_with(rules, entry.0@.0);
                            assert(entry.0@ == (rule.id, entry.0@.1));
                        }
                        let bucket = refill(&entry.1, &rule.rate, now);
                        if bucket.tokens.below(rule.rate.burst) {
                            assert(worth_keeping(before, rules, entry.0@, now));
                            kept.insert_new(entry.0, bucket);
                        }
                    }
                },
                None => {},
            }
            n -= 1;
        }
        proof {
            buckets@.dom().lemma_len0_is_empty();
            assert(bucket_views(kept@) =~= swept(before, rules, now));
            lemma_swept(view, now);
        }
        self.buckets = kept;
    }

    /// Whether another LP2P_EV_LIMITED may be emitted now.
    pub fn may_report(&mut self, now: u64) -> (r: bool)
        ensures
            r == old(self)@.may_report(now),
            final(self)@ == old(self)@.asked_to_report(now),
            final(self)@.wf(),
    {
        proof {
            use_type_invariant(&*self);
        }
        let in_window = match self.events_window {
            Some(start) => now < start || now - start < SECOND,
            None => false,
        };
        if in_window {
            if self.events_in_window < u32::MAX {
                self.events_in_window = self.events_in_window + 1;
            }
            self.events_in_window <= EVENTS_PER_SECOND
        } else {
            self.events_window = Some(now);
            self.events_in_window = 1;
            true
        }
    }

    /// How many buckets there are.
    pub fn bucket_count(&self) -> (n: usize)
        ensures
            n == self@.buckets.dom().len(),
    {
        assert(self@.buckets.dom() =~= self.buckets@.dom());
        self.buckets.len()
    }
}

/// Bringing a bucket up to date does not change what it holds, then or later.
pub proof fn law_refill_is_silent(bucket: BucketView, rate: lp2p_rate, now: u64, later: u64)
    requires
        bucket.tokens >= 0 as real,
        rate.is_on(),
        bucket.updated <= now <= later,
    ensures
        level(
            BucketView { tokens: level(bucket, rate, now), updated: now },
            rate,
            later,
        ) == level(bucket, rate, later),
{
    lemma_gained(rate, elapsed(bucket.updated, now), elapsed(now, later));
}

/// A bucket fills up at its rate and no faster, and never holds more than its burst.
pub proof fn law_levels_rise_at_the_rate(bucket: BucketView, rate: lp2p_rate, now: u64, later: u64)
    requires
        bucket.tokens >= 0 as real,
        rate.is_on(),
        bucket.updated <= now <= later,
    ensures
        0 as real <= level(bucket, rate, later) <= full(rate),
        level(bucket, rate, now) <= level(bucket, rate, later),
        level(bucket, rate, later) <= level(bucket, rate, now) + gained(
            rate,
            (later - now) as nat,
        ),
        level(bucket, rate, later) < full(rate) ==> level(bucket, rate, later) == level(
            bucket,
            rate,
            now,
        ) + gained(rate, (later - now) as nat),
{
    lemma_gained(rate, elapsed(bucket.updated, now), elapsed(now, later));
}

/// What every bucket of every limit holds is the same in both, at a moment and later.
pub open spec fn same_levels(rules: Seq<Rule>, a: Buckets, b: Buckets, from: u64) -> bool {
    forall|rule: Rule, key: KeyView, later: u64|
        rules.contains(rule) && from <= later ==> #[trigger] level_of(a, rule, key, later)
            == #[trigger] level_of(b, rule, key, later)
}

proof fn lemma_sweep_levels(view: LimitsView, now: u64)
    requires
        view.wf(),
        view.settled(now),
    ensures
        same_levels(view.rules, view.buckets, swept(view.buckets, view.rules, now), now),
{
    let after = swept(view.buckets, view.rules, now);
    assert forall|rule: Rule, key: KeyView, later: u64|
        view.rules.contains(rule) && now <= later implies #[trigger] level_of(
        view.buckets,
        rule,
        key,
        later,
    ) == #[trigger] level_of(after, rule, key, later) by {
        let k = (rule.id, key);
        lemma_rule_with_own(view, rule);
        assert(view.rules[view.rules.index_of(rule)].rate.is_on());
        if view.buckets.contains_key(k) {
            law_refill_is_silent(view.buckets[k], rule.rate, now, later);
            law_levels_rise_at_the_rate(view.buckets[k], rule.rate, now, later);
        }
    }
}

/// A sweep takes nothing and adds nothing: every limit has what it had, then and later. A bucket
/// that was forgotten is indistinguishable from a new one; so it is under any rate that comes
/// later, unless that rate has a larger burst, to which a bucket starts filled only if it is new.
pub proof fn law_sweep_is_silent(
    view: LimitsView,
    now: u64,
    rule: Rule,
    key: KeyView,
    rate: lp2p_rate,
    later: u64,
)
    requires
        view.wf(),
        view.settled(now),
        view.rules.contains(rule),
        rate.is_on(),
        now <= later,
    ensures
        ({
            let after = swept(view.buckets, view.rules, now);
            &&& level_of(after, rule, key, later) == level_of(view.buckets, rule, key, later)
            &&& after.contains_key((rule.id, key)) || rate.burst <= rule.rate.burst ==> level_under(
                after,
                rule.id,
                key,
                rate,
                later,
            ) == level(refreshed(view.buckets, rule, key, now), rate, later)
        }),
{
    lemma_sweep_levels(view, now);
    lemma_rule_with_own(view, rule);
    lemma_gained(rate, elapsed(now, later), 0);
    assert(view.rules[view.rules.index_of(rule)].rate.is_on());
    if view.buckets.contains_key((rule.id, key)) {
        lemma_level(view.buckets[(rule.id, key)], rule.rate, now);
    }
}

/// What a bucket holds after those of some limits were brought up to date or taken from.
proof fn lemma_touched_level(
    view: LimitsView,
    request: RequestView,
    now: u64,
    n: int,
    take: bool,
    rule: Rule,
    key: KeyView,
)
    requires
        view.wf(),
        0 <= n <= view.limits_on(request).len(),
        view.rules.contains(rule),
    ensures
        ({
            let m = view.limits_on(request);
            let k = (rule.id, key);
            let after = touched(view.buckets, m, now, n, take);
            if m.take(n).contains((rule, key)) {
                after.contains_key(k) && after[k] == if take {
                    less_one(refreshed(view.buckets, rule, key, now))
                } else {
                    refreshed(view.buckets, rule, key, now)
                }
            } else {
                after.contains_key(k) == view.buckets.contains_key(k) && (
                view.buckets.contains_key(k) ==> after[k] == view.buckets[k])
            }
        }),
{
    let m = view.limits_on(request);
    let class = view.class_of(request.group);
    let after = touched(view.buckets, m, now, n, take);
    let k = (rule.id, key);
    lemma_matching(view.rules, class, request);
    assert(view.rules.take(view.rules.len() as int) =~= view.rules);
    lemma_matching_distinct(view, class, request, view.rules.len() as int);
    lemma_touched(view.buckets, m, now, n, take);
    let at = view.rules.index_of(rule);
    assert(view.rules[at] == rule);
    if exists|i: int| 0 <= i < n && ((#[trigger] m[i]).0.id, m[i].1) == k {
        let i = choose|i: int| 0 <= i < n && ((#[trigger] m[i]).0.id, m[i].1) == k;
        let other = view.rules.index_of(m[i].0);
        assert(view.rules.contains(m[i].0));
        assert(view.rules[other] == m[i].0);
        assert(m[i].0 == rule);
        assert(m.take(n)[i] == (rule, key));
    } else {
        if m.take(n).contains((rule, key)) {
            let i = m.take(n).index_of((rule, key));
            assert(m.take(n)[i] == m[i]);
            assert((m[i].0.id, m[i].1) == k);
        }
        assert(after.contains_key(k) == view.buckets.contains_key(k));
    }
}

/// Whether a bucket was used at this very moment and holds no more than its limit allows.
pub open spec fn up_to_date(buckets: Buckets, rule: Rule, key: KeyView, now: u64) -> bool {
    &&& buckets.contains_key((rule.id, key))
    &&& buckets[(rule.id, key)].updated == now
    &&& buckets[(rule.id, key)].tokens <= full(rule.rate)
}

/// A request that is refused takes no part of a token from any limit: every limit has what it had,
/// then and later. Under any rate that comes later, a bucket goes on either from where it stood
/// before or from what it held when the request came; the two are the same for the rate that is in
/// force and for a bucket that was up to date.
pub proof fn law_refused_takes_nothing(
    view: LimitsView,
    request: RequestView,
    now: u64,
    rule: Rule,
    key: KeyView,
    rate: lp2p_rate,
    later: u64,
)
    requires
        view.wf(),
        view.settled(now),
        view.verdict(request, now) is Err,
        view.rules.contains(rule),
        rate.is_on(),
        now <= later,
    ensures
        view.checked(request, now).rules == view.rules,
        view.checked(request, now).classes == view.classes,
        ({
            let after = view.checked(request, now).buckets;
            let left = level_under(after, rule.id, key, rate, later);
            let before = level_under(view.buckets, rule.id, key, rate, later);
            &&& level_of(after, rule, key, later) == level_of(view.buckets, rule, key, later)
            &&& left == before || left == level(
                refreshed(view.buckets, rule, key, now),
                rate,
                later,
            )
            &&& rate == rule.rate || up_to_date(view.buckets, rule, key, now) ==> left == before
        }),
{
    let k = (rule.id, key);
    assert(view.rules[view.rules.index_of(rule)].rate.is_on());
    lemma_gained(rule.rate, elapsed(now, later), 0);
    if view.buckets.contains_key(k) {
        law_refill_is_silent(view.buckets[k], rule.rate, now, later);
    }
    if !view.blocked(request) {
        lemma_first_short(view.buckets, view.limits_on(request), now, 0);
        lemma_touched_level(
            view,
            request,
            now,
            view.short(request, now) + 1,
            false,
            rule,
            key,
        );
    }
}

/// A request that is admitted takes exactly one token from each limit that applies to it, whatever
/// rate comes later, and nothing from any other.
pub proof fn law_admitted_takes_one(
    view: LimitsView,
    request: RequestView,
    now: u64,
    rule: Rule,
    key: KeyView,
    rate: lp2p_rate,
    later: u64,
)
    requires
        view.wf(),
        view.settled(now),
        view.verdict(request, now) is Ok,
        view.rules.contains(rule),
        rate.is_on(),
        now <= later,
    ensures
        ({
            let after = view.checked(request, now).buckets;
            let left = level_under(after, rule.id, key, rate, later);
            if view.limits_on(request).contains((rule, key)) {
                &&& level_of(after, rule, key, now) == level_of(view.buckets, rule, key, now)
                    - 1 as real
                &&& left == level(
                    less_one(refreshed(view.buckets, rule, key, now)),
                    rate,
                    later,
                )
            } else {
                &&& level_of(after, rule, key, later) == level_of(view.buckets, rule, key, later)
                &&& rate.burst <= rule.rate.burst ==> left == level_under(
                    view.buckets,
                    rule.id,
                    key,
                    rate,
                    later,
                ) || left == level(refreshed(view.buckets, rule, key, now), rate, later)
            }
        }),
{
    let m = view.limits_on(request);
    let k = (rule.id, key);
    let taken = touched(view.buckets, m, now, m.len() as int, true);
    let middle = LimitsView { buckets: taken, ..view };
    assert(view.rules[view.rules.index_of(rule)].rate.is_on());
    lemma_first_short(view.buckets, m, now, 0);
    assert(m.take(m.len() as int) =~= m);
    lemma_touched_level(view, request, now, m.len() as int, true, rule, key);
    lemma_touched_wf(view, request, now, m.len() as int, true);
    lemma_touched_settled(view, request, now, m.len() as int, true);
    lemma_rule_with_own(middle, rule);
    lemma_gained(rule.rate, elapsed(now, later), 0);
    law_sweep_is_silent(middle, now, rule, key, rate, later);
    if m.contains((rule, key)) {
        let i = m.index_of((rule, key));
        assert(m[i] == (rule, key));
        if view.buckets.contains_key(k) {
            lemma_level(view.buckets[k], rule.rate, now);
        }
        assert(worth_keeping(taken, view.rules, k, now));
    }
}

proof fn lemma_touched_settled(view: LimitsView, request: RequestView, now: u64, n: int, take: bool)
    requires
        view.wf(),
        view.settled(now),
        0 <= n <= view.limits_on(request).len(),
    ensures
        (LimitsView {
            buckets: touched(view.buckets, view.limits_on(request), now, n, take),
            ..view
        }).settled(now),
    decreases n,
{
    if n > 0 {
        lemma_touched_settled(view, request, now, n - 1, take);
        let m = view.limits_on(request);
        let before = LimitsView { buckets: touched(view.buckets, m, now, n - 1, take), ..view };
        let after = touched(view.buckets, m, now, n, take);
        assert forall|k: (RuleId, KeyView)| #[trigger] after.contains_key(k) implies after[k].updated
            <= now by {
            assert(before.buckets.contains_key(k) || k == (m[n - 1].0.id, m[n - 1].1));
        }
    }
}

/// Every limit that matches is asked: an admitted request finds a token in each.
pub proof fn law_admitted_only_with_tokens(
    view: LimitsView,
    request: RequestView,
    now: u64,
    rule: Rule,
)
    requires
        view.wf(),
        view.verdict(request, now) is Ok,
        view.rules.contains(rule),
        applies(rule, view.class_of(request.group), request),
    ensures
        view.class_of(request.group) != LP2P_CLASS_BLOCKED,
        level_of(view.buckets, rule, key_for(rule.id.scope, request)->0, now) >= 1 as real,
{
    let m = view.limits_on(request);
    let pair = (rule, key_for(rule.id.scope, request)->0);
    lemma_matching(view.rules, view.class_of(request.group), request);
    lemma_first_short(view.buckets, m, now, 0);
    let i = m.index_of(pair);
    assert(m[i] == pair);
}

/// Checking a request on a clock that does not go back leaves no bucket in the future.
pub proof fn law_checks_stay_settled(view: LimitsView, request: RequestView, now: u64)
    requires
        view.wf(),
        view.settled(now),
    ensures
        view.checked(request, now).settled(now),
        view.checked(request, now).rules == view.rules,
{
    let m = view.limits_on(request);
    lemma_first_short(view.buckets, m, now, 0);
    if !view.blocked(request) {
        if view.short(request, now) < m.len() {
            lemma_touched_settled(view, request, now, view.short(request, now) + 1, false);
        } else {
            lemma_touched_settled(view, request, now, m.len() as int, true);
        }
    }
}

proof fn lemma_checked_wf(view: LimitsView, request: RequestView, now: u64)
    requires
        view.wf(),
    ensures
        view.checked(request, now).wf(),
{
    let m = view.limits_on(request);
    lemma_first_short(view.buckets, m, now, 0);
    if !view.blocked(request) {
        if view.short(request, now) < m.len() {
            lemma_touched_wf(view, request, now, view.short(request, now) + 1, false);
        } else {
            lemma_touched_wf(view, request, now, m.len() as int, true);
            let middle = LimitsView {
                buckets: touched(view.buckets, m, now, m.len() as int, true),
                ..view
            };
            assert(middle.wf());
            lemma_swept(middle, now);
        }
    }
}

/// The limits after some requests were checked, each at its moment.
pub open spec fn checked_all(view: LimitsView, asked: Seq<(RequestView, u64)>) -> LimitsView
    decreases asked.len(),
{
    if asked.len() == 0 {
        view
    } else {
        checked_all(view, asked.drop_last()).checked(asked.last().0, asked.last().1)
    }
}

/// What each of some requests is answered, one after the other.
pub open spec fn verdicts(view: LimitsView, asked: Seq<(RequestView, u64)>) -> Seq<Result<(), u16>>
    decreases asked.len(),
{
    if asked.len() == 0 {
        Seq::empty()
    } else {
        verdicts(view, asked.drop_last()).push(
            checked_all(view, asked.drop_last()).verdict(asked.last().0, asked.last().1),
        )
    }
}

/// Whether the moments of some requests do not go back, nor before a given one.
pub open spec fn in_order(asked: Seq<(RequestView, u64)>, from: u64) -> bool {
    &&& forall|i: int, j: int| 0 <= i <= j < asked.len() ==> asked[i].1 <= asked[j].1
    &&& asked.len() > 0 ==> from <= asked[0].1
}

/// Whether two sets of limits have the same classes, the same limits, and the same left in each,
/// at a moment and later.
pub open spec fn agree(a: LimitsView, b: LimitsView, from: u64) -> bool {
    &&& a.classes == b.classes
    &&& a.rules == b.rules
    &&& same_levels(a.rules, a.buckets, b.buckets, from)
}

proof fn lemma_same_short(
    a: Buckets,
    b: Buckets,
    limits: Seq<(Rule, KeyView)>,
    now: u64,
    from: int,
)
    requires
        0 <= from <= limits.len(),
        forall|i: int|
            0 <= i < limits.len() ==> level_of(a, (#[trigger] limits[i]).0, limits[i].1, now)
                == level_of(b, limits[i].0, limits[i].1, now),
    ensures
        first_short(a, limits, now, from) == first_short(b, limits, now, from),
    decreases limits.len() - from,
{
    if from < limits.len() {
        assert(level_of(a, limits[from].0, limits[from].1, now) == level_of(
            b,
            limits[from].0,
            limits[from].1,
            now,
        ));
        lemma_same_short(a, b, limits, now, from + 1);
    }
}

/// What a limit has left after a request follows from what it had.
proof fn lemma_checked_level(
    view: LimitsView,
    request: RequestView,
    now: u64,
    rule: Rule,
    key: KeyView,
    later: u64,
)
    requires
        view.wf(),
        view.settled(now),
        view.rules.contains(rule),
        now <= later,
    ensures
        level_of(view.checked(request, now).buckets, rule, key, later) == if view.verdict(
            request,
            now,
        ) is Ok && view.limits_on(request).contains((rule, key)) {
            level(less_one(refreshed(view.buckets, rule, key, now)), rule.rate, later)
        } else {
            level_of(view.buckets, rule, key, later)
        },
{
    assert(view.rules[view.rules.index_of(rule)].rate.is_on());
    if view.verdict(request, now) is Ok {
        law_admitted_takes_one(view, request, now, rule, key, rule.rate, later);
    } else {
        law_refused_takes_nothing(view, request, now, rule, key, rule.rate, later);
    }
}

proof fn lemma_agree_once(a: LimitsView, b: LimitsView, request: RequestView, now: u64)
    requires
        a.wf(),
        b.wf(),
        a.settled(now),
        b.settled(now),
        agree(a, b, now),
    ensures
        a.verdict(request, now) == b.verdict(request, now),
        agree(a.checked(request, now), b.checked(request, now), now),
{
    let m = a.limits_on(request);
    lemma_matching(a.rules, a.class_of(request.group), request);
    assert forall|i: int| 0 <= i < m.len() implies level_of(
        a.buckets,
        (#[trigger] m[i]).0,
        m[i].1,
        now,
    ) == level_of(b.buckets, m[i].0, m[i].1, now) by {
        assert(a.rules.contains(m[i].0));
    }
    lemma_same_short(a.buckets, b.buckets, m, now, 0);
    let (x, y) = (a.checked(request, now).buckets, b.checked(request, now).buckets);
    assert forall|rule: Rule, key: KeyView, later: u64|
        a.rules.contains(rule) && now <= later implies #[trigger] level_of(x, rule, key, later)
        == #[trigger] level_of(y, rule, key, later) by {
        lemma_checked_level(a, request, now, rule, key, later);
        lemma_checked_level(b, request, now, rule, key, later);
        assert(level_of(a.buckets, rule, key, now) == level_of(b.buckets, rule, key, now));
        assert(level_of(a.buckets, rule, key, later) == level_of(b.buckets, rule, key, later));
    }
}

proof fn lemma_agree(a: LimitsView, b: LimitsView, from: u64, asked: Seq<(RequestView, u64)>)
    requires
        a.wf(),
        b.wf(),
        a.settled(from),
        b.settled(from),
        agree(a, b, from),
        in_order(asked, from),
    ensures
        verdicts(a, asked) == verdicts(b, asked),
        ({
            let last = if asked.len() == 0 {
                from
            } else {
                asked.last().1
            };
            let (x, y) = (checked_all(a, asked), checked_all(b, asked));
            x.wf() && y.wf() && x.settled(last) && y.settled(last) && agree(x, y, last)
        }),
    decreases asked.len(),
{
    if asked.len() > 0 {
        let init = asked.drop_last();
        let (request, now) = asked.last();
        assert(in_order(init, from)) by {
            if init.len() > 0 {
                assert(init[0] == asked[0]);
            }
        }
        lemma_agree(a, b, from, init);
        let (x, y) = (checked_all(a, init), checked_all(b, init));
        if init.len() > 0 {
            assert(init.last() == asked[asked.len() - 2]);
            assert(asked[asked.len() - 2].1 <= asked[asked.len() - 1].1);
        }
        assert(x.settled(now) && y.settled(now) && agree(x, y, now));
        lemma_agree_once(x, y, request, now);
        lemma_checked_wf(x, request, now);
        lemma_checked_wf(y, request, now);
        law_checks_stay_settled(x, request, now);
        law_checks_stay_settled(y, request, now);
    }
}

/// Nobody can tell that limits were swept: whatever is asked from then on is answered as without
/// the sweep.
pub proof fn law_sweep_is_not_noticed(
    view: LimitsView,
    now: u64,
    asked: Seq<(RequestView, u64)>,
)
    requires
        view.wf(),
        view.settled(now),
        in_order(asked, now),
    ensures
        verdicts(
            LimitsView { buckets: swept(view.buckets, view.rules, now), ..view },
            asked,
        ) == verdicts(view, asked),
{
    let after = LimitsView { buckets: swept(view.buckets, view.rules, now), ..view };
    lemma_swept(view, now);
    lemma_sweep_levels(view, now);
    lemma_agree(after, view, now, asked);
}

/// Nobody can tell that a request was refused: whatever is asked from then on is answered as
/// without it.
pub proof fn law_refused_is_not_noticed(
    view: LimitsView,
    request: RequestView,
    now: u64,
    asked: Seq<(RequestView, u64)>,
)
    requires
        view.wf(),
        view.settled(now),
        view.verdict(request, now) is Err,
        in_order(asked, now),
    ensures
        verdicts(view.checked(request, now), asked) == verdicts(view, asked),
{
    let after = view.checked(request, now);
    lemma_checked_wf(view, request, now);
    law_checks_stay_settled(view, request, now);
    assert forall|rule: Rule, key: KeyView, later: u64|
        view.rules.contains(rule) && now <= later implies #[trigger] level_of(
        after.buckets,
        rule,
        key,
        later,
    ) == #[trigger] level_of(view.buckets, rule, key, later) by {
        assert(view.rules[view.rules.index_of(rule)].rate.is_on());
        law_refused_takes_nothing(view, request, now, rule, key, rule.rate, later);
    }
    lemma_agree(after, view, now, asked);
}

/// How many of the requests were admitted and counted in a bucket of a limit.
pub open spec fn admitted(
    view: LimitsView,
    asked: Seq<(RequestView, u64)>,
    rule: Rule,
    key: KeyView,
) -> nat
    decreases asked.len(),
{
    if asked.len() == 0 {
        0
    } else {
        let before = checked_all(view, asked.drop_last());
        let (request, now) = asked.last();
        admitted(view, asked.drop_last(), rule, key) + (if before.verdict(request, now) is Ok
            && before.limits_on(request).contains((rule, key)) {
            1nat
        } else {
            0
        })
    }
}

proof fn lemma_level_of_rises(view: LimitsView, rule: Rule, key: KeyView, now: u64, later: u64)
    requires
        view.wf(),
        view.settled(now),
        view.rules.contains(rule),
        now <= later,
    ensures
        level_of(view.buckets, rule, key, later) <= level_of(view.buckets, rule, key, now) + gained(
            rule.rate,
            (later - now) as nat,
        ),
        0 as real <= level_of(view.buckets, rule, key, later) <= full(rule.rate),
{
    assert(view.rules[view.rules.index_of(rule)].rate.is_on());
    lemma_gained(rule.rate, (later - now) as nat, 0);
    if view.buckets.contains_key((rule.id, key)) {
        law_levels_rise_at_the_rate(view.buckets[(rule.id, key)], rule.rate, now, later);
    }
}

proof fn lemma_limit_holds(
    view: LimitsView,
    asked: Seq<(RequestView, u64)>,
    rule: Rule,
    key: KeyView,
)
    requires
        view.wf(),
        asked.len() > 0,
        view.settled(asked[0].1),
        view.rules.contains(rule),
        in_order(asked, asked[0].1),
    ensures
        ({
            let after = checked_all(view, asked);
            let last = asked.last().1;
            &&& after.wf()
            &&& after.settled(last)
            &&& after.rules == view.rules
            &&& 0 as real <= level_of(after.buckets, rule, key, last)
            &&& level_of(after.buckets, rule, key, last) + admitted(view, asked, rule, key) as real
                <= full(rule.rate) + gained(rule.rate, (last - asked[0].1) as nat)
        }),
    decreases asked.len(),
{
    let init = asked.drop_last();
    let (request, now) = asked.last();
    let before = checked_all(view, init);
    let first = asked[0].1;
    assert(asked[0].1 <= asked[asked.len() - 1].1);
    assert(view.rules[view.rules.index_of(rule)].rate.is_on());
    if init.len() == 0 {
        lemma_level_of_rises(view, rule, key, now, now);
        lemma_gained(rule.rate, 0, 0);
    } else {
        assert(init[0] == asked[0]);
        let last = init.last().1;
        assert(init.last() == asked[asked.len() - 2]);
        assert(asked[asked.len() - 2].1 <= asked[asked.len() - 1].1);
        assert(asked[0].1 <= asked[asked.len() - 2].1);
        lemma_limit_holds(view, init, rule, key);
        assert(before.settled(now));
        lemma_level_of_rises(before, rule, key, last, now);
        lemma_gained(rule.rate, (last - first) as nat, (now - last) as nat);
        assert((last - first) as nat + (now - last) as nat == (now - first) as nat);
    }
    let n = admitted(view, init, rule, key);
    assert(level_of(before.buckets, rule, key, now) + n as real <= full(rule.rate) + gained(
        rule.rate,
        (now - first) as nat,
    ));
    assert((n + 1) as real == n as real + 1 as real);
    assert(before.settled(now));
    lemma_checked_wf(before, request, now);
    law_checks_stay_settled(before, request, now);
    lemma_level_of_rises(before.checked(request, now), rule, key, now, now);
    if before.verdict(request, now) is Ok {
        law_admitted_takes_one(before, request, now, rule, key, rule.rate, now);
    } else {
        law_refused_takes_nothing(before, request, now, rule, key, rule.rate, now);
    }
}

/// A limit holds: whoever asks for what, the requests that are admitted and counted in one bucket
/// between two moments are no more than the burst and what the rate adds in the time between.
pub proof fn law_limit_holds(
    view: LimitsView,
    asked: Seq<(RequestView, u64)>,
    rule: Rule,
    key: KeyView,
)
    requires
        view.wf(),
        asked.len() > 0,
        view.settled(asked[0].1),
        view.rules.contains(rule),
        in_order(asked, asked[0].1),
    ensures
        admitted(view, asked, rule, key) as real <= rule.rate.burst as real + gained(
            rule.rate,
            (asked.last().1 - asked[0].1) as nat,
        ),
{
    lemma_limit_holds(view, asked, rule, key);
}

/// Addresses share a bucket of an IP-prefix limit exactly if they are in the same network: two IPv4
/// addresses if their first three octets are the same, two IPv6 addresses if their first seven are,
/// and never one of each.
pub proof fn law_networks(a: Seq<u8>, b: Seq<u8>)
    requires
        a.len() == 4 || a.len() == 16,
        b.len() == 4 || b.len() == 16,
    ensures
        prefix_of(a) == prefix_of(b) <==> a.len() == b.len() && a.take(
            if a.len() == 4 {
                3
            } else {
                7
            },
        ) == b.take(
            if a.len() == 4 {
                3
            } else {
                7
            },
        ),
{
    let (x, y) = (prefix_of(a), prefix_of(b));
    if x == y {
        assert(x[0] == y[0]);
        assert(a.len() == b.len());
        let k: int = if a.len() == 4 {
            3
        } else {
            7
        };
        assert(a.take(k) =~= x.subrange(1, 1 + k));
        assert(b.take(k) =~= y.subrange(1, 1 + k));
    }
}

/// Whose bucket a request is counted in. A limit per peer has one bucket for each peer, a limit per
/// network one for each network and none for a relayed connection, any other limit one for all. No
/// two kinds of limit count in the same bucket.
pub proof fn law_whose_bucket(a: RequestView, b: RequestView, scope: u8)
    requires
        a.ip is Some ==> a.ip->0.len() == 4 || a.ip->0.len() == 16,
        b.ip is Some ==> b.ip->0.len() == 4 || b.ip->0.len() == 16,
    ensures
        key_for(scope, a) is None <==> scope == 1 && a.ip is None,
        scope == 0 ==> (key_for(scope, a) == key_for(scope, b) <==> a.peer == b.peer),
        scope == 1 && a.ip is Some && b.ip is Some ==> (key_for(scope, a) == key_for(scope, b)
            <==> prefix_of(a.ip->0) == prefix_of(b.ip->0)),
        scope >= 2 ==> key_for(scope, a) == key_for(scope, b),
        key_for(0, a) != key_for(1, b) && key_for(0, a) != key_for(2, b) && key_for(1, a)
            != key_for(2, b),
{
}

/// Which limits a request has to pass: those of its group's class, for its protocol or for all, and
/// where a scope looks at the address only if there is one.
pub proof fn law_limits_that_apply(view: LimitsView, request: RequestView, rule: Rule, key: KeyView)
    ensures
        view.limits_on(request).contains((rule, key)) <==> {
            &&& view.rules.contains(rule)
            &&& rule.id.class == (if view.classes.contains_key(request.group) {
                view.classes[request.group]
            } else {
                0
            })
            &&& rule.id.protocol == 0xffff || rule.id.protocol == request.protocol
            &&& rule.id.scope != 1 || request.ip is Some
            &&& key_for(rule.id.scope, request) == Some(key)
        },
{
    let m = view.limits_on(request);
    lemma_matching(view.rules, view.class_of(request.group), request);
    if m.contains((rule, key)) {
        let i = m.index_of((rule, key));
        assert(m[i] == (rule, key));
    }
    assert(applies(rule, view.class_of(request.group), request) ==> view.rules.contains(rule)
        ==> m.contains((rule, key_for(rule.id.scope, request)->0)));
}

/// Limits are asked in the order in which they were set.
pub proof fn law_limits_in_order(a: Seq<Rule>, b: Seq<Rule>, class: u8, request: RequestView)
    ensures
        matching(a + b, class, request) == matching(a, class, request) + matching(
            b,
            class,
            request,
        ),
        matching(a, class, request).len() <= a.len(),
    decreases a.len() + b.len(),
{
    if b.len() > 0 {
        assert((a + b).drop_last() =~= a + b.drop_last());
        law_limits_in_order(a, b.drop_last(), class, request);
        assert(matching(a + b, class, request) =~= matching(a, class, request) + matching(
            b,
            class,
            request,
        ));
    } else {
        assert(a + b =~= a);
        assert(matching(a, class, request) + matching(b, class, request) =~= matching(
            a,
            class,
            request,
        ));
        if a.len() > 0 {
            assert(a.drop_last() + b =~= a.drop_last());
            law_limits_in_order(a.drop_last(), b, class, request);
        }
    }
}

/// What checking a request comes to. A blocked group is refused as blocked, whatever its limits. Any
/// other request passes exactly if each limit on it has a token, and is refused for the scope of the
/// first that has not.
pub proof fn law_verdict(view: LimitsView, request: RequestView, now: u64, i: int)
    ensures
        ({
            let limits = view.limits_on(request);
            let blocked = view.classes.contains_key(request.group) && view.classes[request.group]
                == 255;
            let verdict = view.verdict(request, now);
            &&& blocked ==> verdict == Err::<(), u16>(255)
            &&& !blocked && 0 <= i < limits.len() && verdict is Ok ==> level_of(
                view.buckets,
                limits[i].0,
                limits[i].1,
                now,
            ) >= 1 as real
            &&& !blocked && 0 <= i < limits.len() && level_of(
                view.buckets,
                limits[i].0,
                limits[i].1,
                now,
            ) < 1 as real && (forall|j: int|
                0 <= j < i ==> level_of(
                    view.buckets,
                    (#[trigger] limits[j]).0,
                    limits[j].1,
                    now,
                ) >= 1 as real) ==> verdict == Err::<(), u16>(limits[i].0.id.scope as u16)
            &&& !blocked && (forall|j: int|
                0 <= j < limits.len() ==> level_of(
                    view.buckets,
                    (#[trigger] limits[j]).0,
                    limits[j].1,
                    now,
                ) >= 1 as real) ==> verdict is Ok
        }),
{
    let limits = view.limits_on(request);
    lemma_first_short(view.buckets, limits, now, 0);
    let n = first_short(view.buckets, limits, now, 0);
    if 0 <= i < limits.len() && n < i {
        assert(level_of(view.buckets, limits[n].0, limits[n].1, now) < 1 as real);
    }
    if 0 <= i < limits.len() && i < n {
        assert(level_of(view.buckets, limits[i].0, limits[i].1, now) >= 1 as real);
    }
}

/// A class is a group's until it gets another; every group that nobody classified is in class 0. One
/// group's class is not another's business, and classes change no limit and no bucket.
pub proof fn law_classes(view: LimitsView, group: Seq<u8>, class: u8, other: Seq<u8>)
    ensures
        view.with_class(group, class).class_of(group) == class,
        other != group ==> view.with_class(group, class).class_of(other) == view.class_of(other),
        view.class_of(group) == (if view.classes.contains_key(group) {
            view.classes[group]
        } else {
            0
        }),
        view.with_class(group, 0).classes == view.classes.remove(group),
        view.with_class(group, class) == (LimitsView {
            classes: view.with_class(group, class).classes,
            ..view
        }),
{
}

/// A limit that is set is in force, behind all others, and the only one of its class, scope and
/// protocol; one with a zero in its rate is gone, and its buckets with it. Every other limit stays
/// in its order, and so do all other buckets.
pub proof fn law_set_limit(view: LimitsView, id: RuleId, rate: lp2p_rate, rule: Rule, key: (
    RuleId,
    KeyView,
))
    ensures
        ({
            let after = view.with_limit(id, rate);
            let on = rate.amount != 0 && rate.interval_ms != 0 && rate.burst != 0;
            &&& rule.id != id ==> (after.rules.contains(rule) <==> view.rules.contains(rule))
            &&& rule.id == id ==> (after.rules.contains(rule) <==> on && rule.rate == rate)
            &&& on ==> after.rules.len() > 0 && after.rules.last() == (Rule { id, rate })
                && after.buckets == view.buckets
            &&& !on ==> (after.buckets.contains_key(key) <==> view.buckets.contains_key(key)
                && key.0 != id)
            &&& after.buckets.contains_key(key) ==> after.buckets[key] == view.buckets[key]
            &&& after == (LimitsView { rules: after.rules, buckets: after.buckets, ..view })
        }),
{
    let after = view.with_limit(id, rate);
    let kept = without(view.rules, id);
    lemma_without(view.rules, id);
    lemma_without_keeps(view.rules, id, rule);
    if rate.is_on() {
        assert(after.rules.last() == (Rule { id, rate }));
        assert(after.rules[after.rules.len() - 1] == (Rule { id, rate }));
        if kept.contains(rule) {
            assert(after.rules[kept.index_of(rule)] == rule);
        }
        if after.rules.contains(rule) && rule != (Rule { id, rate }) {
            assert(kept[after.rules.index_of(rule)] == rule);
        }
    }
    if rule.id == id && kept.contains(rule) {
        assert(kept[kept.index_of(rule)].id != id);
    }
}

proof fn lemma_without_keeps(rules: Seq<Rule>, id: RuleId, rule: Rule)
    ensures
        rule.id != id ==> (without(rules, id).contains(rule) <==> rules.contains(rule)),
    decreases rules.len(),
{
    if rules.len() > 0 {
        let init = rules.drop_last();
        let (a, b) = (without(init, id), without(rules, id));
        lemma_without_keeps(init, id, rule);
        assert(rules =~= init.push(rules.last()));
        assert(rules.contains(rule) <==> init.contains(rule) || rule == rules.last()) by {
            if init.contains(rule) {
                assert(rules[init.index_of(rule)] == rule);
            }
            assert(rules[rules.len() - 1] == rules.last());
            if rules.contains(rule) && rule != rules.last() {
                assert(init[rules.index_of(rule)] == rule);
            }
        }
        if rules.last().id != id {
            assert(b.contains(rule) <==> a.contains(rule) || rule == rules.last()) by {
                if a.contains(rule) {
                    assert(b[a.index_of(rule)] == rule);
                }
                assert(b[b.len() - 1] == rules.last());
                if b.contains(rule) && rule != rules.last() {
                    assert(a[b.index_of(rule)] == rule);
                }
            }
        }
    }
}

/// Limits that stay keep their order among each other when one of them is set.
pub proof fn law_other_limits_keep_their_order(a: Seq<Rule>, b: Seq<Rule>, rule: Rule, id: RuleId)
    ensures
        without(a + b, id) == without(a, id) + without(b, id),
        rule.id != id ==> without(seq![rule], id) == seq![rule],
        rule.id == id ==> without(seq![rule], id).len() == 0,
    decreases b.len(),
{
    assert(seq![rule].drop_last() =~= Seq::empty());
    assert(without(seq![rule].drop_last(), id) =~= Seq::empty());
    assert(rule.id != id ==> without(seq![rule], id) =~= seq![rule]);
    if b.len() > 0 {
        assert((a + b).drop_last() =~= a + b.drop_last());
        law_other_limits_keep_their_order(a, b.drop_last(), rule, id);
        assert(without(a + b, id) =~= without(a, id) + without(b, id));
    } else {
        assert(a + b =~= a);
        assert(without(a, id) + without(b, id) =~= without(a, id));
    }
}

/// A rate adds its amount in every interval, evenly: twice the time adds twice as much, an interval
/// adds the amount, and no time adds nothing. A bucket that nobody has used holds the burst.
pub proof fn law_rates(rate: lp2p_rate, time: nat, more: nat, rule: Rule, key: KeyView, now: u64)
    requires
        rate.is_on(),
    ensures
        gained(rate, (rate.interval_ms * 1_000_000) as nat) == rate.amount as real,
        gained(rate, time + more) == gained(rate, time) + gained(rate, more),
        gained(rate, time) >= 0 as real,
        gained(rate, 0) == 0 as real,
        level_of(Map::empty(), rule, key, now) == rule.rate.burst as real,
{
    lemma_gained(rate, time, more);
    let i = (rate.interval_ms * MILLISECOND) as nat;
    let a = rate.amount as nat;
    assert((i * a) as real == i as real * a as real) by (nonlinear_arith);
    let (x, y) = (i as real, a as real);
    assert(x * y / x == y) by (nonlinear_arith)
        requires
            x > 0 as real,
    ;
}

/// What a bucket holds under a rate: what it held and what was gained since, up to the burst. A
/// moment before it was used counts as the moment it was used.
pub proof fn law_level(bucket: BucketView, rate: lp2p_rate, now: u64)
    requires
        bucket.tokens >= 0 as real,
        rate.is_on(),
    ensures
        ({
            let time: nat = if now > bucket.updated {
                (now - bucket.updated) as nat
            } else {
                0
            };
            let sum = bucket.tokens + gained(rate, time);
            &&& level(bucket, rate, now) <= sum
            &&& level(bucket, rate, now) <= rate.burst as real
            &&& level(bucket, rate, now) == sum || level(bucket, rate, now) == rate.burst as real
        }),
{
}

/// A sweep keeps exactly the buckets whose limit is in force and that are not full.
pub proof fn law_sweep_keeps(view: LimitsView, now: u64, rule: Rule, key: KeyView)
    requires
        view.wf(),
    ensures
        ({
            let after = swept(view.buckets, view.rules, now);
            let k = (rule.id, key);
            &&& view.rules.contains(rule) ==> (after.contains_key(k) <==> view.buckets.contains_key(
                k,
            ) && level(view.buckets[k], rule.rate, now) < rule.rate.burst as real)
            &&& (forall|i: int|
                0 <= i < view.rules.len() ==> (#[trigger] view.rules[i]).id != rule.id)
                ==> !after.contains_key(k)
        }),
{
    lemma_rule_with(view.rules, rule.id);
    if view.rules.contains(rule) {
        lemma_rule_with_own(view, rule);
    } else if rule_with(view.rules, rule.id) is Some {
        let found = rule_with(view.rules, rule.id)->0;
        assert(view.rules[view.rules.index_of(found)].id == rule.id);
    }
}

/// Buckets are swept when there are more than 65536 of them, and only by requests that pass: no
/// other check forgets a bucket.
pub proof fn law_buckets_are_bounded(
    view: LimitsView,
    request: RequestView,
    now: u64,
    k: (RuleId, KeyView),
)
    requires
        view.wf(),
    ensures
        ({
            let after = view.checked(request, now);
            &&& after == (LimitsView { buckets: after.buckets, ..view })
            &&& view.verdict(request, now) is Err && view.buckets.contains_key(k)
                ==> after.buckets.contains_key(k)
            &&& view.buckets.contains_key(k) && !after.buckets.contains_key(k) ==> touched(
                view.buckets,
                view.limits_on(request),
                now,
                view.limits_on(request).len() as int,
                true,
            ).dom().len() > 65536
        }),
{
    let m = view.limits_on(request);
    lemma_first_short(view.buckets, m, now, 0);
    if !view.blocked(request) {
        lemma_touched_dom(view.buckets, m, now, view.short(request, now) + 1, false);
        lemma_touched_dom(view.buckets, m, now, m.len() as int, true);
    }
}

proof fn lemma_touched_dom(
    buckets: Buckets,
    limits: Seq<(Rule, KeyView)>,
    now: u64,
    n: int,
    take: bool,
)
    ensures
        forall|k: (RuleId, KeyView)| #[trigger]
            buckets.contains_key(k) ==> touched(buckets, limits, now, n, take).contains_key(k),
    decreases n,
{
    if n > 0 {
        lemma_touched_dom(buckets, limits, now, n - 1, take);
    }
}

/// A refused request brings the buckets of the limits that were asked up to date, at the rates in
/// force, and takes nothing from them; the buckets of limits behind the one that refused it stay as
/// they were, and so do all others.
pub proof fn law_refused_brings_up_to_date(
    view: LimitsView,
    request: RequestView,
    now: u64,
    i: int,
    rule: Rule,
    key: KeyView,
)
    requires
        view.wf(),
        !(view.classes.contains_key(request.group) && view.classes[request.group] == 255),
        0 <= i < view.limits_on(request).len(),
        level_of(
            view.buckets,
            view.limits_on(request)[i].0,
            view.limits_on(request)[i].1,
            now,
        ) < 1 as real,
        forall|j: int|
            0 <= j < i ==> level_of(
                view.buckets,
                (#[trigger] view.limits_on(request)[j]).0,
                view.limits_on(request)[j].1,
                now,
            ) >= 1 as real,
        view.rules.contains(rule),
    ensures
        ({
            let after = view.checked(request, now).buckets;
            let k = (rule.id, key);
            if view.limits_on(request).take(i + 1).contains((rule, key)) {
                &&& after.contains_key(k)
                &&& after[k].updated == now
                &&& after[k].tokens == level_of(view.buckets, rule, key, now)
            } else {
                &&& after.contains_key(k) == view.buckets.contains_key(k)
                &&& view.buckets.contains_key(k) ==> after[k] == view.buckets[k]
            }
        }),
{
    let limits = view.limits_on(request);
    lemma_first_short(view.buckets, limits, now, 0);
    let n = first_short(view.buckets, limits, now, 0);
    if n < i {
        assert(level_of(view.buckets, limits[n].0, limits[n].1, now) < 1 as real);
    }
    assert(n == i);
    lemma_touched_level(view, request, now, i + 1, false, rule, key);
}

/// Ten reports are made in a second, counted from the first; then none until the second is over, and
/// then ten again. Asking changes nothing else.
pub proof fn law_reports(view: LimitsView, now: u64)
    ensures
        ({
            let after = view.asked_to_report(now);
            let fresh = view.events_window is None || (view.events_window->0 <= now && now
                - view.events_window->0 >= 1_000_000_000);
            &&& fresh ==> view.may_report(now) && after.events_window == Some(now)
                && after.events_in_window == 1
            &&& !fresh ==> (view.may_report(now) <==> view.events_in_window < 10)
            &&& !fresh ==> after.events_window == view.events_window
            &&& !fresh && view.events_in_window < u32::MAX ==> after.events_in_window
                == view.events_in_window + 1
            &&& after == (LimitsView {
                events_window: after.events_window,
                events_in_window: after.events_in_window,
                ..view
            })
        }),
{
}

/// How often a report may be made when somebody asks at each of some moments.
pub open spec fn reports(view: LimitsView, times: Seq<u64>) -> nat
    decreases times.len(),
{
    if times.len() == 0 {
        0
    } else {
        (if view.may_report(times[0]) {
            1nat
        } else {
            0
        }) + reports(view.asked_to_report(times[0]), times.drop_first())
    }
}

/// However often somebody asks within a second, no more than the allowed number of reports is
/// made.
pub proof fn law_reports_are_bounded(view: LimitsView, times: Seq<u64>)
    requires
        view.events_window is Some,
        forall|i: int|
            0 <= i < times.len() ==> elapsed(view.events_window->0, #[trigger] times[i]) < SECOND,
    ensures
        reports(view, times) + view.events_in_window <= EVENTS_PER_SECOND || (
        view.events_in_window >= EVENTS_PER_SECOND && reports(view, times) == 0),
    decreases times.len(),
{
    if times.len() > 0 {
        let next = view.asked_to_report(times[0]);
        let rest = times.drop_first();
        assert forall|i: int| 0 <= i < rest.len() implies elapsed(
            next.events_window->0,
            #[trigger] rest[i],
        ) < SECOND by {
            assert(rest[i] == times[i + 1]);
        }
        law_reports_are_bounded(next, rest);
    }
}

/// A fixed token bucket per peer, for announcements: gossipsub delivers what any peer publishes,
/// and without this one node could make every other node report a stream of them.
pub struct SourceRate {
    interval: u64,
    burst: u32,
    buckets: Table<PeerId, SourceBucket>,
}

#[derive(Clone, Copy, Debug, PartialEq, Eq, Structural)]
pub struct SourceBucket {
    /// In parts of a token, of which an interval in nanoseconds makes one token.
    pub tokens: u128,
    pub updated: u64,
}

/// What a source rate is and how it is used.
#[verifier::ext_equal]
pub struct SourceRateView {
    /// The nanoseconds in which a token is added.
    pub interval: u64,
    pub burst: u32,
    pub buckets: Map<(u64, Seq<u8>), SourceBucket>,
}

impl SourceRateView {
    pub open spec fn full(self) -> nat {
        self.burst as nat * self.interval as nat
    }

    pub open spec fn wf(self) -> bool {
        &&& forall|p: (u64, Seq<u8>)| #[trigger]
            self.buckets.contains_key(p) ==> self.buckets[p].tokens <= self.full()
        &&& self.buckets.dom().finite()
    }

    /// What the bucket of a peer holds at some moment: one that nobody has used is full.
    pub open spec fn level(self, peer: (u64, Seq<u8>), now: u64) -> nat {
        if self.buckets.contains_key(peer) {
            filled(
                self.buckets[peer].tokens as nat,
                elapsed(self.buckets[peer].updated, now),
                1,
                self.full(),
            )
        } else {
            self.full()
        }
    }

    /// Without the buckets that are full again.
    pub open spec fn swept(self, now: u64) -> SourceRateView {
        SourceRateView {
            buckets: self.buckets.restrict(
                Set::new(
                    |p: (u64, Seq<u8>)|
                        self.buckets.contains_key(p) && self.level(p, now) < self.full(),
                ),
            ),
            ..self
        }
    }

    /// What is looked at when a peer asks: too many buckets are swept first.
    pub open spec fn tidy(self, now: u64) -> SourceRateView {
        if self.buckets.dom().len() > MAX_BUCKETS {
            self.swept(now)
        } else {
            self
        }
    }

    /// Whether a peer has a token left.
    pub open spec fn allows(self, peer: (u64, Seq<u8>), now: u64) -> bool {
        self.burst > 0 && self.tidy(now).level(peer, now) >= self.interval
    }

    /// The rate after a peer asked, and took a token if it had one.
    pub open spec fn asked(self, peer: (u64, Seq<u8>), now: u64) -> SourceRateView {
        let tidy = self.tidy(now);
        SourceRateView {
            buckets: tidy.buckets.insert(
                peer,
                SourceBucket {
                    tokens: (tidy.level(peer, now) - (if self.allows(peer, now) {
                        self.interval as int
                    } else {
                        0
                    })) as u128,
                    updated: now,
                },
            ),
            ..self
        }
    }
}

impl View for SourceRate {
    type V = SourceRateView;

    closed spec fn view(&self) -> SourceRateView {
        SourceRateView { interval: self.interval, burst: self.burst, buckets: self.buckets@ }
    }
}

impl SourceRate {
    #[verifier::type_invariant]
    spec fn inv(self) -> bool {
        self@.wf()
    }

    /// One token per `interval` nanoseconds, at most `burst` of them in reserve.
    pub fn new(interval: u64, burst: u32) -> (rate: Self)
        ensures
            rate@ == (SourceRateView { interval, burst, buckets: Map::empty() }),
            rate@.wf(),
    {
        SourceRate { interval, burst, buckets: Table::new() }
    }

    pub fn allow(&mut self, peer: PeerId, now: u64) -> (r: bool)
        ensures
            r == old(self)@.allows(peer@, now),
            final(self)@ == old(self)@.asked(peer@, now),
            final(self)@.wf(),
    {
        proof {
            use_type_invariant(&*self);
        }
        let ghost start = self@;
        if self.buckets.len() > MAX_BUCKETS {
            self.sweep(now);
        }
        let ghost tidy = start.tidy(now);
        assert(self@ == tidy);
        proof {
            use_type_invariant(&*self);
            lemma_source_full(tidy);
        }
        let size: u128 = self.burst as u128 * self.interval as u128;
        let tokens: u128 = match self.buckets.get(&peer) {
            Some(bucket) => source_level(bucket, size, now),
            None => size,
        };
        let allowed = self.burst > 0 && tokens >= self.interval as u128;
        let left: u128 = if allowed {
            tokens - self.interval as u128
        } else {
            tokens
        };
        let mut buckets: Table<PeerId, SourceBucket> = Table::new();
        std::mem::swap(&mut buckets, &mut self.buckets);
        buckets.insert(peer, SourceBucket { tokens: left, updated: now });
        self.buckets = buckets;
        assert(self@ =~= start.asked(peer@, now));
        allowed
    }

    /// Forgets the buckets that are full again.
    fn sweep(&mut self, now: u64)
        ensures
            final(self)@ == old(self)@.swept(now),
    {
        proof {
            use_type_invariant(&*self);
            lemma_source_full(self@);
        }
        let ghost view = self@;
        let ghost before = self.buckets@;
        let size: u128 = self.burst as u128 * self.interval as u128;
        let mut buckets: Table<PeerId, SourceBucket> = Table::new();
        std::mem::swap(&mut buckets, &mut self.buckets);
        let mut kept: Table<PeerId, SourceBucket> = Table::new();
        let mut n: usize = buckets.len();
        while n > 0
            invariant
                view.wf(),
                before == view.buckets,
                size == view.full(),
                size <= 0xffff_ffff * 0xffff_ffff_ffff_ffff,
                buckets@.dom().finite(),
                n == buckets@.dom().len(),
                forall|p: (u64, Seq<u8>)| #[trigger]
                    buckets@.contains_key(p) ==> before.contains_key(p) && buckets@[p]
                        == before[p] && !kept@.contains_key(p),
                forall|p: (u64, Seq<u8>)| #[trigger]
                    kept@.contains_key(p) ==> before.contains_key(p) && kept@[p] == before[p]
                        && view.level(p, now) < view.full(),
                forall|p: (u64, Seq<u8>)|
                    #![trigger before.contains_key(p)]
                    before.contains_key(p) && view.level(p, now) < view.full()
                        ==> buckets@.contains_key(p) || kept@.contains_key(p),
            decreases n,
        {
            match buckets.pop() {
                Some(entry) => {
                    if source_level(&entry.1, size, now) < size {
                        kept.insert_new(entry.0, entry.1);
                    }
                },
                None => {},
            }
            n -= 1;
        }
        proof {
            buckets@.dom().lemma_len0_is_empty();
            assert(kept@ =~= view.swept(now).buckets);
            assert(kept@.dom().subset_of(before.dom()));
            vstd::set_lib::lemma_set_subset_finite(before.dom(), kept@.dom());
        }
        self.buckets = kept;
    }
}

fn source_level(bucket: &SourceBucket, size: u128, now: u64) -> (level: u128)
    requires
        bucket.tokens <= size <= 0xffff_ffff * 0xffff_ffff_ffff_ffff,
    ensures
        level == filled(bucket.tokens as nat, elapsed(bucket.updated, now), 1, size as nat),
{
    let time: u128 = if bucket.updated < now {
        (now - bucket.updated) as u128
    } else {
        0
    };
    let sum: u128 = bucket.tokens + time;
    if sum < size {
        sum
    } else {
        size
    }
}

proof fn lemma_source_full(view: SourceRateView)
    ensures
        view.full() <= 0xffff_ffff * 0xffff_ffff_ffff_ffff,
{
    let b = view.burst as int;
    let i = view.interval as int;
    assert(b * i <= 0xffff_ffff * 0xffff_ffff_ffff_ffff) by (nonlinear_arith)
        requires
            0 <= b <= 0xffff_ffff,
            0 <= i <= 0xffff_ffff_ffff_ffff,
    ;
}

/// One source does not use up another's tokens, and forgetting full buckets cannot be told: what
/// any other peer has left is the same before and after.
pub proof fn law_sources_are_apart(
    view: SourceRateView,
    peer: (u64, Seq<u8>),
    other: (u64, Seq<u8>),
    now: u64,
    later: u64,
)
    requires
        view.wf(),
        peer != other,
        now <= later,
        sources_settled(view, now),
    ensures
        view.asked(peer, now).level(other, later) == view.level(other, later),
{
}

/// A peer that asks takes one token if it is allowed, and none if it is not.
pub proof fn law_source_takes_one(view: SourceRateView, peer: (u64, Seq<u8>), now: u64)
    requires
        view.wf(),
        sources_settled(view, now),
    ensures
        view.allows(peer, now) == (view.burst > 0 && view.level(peer, now) >= view.interval),
        view.asked(peer, now).level(peer, now) == (if view.allows(peer, now) {
            view.level(peer, now) - view.interval
        } else {
            view.level(peer, now) as int
        }),
{
    lemma_source_full(view);
}

/// A source that nobody has heard may be heard as often as the burst says; what it has used comes
/// back one at a time, one in every interval, up to the burst.
pub proof fn law_source_refills(view: SourceRateView, peer: (u64, Seq<u8>), now: u64, later: u64)
    requires
        view.wf(),
        sources_settled(view, now),
        now <= later,
    ensures
        !view.buckets.contains_key(peer) ==> view.level(peer, now) == view.burst * view.interval,
        view.level(peer, later) <= view.burst * view.interval,
        view.level(peer, later) <= view.level(peer, now) + (later - now),
        view.level(peer, later) == view.level(peer, now) + (later - now) || view.level(peer, later)
            == view.burst * view.interval,
        view.buckets.contains_key(peer) && view.buckets[peer].updated == now ==> view.level(
            peer,
            now,
        ) == view.buckets[peer].tokens,
        view.asked(peer, now).buckets.contains_key(peer),
        view.asked(peer, now).buckets[peer].updated == now,
        view.asked(peer, now).interval == view.interval,
        view.asked(peer, now).burst == view.burst,
{
}

/// No source is forgotten while there are no more than 65536; then those that have all their tokens
/// back are.
pub proof fn law_sources_are_bounded(
    view: SourceRateView,
    peer: (u64, Seq<u8>),
    other: (u64, Seq<u8>),
    now: u64,
)
    requires
        other != peer,
    ensures
        ({
            let after = view.asked(peer, now).buckets;
            &&& after.contains_key(peer)
            &&& after.contains_key(other) ==> view.buckets.contains_key(other) && after[other]
                == view.buckets[other]
            &&& view.buckets.dom().len() <= 65536 ==> (after.contains_key(other)
                <==> view.buckets.contains_key(other))
            &&& view.buckets.dom().len() > 65536 && view.buckets.contains_key(other) ==> (
            after.contains_key(other) <==> view.level(other, now) < view.burst * view.interval)
        }),
{
}

/// The rate after a peer asked at each of some moments.
pub open spec fn asked_all(
    view: SourceRateView,
    peer: (u64, Seq<u8>),
    times: Seq<u64>,
) -> SourceRateView
    decreases times.len(),
{
    if times.len() == 0 {
        view
    } else {
        asked_all(view, peer, times.drop_last()).asked(peer, times.last())
    }
}

/// How often a peer was allowed when it asked at each of some moments.
pub open spec fn allowed(view: SourceRateView, peer: (u64, Seq<u8>), times: Seq<u64>) -> nat
    decreases times.len(),
{
    if times.len() == 0 {
        0
    } else {
        allowed(view, peer, times.drop_last()) + (if asked_all(
            view,
            peer,
            times.drop_last(),
        ).allows(peer, times.last()) {
            1nat
        } else {
            0
        })
    }
}

/// No bucket was used later than at a given moment.
pub open spec fn sources_settled(view: SourceRateView, now: u64) -> bool {
    forall|p: (u64, Seq<u8>)| #[trigger]
        view.buckets.contains_key(p) ==> view.buckets[p].updated <= now
}

proof fn lemma_source_holds(view: SourceRateView, peer: (u64, Seq<u8>), times: Seq<u64>)
    requires
        view.wf(),
        times.len() > 0,
        sources_settled(view, times[0]),
        forall|i: int, j: int| 0 <= i <= j < times.len() ==> times[i] <= times[j],
    ensures
        ({
            let after = asked_all(view, peer, times);
            &&& after.wf()
            &&& sources_settled(after, times.last())
            &&& after.interval == view.interval
            &&& after.burst == view.burst
            &&& after.level(peer, times.last()) + allowed(view, peer, times) * view.interval
                <= view.full() + (times.last() - times[0])
        }),
    decreases times.len(),
{
    let init = times.drop_last();
    let now = times.last();
    let before = asked_all(view, peer, init);
    let n = allowed(view, peer, init) as int;
    let i = view.interval as int;
    lemma_source_full(view);
    if init.len() == 0 {
        assert(0 * i == 0) by (nonlinear_arith);
    } else {
        assert(init[0] == times[0]);
        assert(init.last() == times[times.len() - 2]);
        lemma_source_holds(view, peer, init);
    }
    assert(sources_settled(before, now));
    assert((n + 1) * i == n * i + i) by (nonlinear_arith);
    law_source_takes_one(before, peer, now);
    let after = before.asked(peer, now);
    let tidy = before.tidy(now);
    assert(tidy.buckets.dom().subset_of(before.buckets.dom()));
    vstd::set_lib::lemma_set_subset_finite(before.buckets.dom(), tidy.buckets.dom());
    assert forall|p: (u64, Seq<u8>)| #[trigger] after.buckets.contains_key(p) implies after.buckets[
        p
    ].tokens <= after.full() && after.buckets[p].updated <= now by {
        if p != peer {
            assert(tidy.buckets.contains_key(p));
            assert(before.buckets.contains_key(p));
        }
    }
}

/// A source is heard at its rate: what a peer is allowed between two moments is no more than the
/// burst and one for every interval between.
pub proof fn law_source_rate_holds(view: SourceRateView, peer: (u64, Seq<u8>), times: Seq<u64>)
    requires
        view.wf(),
        times.len() > 0,
        sources_settled(view, times[0]),
        forall|i: int, j: int| 0 <= i <= j < times.len() ==> times[i] <= times[j],
    ensures
        allowed(view, peer, times) * view.interval <= view.burst * view.interval + (times.last()
            - times[0]),
{
    lemma_source_holds(view, peer, times);
}

} // verus!
