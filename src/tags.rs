//! Access-control tags and the retry state of a peer.

use vstd::prelude::*;

use crate::addr::MAX_RETRY_COUNT;

verus! {

/// A mark on a peer that admission and dialling consult.
#[derive(Debug, Clone, Copy, PartialEq, Eq, Structural)]
pub enum Tag {
    AlwaysAllow,
    Consensus,
    Ban { until: u64 },
}

/// The kind of a tag, without its payload.
#[derive(Debug, Clone, Copy, PartialEq, Eq, Structural)]
pub enum TagKind {
    AlwaysAllow,
    Consensus,
    Ban,
}

pub open spec fn kind_of(t: Tag) -> TagKind {
    match t {
        Tag::AlwaysAllow => TagKind::AlwaysAllow,
        Tag::Consensus => TagKind::Consensus,
        Tag::Ban { .. } => TagKind::Ban,
    }
}

impl Tag {
    pub fn kind(&self) -> (r: TagKind)
        ensures
            r == kind_of(*self),
    {
        match self {
            Tag::AlwaysAllow => TagKind::AlwaysAllow,
            Tag::Consensus => TagKind::Consensus,
            Tag::Ban { .. } => TagKind::Ban,
        }
    }
}

/// The tags of one peer: at most one of each kind.
#[derive(Debug, Clone, Copy, PartialEq, Eq, Structural)]
pub struct Tags {
    pub always_allow: bool,
    pub consensus: bool,
    pub ban_until: Option<u64>,
}

pub open spec fn tags_contain(t: Tags, k: TagKind) -> bool {
    match k {
        TagKind::AlwaysAllow => t.always_allow,
        TagKind::Consensus => t.consensus,
        TagKind::Ban => t.ban_until.is_some(),
    }
}

/// `t` with `tag` added; a ban replaces any earlier ban.
pub open spec fn tags_insert(t: Tags, tag: Tag) -> Tags {
    match tag {
        Tag::AlwaysAllow => Tags { always_allow: true, ..t },
        Tag::Consensus => Tags { consensus: true, ..t },
        Tag::Ban { until } => Tags { ban_until: Some(until), ..t },
    }
}

/// `t` without tags of kind `k`.
pub open spec fn tags_remove(t: Tags, k: TagKind) -> Tags {
    match k {
        TagKind::AlwaysAllow => Tags { always_allow: false, ..t },
        TagKind::Consensus => Tags { consensus: false, ..t },
        TagKind::Ban => Tags { ban_until: None, ..t },
    }
}

/// `a + b`, or the largest `u64` where the sum does not fit.
pub open spec fn sat_add(a: u64, b: u64) -> u64 {
    if a + b <= u64::MAX {
        (a + b) as u64
    } else {
        u64::MAX
    }
}

/// The ban is in force at `now`.
pub open spec fn ban_in_force(t: Tags, now: u64) -> bool {
    match t.ban_until {
        Some(until) => now < until,
        None => false,
    }
}

/// Tagging a peer and then untagging it gives back the tags it had, where it
/// did not hold a tag of that kind before.
pub proof fn lemma_tag_untag(t: Tags, tag: Tag)
    requires
        !tags_contain(t, kind_of(tag)),
    ensures
        tags_remove(tags_insert(t, tag), kind_of(tag)) == t,
{
}

impl Tags {
    pub fn new() -> (r: Tags)
        ensures
            !r.always_allow,
            !r.consensus,
            r.ban_until.is_none(),
    {
        Tags { always_allow: false, consensus: false, ban_until: None }
    }

    pub fn contains(&self, k: TagKind) -> (r: bool)
        ensures
            r == tags_contain(*self, k),
    {
        match k {
            TagKind::AlwaysAllow => self.always_allow,
            TagKind::Consensus => self.consensus,
            TagKind::Ban => self.ban_until.is_some(),
        }
    }

    pub fn insert(&mut self, tag: Tag)
        ensures
            *final(self) == tags_insert(*old(self), tag),
    {
        match tag {
            Tag::AlwaysAllow => self.always_allow = true,
            Tag::Consensus => self.consensus = true,
            Tag::Ban { until } => self.ban_until = Some(until),
        }
    }

    pub fn remove(&mut self, k: TagKind)
        ensures
            *final(self) == tags_remove(*old(self), k),
    {
        match k {
            TagKind::AlwaysAllow => self.always_allow = false,
            TagKind::Consensus => self.consensus = false,
            TagKind::Ban => self.ban_until = None,
        }
    }

    /// Bans for `dur` seconds from `now`, replacing any ban.
    pub fn insert_ban(&mut self, now: u64, dur: u64)
        ensures
            *final(self) == tags_insert(*old(self), Tag::Ban { until: sat_add(now, dur) }),
    {
        let until = now.saturating_add(dur);
        self.ban_until = Some(until);
    }

    pub fn get_banned_until(&self) -> (r: Option<u64>)
        ensures
            r == self.ban_until,
    {
        self.ban_until
    }

    /// The list of tags held, in kind order.
    pub fn to_vec(&self) -> (r: Vec<Tag>)
        ensures
            r@.len() <= 3,
            forall|t: Tag| r@.contains(t) <==> (tags_contain(*self, kind_of(t)) && match t {
                Tag::Ban { until } => self.ban_until == Some(until),
                _ => true,
            }),
    {
        let mut r: Vec<Tag> = Vec::new();
        if self.always_allow {
            r.push(Tag::AlwaysAllow);
        }
        if self.consensus {
            r.push(Tag::Consensus);
        }
        match self.ban_until {
            Some(until) => r.push(Tag::Ban { until }),
            None => {},
        }
        assert forall|t: Tag| r@.contains(t) <==> (tags_contain(*self, kind_of(t)) && match t {
            Tag::Ban { until } => self.ban_until == Some(until),
            _ => true,
        }) by {
            if tags_contain(*self, kind_of(t)) && match t {
                Tag::Ban { until } => self.ban_until == Some(until),
                _ => true,
            } {
                let k = match t {
                    Tag::AlwaysAllow => 0int,
                    Tag::Consensus => if self.always_allow { 1int } else { 0int },
                    Tag::Ban { .. } => (if self.always_allow { 1int } else { 0int }) + (if self.consensus { 1int } else { 0int }),
                };
                assert(r@[k] == t);
            }
        }
        r
    }
}

/// Seconds of back-off for the first retry.
pub const RETRY_BASE_SECS: u64 = 2;

/// Back-off after `count` retries: the base doubled once per retry, up to
/// `MAX_RETRY_COUNT + 1` doublings.
pub open spec fn backoff(count: u32) -> u64 {
    if count >= MAX_RETRY_COUNT + 1 {
        (RETRY_BASE_SECS * 128) as u64
    } else {
        (RETRY_BASE_SECS * pow2(count as nat)) as u64
    }
}

pub open spec fn pow2(n: nat) -> nat
    decreases n,
{
    if n == 0 {
        1
    } else {
        2 * pow2((n - 1) as nat)
    }
}

/// Retry state: how many dials failed in a row and when the next may start.
#[derive(Debug, Clone, Copy, PartialEq, Eq, Structural)]
pub struct Retry {
    pub count: u32,
    pub next_at: u64,
}

proof fn lemma_pow2_le(n: nat)
    requires
        n < MAX_RETRY_COUNT + 1,
    ensures
        pow2(n) <= 64,
        pow2(n + 1) == 2 * pow2(n),
{
    reveal_with_fuel(pow2, 8);
}

impl Retry {
    pub fn new() -> (r: Retry)
        ensures
            r.count == 0,
            r.next_at == 0,
    {
        Retry { count: 0, next_at: 0 }
    }

    pub fn count(&self) -> (r: u32)
        ensures
            r == self.count,
    {
        self.count
    }

    pub fn reset(&mut self)
        ensures
            final(self).count == 0,
            final(self).next_at == old(self).next_at,
    {
        self.count = 0;
    }

    pub fn inc(&mut self)
        ensures
            final(self).count == crate::addr::inc_sat(old(self).count),
            final(self).next_at == old(self).next_at,
    {
        if self.count < u32::MAX {
            self.count = self.count + 1;
        }
    }

    pub fn set(&mut self, n: u32)
        ensures
            final(self).count == n,
            final(self).next_at == old(self).next_at,
    {
        self.count = n;
    }

    /// Seconds to wait before the next dial.
    pub fn eta(&self) -> (r: u64)
        ensures
            r == backoff(self.count),
    {
        let c: u32 = if self.count > MAX_RETRY_COUNT + 1 { MAX_RETRY_COUNT + 1 } else { self.count };
        let mut e: u64 = RETRY_BASE_SECS;
        let mut i: u32 = 0;
        while i < c
            invariant
                c <= MAX_RETRY_COUNT + 1,
                c == MAX_RETRY_COUNT + 1 || c == self.count,
                i <= c,
                e == RETRY_BASE_SECS * pow2(i as nat),
                e <= RETRY_BASE_SECS * 128,
            decreases c - i,
        {
            proof {
                lemma_pow2_le(i as nat);
            }
            e = e * 2;
            i = i + 1;
        }
        proof {
            reveal_with_fuel(pow2, 8);
        }
        e
    }

    /// The retry timer has run out at `now`.
    pub fn ready(&self, now: u64) -> (r: bool)
        ensures
            r == (self.next_at <= now),
    {
        self.next_at <= now
    }
}

} // verus!
