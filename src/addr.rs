//! Network addresses of peers and the per-peer address set with failure counts.

use vstd::prelude::*;

use crate::peer::{PeerId, copy_bytes};

verus! {

/// Failures after which an address is no longer dialled.
pub const MAX_RETRY_COUNT: u32 = 6;

/// A TCP address `/ip4/<ip>/tcp/<port>`, with an optional trailing `/id/<peer id>`.
#[derive(Debug, Clone, PartialEq, Eq, Hash)]
pub struct Multiaddr {
    pub ip: u32,
    pub port: u16,
    pub id: Option<PeerId>,
}

/// The mathematical value of an address.
pub type MultiaddrView = (u32, u16, Option<Seq<u8>>);

pub open spec fn id_view(id: &Option<PeerId>) -> Option<Seq<u8>> {
    match id {
        Some(p) => Some(p@),
        None => None,
    }
}

impl View for Multiaddr {
    type V = MultiaddrView;

    open spec fn view(&self) -> MultiaddrView {
        (self.ip, self.port, id_view(&self.id))
    }
}

/// The address with its peer-id component set to `id`.
pub open spec fn with_id(a: MultiaddrView, id: Seq<u8>) -> MultiaddrView {
    (a.0, a.1, Some(id))
}

/// The address ends in `/id/<id>`.
pub open spec fn carries_id(a: MultiaddrView, id: Seq<u8>) -> bool {
    a.2 == Some(id)
}

impl Multiaddr {
    pub fn new(ip: u32, port: u16, id: Option<PeerId>) -> (r: Multiaddr)
        ensures
            r@ == (ip, port, id_view(&id)),
    {
        Multiaddr { ip, port, id }
    }

    /// A copy of this address.
    pub fn copy(&self) -> (r: Multiaddr)
        ensures
            r@ == self@,
    {
        let id = match &self.id {
            Some(p) => Some(p.copy()),
            None => None,
        };
        Multiaddr { ip: self.ip, port: self.port, id }
    }

    pub fn same(&self, other: &Multiaddr) -> (r: bool)
        ensures
            r == (self@ == other@),
    {
        if self.ip != other.ip || self.port != other.port {
            return false;
        }
        match (&self.id, &other.id) {
            (Some(a), Some(b)) => a.same(b),
            (None, None) => true,
            _ => false,
        }
    }

    /// A copy of this address that ends in `/id/<id>`, replacing any id it had.
    pub fn with_peer_id(&self, id: &PeerId) -> (r: Multiaddr)
        ensures
            r@ == with_id(self@, id@),
    {
        Multiaddr { ip: self.ip, port: self.port, id: Some(id.copy()) }
    }

    /// The address carries a peer id equal to `id`.
    pub fn has_id(&self, id: &PeerId) -> (r: bool)
        ensures
            r == carries_id(self@, id@),
    {
        match &self.id {
            Some(p) => p.same(id),
            None => false,
        }
    }

    /// The peer id that the address carries, if any.
    pub fn peer_id(&self) -> (r: Option<PeerId>)
        ensures
            id_view(&r) == self@.2,
    {
        match &self.id {
            Some(p) => Some(p.copy()),
            None => None,
        }
    }
}

/// A stored address and how often dialling it failed in a row.
#[derive(Debug, Clone)]
pub struct AddrEntry {
    pub addr: Multiaddr,
    pub failure: u32,
}

pub open spec fn entry_view(e: AddrEntry) -> (MultiaddrView, u32) {
    (e.addr@, e.failure)
}

/// The addresses of one peer. Every stored address ends in the owner's id and
/// appears once.
#[derive(Debug, Clone)]
pub struct MultiaddrSet {
    pub owner: PeerId,
    pub entries: Vec<AddrEntry>,
}

impl View for MultiaddrSet {
    type V = Seq<(MultiaddrView, u32)>;

    open spec fn view(&self) -> Seq<(MultiaddrView, u32)> {
        self.entries@.map_values(|e: AddrEntry| entry_view(e))
    }
}

pub open spec fn addrs_unique(s: Seq<(MultiaddrView, u32)>) -> bool {
    forall|i: int, j: int| 0 <= i < s.len() && 0 <= j < s.len() && i != j ==> s[i].0 != s[j].0
}

pub open spec fn addrs_carry(s: Seq<(MultiaddrView, u32)>, id: Seq<u8>) -> bool {
    forall|i: int| 0 <= i < s.len() ==> carries_id(#[trigger] s[i].0, id)
}

pub open spec fn addr_in(s: Seq<(MultiaddrView, u32)>, a: MultiaddrView) -> bool {
    exists|i: int| 0 <= i < s.len() && s[i].0 == a
}

/// `s` after adding `a` with no failures, unless it is there already.
pub open spec fn addrs_insert(s: Seq<(MultiaddrView, u32)>, a: MultiaddrView) -> Seq<(MultiaddrView, u32)> {
    if addr_in(s, a) {
        s
    } else {
        s.push((a, 0))
    }
}

/// `s` after adding each of `addrs`, in order, each with the owner's id.
pub open spec fn addrs_insert_all(
    s: Seq<(MultiaddrView, u32)>,
    addrs: Seq<MultiaddrView>,
    id: Seq<u8>,
) -> Seq<(MultiaddrView, u32)>
    decreases addrs.len(),
{
    if addrs.len() == 0 {
        s
    } else {
        addrs_insert(addrs_insert_all(s, addrs.drop_last(), id), with_id(addrs.last(), id))
    }
}

/// An address can still be dialled.
pub open spec fn connectable(e: (MultiaddrView, u32)) -> bool {
    e.1 < MAX_RETRY_COUNT
}

pub open spec fn connectable_count(s: Seq<(MultiaddrView, u32)>) -> nat
    decreases s.len(),
{
    if s.len() == 0 {
        0
    } else {
        connectable_count(s.drop_last()) + if connectable(s.last()) { 1nat } else { 0nat }
    }
}

pub open spec fn connectable_addrs(s: Seq<(MultiaddrView, u32)>) -> Seq<MultiaddrView>
    decreases s.len(),
{
    if s.len() == 0 {
        Seq::empty()
    } else if connectable(s.last()) {
        connectable_addrs(s.drop_last()).push(s.last().0)
    } else {
        connectable_addrs(s.drop_last())
    }
}

pub open spec fn all_addrs(s: Seq<(MultiaddrView, u32)>) -> Seq<MultiaddrView> {
    s.map_values(|e: (MultiaddrView, u32)| e.0)
}

proof fn lemma_addr_in_push(s: Seq<(MultiaddrView, u32)>, e: (MultiaddrView, u32), a: MultiaddrView)
    ensures
        addr_in(s.push(e), a) == (addr_in(s, a) || e.0 == a),
{
    if addr_in(s.push(e), a) {
        let i = choose|i: int| 0 <= i < s.push(e).len() && s.push(e)[i].0 == a;
        if i < s.len() {
            assert(s[i] == s.push(e)[i]);
        }
    }
    if addr_in(s, a) {
        let i = choose|i: int| 0 <= i < s.len() && s[i].0 == a;
        assert(s.push(e)[i] == s[i]);
    }
    if e.0 == a {
        assert(s.push(e)[s.len() as int] == e);
    }
}

/// After `addrs_insert_all`, every added address is present, and nothing that
/// was present is lost.
proof fn lemma_insert_all_contains(
    s: Seq<(MultiaddrView, u32)>,
    addrs: Seq<MultiaddrView>,
    id: Seq<u8>,
    a: MultiaddrView,
)
    requires
        addr_in(s, a) || exists|k: int| 0 <= k < addrs.len() && with_id(addrs[k], id) == a,
    ensures
        addr_in(addrs_insert_all(s, addrs, id), a),
    decreases addrs.len(),
{
    if addrs.len() > 0 {
        let prev = addrs_insert_all(s, addrs.drop_last(), id);
        let x = with_id(addrs.last(), id);
        if x == a {
            if !addr_in(prev, x) {
                lemma_addr_in_push(prev, (x, 0), a);
            }
        } else {
            if !addr_in(s, a) {
                let k = choose|k: int| 0 <= k < addrs.len() && with_id(addrs[k], id) == a;
                assert(k < addrs.len() - 1);
                assert(addrs.drop_last()[k] == addrs[k]);
            }
            lemma_insert_all_contains(s, addrs.drop_last(), id, a);
            if !addr_in(prev, x) {
                lemma_addr_in_push(prev, (x, 0), a);
            }
        }
    }
}

/// Adding addresses that are all present already changes nothing.
proof fn lemma_insert_all_present(
    s: Seq<(MultiaddrView, u32)>,
    addrs: Seq<MultiaddrView>,
    id: Seq<u8>,
)
    requires
        forall|k: int| 0 <= k < addrs.len() ==> addr_in(s, with_id(#[trigger] addrs[k], id)),
    ensures
        addrs_insert_all(s, addrs, id) == s,
    decreases addrs.len(),
{
    if addrs.len() > 0 {
        assert forall|k: int| 0 <= k < addrs.drop_last().len() implies addr_in(
            s,
            with_id(#[trigger] addrs.drop_last()[k], id),
        ) by {
            assert(addrs.drop_last()[k] == addrs[k]);
        }
        lemma_insert_all_present(s, addrs.drop_last(), id);
        assert(addr_in(s, with_id(addrs[addrs.len() - 1], id)));
    }
}

/// Adding the same addresses twice leaves the set as adding them once.
pub proof fn lemma_insert_all_idempotent(
    s: Seq<(MultiaddrView, u32)>,
    addrs: Seq<MultiaddrView>,
    id: Seq<u8>,
)
    ensures
        addrs_insert_all(addrs_insert_all(s, addrs, id), addrs, id) == addrs_insert_all(s, addrs, id),
{
    let once = addrs_insert_all(s, addrs, id);
    assert forall|k: int| 0 <= k < addrs.len() implies addr_in(once, with_id(#[trigger] addrs[k], id)) by {
        lemma_insert_all_contains(s, addrs, id, with_id(addrs[k], id));
    }
    lemma_insert_all_present(once, addrs, id);
}


impl MultiaddrSet {
    /// The set is well formed for its owner.
    pub open spec fn wf(&self) -> bool {
        &&& addrs_unique(self@)
        &&& addrs_carry(self@, self.owner@)
    }

    pub fn new(owner: PeerId) -> (r: MultiaddrSet)
        ensures
            r.wf(),
            r.owner@ == owner@,
            r@ == Seq::<(MultiaddrView, u32)>::empty(),
    {
        let r = MultiaddrSet { owner, entries: Vec::new() };
        assert(r@ =~= Seq::<(MultiaddrView, u32)>::empty());
        r
    }

    pub fn len(&self) -> (r: usize)
        ensures
            r == self@.len(),
    {
        self.entries.len()
    }

    /// Position of an address in the set.
    pub fn find(&self, a: &Multiaddr) -> (r: Option<usize>)
        ensures
            match r {
                Some(i) => i < self@.len() && self@[i as int].0 == a@,
                None => !addr_in(self@, a@),
            },
    {
        let mut i: usize = 0;
        while i < self.entries.len()
            invariant
                i <= self@.len(),
                self@.len() == self.entries@.len(),
                forall|j: int| 0 <= j < i ==> self@[j].0 != a@,
            decreases self@.len() - i,
        {
            if self.entries[i].addr.same(a) {
                return Some(i);
            }
            i = i + 1;
        }
        None
    }

    /// The address stored with the owner's id pushed, which is the form the set holds.
    pub fn normalize(&self, a: &Multiaddr) -> (r: Multiaddr)
        ensures
            r@ == with_id(a@, self.owner@),
    {
        a.with_peer_id(&self.owner)
    }

    pub fn contains(&self, a: &Multiaddr) -> (r: bool)
        ensures
            r == addr_in(self@, with_id(a@, self.owner@)),
    {
        let n = self.normalize(a);
        self.find(&n).is_some()
    }

    /// Failure count of an address, if the set holds it.
    pub fn failure(&self, a: &Multiaddr) -> (r: Option<u32>)
        requires
            self.wf(),
        ensures
            match r {
                Some(f) => exists|i: int| 0 <= i < self@.len() && self@[i] == (with_id(a@, self.owner@), f),
                None => !addr_in(self@, with_id(a@, self.owner@)),
            },
    {
        let n = self.normalize(a);
        match self.find(&n) {
            Some(i) => Some(self.entries[i].failure),
            None => None,
        }
    }

    /// Adds an address, with the owner's id pushed; a present one keeps its count.
    pub fn insert(&mut self, a: &Multiaddr)
        requires
            old(self).wf(),
        ensures
            final(self).wf(),
            final(self).owner@ == old(self).owner@,
            final(self)@ == addrs_insert(old(self)@, with_id(a@, old(self).owner@)),
            addr_in(old(self)@, with_id(a@, old(self).owner@)) ==> *final(self) == *old(self),
            forall|e: (MultiaddrView, u32)| old(self)@.contains(e) ==> final(self)@.contains(e),
    {
        let n = self.normalize(a);
        match self.find(&n) {
            Some(_) => {},
            None => {
                let ghost before = self@;
                self.entries.push(AddrEntry { addr: n, failure: 0 });
                assert(self@ =~= before.push((with_id(a@, self.owner@), 0)));
                assert forall|e: (MultiaddrView, u32)| before.contains(e) implies self@.contains(e) by {
                    let k = choose|k: int| 0 <= k < before.len() && before[k] == e;
                    assert(self@[k] == e);
                }
                assert forall|i: int| 0 <= i < self@.len() implies carries_id(
                    #[trigger] self@[i].0,
                    self.owner@,
                ) by {
                    if i < before.len() {
                        assert(self@[i] == before[i]);
                    }
                }
                assert forall|i: int, j: int|
                    0 <= i < self@.len() && 0 <= j < self@.len() && i != j implies self@[i].0
                    != self@[j].0 by {
                    if i < before.len() && j < before.len() {
                        assert(self@[i] == before[i] && self@[j] == before[j]);
                    } else if i < before.len() {
                        assert(self@[i] == before[i]);
                    } else if j < before.len() {
                        assert(self@[j] == before[j]);
                    }
                }
            },
        }
    }

    /// Adds each address in turn.
    pub fn insert_all(&mut self, addrs: &Vec<Multiaddr>)
        requires
            old(self).wf(),
        ensures
            final(self).wf(),
            final(self).owner@ == old(self).owner@,
            final(self)@ == addrs_insert_all(
                old(self)@,
                addrs@.map_values(|a: Multiaddr| a@),
                old(self).owner@,
            ),
    {
        let ghost start = self@;
        let ghost views = addrs@.map_values(|a: Multiaddr| a@);
        let mut i: usize = 0;
        while i < addrs.len()
            invariant
                i <= addrs@.len(),
                views == addrs@.map_values(|a: Multiaddr| a@),
                self.wf(),
                self.owner@ == old(self).owner@,
                start == old(self)@,
                self@ == addrs_insert_all(start, views.subrange(0, i as int), self.owner@),
            decreases addrs@.len() - i,
        {
            self.insert(&addrs[i]);
            assert(views.subrange(0, i + 1).drop_last() =~= views.subrange(0, i as int));
            i = i + 1;
        }
        assert(views.subrange(0, addrs@.len() as int) =~= views);
    }

    /// Replaces the contents with `addrs`.
    pub fn set(&mut self, addrs: &Vec<Multiaddr>)
        requires
            old(self).wf(),
        ensures
            final(self).wf(),
            final(self).owner@ == old(self).owner@,
            final(self)@ == addrs_insert_all(
                Seq::empty(),
                addrs@.map_values(|a: Multiaddr| a@),
                old(self).owner@,
            ),
    {
        self.entries = Vec::new();
        assert(self@ =~= Seq::<(MultiaddrView, u32)>::empty());
        self.insert_all(addrs);
    }

    /// Removes an address, matched with the owner's id pushed.
    pub fn remove(&mut self, a: &Multiaddr)
        requires
            old(self).wf(),
        ensures
            final(self).wf(),
            final(self).owner@ == old(self).owner@,
            !addr_in(final(self)@, with_id(a@, old(self).owner@)),
            forall|e: (MultiaddrView, u32)|
                e.0 != with_id(a@, old(self).owner@) ==> (old(self)@.contains(e) <==> final(self)@.contains(e)),
            !addr_in(old(self)@, with_id(a@, old(self).owner@)) ==> final(self)@ == old(self)@,
    {
        let n = self.normalize(a);
        match self.find(&n) {
            None => {},
            Some(i) => {
                let ghost before = self@;
                self.entries.remove(i);
                assert(self@ =~= before.remove(i as int));
                assert forall|k: int| 0 <= k < self@.len() implies self@[k].0 != n@ by {
                    if k < i {
                        assert(self@[k] == before[k]);
                    } else {
                        assert(self@[k] == before[k + 1]);
                    }
                }
                assert forall|e: (MultiaddrView, u32)| e.0 != n@ implies (before.contains(e)
                    <==> self@.contains(e)) by {
                    if before.contains(e) {
                        let k = choose|k: int| 0 <= k < before.len() && before[k] == e;
                        if k < i {
                            assert(self@[k] == e);
                        } else {
                            assert(k != i);
                            assert(self@[k - 1] == e);
                        }
                    }
                    if self@.contains(e) {
                        let k = choose|k: int| 0 <= k < self@.len() && self@[k] == e;
                        if k < i {
                            assert(before[k] == e);
                        } else {
                            assert(before[k + 1] == e);
                        }
                    }
                }
            },
        }
    }
}


/// `t` is `s` with the failure count of address `a` replaced through `f`.
pub open spec fn failures_updated(
    s: Seq<(MultiaddrView, u32)>,
    t: Seq<(MultiaddrView, u32)>,
    a: MultiaddrView,
    f: spec_fn(u32) -> u32,
) -> bool {
    &&& t.len() == s.len()
    &&& forall|k: int|
        0 <= k < s.len() ==> (#[trigger] t[k]).0 == s[k].0 && t[k].1 == if s[k].0 == a {
            f(s[k].1)
        } else {
            s[k].1
        }
}

pub open spec fn inc_sat(n: u32) -> u32 {
    if n < u32::MAX {
        (n + 1) as u32
    } else {
        n
    }
}

impl MultiaddrSet {
    fn set_failure_at(&mut self, i: usize, f: u32)
        requires
            old(self).wf(),
            i < old(self)@.len(),
        ensures
            final(self).wf(),
            final(self).owner@ == old(self).owner@,
            final(self)@ == old(self)@.update(i as int, (old(self)@[i as int].0, f)),
    {
        let ghost before = self@;
        self.entries[i].failure = f;
        assert(self@ =~= before.update(i as int, (before[i as int].0, f)));
        assert forall|k: int| 0 <= k < self@.len() implies carries_id(#[trigger] self@[k].0, self.owner@) by {
            assert(self@[k].0 == before[k].0);
        }
        assert forall|k: int, j: int|
            0 <= k < self@.len() && 0 <= j < self@.len() && k != j implies self@[k].0 != self@[j].0 by {
            assert(self@[k].0 == before[k].0 && self@[j].0 == before[j].0);
        }
    }

    proof fn lemma_single_update(&self, i: int, t: Seq<(MultiaddrView, u32)>, f: spec_fn(u32) -> u32)
        requires
            self.wf(),
            0 <= i < self@.len(),
            t == self@.update(i, (self@[i].0, f(self@[i].1))),
        ensures
            failures_updated(self@, t, self@[i].0, f),
    {
    }

    /// One more failed dial of an address.
    pub fn inc_failure(&mut self, a: &Multiaddr)
        requires
            old(self).wf(),
        ensures
            final(self).wf(),
            final(self).owner@ == old(self).owner@,
            failures_updated(old(self)@, final(self)@, with_id(a@, old(self).owner@), |n: u32| inc_sat(n)),
    {
        let n = self.normalize(a);
        match self.find(&n) {
            None => {},
            Some(i) => {
                let ghost before = *self;
                let f = self.entries[i].failure;
                let nf = if f < u32::MAX { f + 1 } else { f };
                self.set_failure_at(i, nf);
                proof { before.lemma_single_update(i as int, self@, |n: u32| inc_sat(n)); }
            },
        }
    }

    /// The address was reached: its failure count goes back to zero.
    pub fn reset_failure(&mut self, a: &Multiaddr)
        requires
            old(self).wf(),
        ensures
            final(self).wf(),
            final(self).owner@ == old(self).owner@,
            failures_updated(old(self)@, final(self)@, with_id(a@, old(self).owner@), |n: u32| 0u32),
    {
        let n = self.normalize(a);
        match self.find(&n) {
            None => {},
            Some(i) => {
                let ghost before = *self;
                self.set_failure_at(i, 0);
                proof { before.lemma_single_update(i as int, self@, |n: u32| 0u32); }
            },
        }
    }

    /// The address will not be dialled again.
    pub fn give_up(&mut self, a: &Multiaddr)
        requires
            old(self).wf(),
        ensures
            final(self).wf(),
            final(self).owner@ == old(self).owner@,
            failures_updated(
                old(self)@,
                final(self)@,
                with_id(a@, old(self).owner@),
                |n: u32| MAX_RETRY_COUNT,
            ),
    {
        let n = self.normalize(a);
        match self.find(&n) {
            None => {},
            Some(i) => {
                let ghost before = *self;
                self.set_failure_at(i, MAX_RETRY_COUNT);
                proof { before.lemma_single_update(i as int, self@, |n: u32| MAX_RETRY_COUNT); }
            },
        }
    }

    /// Number of addresses that can still be dialled.
    pub fn connectable_len(&self) -> (r: usize)
        ensures
            r == connectable_count(self@),
    {
        let mut c: usize = 0;
        let mut i: usize = 0;
        while i < self.entries.len()
            invariant
                i <= self@.len(),
                self@.len() == self.entries@.len(),
                c == connectable_count(self@.subrange(0, i as int)),
                c <= i,
            decreases self@.len() - i,
        {
            assert(self@.subrange(0, i + 1).drop_last() =~= self@.subrange(0, i as int));
            if self.entries[i].failure < MAX_RETRY_COUNT {
                c = c + 1;
            }
            i = i + 1;
        }
        assert(self@.subrange(0, self@.len() as int) =~= self@);
        c
    }

    /// The addresses that can still be dialled, in stored order.
    pub fn connectable(&self) -> (r: Vec<Multiaddr>)
        ensures
            r@.map_values(|a: Multiaddr| a@) == connectable_addrs(self@),
    {
        let mut r: Vec<Multiaddr> = Vec::new();
        let mut i: usize = 0;
        while i < self.entries.len()
            invariant
                i <= self@.len(),
                self@.len() == self.entries@.len(),
                r@.map_values(|a: Multiaddr| a@) == connectable_addrs(self@.subrange(0, i as int)),
            decreases self@.len() - i,
        {
            assert(self@.subrange(0, i + 1).drop_last() =~= self@.subrange(0, i as int));
            if self.entries[i].failure < MAX_RETRY_COUNT {
                let ghost before = r@;
                r.push(self.entries[i].addr.copy());
                assert(r@.map_values(|a: Multiaddr| a@) =~= before.map_values(|a: Multiaddr| a@).push(
                    self@[i as int].0,
                ));
            }
            i = i + 1;
        }
        assert(self@.subrange(0, self@.len() as int) =~= self@);
        r
    }

    /// Every stored address, in stored order.
    pub fn all(&self) -> (r: Vec<Multiaddr>)
        ensures
            r@.map_values(|a: Multiaddr| a@) == all_addrs(self@),
    {
        let mut r: Vec<Multiaddr> = Vec::new();
        let mut i: usize = 0;
        while i < self.entries.len()
            invariant
                i <= self@.len(),
                self@.len() == self.entries@.len(),
                r@.map_values(|a: Multiaddr| a@) == all_addrs(self@.subrange(0, i as int)),
            decreases self@.len() - i,
        {
            let ghost before = r@;
            r.push(self.entries[i].addr.copy());
            assert(r@.map_values(|a: Multiaddr| a@) =~= before.map_values(|a: Multiaddr| a@).push(
                self@[i as int].0,
            ));
            assert(all_addrs(self@.subrange(0, i + 1)) =~= all_addrs(self@.subrange(0, i as int)).push(
                self@[i as int].0,
            ));
            i = i + 1;
        }
        assert(self@.subrange(0, self@.len() as int) =~= self@);
        r
    }
}

} // verus!
