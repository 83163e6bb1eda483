//! Per-session reassembly of inbound fragments, and retention of outbound
//! fragments until they are acknowledged.

use vstd::prelude::*;
use crate::codec::{compose_fragments, concat_payloads, fragments_of, split_into_fragments};
use crate::node::NodeId;
use crate::packet::{Fragment, FRAGMENT_DSIZE};

verus! {

/// Session counters stay below this, so that they fit in the low 56 bits.
pub const SESSION_COUNTER_LIMIT: u64 = 0x0100_0000_0000_0000;

/// The session id that host `node` mints from its counter value `counter`.
pub open spec fn session_id_of(node: NodeId, counter: u64) -> u64 {
    ((node as u64) << 56u64) | counter
}

/// Session ids minted by one host from different counter values differ, and
/// the high byte of each is the host's id.
pub proof fn lemma_session_ids(node: NodeId, c1: u64, c2: u64)
    requires
        c1 < SESSION_COUNTER_LIMIT,
        c2 < SESSION_COUNTER_LIMIT,
    ensures
        c1 != c2 ==> session_id_of(node, c1) != session_id_of(node, c2),
        session_id_of(node, c1) >> 56u64 == node as u64,
        session_id_of(node, c1) & 0x00ff_ffff_ffff_ffffu64 == c1,
{
    let n = node as u64;
    assert(n < 256);
    assert(c1 != c2 ==> ((n << 56u64) | c1) != ((n << 56u64) | c2)) by (bit_vector)
        requires
            c1 < 0x0100_0000_0000_0000u64,
            c2 < 0x0100_0000_0000_0000u64,
            n < 256,
    ;
    assert(((n << 56u64) | c1) >> 56u64 == n) by (bit_vector)
        requires
            c1 < 0x0100_0000_0000_0000u64,
            n < 256,
    ;
    assert(((n << 56u64) | c1) & 0x00ff_ffff_ffff_ffffu64 == c1) by (bit_vector)
        requires
            c1 < 0x0100_0000_0000_0000u64,
            n < 256,
    ;
}

/// Fragments in strictly increasing index order, each with a payload that
/// fits its data.
pub open spec fn index_sorted(s: Seq<Fragment>) -> bool {
    &&& forall|i: int, j: int| 0 <= i < j < s.len() ==> #[trigger] s[i].fragment_index < #[trigger] s[j].fragment_index
    &&& forall|i: int| 0 <= i < s.len() ==> #[trigger] s[i].length <= s[i].data@.len()
}

/// `s2` is `s1` with `f` stored under its index, replacing a fragment of that
/// index.
pub open spec fn stores(s1: Seq<Fragment>, f: Fragment, s2: Seq<Fragment>) -> bool {
    &&& s2.contains(f)
    &&& forall|i: int| 0 <= i < s2.len() && #[trigger] s2[i].fragment_index != f.fragment_index ==> s1.contains(s2[i])
    &&& forall|i: int| 0 <= i < s1.len() && #[trigger] s1[i].fragment_index != f.fragment_index ==> s2.contains(s1[i])
    &&& forall|i: int| 0 <= i < s2.len() && #[trigger] s2[i].fragment_index == f.fragment_index ==> s2[i] == f
}

struct AssemblySession {
    session_id: u64,
    fragments: Vec<Fragment>,
}

/// Reassembly buffers of inbound sessions.
pub struct Assembler {
    sessions: Vec<AssemblySession>,
}

fn store_fragment(fragments: &mut Vec<Fragment>, fragment: Fragment)
    requires
        index_sorted(old(fragments)@),
        fragment.length <= fragment.data@.len(),
    ensures
        index_sorted(final(fragments)@),
        stores(old(fragments)@, fragment, final(fragments)@),
{
    let idx = fragment.fragment_index;
    let mut p: usize = 0;
    while p < fragments.len() && fragments[p].fragment_index < idx
        invariant
            p <= fragments@.len(),
            forall|k: int| 0 <= k < p ==> #[trigger] fragments@[k].fragment_index < idx,
        decreases fragments@.len() - p,
    {
        p = p + 1;
    }
    let ghost before = fragments@;
    let ghost f = fragment;
    if p < fragments.len() && fragments[p].fragment_index == idx {
        fragments.set(p, fragment);
        proof {
            assert(fragments@[p as int] == f);
            assert forall|i: int| 0 <= i < fragments@.len() && #[trigger] fragments@[i].fragment_index != idx implies before.contains(fragments@[i]) by {
                assert(fragments@[i] == before[i]);
            }
            assert forall|i: int| 0 <= i < before.len() && #[trigger] before[i].fragment_index != idx implies fragments@.contains(before[i]) by {
                assert(fragments@[i] == before[i]);
            }
            assert forall|i: int, j: int| 0 <= i < j < fragments@.len() implies #[trigger] fragments@[i].fragment_index < #[trigger] fragments@[j].fragment_index by {
                assert(before[i].fragment_index < before[j].fragment_index);
            }
        }
    } else {
        fragments.insert(p, fragment);
        proof {
            assert(fragments@[p as int] == f);
            assert forall|i: int| 0 <= i < fragments@.len() && #[trigger] fragments@[i].fragment_index != idx implies before.contains(fragments@[i]) by {
                if i < p {
                    assert(fragments@[i] == before[i]);
                } else {
                    assert(fragments@[i] == before[i - 1]);
                }
            }
            assert forall|i: int| 0 <= i < before.len() && #[trigger] before[i].fragment_index != idx implies fragments@.contains(before[i]) by {
                if i < p {
                    assert(fragments@[i] == before[i]);
                } else {
                    assert(fragments@[i + 1] == before[i]);
                }
            }
            assert forall|i: int, j: int| 0 <= i < j < fragments@.len() implies #[trigger] fragments@[i].fragment_index < #[trigger] fragments@[j].fragment_index by {
                if j < p {
                    assert(fragments@[i] == before[i] && fragments@[j] == before[j]);
                } else if j == p {
                    assert(fragments@[i] == before[i]);
                } else if i < p {
                    assert(fragments@[j] == before[j - 1]);
                    assert(fragments@[i] == before[i]);
                    assert(before[p as int].fragment_index > idx);
                    assert(before[p as int].fragment_index <= before[j - 1].fragment_index);
                } else if i == p {
                    assert(fragments@[j] == before[j - 1]);
                    assert(before[p as int].fragment_index > idx);
                    assert(before[p as int].fragment_index <= before[j - 1].fragment_index);
                } else {
                    assert(fragments@[j] == before[j - 1] && fragments@[i] == before[i - 1]);
                }
            }
            assert forall|i: int| 0 <= i < fragments@.len() && #[trigger] fragments@[i].fragment_index == idx implies fragments@[i] == f by {
                if i < p {
                    assert(fragments@[i] == before[i]);
                } else if i > p {
                    assert(fragments@[i] == before[i - 1]);
                    assert(before[p as int].fragment_index > idx);
                }
            }
        }
    }
}

impl Assembler {
    pub closed spec fn wf(&self) -> bool {
        &&& forall|i: int, j: int| 0 <= i < j < self.sessions@.len() ==> self.sessions@[i].session_id != self.sessions@[j].session_id
        &&& forall|i: int| 0 <= i < self.sessions@.len() ==> index_sorted(#[trigger] self.sessions@[i].fragments@)
    }

    /// The fragments held for session `sid`, by increasing index.
    pub closed spec fn session(&self, sid: u64) -> Seq<Fragment> {
        if exists|i: int| 0 <= i < self.sessions@.len() && #[trigger] self.sessions@[i].session_id == sid {
            self.sessions@[choose|i: int| 0 <= i < self.sessions@.len() && #[trigger] self.sessions@[i].session_id == sid].fragments@
        } else {
            Seq::empty()
        }
    }

    proof fn lemma_session_at(&self, k: int)
        requires
            self.wf(),
            0 <= k < self.sessions@.len(),
        ensures
            self.session(self.sessions@[k].session_id) == self.sessions@[k].fragments@,
    {
        let sid = self.sessions@[k].session_id;
        let c = choose|i: int| 0 <= i < self.sessions@.len() && #[trigger] self.sessions@[i].session_id == sid;
        if c != k {
            if c < k {
                assert(self.sessions@[c].session_id != self.sessions@[k].session_id);
            } else {
                assert(self.sessions@[k].session_id != self.sessions@[c].session_id);
            }
        }
    }

    /// Every held session is sorted by index.
    pub proof fn lemma_sessions_sorted(&self, sid: u64)
        requires
            self.wf(),
        ensures
            index_sorted(self.session(sid)),
    {
        if exists|i: int| 0 <= i < self.sessions@.len() && #[trigger] self.sessions@[i].session_id == sid {
            let c = choose|i: int| 0 <= i < self.sessions@.len() && #[trigger] self.sessions@[i].session_id == sid;
            assert(index_sorted(self.sessions@[c].fragments@));
        }
    }

    pub fn new() -> (r: Self)
        ensures
            r.wf(),
            forall|sid: u64| #[trigger] r.session(sid) == Seq::<Fragment>::empty(),
    {
        Assembler { sessions: Vec::new() }
    }

    fn find(&self, sid: u64) -> (r: Option<usize>)
        requires
            self.wf(),
        ensures
            match r {
                Some(k) => k < self.sessions@.len() && self.sessions@[k as int].session_id == sid,
                None => forall|i: int| 0 <= i < self.sessions@.len() ==> #[trigger] self.sessions@[i].session_id != sid,
            },
    {
        let mut i: usize = 0;
        while i < self.sessions.len()
            invariant
                i <= self.sessions@.len(),
                forall|k: int| 0 <= k < i ==> #[trigger] self.sessions@[k].session_id != sid,
            decreases self.sessions@.len() - i,
        {
            if self.sessions[i].session_id == sid {
                return Some(i);
            }
            i = i + 1;
        }
        None
    }

    /// Joins the payloads of `fragments` in the order given.
    pub fn compose_message(fragments: &Vec<Fragment>) -> (r: Vec<u8>)
        requires
            forall|i: int| 0 <= i < fragments@.len() ==> #[trigger] fragments@[i].length <= fragments@[i].data@.len(),
        ensures
            r@ == concat_payloads(fragments@),
    {
        compose_fragments(fragments)
    }

    /// Stores `fragment` in session `session_id`; once the session holds as
    /// many fragments as the fragment's total, returns the joined payloads.
    pub fn insert_fragment(&mut self, session_id: u64, fragment: Fragment) -> (r: Option<Vec<u8>>)
        requires
            old(self).wf(),
            fragment.length <= fragment.data@.len(),
        ensures
            final(self).wf(),
            index_sorted(final(self).session(session_id)),
            stores(old(self).session(session_id), fragment, final(self).session(session_id)),
            forall|o: u64| o != session_id ==> #[trigger] final(self).session(o) == old(self).session(o),
            match r {
                Some(bytes) => final(self).session(session_id).len() == fragment.total_n_fragments
                    && bytes@ == concat_payloads(final(self).session(session_id)),
                None => final(self).session(session_id).len() != fragment.total_n_fragments,
            },
    {
        let ghost old_self = *self;
        let total = fragment.total_n_fragments;
        let k = match self.find(session_id) {
            Some(k) => k,
            None => {
                self.sessions.push(AssemblySession { session_id, fragments: Vec::new() });
                proof {
                    assert forall|o: u64| #[trigger] self.session(o) == old_self.session(o) by {
                        if exists|i: int| 0 <= i < old_self.sessions@.len() && #[trigger] old_self.sessions@[i].session_id == o {
                            let c = choose|i: int| 0 <= i < old_self.sessions@.len() && #[trigger] old_self.sessions@[i].session_id == o;
                            old_self.lemma_session_at(c);
                            assert(self.sessions@[c] == old_self.sessions@[c]);
                            self.lemma_session_at(c);
                        } else if o == session_id {
                            self.lemma_session_at(self.sessions@.len() - 1);
                        } else {
                            assert(!exists|i: int| 0 <= i < self.sessions@.len() && #[trigger] self.sessions@[i].session_id == o);
                        }
                    }
                }
                self.sessions.len() - 1
            },
        };
        let ghost mid = *self;
        proof {
            self.lemma_session_at(k as int);
            assert(forall|o: u64| #[trigger] mid.session(o) == old_self.session(o));
        }
        let mut session = self.sessions.remove(k);
        store_fragment(&mut session.fragments, fragment);
        let out = if session.fragments.len() as u64 == total {
            Some(compose_fragments(&session.fragments))
        } else {
            None
        };
        self.sessions.insert(k, session);
        proof {
            assert forall|i: int, j: int| 0 <= i < j < self.sessions@.len() implies self.sessions@[i].session_id != self.sessions@[j].session_id by {
                assert(self.sessions@[i].session_id == mid.sessions@[i].session_id);
                assert(self.sessions@[j].session_id == mid.sessions@[j].session_id);
            }
            assert forall|i: int| 0 <= i < self.sessions@.len() implies index_sorted(#[trigger] self.sessions@[i].fragments@) by {
                if i != k {
                    assert(self.sessions@[i] == mid.sessions@[i]);
                }
            }
            self.lemma_session_at(k as int);
            assert forall|o: u64| o != session_id implies #[trigger] self.session(o) == old_self.session(o) by {
                if exists|i: int| 0 <= i < mid.sessions@.len() && #[trigger] mid.sessions@[i].session_id == o {
                    let c = choose|i: int| 0 <= i < mid.sessions@.len() && #[trigger] mid.sessions@[i].session_id == o;
                    mid.lemma_session_at(c);
                    assert(c != k);
                    assert(self.sessions@[c] == mid.sessions@[c]);
                    self.lemma_session_at(c);
                    assert(mid.session(o) == old_self.session(o));
                } else {
                    assert forall|i: int| 0 <= i < self.sessions@.len() implies #[trigger] self.sessions@[i].session_id != o by {
                        assert(self.sessions@[i].session_id == mid.sessions@[i].session_id);
                    }
                    assert(mid.session(o) == old_self.session(o));
                }
            }
        }
        out
    }

    /// Drops the state of session `session_id`.
    pub fn forget(&mut self, session_id: u64)
        requires
            old(self).wf(),
        ensures
            final(self).wf(),
            final(self).session(session_id) == Seq::<Fragment>::empty(),
            forall|o: u64| o != session_id ==> #[trigger] final(self).session(o) == old(self).session(o),
    {
        let ghost old_self = *self;
        if let Some(k) = self.find(session_id) {
            self.sessions.remove(k);
            proof {
                assert forall|i: int, j: int| 0 <= i < j < self.sessions@.len() implies self.sessions@[i].session_id != self.sessions@[j].session_id by {
                    let oi = if i < k { i } else { i + 1 };
                    let oj = if j < k { j } else { j + 1 };
                    assert(self.sessions@[i] == old_self.sessions@[oi]);
                    assert(self.sessions@[j] == old_self.sessions@[oj]);
                }
                assert forall|i: int| 0 <= i < self.sessions@.len() implies index_sorted(#[trigger] self.sessions@[i].fragments@) by {
                    let oi = if i < k { i } else { i + 1 };
                    assert(self.sessions@[i] == old_self.sessions@[oi]);
                }
                assert forall|i: int| 0 <= i < self.sessions@.len() implies #[trigger] self.sessions@[i].session_id != session_id by {
                    let oi = if i < k { i } else { i + 1 };
                    assert(self.sessions@[i] == old_self.sessions@[oi]);
                    assert(oi != k);
                }
                assert forall|o: u64| o != session_id implies #[trigger] self.session(o) == old_self.session(o) by {
                    if exists|i: int| 0 <= i < old_self.sessions@.len() && #[trigger] old_self.sessions@[i].session_id == o {
                        let c = choose|i: int| 0 <= i < old_self.sessions@.len() && #[trigger] old_self.sessions@[i].session_id == o;
                        old_self.lemma_session_at(c);
                        let ni = if c < k { c } else { c - 1 };
                        assert(c != k);
                        assert(self.sessions@[ni] == old_self.sessions@[c]);
                        self.lemma_session_at(ni);
                    } else {
                        assert forall|i: int| 0 <= i < self.sessions@.len() implies #[trigger] self.sessions@[i].session_id != o by {
                            let oi = if i < k { i } else { i + 1 };
                            assert(self.sessions@[i] == old_self.sessions@[oi]);
                        }
                    }
                }
            }
        }
    }
}


/// `a` and `b` are the same fragment.
pub open spec fn same_fragment(a: Fragment, b: Fragment) -> bool {
    &&& a.fragment_index == b.fragment_index
    &&& a.total_n_fragments == b.total_n_fragments
    &&& a.length == b.length
    &&& a.data@ == b.data@
}

/// Two fragment sets of the same bytes hold the same fragments.
pub proof fn lemma_same_fragments(b: Seq<u8>, fs1: Seq<Fragment>, fs2: Seq<Fragment>)
    requires
        fragments_of(b, fs1),
        fragments_of(b, fs2),
    ensures
        fs1.len() == fs2.len(),
        forall|i: int| 0 <= i < fs1.len() ==> same_fragment(#[trigger] fs1[i], fs2[i]),
{
    assert forall|i: int| 0 <= i < fs1.len() implies same_fragment(#[trigger] fs1[i], fs2[i]) by {
        let f1 = fs1[i];
        let f2 = fs2[i];
        assert forall|j: int| 0 <= j < f1.data@.len() implies f1.data@[j] == f2.data@[j] by {
            if j < f1.length {
                assert(f1.payload()[j] == f2.payload()[j]);
            } else {
                assert(f1.data@[j] == 0);
                assert(f2.data@[j] == 0);
            }
        }
        assert(f1.data@ =~= f2.data@);
    }
}

proof fn lemma_indices_at_least(s: Seq<Fragment>, i: int)
    requires
        index_sorted(s),
        0 <= i < s.len(),
    ensures
        s[i].fragment_index >= i,
    decreases i,
{
    if i > 0 {
        lemma_indices_at_least(s, i - 1);
        assert(s[i - 1].fragment_index < s[i].fragment_index);
    }
}

proof fn lemma_indices_at_most(s: Seq<Fragment>, n: int, i: int)
    requires
        index_sorted(s),
        s.len() == n,
        0 <= i < n,
        forall|k: int| 0 <= k < n ==> #[trigger] s[k].fragment_index < n,
    ensures
        s[i].fragment_index <= i,
    decreases n - i,
{
    if i < n - 1 {
        lemma_indices_at_most(s, n, i + 1);
        assert(s[i].fragment_index < s[i + 1].fragment_index);
    }
}

proof fn lemma_same_payloads(s: Seq<Fragment>, t: Seq<Fragment>)
    requires
        s.len() == t.len(),
        forall|i: int| 0 <= i < s.len() ==> #[trigger] s[i].payload() == t[i].payload(),
    ensures
        concat_payloads(s) == concat_payloads(t),
    decreases s.len(),
{
    if s.len() > 0 {
        assert forall|i: int| 0 <= i < s.drop_last().len() implies #[trigger] s.drop_last()[i].payload() == t.drop_last()[i].payload() by {
            assert(s.drop_last()[i] == s[i] && t.drop_last()[i] == t[i]);
        }
        lemma_same_payloads(s.drop_last(), t.drop_last());
        assert(s.last().payload() == t.last().payload()) by {
            assert(s[s.len() - 1].payload() == t[t.len() - 1].payload());
        }
    }
}

/// Reassembly gives the message back: a session that holds, sorted by
/// index, one copy of each fragment of the bytes `b`, in whatever order they
/// arrived, joins to `b`.
pub proof fn lemma_reassembly(b: Seq<u8>, fs: Seq<Fragment>, s: Seq<Fragment>)
    requires
        fragments_of(b, fs),
        index_sorted(s),
        s.len() == fs.len(),
        forall|i: int| 0 <= i < s.len() ==> (#[trigger] s[i]).fragment_index < fs.len()
            && same_fragment(s[i], fs[s[i].fragment_index as int]),
    ensures
        concat_payloads(s) == b,
{
    let n = fs.len() as int;
    assert forall|i: int| 0 <= i < n implies #[trigger] s[i].payload() == fs[i].payload() by {
        lemma_indices_at_least(s, i);
        lemma_indices_at_most(s, n, i);
        assert(s[i].fragment_index == i);
        assert(same_fragment(s[i], fs[i]));
    }
    lemma_same_payloads(s, fs);
    crate::codec::lemma_codec_round_trip(b, fs);
}

/// No two fragments of `s` share an index.
pub open spec fn distinct_indices(s: Seq<Fragment>) -> bool {
    forall|i: int, j: int| 0 <= i < j < s.len() ==> #[trigger] s[i].fragment_index != #[trigger] s[j].fragment_index
}

struct OutSession {
    session_id: u64,
    destination: NodeId,
    fragments: Vec<Fragment>,
}

/// Outbound fragments kept until acknowledged, with each session's
/// destination, and the counter that numbers new sessions.
pub struct Disassembler {
    sessions: Vec<OutSession>,
    last_session_id: u64,
}

fn copy_fragments(fs: &Vec<Fragment>) -> (r: Vec<Fragment>)
    ensures
        r@.len() == fs@.len(),
        forall|i: int| 0 <= i < fs@.len() ==> same_fragment(#[trigger] r@[i], fs@[i]),
{
    let mut r: Vec<Fragment> = Vec::new();
    let mut i: usize = 0;
    while i < fs.len()
        invariant
            i <= fs@.len(),
            r@.len() == i,
            forall|k: int| 0 <= k < i ==> same_fragment(#[trigger] r@[k], fs@[k]),
        decreases fs@.len() - i,
    {
        r.push(fs[i].clone());
        i = i + 1;
    }
    r
}

impl Disassembler {
    pub closed spec fn wf(&self) -> bool {
        &&& forall|i: int, j: int| 0 <= i < j < self.sessions@.len() ==> self.sessions@[i].session_id != self.sessions@[j].session_id
        &&& forall|i: int| 0 <= i < self.sessions@.len() ==> #[trigger] self.sessions@[i].fragments@.len() > 0
        &&& forall|i: int| 0 <= i < self.sessions@.len() ==> distinct_indices(#[trigger] self.sessions@[i].fragments@)
    }

    closed spec fn slot(&self, sid: u64) -> int {
        choose|i: int| 0 <= i < self.sessions@.len() && #[trigger] self.sessions@[i].session_id == sid
    }

    /// Whether fragments of session `sid` are held.
    pub closed spec fn holds(&self, sid: u64) -> bool {
        exists|i: int| 0 <= i < self.sessions@.len() && #[trigger] self.sessions@[i].session_id == sid
    }

    /// The fragments of session `sid` not yet acknowledged.
    pub closed spec fn held(&self, sid: u64) -> Seq<Fragment> {
        if self.holds(sid) {
            self.sessions@[self.slot(sid)].fragments@
        } else {
            Seq::empty()
        }
    }

    /// Where session `sid` goes, while any of its fragments is held.
    pub closed spec fn destination(&self, sid: u64) -> Option<NodeId> {
        if self.holds(sid) {
            Some(self.sessions@[self.slot(sid)].destination)
        } else {
            None
        }
    }

    pub closed spec fn counter(&self) -> u64 {
        self.last_session_id
    }

    proof fn lemma_slot(&self, k: int)
        requires
            self.wf(),
            0 <= k < self.sessions@.len(),
        ensures
            self.holds(self.sessions@[k].session_id),
            self.slot(self.sessions@[k].session_id) == k,
    {
        let sid = self.sessions@[k].session_id;
        let c = self.slot(sid);
        if c != k {
            if c < k {
                assert(self.sessions@[c].session_id != self.sessions@[k].session_id);
            } else {
                assert(self.sessions@[k].session_id != self.sessions@[c].session_id);
            }
        }
    }

    /// Nothing is held for a session exactly when it has no destination, and
    /// a held session is never empty.
    pub proof fn lemma_held_nonempty(&self, sid: u64)
        requires
            self.wf(),
        ensures
            self.holds(sid) == (self.destination(sid) is Some),
            self.holds(sid) ==> self.held(sid).len() > 0,
            !self.holds(sid) ==> self.held(sid) == Seq::<Fragment>::empty(),
    {
        if self.holds(sid) {
            let c = self.slot(sid);
            assert(self.sessions@[c].fragments@.len() > 0);
        }
    }

    /// The held fragments of a session have distinct indices.
    pub proof fn lemma_held_distinct(&self, sid: u64)
        requires
            self.wf(),
        ensures
            distinct_indices(self.held(sid)),
    {
        if self.holds(sid) {
            let c = self.slot(sid);
            assert(distinct_indices(self.sessions@[c].fragments@));
        }
    }

    pub fn new() -> (r: Self)
        ensures
            r.wf(),
            r.counter() == 0,
            forall|sid: u64| !#[trigger] r.holds(sid),
    {
        Disassembler { sessions: Vec::new(), last_session_id: 0 }
    }

    fn find(&self, sid: u64) -> (r: Option<usize>)
        requires
            self.wf(),
        ensures
            match r {
                Some(k) => k < self.sessions@.len() && self.sessions@[k as int].session_id == sid && self.holds(sid)
                    && self.slot(sid) == k,
                None => !self.holds(sid),
            },
    {
        let mut i: usize = 0;
        while i < self.sessions.len()
            invariant
                self.wf(),
                i <= self.sessions@.len(),
                forall|k: int| 0 <= k < i ==> #[trigger] self.sessions@[k].session_id != sid,
            decreases self.sessions@.len() - i,
        {
            if self.sessions[i].session_id == sid {
                proof {
                    self.lemma_slot(i as int);
                }
                return Some(i);
            }
            i = i + 1;
        }
        None
    }

    /// The ids of the sessions other than `k` keep their contents when the
    /// table changes only at `k`.
    proof fn lemma_others_kept(old_d: &Self, new_d: &Self, k: int, sid: u64)
        requires
            old_d.wf(),
            new_d.wf(),
            0 <= k,
            old_d.sessions@.len() == new_d.sessions@.len() || old_d.sessions@.len() == new_d.sessions@.len() + 1
                || old_d.sessions@.len() + 1 == new_d.sessions@.len(),
            old_d.sessions@.len() == new_d.sessions@.len() ==> (forall|i: int| 0 <= i < new_d.sessions@.len() && i != k ==> #[trigger] new_d.sessions@[i] == old_d.sessions@[i]),
            old_d.sessions@.len() == new_d.sessions@.len() + 1 ==> (forall|i: int| 0 <= i < new_d.sessions@.len() ==> #[trigger] new_d.sessions@[i] == old_d.sessions@[if i < k { i } else { i + 1 }]),
            old_d.sessions@.len() + 1 == new_d.sessions@.len() ==> k == old_d.sessions@.len() && (forall|i: int| 0 <= i < old_d.sessions@.len() ==> #[trigger] new_d.sessions@[i] == old_d.sessions@[i]),
            old_d.holds(sid) ==> old_d.slot(sid) != k,
            new_d.holds(sid) ==> new_d.slot(sid) != k || old_d.sessions@.len() == new_d.sessions@.len() + 1,
            old_d.sessions@.len() == new_d.sessions@.len() + 1 ==> k < old_d.sessions@.len() && old_d.sessions@[k].session_id != sid,
            old_d.sessions@.len() != new_d.sessions@.len() + 1 ==> k < new_d.sessions@.len() && new_d.sessions@[k].session_id != sid,
        ensures
            new_d.holds(sid) == old_d.holds(sid),
            new_d.held(sid) == old_d.held(sid),
            new_d.destination(sid) == old_d.destination(sid),
    {
        if old_d.holds(sid) {
            let c = old_d.slot(sid);
            let n = if old_d.sessions@.len() == new_d.sessions@.len() + 1 { if c < k { c } else { c - 1 } } else { c };
            assert(new_d.sessions@[n] == old_d.sessions@[c]);
            new_d.lemma_slot(n);
        }
        if new_d.holds(sid) {
            let c = new_d.slot(sid);
            let o = if old_d.sessions@.len() == new_d.sessions@.len() + 1 { if c < k { c } else { c + 1 } } else { c };
            assert(new_d.sessions@[c] == old_d.sessions@[o]);
            old_d.lemma_slot(o);
        }
    }

    /// Splits `bytes` into the fragments of session `session_id`, keeps them
    /// for retransmission with the destination, and returns them. No bytes
    /// give no fragments, and then nothing is kept.
    pub fn disassembly(&mut self, session_id: u64, destination_id: NodeId, bytes: &Vec<u8>) -> (r: Vec<Fragment>)
        requires
            old(self).wf(),
            bytes@.len() + FRAGMENT_DSIZE <= usize::MAX,
        ensures
            final(self).wf(),
            final(self).counter() == old(self).counter(),
            fragments_of(bytes@, r@),
            fragments_of(bytes@, final(self).held(session_id)),
            final(self).destination(session_id) == (if r@.len() > 0 { Some(destination_id) } else { None::<NodeId> }),
            forall|o: u64| o != session_id ==> #[trigger] final(self).held(o) == old(self).held(o),
            forall|o: u64| o != session_id ==> #[trigger] final(self).destination(o) == old(self).destination(o),
    {
        let ghost old_self = *self;
        let fragments = split_into_fragments(bytes);
        let kept = copy_fragments(&fragments);
        proof {
            assert forall|i: int| 0 <= i < kept@.len() implies ({
                &&& (#[trigger] kept@[i]).wf()
                &&& kept@[i].fragment_index == i
                &&& kept@[i].total_n_fragments == kept@.len()
                &&& kept@[i].length == crate::codec::chunk(bytes@, i).len()
                &&& kept@[i].payload() == crate::codec::chunk(bytes@, i)
                &&& forall|j: int| kept@[i].length <= j < FRAGMENT_DSIZE ==> #[trigger] kept@[i].data@[j] == 0
            }) by {
                assert(same_fragment(kept@[i], fragments@[i]));
            }
        }
        match self.find(session_id) {
            Some(k) => {
                self.sessions.remove(k);
                proof {
                    assert forall|i: int, j: int| 0 <= i < j < self.sessions@.len() implies self.sessions@[i].session_id != self.sessions@[j].session_id by {
                        let oi = if i < k { i } else { i + 1 };
                        let oj = if j < k { j } else { j + 1 };
                        assert(self.sessions@[i] == old_self.sessions@[oi]);
                        assert(self.sessions@[j] == old_self.sessions@[oj]);
                    }
                    assert forall|i: int| 0 <= i < self.sessions@.len() implies #[trigger] self.sessions@[i].fragments@.len() > 0 by {
                        let oi = if i < k { i } else { i + 1 };
                        assert(self.sessions@[i] == old_self.sessions@[oi]);
                    }
                    assert forall|i: int| 0 <= i < self.sessions@.len() implies #[trigger] self.sessions@[i].session_id != session_id by {
                        let oi = if i < k { i } else { i + 1 };
                        assert(self.sessions@[i] == old_self.sessions@[oi]);
                    }
                    assert forall|o: u64| o != session_id implies #[trigger] self.held(o) == old_self.held(o) && self.destination(o) == old_self.destination(o) by {
                        Self::lemma_others_kept(&old_self, self, k as int, o);
                    }
                }
            },
            None => {},
        }
        let ghost mid = *self;
        assert(forall|o: u64| o != session_id ==> #[trigger] mid.held(o) == old_self.held(o) && mid.destination(o) == old_self.destination(o));
        if kept.len() > 0 {
            self.sessions.push(OutSession { session_id, destination: destination_id, fragments: kept });
            proof {
                assert forall|i: int, j: int| 0 <= i < j < self.sessions@.len() implies self.sessions@[i].session_id != self.sessions@[j].session_id by {
                    if j == self.sessions@.len() - 1 {
                        assert(self.sessions@[i] == mid.sessions@[i]);
                    } else {
                        assert(self.sessions@[i] == mid.sessions@[i]);
                        assert(self.sessions@[j] == mid.sessions@[j]);
                    }
                }
                assert forall|i: int| 0 <= i < self.sessions@.len() implies #[trigger] self.sessions@[i].fragments@.len() > 0 by {
                    if i < mid.sessions@.len() {
                        assert(self.sessions@[i] == mid.sessions@[i]);
                    }
                }
                self.lemma_slot(self.sessions@.len() - 1);
                assert forall|o: u64| o != session_id implies #[trigger] self.held(o) == mid.held(o) && self.destination(o) == mid.destination(o) by {
                    Self::lemma_others_kept(&mid, self, mid.sessions@.len() as int, o);
                }
            }
        }
        proof {
            if kept@.len() == 0 {
                assert(self.held(session_id) =~= kept@);
            }
            assert forall|o: u64| o != session_id implies #[trigger] self.held(o) == old_self.held(o) && self.destination(o) == old_self.destination(o) by {
                assert(mid.held(o) == old_self.held(o));
                assert(mid.destination(o) == old_self.destination(o));
                if kept@.len() > 0 {
                    Self::lemma_others_kept(&mid, self, mid.sessions@.len() as int, o);
                }
            }
            assert forall|o: u64| o != session_id implies #[trigger] self.destination(o) == old_self.destination(o) by {
                assert(self.held(o) == old_self.held(o));
            }
        }
        fragments
    }

    /// A copy of the held fragment `fragment_index` of session `session_id`.
    pub fn get_fragment(&self, session_id: u64, fragment_index: u64) -> (r: Option<Fragment>)
        requires
            self.wf(),
        ensures
            match r {
                Some(f) => exists|i: int| 0 <= i < self.held(session_id).len()
                    && (#[trigger] self.held(session_id)[i]).fragment_index == fragment_index
                    && same_fragment(f, self.held(session_id)[i]),
                None => forall|i: int| 0 <= i < self.held(session_id).len()
                    ==> (#[trigger] self.held(session_id)[i]).fragment_index != fragment_index,
            },
    {
        match self.find(session_id) {
            Some(k) => {
                let fs = &self.sessions[k].fragments;
                let mut i: usize = 0;
                while i < fs.len()
                    invariant
                        i <= fs@.len(),
                        fs@ == self.held(session_id),
                        forall|x: int| 0 <= x < i ==> (#[trigger] fs@[x]).fragment_index != fragment_index,
                    decreases fs@.len() - i,
                {
                    if fs[i].fragment_index == fragment_index {
                        let f = fs[i].clone();
                        proof {
                            assert(same_fragment(f, self.held(session_id)[i as int]));
                        }
                        return Some(f);
                    }
                    i = i + 1;
                }
                None
            },
            None => None,
        }
    }

    /// `new` is `old` after fragment `idx` of session `sid` was acknowledged:
    /// that fragment is no longer held, a session left empty loses its
    /// destination, and nothing else changes.
    pub open spec fn acked(old: Self, sid: u64, idx: u64, new: Self) -> bool {
        &&& new.counter() == old.counter()
        &&& forall|i: int| 0 <= i < new.held(sid).len() ==> (#[trigger] new.held(sid)[i]).fragment_index != idx
        &&& forall|o: u64| o != sid ==> #[trigger] new.held(o) == old.held(o) && new.destination(o) == old.destination(o)
        &&& if exists|i: int| 0 <= i < old.held(sid).len() && (#[trigger] old.held(sid)[i]).fragment_index == idx {
            exists|i: int| 0 <= i < old.held(sid).len()
                && (#[trigger] old.held(sid)[i]).fragment_index == idx
                && new.held(sid) == old.held(sid).remove(i)
                && new.destination(sid) == (if new.held(sid).len() > 0 { old.destination(sid) } else { None::<NodeId> })
        } else {
            new == old
        }
    }

    /// Removes the held fragment `fragment_index` of session `session_id` and
    /// returns it; a session left empty is forgotten with its destination.
    pub fn forget_fragment(&mut self, session_id: u64, fragment_index: u64) -> (r: Option<Fragment>)
        requires
            old(self).wf(),
        ensures
            final(self).wf(),
            Self::acked(*old(self), session_id, fragment_index, *final(self)),
            final(self).counter() == old(self).counter(),
            forall|o: u64| o != session_id ==> #[trigger] final(self).held(o) == old(self).held(o)
                && final(self).destination(o) == old(self).destination(o),
            match r {
                Some(f) => exists|i: int| 0 <= i < old(self).held(session_id).len()
                    && (#[trigger] old(self).held(session_id)[i]).fragment_index == fragment_index
                    && f == old(self).held(session_id)[i]
                    && final(self).held(session_id) == old(self).held(session_id).remove(i)
                    && final(self).destination(session_id) == (if final(self).held(session_id).len() > 0 {
                        old(self).destination(session_id)
                    } else {
                        None::<NodeId>
                    }),
                None => *final(self) == *old(self) && forall|i: int| 0 <= i < old(self).held(session_id).len()
                    ==> (#[trigger] old(self).held(session_id)[i]).fragment_index != fragment_index,
            },
    {
        let ghost old_self = *self;
        let k = match self.find(session_id) {
            Some(k) => k,
            None => return None,
        };
        let mut p: usize = 0;
        while p < self.sessions[k].fragments.len() && self.sessions[k].fragments[p].fragment_index != fragment_index
            invariant
                *self == old_self,
                k < self.sessions@.len(),
                p <= self.sessions@[k as int].fragments@.len(),
                forall|x: int| 0 <= x < p ==> (#[trigger] self.sessions@[k as int].fragments@[x]).fragment_index != fragment_index,
            decreases self.sessions@[k as int].fragments@.len() - p,
        {
            p = p + 1;
        }
        if p == self.sessions[k].fragments.len() {
            return None;
        }
        proof {
            old_self.lemma_slot(k as int);
        }
        let mut session = self.sessions.remove(k);
        let removed = session.fragments.remove(p);
        let ghost mid = *self;
        let ghost rest = session.fragments@;
        assert(rest == old_self.held(session_id).remove(p as int));
        assert(removed == old_self.held(session_id)[p as int]);
        proof {
            assert forall|i: int| 0 <= i < self.sessions@.len() implies #[trigger] self.sessions@[i].session_id != session_id by {
                let oi = if i < k { i } else { i + 1 };
                assert(self.sessions@[i] == old_self.sessions@[oi]);
            }
            assert forall|i: int, j: int| 0 <= i < j < self.sessions@.len() implies self.sessions@[i].session_id != self.sessions@[j].session_id by {
                let oi = if i < k { i } else { i + 1 };
                let oj = if j < k { j } else { j + 1 };
                assert(self.sessions@[i] == old_self.sessions@[oi]);
                assert(self.sessions@[j] == old_self.sessions@[oj]);
            }
            assert forall|i: int| 0 <= i < self.sessions@.len() implies #[trigger] self.sessions@[i].fragments@.len() > 0 by {
                let oi = if i < k { i } else { i + 1 };
                assert(self.sessions@[i] == old_self.sessions@[oi]);
            }
            assert forall|o: u64| o != session_id implies #[trigger] self.held(o) == old_self.held(o) && self.destination(o) == old_self.destination(o) by {
                Self::lemma_others_kept(&old_self, self, k as int, o);
            }
            assert(forall|o: u64| o != session_id ==> #[trigger] mid.held(o) == old_self.held(o) && mid.destination(o) == old_self.destination(o));
        }
        if session.fragments.len() > 0 {
            self.sessions.insert(k, session);
            proof {
                assert forall|i: int, j: int| 0 <= i < j < self.sessions@.len() implies self.sessions@[i].session_id != self.sessions@[j].session_id by {
                    let oi = if i < k { i } else if i == k { k as int } else { i - 1 };
                    let oj = if j < k { j } else if j == k { k as int } else { j - 1 };
                    if i != k {
                        assert(self.sessions@[i] == mid.sessions@[oi]);
                    }
                    if j != k {
                        assert(self.sessions@[j] == mid.sessions@[oj]);
                    }
                }
                assert forall|i: int| 0 <= i < self.sessions@.len() implies #[trigger] self.sessions@[i].fragments@.len() > 0 by {
                    if i < k {
                        assert(self.sessions@[i] == mid.sessions@[i]);
                    } else if i > k {
                        assert(self.sessions@[i] == mid.sessions@[i - 1]);
                    }
                }
                self.lemma_slot(k as int);
                old_self.lemma_slot(k as int);
                assert forall|i: int| 0 <= i < self.sessions@.len() && i != k implies #[trigger] self.sessions@[i] == old_self.sessions@[i] by {
                    if i < k {
                        assert(self.sessions@[i] == mid.sessions@[i]);
                    } else {
                        assert(self.sessions@[i] == mid.sessions@[i - 1]);
                    }
                }
                assert forall|o: u64| o != session_id implies #[trigger] self.held(o) == old_self.held(o) && self.destination(o) == old_self.destination(o) by {
                    Self::lemma_others_kept(&old_self, self, k as int, o);
                }
                assert(self.held(session_id) == rest);
                assert(self.destination(session_id) == old_self.destination(session_id));
            }
        } else {
            proof {
                old_self.lemma_slot(k as int);
                assert(!self.holds(session_id));
                assert(old_self.held(session_id).remove(p as int) =~= Seq::<Fragment>::empty());
                assert(self.held(session_id) == rest);
            }
        }
        proof {
            old_self.lemma_held_distinct(session_id);
            assert forall|i: int| 0 <= i < self.held(session_id).len() implies (#[trigger] self.held(session_id)[i]).fragment_index != fragment_index by {
                let o = if i < p { i } else { i + 1 };
                assert(self.held(session_id)[i] == old_self.held(session_id)[o]);
                assert(old_self.held(session_id)[p as int].fragment_index == fragment_index);
            }
        }
        Some(removed)
    }

    /// Whether any fragment of session `session_id` is held.
    pub fn has_fragments(&self, session_id: u64) -> (r: bool)
        requires
            self.wf(),
        ensures
            r == self.holds(session_id),
    {
        self.find(session_id).is_some()
    }

    /// The current value of the session counter.
    pub fn counter_value(&self) -> (r: u64)
        ensures
            r == self.counter(),
    {
        self.last_session_id
    }

    /// The next value of the session counter.
    pub fn new_session_id(&mut self) -> (r: u64)
        requires
            old(self).counter() < SESSION_COUNTER_LIMIT,
        ensures
            r == old(self).counter(),
            final(self).counter() == old(self).counter() + 1,
            forall|o: u64| #[trigger] final(self).held(o) == old(self).held(o) && final(self).destination(o) == old(self).destination(o),
            final(self).wf() == old(self).wf(),
    {
        let ghost before = *self;
        let id = self.last_session_id;
        self.last_session_id = self.last_session_id + 1;
        proof {
            assert(self.sessions@ == before.sessions@);
            assert forall|o: u64| #[trigger] self.held(o) == before.held(o) && self.destination(o) == before.destination(o) by {
                assert(self.holds(o) == before.holds(o));
                assert(self.slot(o) == before.slot(o));
            }
        }
        id
    }

    /// Where session `session_id` goes.
    pub fn get_destination(&self, session_id: u64) -> (r: Option<NodeId>)
        requires
            self.wf(),
        ensures
            r == self.destination(session_id),
    {
        match self.find(session_id) {
            Some(k) => Some(self.sessions[k].destination),
            None => None,
        }
    }

    /// Puts the id of `node_id` in the high byte of `session_id`.
    pub fn transform_session_id(session_id: u64, node_id: NodeId) -> (r: u64)
        ensures
            r == session_id_of(node_id, session_id),
    {
        ((node_id as u64) << 56u64) | session_id
    }
}

} // verus!
