//! The authoritative, deduplicated table of discovered peers.
//!
//! The registry consumes envelopes and applies the admission rule: an
//! envelope enters the table exactly when it carries the protocol tag, does
//! not come from the local address, and its address is not yet known. The
//! rule is stated once, as the spec function [`admission_step`], and the proofs
//! at the end of the module show it is idempotent, self-excluding,
//! tag-filtering, and order-insensitive over multisets of envelopes.

use vstd::prelude::*;

use crate::address::Ipv4Address;
use crate::descriptor::{label_of, peer_label, spec_protocol_tag, Envelope, EnvelopeModel};

verus! {

/// One row of the peer table: the peer's address and the label under
/// which it is shown.
#[derive(Clone, Debug)]
pub struct PeerEntry {
    pub address: Ipv4Address,
    pub label: String,
}

/// The table of currently known peers, keyed by address.
pub struct Registry {
    /// The local bound address; never a key of the table.
    pub local: Ipv4Address,
    /// The rows, in order of first sighting; addresses are unique.
    pub entries: Vec<PeerEntry>,
}

/// The map a sequence of rows denotes: each address to its label.
pub open spec fn entries_map(s: Seq<PeerEntry>) -> Map<Ipv4Address, Seq<char>>
    decreases s.len(),
{
    if s.len() == 0 {
        Map::empty()
    } else {
        entries_map(s.drop_last()).insert(s.last().address, s.last().label@)
    }
}

/// An address is a key of `entries_map(s)` exactly when some row holds it.
pub proof fn lemma_entries_map_membership(s: Seq<PeerEntry>, a: Ipv4Address)
    ensures
        entries_map(s).contains_key(a) <==> exists|i: int|
            0 <= i < s.len() && (#[trigger] s[i]).address == a,
    decreases s.len(),
{
    if s.len() > 0 {
        lemma_entries_map_membership(s.drop_last(), a);
        if s.last().address == a {
            assert(s[s.len() - 1].address == a);
        } else if exists|i: int| 0 <= i < s.len() && (#[trigger] s[i]).address == a {
            let i = choose|i: int| 0 <= i < s.len() && (#[trigger] s[i]).address == a;
            assert(i < s.len() - 1);
            assert(s.drop_last()[i].address == a);
        }
    }
}

/// Under unique addresses, the map sends each row's address to that row's
/// label.
pub proof fn lemma_entries_map_value(s: Seq<PeerEntry>, i: int)
    requires
        0 <= i < s.len(),
        forall|j: int, k: int|
            0 <= j < s.len() && 0 <= k < s.len() && j != k ==> (#[trigger] s[j]).address != (
            #[trigger] s[k]).address,
    ensures
        entries_map(s).contains_key(s[i].address),
        entries_map(s)[s[i].address] == s[i].label@,
    decreases s.len(),
{
    if i == s.len() - 1 {
        assert(s.last() == s[i]);
    } else {
        assert(forall|j: int, k: int|
            0 <= j < s.drop_last().len() && 0 <= k < s.drop_last().len() && j != k
                ==> (#[trigger] s.drop_last()[j]).address != (#[trigger] s.drop_last()[k]).address);
        lemma_entries_map_value(s.drop_last(), i);
        assert(s.drop_last()[i] == s[i]);
        assert(s.last().address != s[i].address);
    }
}

/// Whether envelope `e` passes the admission rule against table `m`:
/// right protocol tag, not the local address, not yet a key.
pub open spec fn admissible(
    m: Map<Ipv4Address, Seq<char>>,
    local: Ipv4Address,
    e: EnvelopeModel,
) -> bool {
    &&& e.protocol_tag == spec_protocol_tag()
    &&& e.source_address != local
    &&& !m.contains_key(e.source_address)
}

/// What one envelope does to the table: the admission rule as a function.
/// An admissible envelope inserts its address under its derived label;
/// any other envelope leaves the table untouched.
pub open spec fn admission_step(
    m: Map<Ipv4Address, Seq<char>>,
    local: Ipv4Address,
    e: EnvelopeModel,
) -> Map<Ipv4Address, Seq<char>> {
    if admissible(m, local, e) {
        m.insert(e.source_address, label_of(e.descriptor))
    } else {
        m
    }
}

impl Registry {
    /// Addresses are pairwise distinct and the local address never
    /// appears.
    pub open spec fn wf(self) -> bool {
        &&& forall|j: int, k: int|
            0 <= j < self.entries@.len() && 0 <= k < self.entries@.len() && j != k
                ==> (#[trigger] self.entries@[j]).address != (#[trigger] self.entries@[k]).address
        &&& forall|j: int|
            0 <= j < self.entries@.len() ==> (#[trigger] self.entries@[j]).address != self.local
    }

    /// The table as a map from address to label.
    pub open spec fn as_map(self) -> Map<Ipv4Address, Seq<char>> {
        entries_map(self.entries@)
    }

    /// A fresh registry for a session bound to `local`: empty.
    pub fn new(local: Ipv4Address) -> (r: Registry)
        ensures
            r.wf(),
            r.local == local,
            r.entries@.len() == 0,
            r.as_map() == Map::<Ipv4Address, Seq<char>>::empty(),
    {
        Registry { local, entries: Vec::new() }
    }

    /// Whether `address` is a key of the table.
    pub fn contains(&self, address: Ipv4Address) -> (b: bool)
        ensures
            b == self.as_map().contains_key(address),
    {
        let n = self.entries.len();
        let mut i: usize = 0;
        while i < n
            invariant
                0 <= i <= n,
                n == self.entries@.len(),
                forall|j: int| 0 <= j < i ==> (#[trigger] self.entries@[j]).address != address,
            decreases n - i,
        {
            if self.entries[i].address == address {
                proof {
                    lemma_entries_map_membership(self.entries@, address);
                }
                return true;
            }
            i += 1;
        }
        proof {
            lemma_entries_map_membership(self.entries@, address);
        }
        false
    }

    /// Applies the admission rule to one received envelope. Returns
    /// whether the envelope entered the table; the table afterwards is
    /// exactly `admission_step` of the table before.
    pub fn accept(&mut self, envelope: &Envelope) -> (accepted: bool)
        requires
            old(self).wf(),
        ensures
            final(self).wf(),
            final(self).local == old(self).local,
            accepted == admissible(old(self).as_map(), old(self).local, envelope@),
            final(self).as_map() == admission_step(old(self).as_map(), old(self).local, envelope@),
            !accepted ==> final(self).entries@ == old(self).entries@,
            accepted ==> final(self).entries@.len() == old(self).entries@.len() + 1,
            accepted ==> final(self).entries@.drop_last() == old(self).entries@,
            accepted ==> final(self).entries@.last().address == envelope@.source_address,
            accepted ==> final(self).entries@.last().label@ == label_of(envelope@.descriptor),
    {
        let tag = crate::descriptor::protocol_tag().to_owned();
        if !(envelope.protocol_tag == tag) {
            return false;
        }
        if envelope.source_address == self.local {
            return false;
        }
        if self.contains(envelope.source_address) {
            return false;
        }
        let entry = PeerEntry {
            address: envelope.source_address,
            label: peer_label(&envelope.descriptor),
        };
        self.entries.push(entry);
        proof {
            let s = self.entries@;
            assert(s.drop_last() =~= old(self).entries@);
            assert(forall|j: int|
                0 <= j < s.len() - 1 ==> #[trigger] s[j] == old(self).entries@[j]);
            lemma_entries_map_membership(old(self).entries@, envelope@.source_address);
            assert(forall|j: int, k: int|
                0 <= j < s.len() && 0 <= k < s.len() && j != k ==> (#[trigger] s[j]).address != (
                #[trigger] s[k]).address) by {
                assert(forall|j: int|
                    0 <= j < s.len() - 1 ==> (#[trigger] s[j]).address
                        != envelope@.source_address);
            }
        }
        true
    }

    /// Consumes a batch of envelopes in arrival order. The table
    /// afterwards is the fold of the admission rule over the batch, so
    /// everything proved of [`apply_all`] — confluence among it — holds
    /// of what this loop builds.
    pub fn accept_all(&mut self, envelopes: &Vec<Envelope>)
        requires
            old(self).wf(),
        ensures
            final(self).wf(),
            final(self).local == old(self).local,
            final(self).as_map() == apply_all(
                old(self).as_map(),
                old(self).local,
                views_of(envelopes@),
            ),
    {
        proof {
            assert(views_of(envelopes@).skip(0) =~= views_of(envelopes@));
        }
        let n = envelopes.len();
        let mut i: usize = 0;
        while i < n
            invariant
                0 <= i <= n,
                n == envelopes@.len(),
                self.wf(),
                self.local == old(self).local,
                apply_all(self.as_map(), self.local, views_of(envelopes@).skip(i as int))
                    == apply_all(old(self).as_map(), old(self).local, views_of(envelopes@)),
            decreases n - i,
        {
            let ghost views = views_of(envelopes@);
            let ghost pre = self.as_map();
            self.accept(&envelopes[i]);
            proof {
                assert(views.skip(i as int).first() == views[i as int]);
                assert(views[i as int] == envelopes@[i as int]@);
                assert(views.skip(i as int).drop_first() =~= views.skip(i + 1));
                assert(apply_all(pre, self.local, views.skip(i as int)) == apply_all(
                    admission_step(pre, self.local, views[i as int]),
                    self.local,
                    views.skip(i + 1),
                ));
            }
            i += 1;
        }
        proof {
            assert(views_of(envelopes@).skip(n as int) =~= Seq::<EnvelopeModel>::empty());
        }
    }

    /// The rows of the table, in order of first sighting.
    pub fn list(&self) -> (r: &Vec<PeerEntry>)
        ensures
            r@ == self.entries@,
    {
        &self.entries
    }

    /// Looks an address up: the row under it, if the table has one.
    pub fn get(&self, address: Ipv4Address) -> (r: Option<&PeerEntry>)
        requires
            self.wf(),
        ensures
            match r {
                Some(p) => self.as_map().contains_key(address) && p.address == address
                    && p.label@ == self.as_map()[address],
                None => !self.as_map().contains_key(address),
            },
    {
        let n = self.entries.len();
        let mut i: usize = 0;
        while i < n
            invariant
                0 <= i <= n,
                n == self.entries@.len(),
                self.wf(),
                forall|j: int| 0 <= j < i ==> (#[trigger] self.entries@[j]).address != address,
            decreases n - i,
        {
            if self.entries[i].address == address {
                proof {
                    lemma_entries_map_value(self.entries@, i as int);
                }
                return Some(&self.entries[i]);
            }
            i += 1;
        }
        proof {
            lemma_entries_map_membership(self.entries@, address);
        }
        None
    }

    /// Removes an address from the table and returns its row; the table
    /// afterwards lacks exactly that key.
    pub fn remove(&mut self, address: Ipv4Address) -> (r: Option<PeerEntry>)
        requires
            old(self).wf(),
        ensures
            final(self).wf(),
            final(self).local == old(self).local,
            match r {
                Some(p) => old(self).as_map().contains_key(address) && p.address == address
                    && p.label@ == old(self).as_map()[address]
                    && final(self).as_map() == old(self).as_map().remove(address),
                None => !old(self).as_map().contains_key(address) && *final(self) == *old(self),
            },
    {
        let n = self.entries.len();
        let mut i: usize = 0;
        while i < n
            invariant
                0 <= i <= n,
                n == self.entries@.len(),
                self == old(self),
                old(self).wf(),
                forall|j: int| 0 <= j < i ==> (#[trigger] self.entries@[j]).address != address,
            decreases n - i,
        {
            if self.entries[i].address == address {
                proof {
                    lemma_entries_map_value(self.entries@, i as int);
                }
                let removed = self.entries.remove(i);
                proof {
                    lemma_entries_map_remove(old(self).entries@, i as int);
                    let t = self.entries@;
                    let s = old(self).entries@;
                    assert(forall|j: int| 0 <= j < i as int ==> #[trigger] t[j] == s[j]);
                    assert(forall|j: int|
                        i as int <= j < t.len() ==> #[trigger] t[j] == s[j + 1]);
                }
                return Some(removed);
            }
            i += 1;
        }
        proof {
            lemma_entries_map_membership(self.entries@, address);
        }
        None
    }
}

/// Removing row `i` removes exactly its address from the denoted map,
/// provided addresses are unique.
proof fn lemma_entries_map_remove(s: Seq<PeerEntry>, i: int)
    requires
        0 <= i < s.len(),
        forall|j: int, k: int|
            0 <= j < s.len() && 0 <= k < s.len() && j != k ==> (#[trigger] s[j]).address != (
            #[trigger] s[k]).address,
    ensures
        entries_map(s.remove(i)) == entries_map(s).remove(s[i].address),
    decreases s.len(),
{
    if i == s.len() - 1 {
        assert(s.remove(i) =~= s.drop_last());
        lemma_entries_map_membership(s.drop_last(), s[i].address);
        assert(forall|j: int|
            0 <= j < s.drop_last().len() ==> (#[trigger] s.drop_last()[j]).address
                != s[i].address);
        assert(!entries_map(s.drop_last()).contains_key(s[i].address));
        assert(entries_map(s).remove(s[i].address) =~= entries_map(s.drop_last()));
    } else {
        let t = s.remove(i);
        assert(t.len() == s.len() - 1);
        assert(t.drop_last() =~= s.drop_last().remove(i));
        assert(t.last() == s.last());
        assert(forall|j: int, k: int|
            0 <= j < s.drop_last().len() && 0 <= k < s.drop_last().len() && j != k
                ==> (#[trigger] s.drop_last()[j]).address != (#[trigger] s.drop_last()[k]).address);
        lemma_entries_map_remove(s.drop_last(), i);
        assert(s.drop_last()[i] == s[i]);
        assert(s.last().address != s[i].address);
        assert(entries_map(t) == entries_map(s.drop_last()).remove(s[i].address).insert(
            s.last().address,
            s.last().label@,
        ));
        assert(entries_map(s).remove(s[i].address) =~= entries_map(s.drop_last()).remove(
            s[i].address,
        ).insert(s.last().address, s.last().label@));
    }
}

/// The views of a sequence of envelopes.
pub open spec fn views_of(es: Seq<Envelope>) -> Seq<EnvelopeModel> {
    es.map_values(|e: Envelope| e@)
}

/// Applying a sequence of envelopes to a table, first element first.
pub open spec fn apply_all(
    m: Map<Ipv4Address, Seq<char>>,
    local: Ipv4Address,
    es: Seq<EnvelopeModel>,
) -> Map<Ipv4Address, Seq<char>>
    decreases es.len(),
{
    if es.len() == 0 {
        m
    } else {
        apply_all(admission_step(m, local, es.first()), local, es.drop_first())
    }
}

/// Whether envelope `e` can put address `a` on the table of a session
/// bound to `local`: right tag, sent from `a`, and `a` is not local.
pub open spec fn offers(e: EnvelopeModel, local: Ipv4Address, a: Ipv4Address) -> bool {
    &&& e.protocol_tag == spec_protocol_tag()
    &&& e.source_address == a
    &&& a != local
}

/// Any two well-tagged envelopes of `es` from one address carry the same
/// label.
pub open spec fn labels_agree(es: Seq<EnvelopeModel>) -> bool {
    forall|i: int, j: int|
        0 <= i < es.len() && 0 <= j < es.len() && (#[trigger] es[i]).protocol_tag
            == spec_protocol_tag() && (#[trigger] es[j]).protocol_tag == spec_protocol_tag()
            && es[i].source_address == es[j].source_address ==> label_of(es[i].descriptor)
            == label_of(es[j].descriptor)
}

/// Idempotent admission: once an envelope has put its address on the
/// table, a second envelope for the same address changes nothing, and the
/// label stored for that address stays the one the first envelope brought.
pub proof fn lemma_idempotent_admission(
    m: Map<Ipv4Address, Seq<char>>,
    local: Ipv4Address,
    e1: EnvelopeModel,
    e2: EnvelopeModel,
)
    requires
        admissible(m, local, e1),
        e2.source_address == e1.source_address,
    ensures
        admission_step(admission_step(m, local, e1), local, e2) == admission_step(m, local, e1),
        admission_step(admission_step(m, local, e1), local, e2)[e1.source_address] == label_of(
            e1.descriptor,
        ),
{
}

/// Self-exclusion: an envelope whose address equals the local bound
/// address never changes the table, whatever the table holds.
pub proof fn lemma_self_exclusion(
    m: Map<Ipv4Address, Seq<char>>,
    local: Ipv4Address,
    e: EnvelopeModel,
)
    requires
        e.source_address == local,
    ensures
        admission_step(m, local, e) == m,
{
}

/// The local bound address is never a key of a well-formed registry.
pub proof fn lemma_local_never_tabled(r: Registry)
    requires
        r.wf(),
    ensures
        !r.as_map().contains_key(r.local),
{
    lemma_entries_map_membership(r.entries@, r.local);
}

/// Protocol filtering: an envelope with a foreign protocol tag never
/// changes the table.
pub proof fn lemma_protocol_filtering(
    m: Map<Ipv4Address, Seq<char>>,
    local: Ipv4Address,
    e: EnvelopeModel,
)
    requires
        e.protocol_tag != spec_protocol_tag(),
    ensures
        admission_step(m, local, e) == m,
{
}

/// What a run of admissions leaves on the table, key by key: a key is
/// present exactly when it was present before or some envelope of the run
/// offers it; old keys keep their labels; a new key carries the label of
/// an envelope that offers it.
proof fn lemma_apply_all_characterization(
    m: Map<Ipv4Address, Seq<char>>,
    local: Ipv4Address,
    es: Seq<EnvelopeModel>,
    a: Ipv4Address,
)
    ensures
        apply_all(m, local, es).contains_key(a) <==> m.contains_key(a) || exists|i: int|
            0 <= i < es.len() && offers(#[trigger] es[i], local, a),
        m.contains_key(a) ==> apply_all(m, local, es).contains_key(a) && apply_all(m, local, es)[a]
            == m[a],
        !m.contains_key(a) && apply_all(m, local, es).contains_key(a) ==> exists|i: int|
            0 <= i < es.len() && offers(#[trigger] es[i], local, a) && apply_all(m, local, es)[a]
                == label_of(es[i].descriptor),
    decreases es.len(),
{
    if es.len() > 0 {
        let e0 = es.first();
        let m1 = admission_step(m, local, e0);
        let t = es.drop_first();
        lemma_apply_all_characterization(m1, local, t, a);
        assert(forall|i: int| 0 <= i < t.len() ==> #[trigger] t[i] == es[i + 1]);
        if exists|i: int| 0 <= i < t.len() && offers(#[trigger] t[i], local, a) {
            let i = choose|i: int| 0 <= i < t.len() && offers(#[trigger] t[i], local, a);
            assert(offers(es[i + 1], local, a));
        }
        if offers(e0, local, a) && admissible(m, local, e0) {
            assert(m1.contains_key(a) && m1[a] == label_of(e0.descriptor));
            assert(offers(es[0], local, a));
        } else if m.contains_key(a) {
            assert(m1.contains_key(a) && m1[a] == m[a]);
        } else {
            assert(!m1.contains_key(a));
            assert(!offers(e0, local, a));
            if exists|i: int| 0 <= i < es.len() && offers(#[trigger] es[i], local, a) {
                let i = choose|i: int| 0 <= i < es.len() && offers(#[trigger] es[i], local, a);
                assert(i >= 1);
                assert(offers(t[i - 1], local, a));
            }
        }
    }
}

/// Confluence under duplication and reordering: applying one multiset of
/// envelopes to the empty table yields one table, in whatever order the
/// envelopes arrive, provided well-tagged envelopes from one address agree
/// on their label.
pub proof fn lemma_confluence(local: Ipv4Address, s1: Seq<EnvelopeModel>, s2: Seq<EnvelopeModel>)
    requires
        s1.to_multiset() == s2.to_multiset(),
        labels_agree(s1),
    ensures
        apply_all(Map::empty(), local, s1) == apply_all(Map::empty(), local, s2),
{
    broadcast use vstd::seq_lib::group_to_multiset_ensures;

    let empty = Map::<Ipv4Address, Seq<char>>::empty();
    let m1 = apply_all(empty, local, s1);
    let m2 = apply_all(empty, local, s2);
    assert(forall|e: EnvelopeModel| s1.contains(e) <==> s2.contains(e)) by {
        assert(forall|e: EnvelopeModel|
            #[trigger] s1.contains(e) <==> s1.to_multiset().count(e) > 0);
        assert(forall|e: EnvelopeModel|
            #[trigger] s2.contains(e) <==> s2.to_multiset().count(e) > 0);
    }
    assert forall|a: Ipv4Address| #[trigger] m1.dom().contains(a) implies m2.dom().contains(a)
        && m1[a] == m2[a] by {
        lemma_apply_all_characterization(empty, local, s1, a);
        lemma_apply_all_characterization(empty, local, s2, a);
        let i = choose|i: int|
            0 <= i < s1.len() && offers(#[trigger] s1[i], local, a) && m1[a] == label_of(
                s1[i].descriptor,
            );
        assert(s1.contains(s1[i]));
        assert(s2.contains(s1[i]));
        let j = choose|j: int| 0 <= j < s2.len() && s2[j] == s1[i];
        assert(offers(s2[j], local, a));
        assert(m2.contains_key(a));
        let k = choose|k: int|
            0 <= k < s2.len() && offers(#[trigger] s2[k], local, a) && m2[a] == label_of(
                s2[k].descriptor,
            );
        assert(s2.contains(s2[k]));
        assert(s1.contains(s2[k]));
        let k1 = choose|k1: int| 0 <= k1 < s1.len() && s1[k1] == s2[k];
        assert(offers(s1[k1], local, a));
        assert(label_of(s1[i].descriptor) == label_of(s1[k1].descriptor));
    }
    assert forall|a: Ipv4Address| #[trigger] m2.dom().contains(a) implies m1.dom().contains(a) by {
        lemma_apply_all_characterization(empty, local, s1, a);
        lemma_apply_all_characterization(empty, local, s2, a);
        let k = choose|k: int| 0 <= k < s2.len() && offers(#[trigger] s2[k], local, a);
        assert(s2.contains(s2[k]));
        assert(s1.contains(s2[k]));
        let k1 = choose|k1: int| 0 <= k1 < s1.len() && s1[k1] == s2[k];
        assert(offers(s1[k1], local, a));
    }
    assert(m1.dom() =~= m2.dom());
    assert(m1 =~= m2);
}

} // verus!
