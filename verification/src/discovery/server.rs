//! The registry a discovery server keeps, and the frames it relays.
//!
//! Clients announce sources with `<OMTAddress>` metadata frames. The server
//! keeps each source once (by instance name and port) with the client that
//! registered it, replaces the announced addresses with the client's own,
//! and relays every change to all clients. Sockets, threads and events stay
//! with the caller, which hands each client a connection number.
use vstd::prelude::*;
use crate::discovery::address::{OmtAddress, address_view, address_xml, instance_text};
use crate::discovery::listing::{AddressModel, models, model_name, same_source};
use crate::error::OmtError;
use crate::protocol::frame::{AssembledFrame, FrameHeader, AudioHeader, VideoHeader, PROTOCOL_VERSION, frame_bytes};
use crate::protocol::metadata::{decode_metadata_xml, before_nul, utf8_error_text};
use crate::send::metadata_frame;
use crate::text::{owned, str_eq};
use crate::types::FrameType;
use vstd::utf8::{encode_utf8, decode_utf8, valid_utf8};

verus! {

broadcast use vstd::string::group_string_axioms;

/// A registered source and the connection that registered it.
pub type EntryModel = (AddressModel, u64);

/// The address as relayed when its source leaves.
pub open spec fn mark_removed(m: AddressModel) -> AddressModel {
    (m.0, m.1, m.2, m.3, true)
}

/// Position of the first entry, from `i` on, for the same source as `a`.
pub open spec fn find_source(s: Seq<EntryModel>, a: AddressModel, i: int) -> Option<int>
    decreases s.len() - i,
{
    if i < 0 || i >= s.len() {
        None
    } else if same_source(s[i].0, a) {
        Some(i)
    } else {
        find_source(s, a, i + 1)
    }
}

/// No two entries are for the same source.
pub open spec fn sources_unique(s: Seq<EntryModel>) -> bool {
    forall|i: int, j: int| 0 <= i < j < s.len() ==> !same_source(#[trigger] s[i].0, #[trigger] s[j].0)
}

/// The registry after connection `peer` (whose address is `ip`) announces
/// `a`, and the address relayed to all clients, if any.
///
/// A removal takes out the entry for the same source, wherever it came
/// from, and relays it marked removed; a removal of an unknown source does
/// nothing. A new source is kept with `ip` as its only address and relayed;
/// a source already registered is left as it is.
pub open spec fn announce(s: Seq<EntryModel>, peer: u64, ip: Seq<char>, a: AddressModel) -> (Seq<EntryModel>, Option<AddressModel>) {
    match find_source(s, a, 0) {
        Some(i) => if a.4 {
            (s.remove(i), Some(mark_removed(s[i].0)))
        } else {
            (s, None)
        },
        None => if a.4 {
            (s, None)
        } else {
            let b = (a.0, a.1, a.2, seq![ip], a.4);
            (s.push((b, peer)), Some(b))
        },
    }
}

/// The sources connection `peer` registered, in order, as relayed when it
/// leaves.
pub open spec fn owned_by(s: Seq<EntryModel>, peer: u64) -> Seq<AddressModel>
    decreases s.len(),
{
    if s.len() == 0 {
        Seq::empty()
    } else if s.last().1 == peer {
        owned_by(s.drop_last(), peer).push(mark_removed(s.last().0))
    } else {
        owned_by(s.drop_last(), peer)
    }
}

/// The entries of the other connections, in order.
pub open spec fn not_owned_by(s: Seq<EntryModel>, peer: u64) -> Seq<EntryModel>
    decreases s.len(),
{
    if s.len() == 0 {
        Seq::empty()
    } else if s.last().1 == peer {
        not_owned_by(s.drop_last(), peer)
    } else {
        not_owned_by(s.drop_last(), peer).push(s.last())
    }
}

/// Each entry kept is an entry of `s`, and two kept entries come in the
/// order they had in `s`.
proof fn lemma_not_owned_from(s: Seq<EntryModel>, peer: u64)
    ensures
        forall|x: int| 0 <= x < not_owned_by(s, peer).len() ==> exists|a: int| 0 <= a < s.len() && s[a] == #[trigger] not_owned_by(s, peer)[x],
        sources_unique(s) ==> sources_unique(not_owned_by(s, peer)),
    decreases s.len(),
{
    if s.len() > 0 {
        let d = s.drop_last();
        lemma_not_owned_from(d, peer);
        let t = not_owned_by(s, peer);
        let u = not_owned_by(d, peer);
        assert forall|x: int| 0 <= x < t.len() implies exists|a: int| 0 <= a < s.len() && s[a] == #[trigger] t[x] by {
            if x < u.len() {
                let a = choose|a: int| 0 <= a < d.len() && d[a] == u[x];
                assert(s[a] == t[x]);
            } else {
                assert(s[s.len() - 1] == t[x]);
            }
        }
        if sources_unique(s) {
            assert(sources_unique(d));
            assert forall|x: int, y: int| 0 <= x < y < t.len() implies !same_source(
                #[trigger] t[x].0,
                #[trigger] t[y].0,
            ) by {
                if y < u.len() {
                    assert(t[x] == u[x] && t[y] == u[y]);
                } else {
                    let a = choose|a: int| 0 <= a < d.len() && d[a] == u[x];
                    assert(t[x] == s[a]);
                    assert(t[y] == s[s.len() - 1]);
                }
            }
        }
    }
}

proof fn lemma_find_source(s: Seq<EntryModel>, a: AddressModel, i: int)
    requires
        0 <= i,
    ensures
        find_source(s, a, i) matches Some(j) ==> i <= j < s.len() && same_source(s[j].0, a),
        find_source(s, a, i) is None ==> forall|j: int| i <= j < s.len() ==> !same_source(#[trigger] s[j].0, a),
    decreases s.len() - i,
{
    if i < s.len() && !same_source(s[i].0, a) {
        lemma_find_source(s, a, i + 1);
    }
}

proof fn lemma_same_source_symmetric(m: AddressModel, a: AddressModel, b: AddressModel)
    ensures
        same_source(m, a) && same_source(m, b) ==> same_source(a, b),
        same_source(a, m) == same_source(m, a),
{
}

/// Every announcement keeps each source registered once.
pub proof fn lemma_announce_unique(s: Seq<EntryModel>, peer: u64, ip: Seq<char>, a: AddressModel)
    requires
        sources_unique(s),
    ensures
        sources_unique(announce(s, peer, ip, a).0),
{
    lemma_find_source(s, a, 0);
    let t = announce(s, peer, ip, a).0;
    match find_source(s, a, 0) {
        Some(i) => {
            if a.4 {
                assert forall|x: int, y: int| 0 <= x < y < t.len() implies !same_source(
                    #[trigger] t[x].0,
                    #[trigger] t[y].0,
                ) by {
                    let x0 = if x < i { x } else { x + 1 };
                    let y0 = if y < i { y } else { y + 1 };
                    assert(t[x] == s[x0] && t[y] == s[y0]);
                }
            }
        },
        None => {
            if !a.4 {
                assert forall|x: int, y: int| 0 <= x < y < t.len() implies !same_source(
                    #[trigger] t[x].0,
                    #[trigger] t[y].0,
                ) by {
                    if y == s.len() {
                        assert(t[x] == s[x]);
                        assert(!same_source(s[x].0, a));
                        assert(model_name(t[y].0) == model_name(a));
                    } else {
                        assert(t[x] == s[x] && t[y] == s[y]);
                    }
                }
            }
        },
    }
}

/// After a client withdraws a source, the registry holds no entry for it,
/// and the other entries are those it held before, in order.
pub proof fn lemma_withdraw_removes(s: Seq<EntryModel>, peer: u64, ip: Seq<char>, a: AddressModel)
    requires
        sources_unique(s),
        a.4,
    ensures
        find_source(announce(s, peer, ip, a).0, a, 0) is None,
        announce(s, peer, ip, a).0 == s.filter(|e: EntryModel| !same_source(e.0, a)),
{
    lemma_find_source(s, a, 0);
    let t = announce(s, peer, ip, a).0;
    let pred = |e: EntryModel| !same_source(e.0, a);
    match find_source(s, a, 0) {
        Some(i) => {
            assert forall|j: int| 0 <= j < s.len() && j != i implies !same_source(#[trigger] s[j].0, a) by {
                if same_source(s[j].0, a) {
                    lemma_same_source_symmetric(a, s[j].0, s[i].0);
                    assert(same_source(s[i].0, a));
                    if j < i {
                        assert(!same_source(s[j].0, s[i].0));
                    } else {
                        assert(!same_source(s[i].0, s[j].0));
                    }
                }
            }
            assert(s =~= s.take(i) + seq![s[i]] + s.skip(i + 1));
            assert(t =~= s.take(i) + s.skip(i + 1));
            Seq::filter_distributes_over_add(s.take(i) + seq![s[i]], s.skip(i + 1), pred);
            Seq::filter_distributes_over_add(s.take(i), seq![s[i]], pred);
            lemma_filter_all(s.take(i), pred);
            lemma_filter_all(s.skip(i + 1), pred);
            Seq::<EntryModel>::empty().lemma_filter_push(s[i], pred);
            assert(seq![s[i]] =~= Seq::<EntryModel>::empty().push(s[i]));
            reveal(Seq::filter);
            assert(seq![s[i]].filter(pred) =~= Seq::<EntryModel>::empty());
            lemma_find_source(t, a, 0);
            if find_source(t, a, 0) is Some {
                let j = find_source(t, a, 0)->0;
                if j < i {
                    assert(t[j] == s[j]);
                } else {
                    assert(t[j] == s[j + 1]);
                }
            }
        },
        None => {
            lemma_filter_all(s, pred);
        },
    }
}

/// A sequence whose every element passes `pred` is its own filter.
proof fn lemma_filter_all(s: Seq<EntryModel>, pred: spec_fn(EntryModel) -> bool)
    requires
        forall|j: int| 0 <= j < s.len() ==> pred(#[trigger] s[j]),
    ensures
        s.filter(pred) == s,
    decreases s.len(),
{
    reveal(Seq::filter);
    if s.len() > 0 {
        lemma_filter_all(s.drop_last(), pred);
        assert(s.drop_last().push(s.last()) =~= s);
    } else {
        assert(s.filter(pred) =~= s);
    }
}

/// The sources a discovery server has registered, each with the
/// connection that registered it.
#[derive(Debug)]
pub struct Registry {
    entries: Vec<(OmtAddress, u64)>,
}

impl View for Registry {
    type V = Seq<EntryModel>;

    closed spec fn view(&self) -> Seq<EntryModel> {
        self.entries@.map_values(|e: (OmtAddress, u64)| (address_view(e.0), e.1))
    }
}

impl Registry {
    /// Each source is registered once.
    pub closed spec fn wf(&self) -> bool {
        sources_unique(self@)
    }

    /// An empty registry.
    pub fn new() -> (r: Registry)
        ensures
            r.wf(),
            r@ == Seq::<EntryModel>::empty(),
    {
        let r = Registry { entries: Vec::new() };
        assert(r@ =~= Seq::<EntryModel>::empty());
        r
    }

    /// Number of registered sources.
    pub fn len(&self) -> (r: usize)
        ensures
            r == self@.len(),
    {
        self.entries.len()
    }

    /// Position of the entry for the same source as `a`.
    fn position(&self, a: &OmtAddress) -> (r: Option<usize>)
        ensures
            match find_source(self@, address_view(*a), 0) {
                Some(i) => r matches Some(u) && u as int == i,
                None => r is None,
            },
    {
        let ghost s = self@;
        let name = a.instance_name();
        let mut i: usize = 0;
        while i < self.entries.len()
            invariant
                i <= self.entries@.len(),
                s == self@,
                s.len() == self.entries@.len(),
                name@ == model_name(address_view(*a)),
                find_source(s, address_view(*a), 0) == find_source(s, address_view(*a), i as int),
            decreases self.entries@.len() - i,
        {
            proof {
                assert(s[i as int] == (address_view(self.entries@[i as int].0), self.entries@[i as int].1));
            }
            if str_eq(self.entries[i].0.instance_name().as_str(), name.as_str()) && self.entries[i].0.port
                == a.port {
                return Some(i);
            }
            i = i + 1;
        }
        None
    }

    /// Take in an announcement `a` from connection `peer`, whose address is
    /// `peer_ip`; gives the address to relay to every client, if any (see
    /// [`announce`]).
    pub fn handle_address(&mut self, peer: u64, peer_ip: &str, a: &OmtAddress) -> (r: Option<OmtAddress>)
        requires
            old(self).wf(),
        ensures
            final(self).wf(),
            final(self)@ == announce(old(self)@, peer, peer_ip@, address_view(*a)).0,
            match announce(old(self)@, peer, peer_ip@, address_view(*a)).1 {
                Some(m) => r matches Some(b) && address_view(b) == m,
                None => r is None,
            },
    {
        proof {
            lemma_announce_unique(self@, peer, peer_ip@, address_view(*a));
        }
        let ghost s = self@;
        proof {
            lemma_find_source(s, address_view(*a), 0);
            assert(s.len() == self.entries@.len());
        }
        match self.position(a) {
            Some(i) => {
                if a.removed {
                    let ghost before = self.entries@;
                    let (mut gone, _owner) = self.entries.remove(i);
                    gone.removed = true;
                    proof {
                        assert(self.entries@ == before.remove(i as int));
                        assert(self@ =~= s.remove(i as int));
                    }
                    Some(gone)
                } else {
                    None
                }
            },
            None => {
                if a.removed {
                    None
                } else {
                    let mut b = a.duplicate();
                    let mut ips: Vec<String> = Vec::new();
                    ips.push(owned(peer_ip));
                    b.addresses = ips;
                    proof {
                        assert(b.addresses.deep_view() =~= seq![peer_ip@]);
                    }
                    let c = b.duplicate();
                    self.entries.push((b, peer));
                    proof {
                        assert(self@ =~= s.push((address_view(c), peer)));
                    }
                    Some(c)
                }
            },
        }
    }

    /// Take out the sources of connection `peer` when it leaves; gives them
    /// marked removed, in order, to relay to the other clients.
    pub fn disconnect(&mut self, peer: u64) -> (r: Vec<OmtAddress>)
        requires
            old(self).wf(),
        ensures
            final(self).wf(),
            final(self)@ == not_owned_by(old(self)@, peer),
            models(r@) == owned_by(old(self)@, peer),
    {
        let ghost s = self@;
        let mut kept: Vec<(OmtAddress, u64)> = Vec::new();
        let mut gone: Vec<OmtAddress> = Vec::new();
        let mut i: usize = 0;
        proof {
            assert(s.take(0) =~= Seq::<EntryModel>::empty());
            assert(models(gone@) =~= Seq::<AddressModel>::empty());
            assert(kept@.map_values(|e: (OmtAddress, u64)| (address_view(e.0), e.1)) =~= Seq::<EntryModel>::empty());
        }
        while i < self.entries.len()
            invariant
                i <= self.entries@.len(),
                s == self@,
                s.len() == self.entries@.len(),
                kept@.map_values(|e: (OmtAddress, u64)| (address_view(e.0), e.1)) == not_owned_by(s.take(i as int), peer),
                models(gone@) == owned_by(s.take(i as int), peer),
            decreases self.entries@.len() - i,
        {
            let ghost ei = (address_view(self.entries@[i as int].0), self.entries@[i as int].1);
            proof {
                assert(s[i as int] == ei);
                assert(s.take(i + 1).drop_last() =~= s.take(i as int));
                assert(s.take(i + 1).last() == ei);
            }
            let a = self.entries[i].0.duplicate();
            if self.entries[i].1 == peer {
                let mut b = a;
                b.removed = true;
                let ghost before = models(gone@);
                gone.push(b);
                proof {
                    assert(models(gone@) =~= before.push(mark_removed(ei.0)));
                }
            } else {
                let ghost before = kept@.map_values(|e: (OmtAddress, u64)| (address_view(e.0), e.1));
                kept.push((a, self.entries[i].1));
                proof {
                    assert(kept@.map_values(|e: (OmtAddress, u64)| (address_view(e.0), e.1)) =~= before.push(ei));
                }
            }
            i = i + 1;
        }
        proof {
            assert(s.take(s.len() as int) =~= s);
            lemma_not_owned_from(s, peer);
        }
        self.entries = kept;
        gone
    }

    /// The registered sources, in order of registration.
    pub fn sources(&self) -> (r: Vec<OmtAddress>)
        ensures
            models(r@) == self@.map_values(|e: EntryModel| e.0),
    {
        let mut out: Vec<OmtAddress> = Vec::new();
        let mut i: usize = 0;
        while i < self.entries.len()
            invariant
                i <= self.entries@.len(),
                models(out@) == self@.map_values(|e: EntryModel| e.0).take(i as int),
            decreases self.entries@.len() - i,
        {
            let a = self.entries[i].0.duplicate();
            let ghost before = models(out@);
            out.push(a);
            proof {
                assert(models(out@) =~= before.push(address_view(a)));
                assert(self@.map_values(|e: EntryModel| e.0).take(i + 1) =~= self@.map_values(
                    |e: EntryModel| e.0,
                ).take(i as int).push(address_view(self.entries@[i as int].0)));
            }
            i = i + 1;
        }
        proof {
            assert(self@.map_values(|e: EntryModel| e.0).take(self@.len() as int) =~= self@.map_values(
                |e: EntryModel| e.0,
            ));
        }
        out
    }
}

/// The XML text a discovery frame carries: its metadata section when it
/// has one, else its payload (UTF-8, up to the first NUL).
pub fn metadata_xml_from_frame(frame: &AssembledFrame) -> (r: Result<String, OmtError>)
    ensures
        ({
            let b = if frame.metadata@.len() > 0 {
                frame.metadata@
            } else {
                frame.data@
            };
            match r {
                Ok(s) => valid_utf8(before_nul(b)) && s@ == decode_utf8(before_nul(b)),
                Err(e) => !valid_utf8(before_nul(b)) && (e matches OmtError::Protocol(m) && m@
                    == "invalid metadata utf-8: "@ + utf8_error_text(before_nul(b))),
            }
        }),
{
    if frame.metadata.len() > 0 {
        decode_metadata_xml(frame.metadata.as_slice())
    } else {
        decode_metadata_xml(frame.data.as_slice())
    }
}

/// The bytes of the metadata frame announcing `addr`: a header for a
/// metadata frame with timestamp 0, then the address document in UTF-8.
pub fn address_frame_bytes(addr: &OmtAddress) -> (r: Vec<u8>)
    ensures
        ({
            let x = encode_utf8(address_xml(instance_text(addr.machine_name@, addr.name@), addr.port, addr.removed, addr.addresses.deep_view()));
            r@ == frame_bytes((FrameHeader {
                version: PROTOCOL_VERSION,
                frame_type: FrameType(1),
                timestamp: 0,
                metadata_length: 0,
                data_length: x.len() as i32,
            }, Option::<VideoHeader>::None, Option::<AudioHeader>::None, x, Seq::<u8>::empty()))
        }),
{
    let xml = addr.to_xml();
    let frame = metadata_frame(0, xml.as_str());
    frame.to_bytes()
}

} // verus!
