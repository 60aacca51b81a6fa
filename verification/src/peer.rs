//! The per-peer protocol state machine. The socket, the framed reader and
//! the channel live in the unverified shell; this type holds the session
//! state, decides on each incoming message, and hands back the messages
//! to send, the block writes to perform and the signals to emit.
use crate::bitfield::bv_bits;
use crate::bitfield::bv_len;
use crate::bitfield::bv_new;
use crate::bitfield::bv_set;
use crate::downloader::Downloader;
use crate::message::Message;
use crate::message::MessagePlayload;
use crate::message::PayloadView;
use crate::message::msg_wf;
use crate::signal::Signal;
use vstd::prelude::*;

verus! {

/// The request pipeline bound: how many block requests may be in flight.
pub const MAXIMUM_REQUEST: i32 = 20;

/// The ASCII bytes of the protocol tag that opens every handshake.
pub open spec fn protocol_tag() -> Seq<u8> {
    seq![
        66u8,
        105,
        116,
        84,
        111,
        114,
        114,
        101,
        110,
        116,
        32,
        112,
        114,
        111,
        116,
        111,
        99,
        111,
        108,
    ]
}

/// The 68 handshake bytes: the tag length, the tag, eight reserved zero
/// bytes, the info-hash and the peer id.
pub open spec fn spec_handshake(info_hash: Seq<u8>, peer_id: Seq<u8>) -> Seq<u8> {
    seq![19u8] + protocol_tag() + seq![0u8, 0, 0, 0, 0, 0, 0, 0] + info_hash + peer_id
}

/// One thing the session asks the shell to do after handling a message.
pub enum Action {
    /// Send this message to the peer.
    Send(Message),
    /// Write the block data at this absolute offset of the backing file;
    /// when `piece_complete`, read the piece back and verify it.
    Write { piece: u32, offset: u64, data: Vec<u8>, piece_complete: bool },
    /// Forward this signal to the torrent instance.
    Emit(Signal),
}

/// A chain of block picks: consecutive manager states, one pick step
/// between each pair, handing out the given requests in order.
pub open spec fn picks_chain_states(
    states: Seq<Downloader>,
    bits: Seq<bool>,
    reqs: Seq<(u32, u32, u32)>,
) -> bool {
    &&& states.len() == reqs.len() + 1
    &&& forall|i: int|
        0 <= i < reqs.len() ==> Downloader::pick_block_step(
            states[i],
            states[i + 1],
            bits,
            Some(#[trigger] reqs[i]),
        )
}

/// A session's view of one remote connection.
pub struct Peer {
    ip_addr: String,
    bit_field: bit_vec::BitVec,
    number_of_requests: i32,
    is_choke: bool,
    am_interested: bool,
}

impl Peer {
    pub closed spec fn spec_ip(self) -> Seq<char> {
        self.ip_addr@
    }

    pub closed spec fn spec_bits(self) -> Seq<bool> {
        bv_bits(self.bit_field)
    }

    pub closed spec fn spec_requests(self) -> int {
        self.number_of_requests as int
    }

    pub closed spec fn spec_is_choke(self) -> bool {
        self.is_choke
    }

    pub closed spec fn spec_am_interested(self) -> bool {
        self.am_interested
    }

    /// The session invariant: the pipeline depth stays within its bound.
    pub open spec fn session_wf(self) -> bool {
        0 <= self.spec_requests() <= MAXIMUM_REQUEST as int
    }

    pub fn new(ip_addr: &str) -> (r: Peer)
        ensures
            r.session_wf(),
            r.spec_ip() == ip_addr@,
            r.spec_bits().len() == 0,
            r.spec_requests() == 0,
            r.spec_is_choke(),
            !r.spec_am_interested(),
    {
        Self {
            ip_addr: ip_addr.to_owned(),
            bit_field: bv_new(),
            number_of_requests: 0,
            is_choke: true,
            am_interested: false,
        }
    }

    pub fn get_bit_field(&self) -> (r: &bit_vec::BitVec)
        ensures
            bv_bits(*r) == self.spec_bits(),
    {
        &self.bit_field
    }

    /// The 68 bytes this session opens its connection with.
    pub fn handshake_bytes(&self, peer_id: &[u8; 20], info_hash: &[u8; 20]) -> (r: Vec<u8>)
        ensures
            r@ == spec_handshake(info_hash@, peer_id@),
            r@.len() == 68,
    {
        let mut out: Vec<u8> = vec![
            19u8, 66, 105, 116, 84, 111, 114, 114, 101, 110, 116, 32, 112, 114, 111, 116, 111, 99,
            111, 108, 0, 0, 0, 0, 0, 0, 0, 0,
        ];
        let mut i: usize = 0;
        while i < 20
            invariant
                0 <= i <= 20,
                out@ =~= seq![19u8] + protocol_tag() + seq![0u8, 0, 0, 0, 0, 0, 0, 0]
                    + info_hash@.take(i as int),
            decreases 20 - i,
        {
            out.push(info_hash[i]);
            proof {
                assert(info_hash@.take(i as int + 1) =~= info_hash@.take(i as int).push(
                    info_hash@[i as int],
                ));
            }
            i = i + 1;
        }
        let mut j: usize = 0;
        while j < 20
            invariant
                0 <= j <= 20,
                out@ =~= seq![19u8] + protocol_tag() + seq![0u8, 0, 0, 0, 0, 0, 0, 0] + info_hash@
                    + peer_id@.take(j as int),
            decreases 20 - j,
        {
            out.push(peer_id[j]);
            proof {
                assert(peer_id@.take(j as int + 1) =~= peer_id@.take(j as int).push(
                    peer_id@[j as int],
                ));
            }
            j = j + 1;
        }
        proof {
            assert(info_hash@.take(20) =~= info_hash@);
            assert(peer_id@.take(20) =~= peer_id@);
            assert(out@ =~= spec_handshake(info_hash@, peer_id@));
        }
        out
    }

    /// Whether a received handshake carries our info-hash; a session whose
    /// remote answers with another hash is dropped.
    pub fn handshake_matches(&self, received: &Vec<u8>, info_hash: &[u8; 20]) -> (r: bool)
        ensures
            r == (received@.len() == 68 && received@.subrange(28, 48) =~= info_hash@),
    {
        if received.len() != 68 {
            return false;
        }
        let mut i: usize = 0;
        while i < 20
            invariant
                0 <= i <= 20,
                received@.len() == 68,
                forall|q: int| 0 <= q < i ==> received@[28 + q] == info_hash@[q],
            decreases 20 - i,
        {
            if received[28 + i] != info_hash[i] {
                proof {
                    assert(received@.subrange(28, 48)[i as int] != info_hash@[i as int]);
                }
                return false;
            }
            i = i + 1;
        }
        proof {
            assert(received@.subrange(28, 48) =~= info_hash@);
        }
        true
    }

    /// What one round of request pipelining does: the `Interested`
    /// declaration goes out once, then while unchoked and under the
    /// pipeline bound blocks are picked and turned into `Request`
    /// messages, until nothing more can be picked.
    pub open spec fn try_request_step(
        pre_p: Peer,
        post_p: Peer,
        pre_m: Downloader,
        post_m: Downloader,
        sent: Seq<Message>,
    ) -> bool {
        &&& Self::try_request_post(
            pre_p.spec_am_interested(),
            pre_p.spec_requests(),
            pre_p.spec_bits(),
            post_p,
            pre_m,
            post_m,
            sent,
        )
        &&& post_p.spec_ip() == pre_p.spec_ip()
        &&& post_p.spec_is_choke() == pre_p.spec_is_choke()
        &&& (pre_p.spec_is_choke() ==> post_m == pre_m && post_p.spec_requests()
            == pre_p.spec_requests())
        &&& (!pre_p.spec_is_choke() ==> (post_p.spec_requests() == MAXIMUM_REQUEST as int
            || post_m.no_block_available(pre_p.spec_bits())))
    }

    /// The common shape of one request round: given the prior interest
    /// flag, pipeline depth and bitfield, the session ends interested,
    /// the optional `Interested` message is followed by one `Request` per
    /// picked block, and the manager walked a chain of pick steps.
    pub open spec fn try_request_post(
        am0: bool,
        reqs0: int,
        bits: Seq<bool>,
        post_p: Peer,
        pre_m: Downloader,
        post_m: Downloader,
        sent: Seq<Message>,
    ) -> bool {
        let start: int = if am0 {
            0
        } else {
            1
        };
        &&& post_p.session_wf()
        &&& post_m.wf()
        &&& post_p.spec_bits() == bits
        &&& post_p.spec_am_interested()
        &&& sent.len() >= start
        &&& (start == 1 ==> sent[0]@.payload == PayloadView::Interest && msg_wf(sent[0]@))
        &&& post_p.spec_requests() == reqs0 + (sent.len() - start)
        &&& exists|issued: Seq<(u32, u32, u32)>, states: Seq<Downloader>|
            #![auto]
            issued.len() == sent.len() - start && picks_chain_states(states, bits, issued)
                && states.first() == pre_m && states.last() == post_m && (forall|i: int|
                0 <= i < issued.len() ==> sent[start + i]@.payload == PayloadView::Request(
                    issued[i].0,
                    issued[i].1,
                    issued[i].2,
                ) && msg_wf(sent[start + i]@))
    }

    /// Declare interest once, then fill the request pipeline: pick blocks
    /// while the remote is not choking us and fewer than the bound are in
    /// flight, and return the messages to send.
    #[verifier::loop_isolation(false)]
    pub fn request_more_blocks(&mut self, manager: &mut Downloader) -> (r: Vec<Message>)
        requires
            old(self).session_wf(),
            old(manager).wf(),
        ensures
            Self::try_request_step(*old(self), *final(self), *old(manager), *final(manager), r@),
    {
        let ghost p0 = *old(self);
        let ghost m0 = *old(manager);
        let ghost bits = p0.spec_bits();
        let mut msgs: Vec<Message> = Vec::new();
        // declare interest once
        if !self.am_interested {
            msgs.push(Message::new(1, Some(2), MessagePlayload::Interest));
            self.am_interested = true;
        }
        let ghost start: int = msgs@.len() as int;
        let ghost mut issued: Seq<(u32, u32, u32)> = Seq::empty();
        let ghost mut states: Seq<Downloader> = seq![*manager];
        // keep requesting until the pipeline is full or nothing is left
        #[verifier::loop_isolation(true)]
        while !self.is_choke && self.number_of_requests < MAXIMUM_REQUEST
            invariant
                self.session_wf(),
                manager.wf(),
                bits == p0.spec_bits(),
                self.spec_ip() == p0.spec_ip(),
                self.spec_bits() == p0.spec_bits(),
                self.spec_is_choke() == p0.spec_is_choke(),
                self.spec_am_interested(),
                msgs@.len() == start + issued.len(),
                start == (if p0.spec_am_interested() {
                    0int
                } else {
                    1int
                }),
                start == 1 ==> msgs@[0]@.payload == PayloadView::Interest && msg_wf(msgs@[0]@),
                picks_chain_states(states, bits, issued),
                states.first() == m0,
                states.last() == *manager,
                forall|i: int|
                    0 <= i < issued.len() ==> (#[trigger] msgs@[start + i]@).payload
                        == PayloadView::Request(issued[i].0, issued[i].1, issued[i].2) && msg_wf(
                        msgs@[start + i]@,
                    ),
                self.spec_requests() == p0.spec_requests() + issued.len(),
                p0.spec_is_choke() ==> *manager == m0 && issued.len() == 0,
            ensures
                self.session_wf(),
                manager.wf(),
                bits == p0.spec_bits(),
                self.spec_ip() == p0.spec_ip(),
                self.spec_bits() == p0.spec_bits(),
                self.spec_is_choke() == p0.spec_is_choke(),
                self.spec_am_interested(),
                msgs@.len() == start + issued.len(),
                start == 1 ==> msgs@[0]@.payload == PayloadView::Interest && msg_wf(msgs@[0]@),
                picks_chain_states(states, bits, issued),
                states.first() == m0,
                states.last() == *manager,
                forall|i: int|
                    0 <= i < issued.len() ==> (#[trigger] msgs@[start + i]@).payload
                        == PayloadView::Request(issued[i].0, issued[i].1, issued[i].2) && msg_wf(
                        msgs@[start + i]@,
                    ),
                self.spec_requests() == p0.spec_requests() + issued.len(),
                p0.spec_is_choke() ==> *manager == m0 && issued.len() == 0,
                !p0.spec_is_choke() ==> (self.spec_requests() == MAXIMUM_REQUEST as int
                    || manager.no_block_available(bits)),
            decreases MAXIMUM_REQUEST - self.number_of_requests,
        {
            let ghost m_before = *manager;
            let got = manager.pick_next_block(&self.bit_field);
            match got {
                Some(block_info) => {
                    let msg = Message::new(
                        13,
                        Some(6),
                        MessagePlayload::Request(block_info.0, block_info.1, block_info.2),
                    );
                    proof {
                        assert(msg_wf(msg@));
                    }
                    msgs.push(msg);
                    self.number_of_requests = self.number_of_requests + 1;
                    proof {
                        let old_issued = issued;
                        let old_states = states;
                        issued = issued.push(block_info);
                        states = states.push(*manager);
                        assert forall|i: int|
                            0 <= i < issued.len() implies Downloader::pick_block_step(
                            states[i],
                            states[i + 1],
                            bits,
                            Some(#[trigger] issued[i]),
                        ) by {
                            if i < old_issued.len() {
                                assert(issued[i] == old_issued[i]);
                                assert(states[i] == old_states[i]);
                                assert(states[i + 1] == old_states[i + 1]);
                            } else {
                                assert(issued[i] == block_info);
                                assert(states[i] == m_before);
                                assert(states[i + 1] == *manager);
                            }
                        }
                    }
                },
                None => {
                    break;
                },
            }
        }
        proof {
            assert(Self::try_request_step(p0, *self, m0, *manager, msgs@)) by {
                assert(issued.len() == msgs@.len() - start && picks_chain_states(states, p0.spec_bits(), issued)
                    && states.first() == m0 && states.last() == *manager && (forall|i: int|
                    0 <= i < issued.len() ==> msgs@[start + i]@.payload == PayloadView::Request(
                        issued[i].0,
                        issued[i].1,
                        issued[i].2,
                    ) && msg_wf(msgs@[start + i]@)));
            }
        }
        msgs
    }
}

impl Peer {
    /// The outcome of handling a `BitField` message.
    pub open spec fn bitfield_post(
        pre_p: Peer,
        pre_m: Downloader,
        nb: Seq<bool>,
        post_p: Peer,
        post_m: Downloader,
        r: Seq<Action>,
    ) -> bool {
        &&& post_p.spec_bits() == nb
        &&& post_p.spec_is_choke() == pre_p.spec_is_choke()
        &&& exists|mid: Downloader, sent: Seq<Message>|
            #![auto]
            Downloader::update_step(pre_m, mid, nb) && Self::try_request_post(
                pre_p.spec_am_interested(),
                pre_p.spec_requests(),
                nb,
                post_p,
                mid,
                post_m,
                sent,
            ) && r == sent.map_values(|m: Message| Action::Send(m))
    }

    /// The outcome of handling a remote `Have`.
    pub open spec fn have_post(
        pre_p: Peer,
        pre_m: Downloader,
        i: u32,
        post_p: Peer,
        post_m: Downloader,
        r: Seq<Action>,
    ) -> bool {
        &&& post_p.spec_bits() == (if (i as int) < pre_p.spec_bits().len() {
            pre_p.spec_bits().update(i as int, true)
        } else {
            pre_p.spec_bits()
        })
        &&& post_p.spec_is_choke() == pre_p.spec_is_choke()
        &&& exists|mid: Downloader, sent: Seq<Message>|
            #![auto]
            Downloader::have_step(pre_m, mid, i as int) && Self::try_request_post(
                pre_p.spec_am_interested(),
                pre_p.spec_requests(),
                post_p.spec_bits(),
                post_p,
                mid,
                post_m,
                sent,
            ) && r == seq![Action::Emit(Signal::Have(i as usize))] + sent.map_values(
                |m: Message| Action::Send(m),
            )
    }

    /// The outcome of handling an `UnChoke`.
    pub open spec fn unchoke_post(
        pre_p: Peer,
        pre_m: Downloader,
        post_p: Peer,
        post_m: Downloader,
        r: Seq<Action>,
    ) -> bool {
        &&& !post_p.spec_is_choke()
        &&& post_p.spec_bits() == pre_p.spec_bits()
        &&& exists|sent: Seq<Message>|
            #![auto]
            Self::try_request_post(
                pre_p.spec_am_interested(),
                pre_p.spec_requests(),
                pre_p.spec_bits(),
                post_p,
                pre_m,
                post_m,
                sent,
            ) && r == sent.map_values(|m: Message| Action::Send(m))
        &&& (post_p.spec_requests() == MAXIMUM_REQUEST as int || post_m.no_block_available(
            pre_p.spec_bits(),
        ))
    }

    /// The outcome of handling a received `Piece` block.
    pub open spec fn piece_post(
        pre_p: Peer,
        pre_m: Downloader,
        i: u32,
        begin: u32,
        data: Seq<u8>,
        post_p: Peer,
        post_m: Downloader,
        r: Seq<Action>,
    ) -> bool {
        &&& post_p.spec_bits() == pre_p.spec_bits()
        &&& post_p.spec_is_choke() == pre_p.spec_is_choke()
        &&& exists|mid: Downloader, wres: Option<(u64, bool)>, sent: Seq<Message>|
            #![trigger Downloader::write_step(pre_m, mid, i as int, begin as int, data.len() as int, wres), sent.len()]
            Downloader::write_step(pre_m, mid, i as int, begin as int, data.len() as int, wres)
                && Self::try_request_post(
                pre_p.spec_am_interested(),
                (if pre_p.spec_requests() > 0 {
                    pre_p.spec_requests() - 1
                } else {
                    0int
                }),
                pre_p.spec_bits(),
                post_p,
                mid,
                post_m,
                sent,
            ) && (match wres {
                Some(t) => r.len() == 1 + sent.len() && (r[0] matches Action::Write {
                    piece,
                    offset,
                    data: d,
                    piece_complete,
                } && piece == i && offset == t.0 && d@ == data && piece_complete == t.1) && r.skip(
                    1,
                ) == sent.map_values(|m: Message| Action::Send(m)),
                None => r == sent.map_values(|m: Message| Action::Send(m)),
            })
    }

    /// Act on one decoded message: track choke and availability state,
    /// feed received blocks to the manager, and answer with the actions
    /// the shell must perform, in order.
    #[verifier::rlimit(100)]
    #[verifier::spinoff_prover]
    pub fn handle_message(&mut self, received_msg: Message, manager: &mut Downloader) -> (r: Vec<
        Action,
    >)
        requires
            old(self).session_wf(),
            old(manager).wf(),
            forall|p: int|
                0 <= p < old(manager).n() ==> old(manager).spec_ctrl().count(p) < usize::MAX,
        ensures
            final(self).session_wf(),
            final(manager).wf(),
            final(self).spec_ip() == old(self).spec_ip(),
            match received_msg@.payload {
                PayloadView::BitField(nb) => Self::bitfield_post(
                    *old(self),
                    *old(manager),
                    nb,
                    *final(self),
                    *final(manager),
                    r@,
                ),
                PayloadView::Have(i) => Self::have_post(
                    *old(self),
                    *old(manager),
                    i,
                    *final(self),
                    *final(manager),
                    r@,
                ),
                PayloadView::Choke => {
                    &&& final(self).spec_is_choke()
                    &&& final(self).spec_bits() == old(self).spec_bits()
                    &&& final(self).spec_am_interested() == old(self).spec_am_interested()
                    &&& final(self).spec_requests() == old(self).spec_requests()
                    &&& *final(manager) == *old(manager)
                    &&& r@.len() == 0
                },
                PayloadView::UnChoke => Self::unchoke_post(
                    *old(self),
                    *old(manager),
                    *final(self),
                    *final(manager),
                    r@,
                ),
                PayloadView::Piece(i, begin, data) => Self::piece_post(
                    *old(self),
                    *old(manager),
                    i,
                    begin,
                    data,
                    *final(self),
                    *final(manager),
                    r@,
                ),
                PayloadView::Port(p) => {
                    &&& *final(self) == *old(self)
                    &&& *final(manager) == *old(manager)
                    &&& r@.len() == 1 && r@[0] == Action::Emit(Signal::Port(p))
                },
                PayloadView::Interest | PayloadView::NotInterest => {
                    &&& *final(self) == *old(self)
                    &&& *final(manager) == *old(manager)
                    &&& r@.len() == 1 && r@[0] == Action::Emit(Signal::Unknown)
                },
                _ => {
                    &&& *final(self) == *old(self)
                    &&& *final(manager) == *old(manager)
                    &&& r@.len() == 0
                },
            },
    {
        let ghost s0 = *old(self);
        let ghost mg0 = *old(manager);
        match received_msg.payload {
            MessagePlayload::BitField(new_bit_field) => {
                let ghost nb = bv_bits(new_bit_field);
                manager.update_priority(&new_bit_field);
                self.bit_field = new_bit_field;
                let ghost mid = *manager;
                let sent = self.request_more_blocks(manager);
                let ghost sent_seq = sent@;
                let mut actions: Vec<Action> = Vec::new();
                push_send_actions(&mut actions, sent);
                proof {
                    assert(received_msg@.payload == PayloadView::BitField(nb));
                    assert(actions@ =~= sent_seq.map_values(|m: Message| Action::Send(m)));
                    assert(Self::try_request_post(
                        s0.spec_am_interested(),
                        s0.spec_requests(),
                        nb,
                        *self,
                        mid,
                        *manager,
                        sent_seq,
                    ));
                    assert(Self::bitfield_post(s0, mg0, nb, *self, *manager, actions@));
                }
                actions
            },
            MessagePlayload::Have(pie_idx) => {
                let idx = pie_idx as usize;
                let blen = bv_len(&self.bit_field);
                if idx < blen {
                    bv_set(&mut self.bit_field, idx, true);
                }
                manager.apply_have(idx);
                let ghost mid = *manager;
                let ghost p1 = *self;
                let mut actions: Vec<Action> = Vec::new();
                actions.push(Action::Emit(Signal::Have(idx)));
                let sent = self.request_more_blocks(manager);
                let ghost sent_seq = sent@;
                push_send_actions(&mut actions, sent);
                proof {
                    assert((pie_idx as int) == (idx as int));
                    assert(actions@ =~= seq![Action::Emit(Signal::Have(idx))]
                        + sent_seq.map_values(|m: Message| Action::Send(m)));
                    assert(Self::try_request_post(
                        s0.spec_am_interested(),
                        s0.spec_requests(),
                        p1.spec_bits(),
                        *self,
                        mid,
                        *manager,
                        sent_seq,
                    ));
                    assert(Self::have_post(s0, mg0, pie_idx, *self, *manager, actions@));
                }
                actions
            },
            MessagePlayload::Choke => {
                self.is_choke = true;
                Vec::new()
            },
            MessagePlayload::UnChoke => {
                self.is_choke = false;
                let sent = self.request_more_blocks(manager);
                let ghost sent_seq = sent@;
                let mut actions: Vec<Action> = Vec::new();
                push_send_actions(&mut actions, sent);
                proof {
                    assert(actions@ =~= sent_seq.map_values(|m: Message| Action::Send(m)));
                    assert(Self::try_request_post(
                        s0.spec_am_interested(),
                        s0.spec_requests(),
                        s0.spec_bits(),
                        *self,
                        mg0,
                        *manager,
                        sent_seq,
                    ));
                    assert(Self::unchoke_post(s0, mg0, *self, *manager, actions@));
                }
                actions
            },
            MessagePlayload::Piece(pie_idx, begin, data) => {
                let ghost data_view = data@;
                let wres = manager.write_block(pie_idx as usize, begin, &data);
                let ghost mid = *manager;
                if self.number_of_requests > 0 {
                    self.number_of_requests = self.number_of_requests - 1;
                }
                let mut actions: Vec<Action> = Vec::new();
                if let Some(t) = wres {
                    actions.push(
                        Action::Write { piece: pie_idx, offset: t.0, data, piece_complete: t.1 },
                    );
                }
                let sent = self.request_more_blocks(manager);
                let ghost sent_seq = sent@;
                push_send_actions(&mut actions, sent);
                proof {
                    assert(Self::try_request_post(
                        s0.spec_am_interested(),
                        (if s0.spec_requests() > 0 {
                            s0.spec_requests() - 1
                        } else {
                            0int
                        }),
                        s0.spec_bits(),
                        *self,
                        mid,
                        *manager,
                        sent_seq,
                    ));
                    if wres is Some {
                        assert(actions@.skip(1) =~= sent_seq.map_values(
                            |m: Message| Action::Send(m),
                        ));
                    } else {
                        assert(actions@ =~= sent_seq.map_values(|m: Message| Action::Send(m)));
                    }
                    assert(Self::piece_post(
                        s0,
                        mg0,
                        pie_idx,
                        begin,
                        data_view,
                        *self,
                        *manager,
                        actions@,
                    ));
                }
                actions
            },
            MessagePlayload::Port(port) => {
                let mut actions: Vec<Action> = Vec::new();
                actions.push(Action::Emit(Signal::Port(port)));
                actions
            },
            MessagePlayload::Interest | MessagePlayload::NotInterest => {
                let mut actions: Vec<Action> = Vec::new();
                actions.push(Action::Emit(Signal::Unknown));
                actions
            },
            _ => Vec::new(),
        }
    }
}

/// Append one `Send` action per message, in order.
fn push_send_actions(actions: &mut Vec<Action>, msgs: Vec<Message>)
    ensures
        final(actions)@ == old(actions)@ + msgs@.map_values(|m: Message| Action::Send(m)),
{
    let ghost base = actions@;
    let ghost all = msgs@;
    let ghost mut done: int = 0;
    let mut rest = msgs;
    while rest.len() > 0
        invariant
            0 <= done <= all.len(),
            rest@ =~= all.skip(done),
            actions@ =~= base + all.take(done).map_values(|m: Message| Action::Send(m)),
        decreases all.len() - done,
    {
        let m = rest.remove(0);
        proof {
            assert(all.skip(done)[0] == all[done]);
            assert(m == all[done]);
        }
        actions.push(Action::Send(m));
        proof {
            assert(all.take(done + 1) =~= all.take(done).push(all[done]));
            assert(all.take(done + 1).map_values(|m2: Message| Action::Send(m2)) =~= all.take(
                done,
            ).map_values(|m2: Message| Action::Send(m2)).push(Action::Send(all[done])));
            assert(all.skip(done).remove(0) =~= all.skip(done + 1));
            done = done + 1;
        }
    }
    proof {
        assert(done == all.len());
        assert(all.take(all.len() as int) =~= all);
        assert(actions@ =~= base + all.map_values(|m: Message| Action::Send(m)));
    }
}

} // verus!