//! The per-connection session: registration state and inbound dispatch.
//!
//! A session owns one connection's registration state.  Its inbound step is a
//! pure function of the old state, the shared registry, the raw frame and the
//! current time; the unverified shell reads frames from the transport, calls
//! the step under the registry lock, and publishes the returned frames on the
//! broadcast hub.

use vstd::prelude::*;
use crate::envelope::{MsgKind, Envelope, EnvelopeView, ChatMessage, ChatMessageView};
use crate::codec::{
    spec_encode_envelope, spec_encode_chat, spec_decode_envelope, spec_decode_chat, dec_str,
    decode_envelope, encode_envelope, encode_chat, u64_to_dec,
};
use crate::registry::{
    Registry, reg_wf, reg_insert, reg_remove, reg_names, reg_idx, lemma_remove_lookup,
    copy_bytes,
};

verus! {

/// Relies on `std::time::SystemTime::now` (with `duration_since` and the
/// `Duration` accessors converting the result to numbers): whole seconds
/// since the Unix epoch and the millisecond remainder, by the machine's
/// clock.  The remainder is below 1000 by `subsec_millis`'s documentation;
/// nothing is promised of the seconds, as the clock may move arbitrarily
/// between calls, so every caller states what holds whatever value comes
/// back.
#[verifier::external_body]
fn now_since_epoch() -> (r: (u64, u32))
    ensures
        r.1 < 1000,
{
    match std::time::SystemTime::now().duration_since(std::time::UNIX_EPOCH) {
        Ok(d) => (d.as_secs(), d.subsec_millis()),
        Err(_) => (0, 0),
    }
}

/// The millisecond count of a clock reading — seconds times 1000 plus the
/// millisecond remainder — truncated to 64 bits.
pub open spec fn truncated_ms(secs: u64, millis: u32) -> nat {
    (secs as nat * 1000 + millis as nat) % 0x10000000000000000
}

/// The millisecond count of a clock reading, truncated to 64 bits (which
/// holds the true count for the next half-billion years of real clocks).
pub fn epoch_ms(secs: u64, millis: u32) -> (r: u64)
    ensures
        r as nat == truncated_ms(secs, millis),
{
    let r = secs.wrapping_mul(1000).wrapping_add(millis as u64);
    proof {
        let range: int = 0x10000000000000000;
        let p: int = secs as int * 1000;
        let a: int = p % range;
        let m: int = millis as int;
        vstd::arithmetic::div_mod::lemma_small_mod(millis as nat, range as nat);
        vstd::arithmetic::div_mod::lemma_add_mod_noop(p, m, range);
        if a + m > u64::MAX {
            vstd::arithmetic::div_mod::lemma_mod_sub_multiples_vanish(a + m, range);
            vstd::arithmetic::div_mod::lemma_small_mod((a + m - range) as nat, range as nat);
        } else {
            vstd::arithmetic::div_mod::lemma_small_mod((a + m) as nat, range as nat);
        }
        assert(r as nat == truncated_ms(secs, millis));
    }
    r
}

/// Milliseconds since the Unix epoch: [`epoch_ms`] of the clock reading.
pub fn now_ms() -> (r: u64)
    ensures
        exists|secs: u64, millis: u32|
            millis < 1000 && r as nat == #[trigger] truncated_ms(secs, millis),
{
    let (secs, millis) = now_since_epoch();
    epoch_ms(secs, millis)
}

/// The `users` roster broadcast frame.
pub open spec fn users_frame(roster: Seq<Seq<u8>>) -> Seq<u8> {
    spec_encode_envelope(
        EnvelopeView { kind: MsgKind::Users, data: None, data_array: Some(roster) },
    )
}

/// The `message` broadcast frame carrying one chat message.
pub open spec fn message_frame(c: ChatMessageView) -> Seq<u8> {
    spec_encode_envelope(
        EnvelopeView { kind: MsgKind::Message, data: Some(spec_encode_chat(c)), data_array: None },
    )
}

/// The display name used when a frame must be attributed and the connection
/// never registered: the connection id's decimal form.
pub open spec fn fallback_name(nick: Option<Seq<u8>>, id: u64) -> Seq<u8> {
    match nick {
        Some(n) => n,
        None => dec_str(id as nat),
    }
}

/// Everything one inbound step produces.
#[verifier::ext_equal]
pub ghost struct StepView {
    pub nickname: Option<Seq<u8>>,
    pub reg: Seq<(u64, Seq<u8>)>,
    pub out: Seq<Seq<u8>>,
}

/// The inbound dispatch, as a mathematical function: what one raw frame from
/// connection `id` does to the session's nickname, to the registry, and which
/// frames are broadcast in reply.
pub open spec fn session_step(
    id: u64,
    nick: Option<Seq<u8>>,
    reg: Seq<(u64, Seq<u8>)>,
    payload: Seq<u8>,
    now: u64,
) -> StepView {
    match spec_decode_envelope(payload) {
        Some(env) => match env.kind {
            MsgKind::Register => {
                let name = match env.data {
                    Some(d) => d,
                    None => dec_str(id as nat),
                };
                let reg2 = reg_insert(reg, id, name);
                StepView {
                    nickname: Some(name),
                    reg: reg2,
                    out: seq![users_frame(reg_names(reg2))],
                }
            },
            MsgKind::Message => match nick {
                Some(n) => StepView {
                    nickname: nick,
                    reg,
                    out: seq![
                        message_frame(
                            ChatMessageView {
                                from: n,
                                message: match env.data {
                                    Some(d) => d,
                                    None => Seq::empty(),
                                },
                                time: now,
                            },
                        ),
                    ],
                },
                None => StepView { nickname: nick, reg, out: Seq::empty() },
            },
            MsgKind::Users => StepView { nickname: nick, reg, out: Seq::empty() },
        },
        None => StepView {
            nickname: nick,
            reg,
            out: seq![
                message_frame(
                    ChatMessageView {
                        from: fallback_name(nick, id),
                        message: payload,
                        time: now,
                    },
                ),
            ],
        },
    }
}

/// That a step's outcome matches [`session_step`] at time `t`; the shape of
/// [`Session::handle_frame`]'s contract, which cannot pin the clock down.
pub open spec fn step_matches(
    id: u64,
    nick0: Option<Seq<u8>>,
    reg0: Seq<(u64, Seq<u8>)>,
    payload: Seq<u8>,
    t: u64,
    nick1: Option<Seq<u8>>,
    reg1: Seq<(u64, Seq<u8>)>,
    out: Seq<Seq<u8>>,
) -> bool {
    let st = session_step(id, nick0, reg0, payload, t);
    nick1 == st.nickname && reg1 == st.reg && out == st.out
}

/// One client connection's registration state.
pub struct Session {
    /// The server-assigned connection identity, unique while the connection
    /// lives.
    pub id: u64,
    /// Absent until registration completes; overwritten by later registers.
    pub nickname: Option<Vec<u8>>,
}

/// Builds the `users` envelope for a roster and encodes it.
pub fn users_frame_exec(roster: Vec<Vec<u8>>) -> (r: Vec<u8>)
    ensures
        r@ == users_frame(roster.deep_view()),
{
    let env = Envelope { kind: MsgKind::Users, data: None, data_array: Some(roster) };
    encode_envelope(&env)
}

impl Session {
    /// A fresh, unregistered session for connection `id`.
    pub fn new(id: u64) -> (s: Session)
        ensures
            s.id == id,
            s.nickname is None,
    {
        Session { id, nickname: None }
    }

    /// Handles one inbound text frame at time `now`: exactly the
    /// [`session_step`] function, with the returned frames to be broadcast
    /// by the caller.
    pub fn handle_frame_at(&mut self, reg: &mut Registry, payload: &Vec<u8>, now: u64) -> (out:
        Vec<Vec<u8>>)
        requires
            reg_wf(old(reg)@),
        ensures
            final(self).id == old(self).id,
            reg_wf(final(reg)@),
            ({
                let st = session_step(
                    old(self).id,
                    old(self).nickname.deep_view(),
                    old(reg)@,
                    payload@,
                    now,
                );
                final(self).nickname.deep_view() == st.nickname && final(reg)@ == st.reg
                    && out.deep_view() == st.out
            }),
    {
        let ghost st = session_step(
            self.id,
            self.nickname.deep_view(),
            reg@,
            payload@,
            now,
        );
        let ghost nick0 = self.nickname.deep_view();
        let mut out: Vec<Vec<u8>> = Vec::new();
        match decode_envelope(payload) {
            Some(env) => {
                let ghost envv = env@;
                match env.kind {
                    MsgKind::Register => {
                        let name = match env.data {
                            Some(d) => d,
                            None => u64_to_dec(self.id),
                        };
                        let ghost namev = name@;
                        proof {
                            match envv.data {
                                Some(dv) => {
                                    assert(namev == dv);
                                },
                                None => {
                                    assert(namev == dec_str(self.id as nat));
                                },
                            }
                        }
                        let name_kept = copy_bytes(&name);
                        self.nickname = Some(name_kept);
                        proof {
                            assert(self.nickname.deep_view() == Some(namev));
                        }
                        let roster = reg.register(self.id, name);
                        let frame = users_frame_exec(roster);
                        out.push(frame);
                        proof {
                            assert(reg@ == st.reg);
                            assert(frame@ == users_frame(reg_names(st.reg)));
                            assert(out.deep_view() =~~= st.out);
                        }
                    },
                    MsgKind::Message => {
                        match &self.nickname {
                            Some(n) => {
                                let from = copy_bytes(n);
                                proof {
                                    assert((*n).deep_view() =~= n@);
                                    assert(nick0 == Some(n@));
                                }
                                let message = match env.data {
                                    Some(d) => d,
                                    None => Vec::new(),
                                };
                                let ghost messagev = message@;
                                proof {
                                    match envv.data {
                                        Some(dv) => {
                                            assert(messagev == dv);
                                        },
                                        None => {
                                            assert(messagev =~= Seq::<u8>::empty());
                                        },
                                    }
                                }
                                let chat = ChatMessage { from, message, time: now };
                                let data = encode_chat(&chat);
                                let env2 = Envelope {
                                    kind: MsgKind::Message,
                                    data: Some(data),
                                    data_array: None,
                                };
                                let frame = encode_envelope(&env2);
                                out.push(frame);
                                proof {
                                    assert(env2@.data == Some(spec_encode_chat(chat@)));
                                    assert(frame@ == message_frame(chat@));
                                    assert(out.deep_view() =~~= st.out);
                                }
                            },
                            None => {
                                proof {
                                    assert(nick0 is None);
                                    assert(out.deep_view() =~~= st.out);
                                }
                            },
                        }
                    },
                    MsgKind::Users => {
                        proof {
                            assert(out.deep_view() =~~= st.out);
                        }
                    },
                }
            },
            None => {
                let from = match &self.nickname {
                    Some(n) => copy_bytes(n),
                    None => u64_to_dec(self.id),
                };
                proof {
                    match &self.nickname {
                        Some(n) => {
                            assert((*n).deep_view() =~= n@);
                            assert(nick0 == Some(n@));
                            assert(from@ == fallback_name(nick0, self.id));
                        },
                        None => {
                            assert(from@ == fallback_name(nick0, self.id));
                        },
                    }
                }
                let chat = ChatMessage { from, message: copy_bytes(payload), time: now };
                let data = encode_chat(&chat);
                let env2 = Envelope { kind: MsgKind::Message, data: Some(data), data_array: None };
                let frame = encode_envelope(&env2);
                out.push(frame);
                proof {
                    assert(env2@.data == Some(spec_encode_chat(chat@)));
                    assert(frame@ == message_frame(chat@));
                    assert(out.deep_view() =~~= st.out);
                }
            },
        }
        out
    }

    /// Handles one inbound text frame at the current wall-clock time.  The
    /// time is whatever the clock returns, so the contract holds for some
    /// time value; everything else is pinned by [`session_step`].
    pub fn handle_frame(&mut self, reg: &mut Registry, payload: &Vec<u8>) -> (out: Vec<Vec<u8>>)
        requires
            reg_wf(old(reg)@),
        ensures
            final(self).id == old(self).id,
            reg_wf(final(reg)@),
            exists|t: u64|
                #[trigger] step_matches(
                    old(self).id,
                    old(self).nickname.deep_view(),
                    old(reg)@,
                    payload@,
                    t,
                    final(self).nickname.deep_view(),
                    final(reg)@,
                    out.deep_view(),
                ),
    {
        let now = now_ms();
        let out = self.handle_frame_at(reg, payload, now);
        proof {
            assert(step_matches(
                old(self).id,
                old(self).nickname.deep_view(),
                old(reg)@,
                payload@,
                now,
                self.nickname.deep_view(),
                reg@,
                out.deep_view(),
            ));
        }
        out
    }

    /// Terminal cleanup: removes this connection from the registry; if the
    /// connection had registered, returns the one roster frame to broadcast.
    /// Running it again is a no-op.
    pub fn cleanup(&self, reg: &mut Registry) -> (out: Option<Vec<u8>>)
        requires
            reg_wf(old(reg)@),
        ensures
            final(reg)@ == reg_remove(old(reg)@, self.id),
            reg_wf(final(reg)@),
            reg_idx(old(reg)@, self.id) >= 0 ==> out is Some && (out->0)@ == users_frame(
                reg_names(final(reg)@),
            ),
            reg_idx(old(reg)@, self.id) == -1 ==> out is None && final(reg)@ == old(reg)@,
    {
        match reg.remove(self.id) {
            Some(roster) => Some(users_frame_exec(roster)),
            None => None,
        }
    }
}

// ---------------------------------------------------------------------------
// Laws of the dispatch
// ---------------------------------------------------------------------------

/// Each effectual `register` produces exactly one broadcast, and it is the
/// roster (`users`) frame for the new registry state.
pub proof fn lemma_register_broadcasts_once(
    id: u64,
    nick: Option<Seq<u8>>,
    reg: Seq<(u64, Seq<u8>)>,
    payload: Seq<u8>,
    now: u64,
)
    requires
        spec_decode_envelope(payload) is Some,
        spec_decode_envelope(payload)->0.kind == MsgKind::Register,
    ensures
        session_step(id, nick, reg, payload, now).out.len() == 1,
        session_step(id, nick, reg, payload, now).out[0] == users_frame(
            reg_names(session_step(id, nick, reg, payload, now).reg),
        ),
{
}

/// A disconnect's cleanup removes the entry once and is a no-op the second
/// time: exactly one roster-changing removal, hence at most one broadcast.
pub proof fn lemma_cleanup_idempotent(es: Seq<(u64, Seq<u8>)>, id: u64)
    requires
        reg_wf(es),
    ensures
        reg_idx(reg_remove(es, id), id) == -1,
        reg_remove(reg_remove(es, id), id) == reg_remove(es, id),
{
    lemma_remove_lookup(es, id);
    crate::registry::lemma_reg_idx(reg_remove(es, id), id);
}

/// A `message` envelope from a connection that never registered publishes
/// nothing and changes nothing.
pub proof fn lemma_no_message_before_registration(
    id: u64,
    reg: Seq<(u64, Seq<u8>)>,
    payload: Seq<u8>,
    now: u64,
)
    requires
        spec_decode_envelope(payload) is Some,
        spec_decode_envelope(payload)->0.kind == MsgKind::Message,
    ensures
        session_step(id, None, reg, payload, now).out.len() == 0,
        session_step(id, None, reg, payload, now).reg == reg,
        session_step(id, None, reg, payload, now).nickname is None,
{
}

/// No step broadcasts more than one frame, and exactly one goes out iff the
/// frame was a register, a message from a registered connection, or a raw
/// frame (the fallback) — never for an ignored `users` envelope or a message
/// from an unregistered connection.
pub proof fn lemma_step_broadcast_count(
    id: u64,
    nick: Option<Seq<u8>>,
    reg: Seq<(u64, Seq<u8>)>,
    payload: Seq<u8>,
    now: u64,
)
    ensures
        session_step(id, nick, reg, payload, now).out.len() <= 1,
        session_step(id, nick, reg, payload, now).out.len() == 1 <==> ({
            match spec_decode_envelope(payload) {
                None => true,
                Some(env) => env.kind == MsgKind::Register || (env.kind == MsgKind::Message
                    && nick is Some),
            }
        }),
{
}

/// Fallback wrapping: a raw frame outside the envelope grammar, from a
/// registered connection, is broadcast as exactly one `message` envelope
/// whose inner chat message carries the sender's name, the raw frame as the
/// body, and the step's time — all recoverable by decoding the broadcast.
pub proof fn lemma_fallback_wrapping(
    id: u64,
    name: Seq<u8>,
    reg: Seq<(u64, Seq<u8>)>,
    payload: Seq<u8>,
    now: u64,
)
    requires
        spec_decode_envelope(payload) is None,
    ensures
        ({
            let c = ChatMessageView { from: name, message: payload, time: now };
            let st = session_step(id, Some(name), reg, payload, now);
            st.out == seq![message_frame(c)] && st.reg == reg && st.nickname == Some(name)
                && spec_decode_envelope(message_frame(c)) == Some(
                EnvelopeView { kind: MsgKind::Message, data: Some(spec_encode_chat(c)), data_array: None },
            ) && spec_decode_chat(spec_encode_chat(c)) == Some(c)
        }),
{
    let c = ChatMessageView { from: name, message: payload, time: now };
    crate::codec::lemma_envelope_round_trip(
        EnvelopeView { kind: MsgKind::Message, data: Some(spec_encode_chat(c)), data_array: None },
    );
    crate::codec::lemma_chat_round_trip(c);
}

} // verus!
