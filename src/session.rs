use vstd::prelude::*;
use crate::command::{closing_text, command_of, next_store, response, Cmd, Command};
use crate::protocol::{decode_at, encode, DecodeError, Frame, RespValue};
use crate::store::Store;

verus! {

/// The text of the error reply to a stream that does not decode.
pub open spec fn decode_error_text(e: DecodeError) -> Seq<u8> {
    match e {
        DecodeError::UnexpectedEnd => seq![
            69u8, 82u8, 82u8, 32u8, 80u8, 114u8, 111u8, 116u8, 111u8, 99u8, 111u8, 108u8,
            32u8, 101u8, 114u8, 114u8, 111u8, 114u8, 58u8, 32u8, 117u8, 110u8, 101u8, 120u8,
            112u8, 101u8, 99u8, 116u8, 101u8, 100u8, 32u8, 101u8, 110u8, 100u8, 32u8, 111u8,
            102u8, 32u8, 115u8, 116u8, 114u8, 101u8, 97u8, 109u8,
        ],
        DecodeError::InvalidText => seq![
            69u8, 82u8, 82u8, 32u8, 80u8, 114u8, 111u8, 116u8, 111u8, 99u8, 111u8, 108u8,
            32u8, 101u8, 114u8, 114u8, 111u8, 114u8, 58u8, 32u8, 105u8, 110u8, 118u8, 97u8,
            108u8, 105u8, 100u8, 32u8, 116u8, 101u8, 120u8, 116u8,
        ],
        DecodeError::InvalidInteger => seq![
            69u8, 82u8, 82u8, 32u8, 80u8, 114u8, 111u8, 116u8, 111u8, 99u8, 111u8, 108u8,
            32u8, 101u8, 114u8, 114u8, 111u8, 114u8, 58u8, 32u8, 105u8, 110u8, 118u8, 97u8,
            108u8, 105u8, 100u8, 32u8, 105u8, 110u8, 116u8, 101u8, 103u8, 101u8, 114u8,
        ],
        DecodeError::InvalidLength => seq![
            69u8, 82u8, 82u8, 32u8, 80u8, 114u8, 111u8, 116u8, 111u8, 99u8, 111u8, 108u8,
            32u8, 101u8, 114u8, 114u8, 111u8, 114u8, 58u8, 32u8, 105u8, 110u8, 118u8, 97u8,
            108u8, 105u8, 100u8, 32u8, 108u8, 101u8, 110u8, 103u8, 116u8, 104u8,
        ],
        DecodeError::TooDeep => seq![
            69u8, 82u8, 82u8, 32u8, 80u8, 114u8, 111u8, 116u8, 111u8, 99u8, 111u8, 108u8,
            32u8, 101u8, 114u8, 114u8, 111u8, 114u8, 58u8, 32u8, 110u8, 101u8, 115u8, 116u8,
            105u8, 110u8, 103u8, 32u8, 116u8, 111u8, 111u8, 32u8, 100u8, 101u8, 101u8, 112u8,
        ],
        DecodeError::UnknownType(_) => seq![
            69u8, 82u8, 82u8, 32u8, 80u8, 114u8, 111u8, 116u8, 111u8, 99u8, 111u8, 108u8,
            32u8, 101u8, 114u8, 114u8, 111u8, 114u8, 58u8, 32u8, 117u8, 110u8, 107u8, 110u8,
            111u8, 119u8, 110u8, 32u8, 118u8, 97u8, 108u8, 117u8, 101u8, 32u8, 116u8, 121u8,
            112u8, 101u8,
        ],
    }
}

pub open spec fn expected_array_text() -> Seq<u8> {
    seq![
        69u8, 82u8, 82u8, 32u8, 80u8, 114u8, 111u8, 116u8, 111u8, 99u8, 111u8, 108u8,
        32u8, 101u8, 114u8, 114u8, 111u8, 114u8, 58u8, 32u8, 101u8, 120u8, 112u8, 101u8,
        99u8, 116u8, 101u8, 100u8, 32u8, 97u8, 114u8, 114u8, 97u8, 121u8,
    ]
}

/// The error reply to a stream that does not decode.
pub fn decode_error_reply(e: DecodeError) -> (r: RespValue)
    ensures
        r.view() == Frame::Error(decode_error_text(e)),
{
    let t: Vec<u8> = match e {
        DecodeError::UnexpectedEnd => vec![
            69u8, 82u8, 82u8, 32u8, 80u8, 114u8, 111u8, 116u8, 111u8, 99u8, 111u8, 108u8,
            32u8, 101u8, 114u8, 114u8, 111u8, 114u8, 58u8, 32u8, 117u8, 110u8, 101u8, 120u8,
            112u8, 101u8, 99u8, 116u8, 101u8, 100u8, 32u8, 101u8, 110u8, 100u8, 32u8, 111u8,
            102u8, 32u8, 115u8, 116u8, 114u8, 101u8, 97u8, 109u8,
        ],
        DecodeError::InvalidText => vec![
            69u8, 82u8, 82u8, 32u8, 80u8, 114u8, 111u8, 116u8, 111u8, 99u8, 111u8, 108u8,
            32u8, 101u8, 114u8, 114u8, 111u8, 114u8, 58u8, 32u8, 105u8, 110u8, 118u8, 97u8,
            108u8, 105u8, 100u8, 32u8, 116u8, 101u8, 120u8, 116u8,
        ],
        DecodeError::InvalidInteger => vec![
            69u8, 82u8, 82u8, 32u8, 80u8, 114u8, 111u8, 116u8, 111u8, 99u8, 111u8, 108u8,
            32u8, 101u8, 114u8, 114u8, 111u8, 114u8, 58u8, 32u8, 105u8, 110u8, 118u8, 97u8,
            108u8, 105u8, 100u8, 32u8, 105u8, 110u8, 116u8, 101u8, 103u8, 101u8, 114u8,
        ],
        DecodeError::InvalidLength => vec![
            69u8, 82u8, 82u8, 32u8, 80u8, 114u8, 111u8, 116u8, 111u8, 99u8, 111u8, 108u8,
            32u8, 101u8, 114u8, 114u8, 111u8, 114u8, 58u8, 32u8, 105u8, 110u8, 118u8, 97u8,
            108u8, 105u8, 100u8, 32u8, 108u8, 101u8, 110u8, 103u8, 116u8, 104u8,
        ],
        DecodeError::TooDeep => vec![
            69u8, 82u8, 82u8, 32u8, 80u8, 114u8, 111u8, 116u8, 111u8, 99u8, 111u8, 108u8,
            32u8, 101u8, 114u8, 114u8, 111u8, 114u8, 58u8, 32u8, 110u8, 101u8, 115u8, 116u8,
            105u8, 110u8, 103u8, 32u8, 116u8, 111u8, 111u8, 32u8, 100u8, 101u8, 101u8, 112u8,
        ],
        DecodeError::UnknownType(_) => vec![
            69u8, 82u8, 82u8, 32u8, 80u8, 114u8, 111u8, 116u8, 111u8, 99u8, 111u8, 108u8,
            32u8, 101u8, 114u8, 114u8, 111u8, 114u8, 58u8, 32u8, 117u8, 110u8, 107u8, 110u8,
            111u8, 119u8, 110u8, 32u8, 118u8, 97u8, 108u8, 117u8, 101u8, 32u8, 116u8, 121u8,
            112u8, 101u8,
        ],
    };
    assert(t@ =~= decode_error_text(e));
    RespValue::Error(t)
}

/// The reply to a decoded value.
pub open spec fn frame_reply(f: Frame, m: Map<Seq<char>, Seq<u8>>) -> Frame {
    match f {
        Frame::Array(a) => response(command_of(a), m),
        _ => Frame::Error(expected_array_text()),
    }
}

/// The store after a decoded value is served.
pub open spec fn frame_store(f: Frame, m: Map<Seq<char>, Seq<u8>>) -> Map<Seq<char>, Seq<u8>> {
    match f {
        Frame::Array(a) => next_store(command_of(a), m),
        _ => m,
    }
}

/// Whether the connection closes after a decoded value is served.
pub open spec fn frame_closes(f: Frame) -> bool {
    match f {
        Frame::Array(a) => command_of(a) is Quit,
        _ => false,
    }
}

/// Whether more input is awaited before anything can be decided at `p`.
pub open spec fn waits(s: Seq<u8>, p: int, at_end: bool) -> bool {
    !at_end && (decode_at(s, p, at_end) is Ok && decode_at(s, p, at_end)->Ok_0 is None || decode_at(s, p, at_end) matches Err(
        (DecodeError::UnexpectedEnd, _),
    ))
}

/// Where the next step starts. After a value that does not decode, the
/// next one starts where the decoder resumes.
pub open spec fn step_next(s: Seq<u8>, p: int, at_end: bool) -> int {
    if waits(s, p, at_end) {
        p
    } else {
        match decode_at(s, p, at_end) {
            Ok(Some((_, q))) => q,
            Ok(None) => p,
            Err((_, q)) => q,
        }
    }
}

pub open spec fn step_reply(s: Seq<u8>, p: int, at_end: bool, m: Map<Seq<char>, Seq<u8>>) -> Option<Frame> {
    if waits(s, p, at_end) {
        None
    } else {
        match decode_at(s, p, at_end) {
            Ok(Some((f, _))) => Some(frame_reply(f, m)),
            Ok(None) => None,
            Err((e, _)) => Some(Frame::Error(decode_error_text(e))),
        }
    }
}

pub open spec fn step_closes(s: Seq<u8>, p: int, at_end: bool) -> bool {
    if waits(s, p, at_end) {
        false
    } else {
        match decode_at(s, p, at_end) {
            Ok(Some((f, _))) => frame_closes(f),
            Ok(None) => true,
            Err(_) => false,
        }
    }
}

pub open spec fn step_store(s: Seq<u8>, p: int, at_end: bool, m: Map<Seq<char>, Seq<u8>>) -> Map<
    Seq<char>,
    Seq<u8>,
> {
    if waits(s, p, at_end) {
        m
    } else {
        match decode_at(s, p, at_end) {
            Ok(Some((f, _))) => frame_store(f, m),
            _ => m,
        }
    }
}

/// What one step of a connection decided.
pub struct Step {
    /// Where the next step starts in the received bytes.
    pub next: usize,
    /// The reply to send, if any.
    pub reply: Option<RespValue>,
    /// Whether the connection closes after the reply.
    pub close: bool,
}

pub open spec fn reply_view(r: Option<RespValue>) -> Option<Frame> {
    match r {
        Some(v) => Some(v.view()),
        None => None,
    }
}

/// What the received bytes hold at a position.
#[derive(Debug)]
pub enum Event {
    /// Nothing can be decided before more bytes arrive.
    Wait,
    /// The peer finished sending, between two values.
    End,
    /// A value, and where the next one starts.
    Value(RespValue, usize),
    /// The bytes do not decode, and the next value starts at the given
    /// position: just after the line that failed.
    Failed(DecodeError, usize),
}

/// Reads the next event from the bytes `s` received so far, from position
/// `p`; `at_end` tells whether the peer has finished sending.
pub fn next_event(s: &[u8], p: usize, at_end: bool) -> (r: Event)
    requires
        p <= s@.len(),
    ensures
        waits(s@, p as int, at_end) <==> r is Wait,
        r is End ==> decode_at(s@, p as int, at_end) == Ok::<Option<(Frame, int)>, (DecodeError, int)>(None),
        r matches Event::Value(v, q) ==> decode_at(s@, p as int, at_end) == Ok::<
            Option<(Frame, int)>,
            (DecodeError, int),
        >(Some((v.view(), q as int))),
        r matches Event::Failed(e, q) ==> decode_at(s@, p as int, at_end) == Err::<
            Option<(Frame, int)>,
            (DecodeError, int),
        >((e, q as int)),
{
    match RespValue::decode_from(s, p, at_end) {
        Ok(Some((v, q))) => Event::Value(v, q),
        Ok(None) => {
            if at_end {
                Event::End
            } else {
                Event::Wait
            }
        },
        Err((e, q)) => {
            if !at_end && e == DecodeError::UnexpectedEnd {
                Event::Wait
            } else {
                Event::Failed(e, q)
            }
        },
    }
}

/// The command a decoded value asks for, or the error reply when the value
/// is not an array.
pub fn request_of(v: RespValue) -> (r: Result<Command, RespValue>)
    ensures
        v.view() is Array ==> (r matches Ok(c) && c.view() == command_of(v.view()->Array_0)),
        !(v.view() is Array) ==> (r matches Err(e) && e.view() == Frame::Error(expected_array_text())),
{
    match v {
        RespValue::Array(a) => Ok(Command::parse_from_resp_array(a)),
        _ => {
            let t = vec![
                69u8, 82u8, 82u8, 32u8, 80u8, 114u8, 111u8, 116u8, 111u8, 99u8, 111u8, 108u8,
                32u8, 101u8, 114u8, 114u8, 111u8, 114u8, 58u8, 32u8, 101u8, 120u8, 112u8, 101u8,
                99u8, 116u8, 101u8, 100u8, 32u8, 97u8, 114u8, 114u8, 97u8, 121u8,
            ];
            assert(t@ =~= expected_array_text());
            Err(RespValue::Error(t))
        },
    }
}

/// What to do with one decoded value.
#[derive(Debug)]
pub enum Action {
    /// Send this reply without touching the store; close afterwards when the
    /// flag is set.
    Reply(RespValue, bool),
    /// Run this command against the store and send its reply; the connection
    /// stays open.
    Run(Command),
}

/// Decides what a decoded value asks for. Only `SET`, `GET` and `DEL` need
/// the store; every other value has a reply of its own.
pub fn plan(v: RespValue) -> (r: Action)
    ensures
        r matches Action::Reply(x, close) ==> close == frame_closes(v.view()) && forall|
            m: Map<Seq<char>, Seq<u8>>,
        | x.view() == #[trigger] frame_reply(v.view(), m) && frame_store(v.view(), m) == m,
        r matches Action::Run(c) ==> v.view() is Array && c.view() == command_of(v.view()->Array_0)
            && !frame_closes(v.view()),
{
    match request_of(v) {
        Ok(c) => {
            let quit = match c {
                Command::Quit => true,
                _ => false,
            };
            match c.reply_without_store() {
                Some(x) => Action::Reply(x, quit),
                None => Action::Run(c),
            }
        },
        Err(e) => Action::Reply(e, false),
    }
}

/// Serves one decoded value: a command array runs against the store, any
/// other value gets an error reply. Gives the reply and whether to close.
pub fn serve_value(v: RespValue, store: &mut Store) -> (r: (RespValue, bool))
    requires
        old(store).wf(),
    ensures
        final(store).wf(),
        r.0.view() == frame_reply(v.view(), old(store)@),
        r.1 == frame_closes(v.view()),
        final(store)@ == frame_store(v.view(), old(store)@),
{
    match plan(v) {
        Action::Reply(x, close) => (x, close),
        Action::Run(c) => (c.execute(store), false),
    }
}

/// Decides one step of a connection on the bytes `s` received so far, from
/// position `p`; `at_end` tells whether the peer has finished sending.
pub fn step(s: &[u8], p: usize, at_end: bool, store: &mut Store) -> (r: Step)
    requires
        old(store).wf(),
        p <= s@.len(),
    ensures
        final(store).wf(),
        r.next == step_next(s@, p as int, at_end),
        reply_view(r.reply) == step_reply(s@, p as int, at_end, old(store)@),
        r.close == step_closes(s@, p as int, at_end),
        final(store)@ == step_store(s@, p as int, at_end, old(store)@),
{
    match next_event(s, p, at_end) {
        Event::Value(v, q) => {
            let (reply, close) = serve_value(v, store);
            Step { next: q, reply: Some(reply), close }
        },
        Event::End => Step { next: p, reply: None, close: true },
        Event::Wait => Step { next: p, reply: None, close: false },
        Event::Failed(e, q) => Step { next: q, reply: Some(decode_error_reply(e)), close: false },
    }
}

pub open spec fn reply_bytes(r: Option<Frame>) -> Seq<u8> {
    match r {
        Some(f) => encode(f),
        None => Seq::empty(),
    }
}

/// The bytes a connection sends back when it receives `s` from `p` on and
/// then the peer stops sending.
pub open spec fn session_output(s: Seq<u8>, p: int, m: Map<Seq<char>, Seq<u8>>) -> Seq<u8>
    decreases s.len() - p,
{
    let out = reply_bytes(step_reply(s, p, true, m));
    let q = step_next(s, p, true);
    if step_closes(s, p, true) || q <= p || q > s.len() {
        out
    } else {
        out + session_output(s, q, step_store(s, p, true, m))
    }
}

/// The store after such a connection.
pub open spec fn session_store(s: Seq<u8>, p: int, m: Map<Seq<char>, Seq<u8>>) -> Map<Seq<char>, Seq<u8>>
    decreases s.len() - p,
{
    let m2 = step_store(s, p, true, m);
    let q = step_next(s, p, true);
    if step_closes(s, p, true) || q <= p || q > s.len() {
        m2
    } else {
        session_store(s, q, m2)
    }
}

/// Serves a whole connection whose input is `input`: every reply, in order,
/// until the input ends or a `QUIT` is served.
pub fn serve(input: &[u8], store: &mut Store) -> (r: Vec<u8>)
    requires
        old(store).wf(),
    ensures
        final(store).wf(),
        r@ == session_output(input@, 0, old(store)@),
        final(store)@ == session_store(input@, 0, old(store)@),
{
    let mut out: Vec<u8> = Vec::new();
    let mut p: usize = 0;
    loop
        invariant
            store.wf(),
            p <= input@.len(),
            out@ + session_output(input@, p as int, store@) == session_output(input@, 0, old(store)@),
            session_store(input@, p as int, store@) == session_store(input@, 0, old(store)@),
        decreases input@.len() - p,
    {
        let ghost m = store@;
        let ghost o = out@;
        let r = step(input, p, true, store);
        let bytes = match &r.reply {
            Some(v) => v.to_bytes(),
            None => Vec::new(),
        };
        assert(bytes@ =~= reply_bytes(step_reply(input@, p as int, true, m)));
        let mut b = bytes;
        out.append(&mut b);
        if r.close || r.next <= p || r.next > input.len() {
            assert(out@ + Seq::<u8>::empty() =~= out@);
            assert(out@ =~= o + session_output(input@, p as int, m));
            return out;
        }
        assert(out@ + session_output(input@, r.next as int, store@) =~= o + session_output(input@, p as int, m));
        p = r.next;
    }
}

/// A `QUIT` gets the fixed closing reply, and nothing after it is served:
/// the connection's whole remaining output is that reply.
pub proof fn lemma_quit_closes(s: Seq<u8>, p: int, m: Map<Seq<char>, Seq<u8>>, a: Seq<Frame>, q: int)
    requires
        decode_at(s, p, true) == Ok::<Option<(Frame, int)>, (DecodeError, int)>(Some((Frame::Array(a), q))),
        command_of(a) == Cmd::Quit,
    ensures
        step_reply(s, p, true, m) == Some(Frame::Simple(closing_text())),
        step_closes(s, p, true),
        session_output(s, p, m) == encode(Frame::Simple(closing_text())),
        session_store(s, p, m) == m,
{
}

} // verus!
