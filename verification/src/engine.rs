//! What the engine answers, and the bytes a client receives for each answer.
use vstd::prelude::*;
use bytes::Bytes;
use crate::buffers::{bytes_as_slice, bytes_content};
use crate::request::{
    parse_request, EngineRequestError, GetRequest, InvalidRequest, Request, RequestView, SetRequest,
};
use crate::storage::opt_content;

verus! {

/// The engine's answer to a well-formed request.
pub enum EngineOutput {
    StatusOk,
    Payload(Bytes),
    NotFound,
}

/// An answer as plain values.
pub enum OutputView {
    StatusOk,
    Payload(Seq<u8>),
    NotFound,
}

impl View for EngineOutput {
    type V = OutputView;

    open spec fn view(&self) -> OutputView {
        match self {
            EngineOutput::StatusOk => OutputView::StatusOk,
            EngineOutput::Payload(b) => OutputView::Payload(bytes_content(*b)),
            EngineOutput::NotFound => OutputView::NotFound,
        }
    }
}

impl EngineOutput {
    /// The answer to a read: the value found, or `NotFound`.
    pub fn from_lookup(found: Option<Bytes>) -> (r: EngineOutput)
        ensures
            r@ == (match opt_content(found) {
                Some(v) => OutputView::Payload(v),
                None => OutputView::NotFound,
            }),
    {
        match found {
            Some(v) => EngineOutput::Payload(v),
            None => EngineOutput::NotFound,
        }
    }
}

/// `VALUE ` followed by the payload and a newline.
pub open spec fn value_line(v: Seq<u8>) -> Seq<u8> {
    seq![0x56u8, 0x41u8, 0x4cu8, 0x55u8, 0x45u8, 0x20u8] + v + seq![0x0au8]
}

/// `OK\n`.
pub open spec fn ok_line() -> Seq<u8> {
    seq![0x4fu8, 0x4bu8, 0x0au8]
}

/// `NOT_FOUND\n`.
pub open spec fn not_found_line() -> Seq<u8> {
    seq![0x4eu8, 0x4fu8, 0x54u8, 0x5fu8, 0x46u8, 0x4fu8, 0x55u8, 0x4eu8, 0x44u8, 0x0au8]
}

/// `ERROR\n`.
pub open spec fn error_line() -> Seq<u8> {
    seq![0x45u8, 0x52u8, 0x52u8, 0x4fu8, 0x52u8, 0x0au8]
}

/// The line a client receives for an answer. Errors carry no detail on the wire.
pub open spec fn response_line(r: Result<OutputView, Seq<char>>) -> Seq<u8> {
    match r {
        Ok(OutputView::Payload(v)) => value_line(v),
        Ok(OutputView::StatusOk) => ok_line(),
        Ok(OutputView::NotFound) => not_found_line(),
        Err(_) => error_line(),
    }
}

/// A `VALUE` reply carries the value's bytes unchanged: `VALUE `, then every byte of
/// the value in order, then a newline, and nothing else.
pub proof fn law_value_reply_is_verbatim(v: Seq<u8>)
    ensures
        response_line(Ok(OutputView::Payload(v))).len() == v.len() + 7,
        response_line(Ok(OutputView::Payload(v))).take(6) == seq![
            'V' as u8,
            'A' as u8,
            'L' as u8,
            'U' as u8,
            'E' as u8,
            ' ' as u8,
        ],
        response_line(Ok(OutputView::Payload(v))).subrange(6, 6 + v.len() as int) == v,
        response_line(Ok(OutputView::Payload(v))).last() == '\n' as u8,
{
    let r = response_line(Ok(OutputView::Payload(v)));
    assert(r.take(6) =~= seq!['V' as u8, 'A' as u8, 'L' as u8, 'U' as u8, 'E' as u8, ' ' as u8]);
    assert(r.subrange(6, 6 + v.len() as int) =~= v);
}

/// An engine result as plain values.
pub open spec fn result_view(r: &Result<EngineOutput, EngineRequestError>) -> Result<
    OutputView,
    Seq<char>,
> {
    match r {
        Ok(o) => Ok(o@),
        Err(e) => Err(e.details@),
    }
}

fn push_all(out: &mut Vec<u8>, bytes: &[u8])
    ensures
        final(out)@ == old(out)@ + bytes@,
{
    let n = bytes.len();
    let mut i: usize = 0;
    while i < n
        invariant
            n == bytes@.len(),
            i <= n,
            out@ == old(out)@ + bytes@.subrange(0, i as int),
        decreases n - i,
    {
        out.push(bytes[i]);
        i = i + 1;
        assert(out@ =~= old(out)@ + bytes@.subrange(0, i as int));
    }
    assert(bytes@.subrange(0, n as int) =~= bytes@);
}

/// Appends to `out` the bytes the server writes back for an engine result; a
/// connection can keep one buffer and reuse it for every reply.
pub fn encode_response(r: &Result<EngineOutput, EngineRequestError>, out: &mut Vec<u8>)
    ensures
        final(out)@ == old(out)@ + response_line(result_view(r)),
        r matches Ok(EngineOutput::Payload(v)) ==> {
            let n = old(out)@.len() as int;
            &&& final(out)@.len() == n + bytes_content(*v).len() + 7
            &&& final(out)@.subrange(n + 6, n + 6 + bytes_content(*v).len()) == bytes_content(*v)
        },
{
    let ghost start = out@;
    match r {
        Ok(EngineOutput::Payload(v)) => {
            out.push(0x56);
            out.push(0x41);
            out.push(0x4c);
            out.push(0x55);
            out.push(0x45);
            out.push(0x20);
            push_all(out, bytes_as_slice(v));
            out.push(0x0a);
            assert(out@ =~= start + value_line(bytes_content(*v)));
            proof {
                let n = start.len() as int;
                assert(out@.subrange(n + 6, n + 6 + bytes_content(*v).len()) =~= bytes_content(*v));
            }
        },
        Ok(EngineOutput::StatusOk) => {
            out.push(0x4f);
            out.push(0x4b);
            out.push(0x0a);
            assert(out@ =~= start + ok_line());
        },
        Ok(EngineOutput::NotFound) => {
            out.push(0x4e);
            out.push(0x4f);
            out.push(0x54);
            out.push(0x5f);
            out.push(0x46);
            out.push(0x4f);
            out.push(0x55);
            out.push(0x4e);
            out.push(0x44);
            out.push(0x0a);
            assert(out@ =~= start + not_found_line());
        },
        Err(_) => {
            out.push(0x45);
            out.push(0x52);
            out.push(0x52);
            out.push(0x4f);
            out.push(0x52);
            out.push(0x0a);
            assert(out@ =~= start + error_line());
        },
    }
}

/// What the engine does with a command line.
pub enum Action {
    /// Store the value under the key; the reply is `OK`.
    Store { key: Bytes, value: Bytes, ttl: u128 },
    /// Look the key up; the reply is what `EngineOutput::from_lookup` makes of it.
    Fetch { key: Bytes },
    /// Reply at once.
    Reply(Result<EngineOutput, EngineRequestError>),
}

/// An action as plain values.
pub enum ActionView {
    Store { key: Seq<u8>, value: Seq<u8>, ttl: u128 },
    Fetch { key: Seq<u8> },
    Reply(Result<OutputView, Seq<char>>),
}

impl View for Action {
    type V = ActionView;

    open spec fn view(&self) -> ActionView {
        match self {
            Action::Store { key, value, ttl } => ActionView::Store {
                key: bytes_content(*key),
                value: bytes_content(*value),
                ttl: *ttl,
            },
            Action::Fetch { key } => ActionView::Fetch { key: bytes_content(*key) },
            Action::Reply(r) => ActionView::Reply(result_view(r)),
        }
    }
}

/// The action for a request: `SET` stores, `GET` looks up, and an invalid request
/// is answered with an error carrying its reason.
pub open spec fn action_for(r: RequestView) -> ActionView {
    match r {
        RequestView::SetKey { key, value, ttl } => ActionView::Store { key, value, ttl },
        RequestView::Get { key } => ActionView::Fetch { key },
        RequestView::Invalid { reason } => ActionView::Reply(Err(reason)),
    }
}

/// Decides what to do with one command line.
pub fn plan(command: &Bytes) -> (a: Action)
    ensures
        a@ == action_for(parse_request(bytes_content(*command))),
{
    match Request::parse(command) {
        Request::SetKey(SetRequest { key, value, ttl }) => Action::Store { key, value, ttl },
        Request::Get(GetRequest { key }) => Action::Fetch { key },
        Request::Invalid(InvalidRequest { reason }) => Action::Reply(
            Err(EngineRequestError { details: reason }),
        ),
    }
}

} // verus!
