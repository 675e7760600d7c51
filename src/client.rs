use vstd::prelude::*;

use crate::resize::{filter_name, Filter};

verus! {

/// The request that asks the daemon to stop.
pub open spec fn kill_request() -> Seq<u8> {
    seq![95u8, 95, 75, 73, 76, 76, 95, 95]
}

/// The header line of an image request.
pub open spec fn img_header() -> Seq<u8> {
    seq![95u8, 95, 73, 77, 71, 95, 95, 10]
}

/// An image request: header, then filter name, outputs and path, one per line.
pub open spec fn img_request_bytes(filter: Filter, outputs: Seq<u8>, path: Seq<u8>) -> Seq<u8> {
    img_header() + filter_name(filter) + seq![10u8] + outputs + seq![10u8] + path + seq![10u8]
}

/// What the daemon answered.
#[derive(Debug, PartialEq, Eq)]
pub enum Reply {
    /// Success, with the text that follows the status line.
    Done(Vec<u8>),
    /// Failure, with the daemon's message.
    Failed(Vec<u8>),
    /// Neither status line.
    Malformed,
}

/// Success status line.
pub open spec fn ok_line() -> Seq<u8> {
    seq![79u8, 107, 10]
}

/// Failure status line.
pub open spec fn err_line() -> Seq<u8> {
    seq![69u8, 114, 114, 10]
}

/// The request that asks the daemon to stop.
pub fn kill() -> (r: Vec<u8>)
    ensures
        r@ == kill_request(),
{
    let v: Vec<u8> = vec![95u8, 95, 75, 73, 76, 76, 95, 95];
    assert(v@ =~= kill_request());
    v
}

fn append(dst: &mut Vec<u8>, src: &[u8])
    ensures
        final(dst)@ == old(dst)@ + src@,
{
    let mut i: usize = 0;
    let ghost start = dst@;
    while i < src.len()
        invariant
            i <= src@.len(),
            dst@ == start + src@.take(i as int),
        decreases src@.len() - i,
    {
        dst.push(src[i]);
        i = i + 1;
        assert(dst@ =~= start + src@.take(i as int));
    }
    assert(src@.take(i as int) =~= src@);
}

/// Builds the request that asks the daemon to show the image at `path` on
/// `outputs` (a comma separated list; empty means every output).
pub fn img_request(filter: Filter, outputs: &[u8], path: &[u8]) -> (r: Vec<u8>)
    ensures
        r@ == img_request_bytes(filter, outputs@, path@),
{
    let mut msg: Vec<u8> = vec![95u8, 95, 73, 77, 71, 95, 95, 10];
    let name = filter.name();
    append(&mut msg, name.as_slice());
    msg.push(10u8);
    append(&mut msg, outputs);
    msg.push(10u8);
    append(&mut msg, path);
    msg.push(10u8);
    assert(msg@ =~= img_request_bytes(filter, outputs@, path@));
    msg
}

fn starts_with(buf: &[u8], prefix: &[u8]) -> (r: bool)
    ensures
        r == (prefix@.len() <= buf@.len() && buf@.take(prefix@.len() as int) == prefix@),
{
    if prefix.len() > buf.len() {
        return false;
    }
    let mut i: usize = 0;
    while i < prefix.len()
        invariant
            prefix@.len() <= buf@.len(),
            i <= prefix@.len(),
            forall|j: int| 0 <= j < i ==> buf@[j] == prefix@[j],
        decreases prefix@.len() - i,
    {
        if buf[i] != prefix[i] {
            assert(buf@.take(prefix@.len() as int)[i as int] != prefix@[i as int]);
            return false;
        }
        i = i + 1;
    }
    assert(buf@.take(prefix@.len() as int) =~= prefix@);
    true
}

fn tail(buf: &[u8], from: usize) -> (r: Vec<u8>)
    requires
        from <= buf@.len(),
    ensures
        r@ == buf@.skip(from as int),
{
    let mut out: Vec<u8> = Vec::new();
    let mut i: usize = from;
    while i < buf.len()
        invariant
            from <= i <= buf@.len(),
            out@ == buf@.subrange(from as int, i as int),
        decreases buf@.len() - i,
    {
        out.push(buf[i]);
        i = i + 1;
        assert(out@ =~= buf@.subrange(from as int, i as int));
    }
    assert(out@ =~= buf@.skip(from as int));
    out
}

/// Reads the daemon's answer: a success or failure status line and what
/// follows it, or neither.
pub fn parse_reply(buf: &[u8]) -> (r: Reply)
    ensures
        buf@.len() >= 3 && buf@.take(3) == ok_line() ==> (r matches Reply::Done(rest)
            && rest@ == buf@.skip(3)),
        !(buf@.len() >= 3 && buf@.take(3) == ok_line()) && buf@.len() >= 4 && buf@.take(4)
            == err_line() ==> (r matches Reply::Failed(msg) && msg@ == buf@.skip(4)),
        !(buf@.len() >= 3 && buf@.take(3) == ok_line()) && !(buf@.len() >= 4 && buf@.take(4)
            == err_line()) ==> r is Malformed,
{
    let ok: [u8; 3] = [79u8, 107, 10];
    let err: [u8; 4] = [69u8, 114, 114, 10];
    assert(ok@ =~= ok_line());
    assert(err@ =~= err_line());
    if starts_with(buf, ok.as_slice()) {
        Reply::Done(tail(buf, 3))
    } else if starts_with(buf, err.as_slice()) {
        Reply::Failed(tail(buf, 4))
    } else {
        Reply::Malformed
    }
}

} // verus!
