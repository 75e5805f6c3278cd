use vstd::prelude::*;

use crate::frame::{end_marker, end_marker_bytes, start_marker, start_marker_bytes};
use crate::path::PathError;

verus! {

/// The status that a response frame opens with.
#[derive(Clone, Copy, Debug, PartialEq, Eq, Structural)]
pub enum Status {
    /// The command succeeded; a body may follow.
    Success,
    /// File bytes follow.
    Out,
    /// The upload may start.
    Ack,
    /// The command failed; the reason follows.
    Error,
}

/// The status line, with its line end.
pub open spec fn status_line(s: Status) -> Seq<u8> {
    match s {
        Status::Success => seq![79u8, 75u8, 13u8, 10u8],
        Status::Out => seq![79u8, 85u8, 84u8, 13u8, 10u8],
        Status::Ack => seq![65u8, 67u8, 75u8, 13u8, 10u8],
        Status::Error => seq![69u8, 82u8, 82u8, 79u8, 82u8, 13u8, 10u8],
    }
}

/// A whole response frame.
pub open spec fn response_spec(s: Status, body: Seq<u8>) -> Seq<u8> {
    start_marker() + status_line(s) + body + end_marker()
}

/// Why a command failed before it reached the filesystem.
#[derive(Clone, Copy, Debug, PartialEq, Eq, Structural)]
pub enum Refusal {
    MissingPath,
    Path(PathError),
    NotADirectory,
    InvalidRequest,
}

/// The reason that an `ERROR` response gives.
pub open spec fn refusal_text(r: Refusal) -> Seq<u8> {
    match r {
        Refusal::MissingPath => seq![77u8, 105u8, 115u8, 115u8, 105u8, 110u8, 103u8, 32u8, 112u8, 97u8, 116u8, 104u8],
        Refusal::Path(PathError::Malformed) => seq![77u8, 97u8, 108u8, 102u8, 111u8, 114u8, 109u8, 101u8, 100u8, 32u8, 112u8, 97u8, 116u8, 104u8],
        Refusal::Path(PathError::Escape) => seq![80u8, 97u8, 116u8, 104u8, 32u8, 101u8, 115u8, 99u8, 97u8, 112u8, 101u8, 115u8, 32u8, 116u8, 104u8, 101u8, 32u8, 115u8, 101u8, 114u8, 118u8, 101u8, 114u8, 32u8, 114u8, 111u8, 111u8, 116u8],
        Refusal::NotADirectory => seq![78u8, 111u8, 116u8, 32u8, 97u8, 32u8, 100u8, 105u8, 114u8, 101u8, 99u8, 116u8, 111u8, 114u8, 121u8],
        Refusal::InvalidRequest => seq![73u8, 110u8, 118u8, 97u8, 108u8, 105u8, 100u8, 32u8, 114u8, 101u8, 113u8, 117u8, 101u8, 115u8, 116u8],
    }
}

impl Refusal {
    /// The reason, as bytes.
    pub fn text(&self) -> (r: Vec<u8>)
        ensures
            r@ == refusal_text(*self),
    {
        let r: Vec<u8> = match self {
            Refusal::MissingPath => vec![77u8, 105u8, 115u8, 115u8, 105u8, 110u8, 103u8, 32u8, 112u8, 97u8, 116u8, 104u8],
            Refusal::Path(PathError::Malformed) => vec![77u8, 97u8, 108u8, 102u8, 111u8, 114u8, 109u8, 101u8, 100u8, 32u8, 112u8, 97u8, 116u8, 104u8],
            Refusal::Path(PathError::Escape) => vec![80u8, 97u8, 116u8, 104u8, 32u8, 101u8, 115u8, 99u8, 97u8, 112u8, 101u8, 115u8, 32u8, 116u8, 104u8, 101u8, 32u8, 115u8, 101u8, 114u8, 118u8, 101u8, 114u8, 32u8, 114u8, 111u8, 111u8, 116u8],
            Refusal::NotADirectory => vec![78u8, 111u8, 116u8, 32u8, 97u8, 32u8, 100u8, 105u8, 114u8, 101u8, 99u8, 116u8, 111u8, 114u8, 121u8],
            Refusal::InvalidRequest => vec![73u8, 110u8, 118u8, 97u8, 108u8, 105u8, 100u8, 32u8, 114u8, 101u8, 113u8, 117u8, 101u8, 115u8, 116u8],
        };
        assert(r@ =~= refusal_text(*self));
        r
    }
}

/// Appends the bytes of `b` to `out`.
pub fn append(out: &mut Vec<u8>, b: &[u8])
    ensures
        final(out)@ == old(out)@ + b@,
{
    let mut i: usize = 0;
    while i < b.len()
        invariant
            i <= b@.len(),
            out@ == old(out)@ + b@.subrange(0, i as int),
        decreases b.len() - i,
    {
        out.push(b[i]);
        i += 1;
        assert(out@ =~= old(out)@ + b@.subrange(0, i as int));
    }
    assert(b@.subrange(0, b@.len() as int) =~= b@);
}

/// The status line as bytes.
pub fn status_bytes(s: Status) -> (r: Vec<u8>)
    ensures
        r@ == status_line(s),
{
    let r: Vec<u8> = match s {
        Status::Success => vec![79u8, 75u8, 13u8, 10u8],
        Status::Out => vec![79u8, 85u8, 84u8, 13u8, 10u8],
        Status::Ack => vec![65u8, 67u8, 75u8, 13u8, 10u8],
        Status::Error => vec![69u8, 82u8, 82u8, 79u8, 82u8, 13u8, 10u8],
    };
    assert(r@ =~= status_line(s));
    r
}

/// The opening of a response whose body is streamed: start marker and status line.
pub fn response_head(s: Status) -> (r: Vec<u8>)
    ensures
        r@ == start_marker() + status_line(s),
{
    let mut r = start_marker_bytes();
    let line = status_bytes(s);
    append(&mut r, line.as_slice());
    r
}

/// A whole response frame: start marker, status line, body and end marker.
pub fn response(s: Status, body: &[u8]) -> (r: Vec<u8>)
    ensures
        r@ == response_spec(s, body@),
{
    let mut r = response_head(s);
    append(&mut r, body);
    let end = end_marker_bytes();
    append(&mut r, end.as_slice());
    r
}

/// The `ERROR` response for a refused command.
pub fn refusal_response(why: Refusal) -> (r: Vec<u8>)
    ensures
        r@ == response_spec(Status::Error, refusal_text(why)),
{
    let text = why.text();
    response(Status::Error, text.as_slice())
}

/// The decimal digits of `n`.
pub open spec fn decimal(n: nat) -> Seq<u8>
    decreases n,
{
    if n < 10 {
        seq![(48 + n) as u8]
    } else {
        decimal(n / 10).push((48 + n % 10) as u8)
    }
}

/// `n` written in decimal.
pub fn decimal_bytes(n: u64) -> (r: Vec<u8>)
    ensures
        r@ == decimal(n as nat),
    decreases n,
{
    if n < 10 {
        let r: Vec<u8> = vec![(48 + n) as u8];
        assert(r@ =~= decimal(n as nat));
        r
    } else {
        let mut r = decimal_bytes(n / 10);
        r.push((48 + n % 10) as u8);
        r
    }
}

/// The metadata line of `STAT`: kind, size in bytes and modification time in seconds.
pub open spec fn stat_text(is_dir: bool, size: u64, modified: u64) -> Seq<u8> {
    (if is_dir {
        seq![100u8, 105u8, 114u8, 32u8]
    } else {
        seq![102u8, 105u8, 108u8, 101u8, 32u8]
    }) + decimal(size as nat) + seq![32u8] + decimal(modified as nat)
}

/// The `STAT` response for an entry.
pub fn stat_response(is_dir: bool, size: u64, modified: u64) -> (r: Vec<u8>)
    ensures
        r@ == response_spec(Status::Success, stat_text(is_dir, size, modified)),
{
    let mut body: Vec<u8> = if is_dir {
        vec![100u8, 105u8, 114u8, 32u8]
    } else {
        vec![102u8, 105u8, 108u8, 101u8, 32u8]
    };
    let ghost kind = body@;
    let s = decimal_bytes(size);
    append(&mut body, s.as_slice());
    body.push(32u8);
    let m = decimal_bytes(modified);
    append(&mut body, m.as_slice());
    assert(body@ =~= stat_text(is_dir, size, modified));
    response(Status::Success, body.as_slice())
}

/// One line of a `LIST` body: the entry's name, a space, and `dir` or `file`.
pub open spec fn entry_line(name: Seq<u8>, is_dir: bool) -> Seq<u8> {
    name + seq![32u8] + (if is_dir {
        seq![100u8, 105u8, 114u8]
    } else {
        seq![102u8, 105u8, 108u8, 101u8]
    }) + seq![13u8, 10u8]
}

/// The body of a `LIST` response: one line per entry, in the order given.
pub open spec fn listing(entries: Seq<(Seq<u8>, bool)>) -> Seq<u8>
    decreases entries.len(),
{
    if entries.len() == 0 {
        Seq::empty()
    } else {
        listing(entries.drop_last()) + entry_line(entries.last().0, entries.last().1)
    }
}

pub open spec fn entries_view(v: Seq<(Vec<u8>, bool)>) -> Seq<(Seq<u8>, bool)> {
    v.map_values(|e: (Vec<u8>, bool)| (e.0@, e.1))
}

/// The `LIST` response for the entries of a directory.
pub fn list_response(entries: &Vec<(Vec<u8>, bool)>) -> (r: Vec<u8>)
    ensures
        r@ == response_spec(Status::Success, listing(entries_view(entries@))),
{
    let mut body: Vec<u8> = Vec::new();
    let mut i: usize = 0;
    while i < entries.len()
        invariant
            i <= entries@.len(),
            body@ == listing(entries_view(entries@.subrange(0, i as int))),
        decreases entries.len() - i,
    {
        let ghost before = body@;
        let name = entries[i].0.as_slice();
        append(&mut body, name);
        body.push(32u8);
        let kind: Vec<u8> = if entries[i].1 {
            vec![100u8, 105u8, 114u8]
        } else {
            vec![102u8, 105u8, 108u8, 101u8]
        };
        append(&mut body, kind.as_slice());
        body.push(13u8);
        body.push(10u8);
        proof {
            let next = entries_view(entries@.subrange(0, i + 1));
            assert(next.drop_last() =~= entries_view(entries@.subrange(0, i as int)));
            assert(next.last() == (entries@[i as int].0@, entries@[i as int].1));
            assert(body@ =~= before + entry_line(entries@[i as int].0@, entries@[i as int].1));
        }
        i += 1;
    }
    assert(entries@.subrange(0, entries@.len() as int) =~= entries@);
    response(Status::Success, body.as_slice())
}

} // verus!
