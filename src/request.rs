use vstd::prelude::*;

use crate::frame::{
    command_of, end_marker, find_bytes, find_from, lemma_find_from, matches_at,
    parse_command, start_marker, start_marker_bytes, end_marker_bytes, Command, ProtocolError,
    START_LEN,
};
use crate::payload::copy_range;

verus! {

/// A newline as a one-byte pattern.
pub open spec fn newline() -> Seq<u8> {
    seq![10u8]
}

/// A line without its terminating `\n` and the `\r` before it.
pub open spec fn strip_line_end(s: Seq<u8>) -> Seq<u8> {
    let a = if s.len() > 0 && s.last() == 10u8 {
        s.drop_last()
    } else {
        s
    };
    if a.len() > 0 && a.last() == 13u8 {
        a.drop_last()
    } else {
        a
    }
}

/// The argument carried by a line (or by the body of a command without payload), if any.
pub open spec fn arg_of(s: Seq<u8>) -> Option<Seq<u8>> {
    let a = strip_line_end(s);
    if a.len() == 0 {
        None
    } else {
        Some(a)
    }
}

/// A start marker may begin at `j`: the bytes from `j` on agree with the marker as far as
/// both go.
pub open spec fn may_begin_marker(b: Seq<u8>, j: int) -> bool {
    let n: int = if b.len() - j < START_LEN {
        b.len() - j
    } else {
        START_LEN as int
    };
    0 <= j <= b.len() && b.subrange(j, j + n) == start_marker().subrange(0, n)
}

/// The first position from `j` on where a start marker may begin; the length of `b` if none.
pub open spec fn next_marker_from(b: Seq<u8>, j: int) -> int
    decreases b.len() - j,
{
    if j >= b.len() {
        b.len() as int
    } else if may_begin_marker(b, j) {
        j
    } else {
        next_marker_from(b, j + 1)
    }
}

pub proof fn lemma_next_marker(b: Seq<u8>, j: int)
    requires
        0 <= j <= b.len(),
    ensures
        j <= next_marker_from(b, j) <= b.len(),
        next_marker_from(b, j) < b.len() ==> may_begin_marker(b, next_marker_from(b, j)),
        forall|k: int| j <= k < next_marker_from(b, j) ==> !#[trigger] may_begin_marker(b, k),
    decreases b.len() - j,
{
    if j < b.len() && !may_begin_marker(b, j) {
        lemma_next_marker(b, j + 1);
    }
}

/// The outcome of reading a request header from buffered bytes, in terms of sequences.
pub enum ParseView {
    NeedMore,
    Invalid(ProtocolError, nat),
    Request(Command, Option<Seq<u8>>, nat),
}

/// What the buffered bytes `b` hold at their start.
///
/// A request is the start marker, a command line and then, for a store, the argument line,
/// after which its payload follows; any other command's body runs up to the end marker and
/// is its optional argument. Bytes that do not begin with the start marker are an invalid
/// line, dropped up to and including its newline, or only up to the next place where a
/// start marker may begin if that comes first, so that the stream finds the next marker;
/// an unknown command is dropped up to and including the end marker of its frame.
pub open spec fn parse_spec(b: Seq<u8>) -> ParseView {
    let n: int = if b.len() < START_LEN {
        b.len() as int
    } else {
        START_LEN as int
    };
    if b.subrange(0, n) != start_marker().subrange(0, n) {
        let c = next_marker_from(b, 1);
        match find_from(b, newline(), 0) {
            Some(i) if i + 1 <= c => ParseView::Invalid(ProtocolError::BadStartMarker, (i + 1) as nat),
            _ => if c < b.len() {
                ParseView::Invalid(ProtocolError::BadStartMarker, c as nat)
            } else {
                ParseView::NeedMore
            },
        }
    } else if b.len() < START_LEN {
        ParseView::NeedMore
    } else {
        match find_from(b, newline(), START_LEN as int) {
            None => ParseView::NeedMore,
            Some(j) => match command_of(strip_line_end(b.subrange(START_LEN as int, j + 1))) {
                None => match find_from(b, end_marker(), j + 1) {
                    None => ParseView::NeedMore,
                    Some(k) => ParseView::Invalid(ProtocolError::UnknownCommand, (k + 8) as nat),
                },
                Some(Command::Put) => match find_from(b, newline(), j + 1) {
                    None => ParseView::NeedMore,
                    Some(l) => ParseView::Request(
                        Command::Put,
                        arg_of(b.subrange(j + 1, l + 1)),
                        (l + 1) as nat,
                    ),
                },
                Some(c) => match find_from(b, end_marker(), j + 1) {
                    None => ParseView::NeedMore,
                    Some(k) => ParseView::Request(c, arg_of(b.subrange(j + 1, k)), (k + 8) as nat),
                },
            },
        }
    }
}

/// The outcome of reading a request header from buffered bytes.
pub enum Parse {
    /// The buffer ends before the header does: read more.
    NeedMore,
    /// A framing error; the first `consumed` bytes are dropped.
    Invalid { error: ProtocolError, consumed: usize },
    /// A request; its first `consumed` bytes have been read.
    Request { command: Command, arg: Option<Vec<u8>>, consumed: usize },
}

impl Parse {
    pub open spec fn view(&self) -> ParseView {
        match self {
            Parse::NeedMore => ParseView::NeedMore,
            Parse::Invalid { error, consumed } => ParseView::Invalid(*error, *consumed as nat),
            Parse::Request { command, arg, consumed } => ParseView::Request(
                *command,
                match arg {
                    Some(a) => Some(a@),
                    None => None,
                },
                *consumed as nat,
            ),
        }
    }
}

/// A line without its line end.
pub fn strip_line(s: &[u8]) -> (r: Vec<u8>)
    ensures
        r@ == strip_line_end(s@),
{
    let mut end: usize = s.len();
    if end > 0 && s[end - 1] == 10u8 {
        end -= 1;
    }
    if end > 0 && s[end - 1] == 13u8 {
        end -= 1;
    }
    let r = copy_range(s, 0, end);
    proof {
        let a = if s@.len() > 0 && s@.last() == 10u8 {
            s@.drop_last()
        } else {
            s@
        };
        assert(a =~= s@.subrange(0, a.len() as int));
        if a.len() > 0 && a.last() == 13u8 {
            assert(a.drop_last() =~= s@.subrange(0, a.len() - 1));
        }
    }
    r
}

/// The argument that a line carries, if any.
pub fn line_arg(s: &[u8]) -> (r: Option<Vec<u8>>)
    ensures
        match arg_of(s@) {
            Some(a) => r is Some && r->0@ == a,
            None => r is None,
        },
{
    let a = strip_line(s);
    if a.len() == 0 {
        None
    } else {
        Some(a)
    }
}

/// Whether `b` agrees with `m` on their common length.
fn agrees_with_prefix(b: &[u8], m: &[u8]) -> (r: bool)
    requires
        m@.len() == START_LEN,
    ensures
        ({
            let n: int = if b@.len() < START_LEN {
                b@.len() as int
            } else {
                START_LEN as int
            };
            r == (b@.subrange(0, n) == m@.subrange(0, n))
        }),
{
    let n: usize = if b.len() < START_LEN {
        b.len()
    } else {
        START_LEN
    };
    let mut i: usize = 0;
    while i < n
        invariant
            n as int == (if b@.len() < START_LEN {
                b@.len() as int
            } else {
                START_LEN as int
            }),
            n <= b@.len(),
            n <= m@.len(),
            i <= n,
            forall|t: int| 0 <= t < i ==> b@[t] == m@[t],
        decreases n - i,
    {
        if b[i] != m[i] {
            assert(b@.subrange(0, n as int)[i as int] != m@.subrange(0, n as int)[i as int]);
            assert(b@.subrange(0, n as int) != m@.subrange(0, n as int));
            return false;
        }
        i += 1;
    }
    assert(b@.subrange(0, n as int) =~= m@.subrange(0, n as int));
    true
}

/// Whether a start marker may begin at `j` in `b`.
fn marker_may_begin_at(b: &[u8], j: usize, m: &[u8]) -> (r: bool)
    requires
        j <= b@.len(),
        m@ == start_marker(),
    ensures
        r == may_begin_marker(b@, j as int),
{
    let blen: usize = b.len();
    let n: usize = if blen - j < START_LEN {
        blen - j
    } else {
        START_LEN
    };
    let mut i: usize = 0;
    while i < n
        invariant
            n as int == (if b@.len() - j < START_LEN {
                b@.len() - j
            } else {
                START_LEN as int
            }),
            j + n <= b@.len(),
            blen == b@.len(),
            n <= m@.len(),
            m@ == start_marker(),
            i <= n,
            forall|t: int| 0 <= t < i ==> b@[j + t] == m@[t],
        decreases n - i,
    {
        if b[j + i] != m[i] {
            assert(b@.subrange(j as int, j + n)[i as int] != start_marker().subrange(0, n as int)[i as int]);
            assert(b@.subrange(j as int, j + n) != start_marker().subrange(0, n as int));
            return false;
        }
        i += 1;
    }
    assert(b@.subrange(j as int, j + n) =~= start_marker().subrange(0, n as int));
    true
}

/// The first position from 1 on where a start marker may begin in `b`; its length if none.
fn next_marker(b: &[u8], m: &[u8]) -> (r: usize)
    requires
        m@ == start_marker(),
    ensures
        r as int == next_marker_from(b@, 1),
{
    if b.len() == 0 {
        return 0;
    }
    let mut j: usize = 1;
    while j < b.len()
        invariant
            1 <= j <= b@.len(),
            m@ == start_marker(),
            next_marker_from(b@, 1) == next_marker_from(b@, j as int),
        decreases b.len() - j,
    {
        if marker_may_begin_at(b, j, m) {
            return j;
        }
        j += 1;
    }
    b.len()
}

/// Reads one request header from the bytes buffered so far.
pub fn parse_request(b: &[u8]) -> (r: Parse)
    ensures
        r@ == parse_spec(b@),
        match r {
            Parse::Invalid { consumed, .. } => 0 < consumed <= b@.len(),
            Parse::Request { consumed, .. } => 0 < consumed <= b@.len(),
            Parse::NeedMore => true,
        },
{
    let blen: usize = b.len();
    let nl_bytes: Vec<u8> = vec![10u8];
    let nl = nl_bytes.as_slice();
    assert(nl@ =~= newline());
    let start_bytes = start_marker_bytes();
    let start = start_bytes.as_slice();
    assert(start@ == start_marker());
    let end_bytes = end_marker_bytes();
    let end = end_bytes.as_slice();
    assert(end@ == end_marker());
    assert(end@.len() == 8);
    assert(newline().len() == 1);
    if !agrees_with_prefix(b, start) {
        let found = find_bytes(b, nl, 0);
        let c = next_marker(b, start);
        proof {
            lemma_find_from(b@, newline(), 0);
            if b@.len() == 0 {
                assert(b@.subrange(0, 0) =~= start_marker().subrange(0, 0));
            } else {
                lemma_next_marker(b@, 1);
            }
        }
        return match found {
            Some(i) if i < c => {
                Parse::Invalid { error: ProtocolError::BadStartMarker, consumed: i + 1 }
            },
            _ => if c < blen {
                Parse::Invalid { error: ProtocolError::BadStartMarker, consumed: c }
            } else {
                Parse::NeedMore
            },
        };
    }
    if b.len() < START_LEN {
        return Parse::NeedMore;
    }
    let found = find_bytes(b, nl, START_LEN);
    proof {
        lemma_find_from(b@, newline(), START_LEN as int);
    }
    let j = match found {
        Some(j) => j,
        None => {
            return Parse::NeedMore;
        },
    };
    let line = copy_range(b, START_LEN, j + 1);
    let word = strip_line(line.as_slice());
    let command = parse_command(word.as_slice());
    match command {
        None => {
            let found = find_bytes(b, end, j + 1);
            proof {
                lemma_find_from(b@, end_marker(), j + 1);
            }
            match found {
                None => Parse::NeedMore,
                Some(k) => Parse::Invalid { error: ProtocolError::UnknownCommand, consumed: k + 8 },
            }
        },
        Some(c) => {
            if c.has_payload() {
                let found = find_bytes(b, nl, j + 1);
                proof {
                    lemma_find_from(b@, newline(), j + 1);
                }
                match found {
                    None => Parse::NeedMore,
                    Some(l) => {
                        let arg_line = copy_range(b, j + 1, l + 1);
                        let arg = line_arg(arg_line.as_slice());
                        Parse::Request { command: c, arg, consumed: l + 1 }
                    },
                }
            } else {
                let found = find_bytes(b, end, j + 1);
                proof {
                    lemma_find_from(b@, end_marker(), j + 1);
                }
                match found {
                    None => Parse::NeedMore,
                    Some(k) => {
                        let body = copy_range(b, j + 1, k);
                        let arg = line_arg(body.as_slice());
                        Parse::Request { command: c, arg, consumed: k + 8 }
                    },
                }
            }
        },
    }
}

/// A stream recovers from a malformed start: a line that departs from the start marker is
/// rejected as `BadStartMarker` and dropped whole, newline included, so that parsing resumes
/// exactly at the bytes that follow it.
pub proof fn lemma_bad_line_dropped(line: Seq<u8>, rest: Seq<u8>, i: int)
    requires
        line.len() > 0,
        line.last() == 10u8,
        forall|k: int| 0 <= k < line.len() - 1 ==> line[k] != 10u8,
        0 <= i < line.len(),
        i < START_LEN,
        line[i] != start_marker()[i],
        next_marker_from(line + rest, 1) >= line.len(),
    ensures
        parse_spec(line + rest) == ParseView::Invalid(ProtocolError::BadStartMarker, line.len()),
        (line + rest).subrange(line.len() as int, (line + rest).len() as int) == rest,
{
    let b = line + rest;
    let n: int = if b.len() < START_LEN {
        b.len() as int
    } else {
        START_LEN as int
    };
    assert(b.subrange(0, n)[i] != start_marker().subrange(0, n)[i]);
    assert(b.subrange(0, n) != start_marker().subrange(0, n));
    assert forall|k: int| 0 <= k < line.len() - 1 implies !#[trigger] matches_at(b, k, newline()) by {
        assert(b.subrange(k, k + 1)[0] == line[k]);
    }
    assert(b.subrange(line.len() - 1, line.len() as int) =~= newline());
    crate::frame::lemma_find_from_unique(b, newline(), 0, line.len() - 1);
    assert(b.subrange(line.len() as int, b.len() as int) =~= rest);
}

proof fn lemma_next_marker_at(b: Seq<u8>, j: int, c: int)
    requires
        0 <= j <= c < b.len(),
        may_begin_marker(b, c),
        forall|k: int| j <= k < c ==> !#[trigger] may_begin_marker(b, k),
    ensures
        next_marker_from(b, j) == c,
    decreases c - j,
{
    if j < c {
        lemma_next_marker_at(b, j + 1, c);
    }
}

/// A stream resynchronizes on the next start marker: garbage with no newline of its own that
/// runs straight into a start marker is rejected as `BadStartMarker` and dropped exactly up
/// to that marker, so that the request after it is read whole.
pub proof fn lemma_garbage_before_marker(g: Seq<u8>, rest: Seq<u8>, i: int)
    requires
        0 <= i < g.len(),
        i < START_LEN,
        g[i] != start_marker()[i],
        forall|k: int| 0 <= k < g.len() ==> g[k] != 10u8,
        forall|j: int| 1 <= j < g.len() ==> !#[trigger] may_begin_marker(g + start_marker() + rest, j),
    ensures
        parse_spec(g + start_marker() + rest) == ParseView::Invalid(
            ProtocolError::BadStartMarker,
            g.len(),
        ),
        (g + start_marker() + rest).subrange(g.len() as int, (g + start_marker() + rest).len() as int)
            == start_marker() + rest,
{
    let b = g + start_marker() + rest;
    let glen = g.len() as int;
    assert(b.subrange(0, START_LEN as int)[i] != start_marker().subrange(0, START_LEN as int)[i]);
    assert(b.subrange(glen, glen + START_LEN) =~= start_marker());
    assert(b.subrange(glen, glen + START_LEN) =~= start_marker().subrange(0, START_LEN as int));
    assert(may_begin_marker(b, glen));
    lemma_next_marker_at(b, 1, glen);
    lemma_find_from(b, newline(), 0);
    if let Some(k) = find_from(b, newline(), 0) {
        assert(b.subrange(k, k + 1)[0] == 10u8);
        assert(b[k] == 10u8);
        if k < glen {
            assert(b[k] == g[k]);
        }
        assert(b[glen] == 13u8);
    }
    assert(b.subrange(glen, b.len() as int) =~= start_marker() + rest);
}

} // verus!
