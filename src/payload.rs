use vstd::prelude::*;

use crate::frame::{end_marker, end_position, find_from, lemma_find_from, lemma_find_from_unique, matches_at, stream_end, ProtocolError};

verus! {

/// How many bytes a scanner holds back between reads: one less than the end marker.
pub const CARRY_LEN: usize = 7;

/// The payload bytes that can be handed on once `seen` has arrived: everything before the
/// end marker if it has arrived, else all but the last bytes that may begin a marker.
pub open spec fn payload_so_far(seen: Seq<u8>) -> Seq<u8> {
    match end_position(seen) {
        Some(k) => seen.subrange(0, k),
        None => if seen.len() < CARRY_LEN {
            Seq::empty()
        } else {
            seen.subrange(0, seen.len() - CARRY_LEN)
        },
    }
}

/// The payload of a complete transfer: the bytes before the first end marker.
pub open spec fn payload_of(stream: Seq<u8>) -> Seq<u8>
    recommends
        end_position(stream) is Some,
{
    stream.subrange(0, end_position(stream)->0)
}

/// What a scanner hands back for one chunk.
pub enum Scan {
    /// No end marker yet; these payload bytes are ready.
    More(Vec<u8>),
    /// The end marker arrived: the last payload bytes and what followed the marker.
    Found { payload: Vec<u8>, rest: Vec<u8> },
}

/// Finds the end marker in a payload that arrives in chunks of any size, holding back at
/// most `CARRY_LEN` bytes so that a marker split across two reads is still found.
pub struct PayloadScanner {
    carry: Vec<u8>,
    done: bool,
    seen: Ghost<Seq<u8>>,
}

/// The carry-over that a scanner holds after `seen`: its last bytes, at most `CARRY_LEN`.
pub open spec fn carry_of(seen: Seq<u8>) -> Seq<u8> {
    if seen.len() < CARRY_LEN {
        seen
    } else {
        seen.subrange(seen.len() - CARRY_LEN, seen.len() as int)
    }
}

/// Where the carry-over of `seen` starts within `seen`.
pub open spec fn carry_start(seen: Seq<u8>) -> int {
    if seen.len() < CARRY_LEN {
        0
    } else {
        seen.len() - CARRY_LEN
    }
}

/// Positions of `t` from `off` on correspond to positions of its suffix.
proof fn lemma_suffix_matches(t: Seq<u8>, off: int, m: Seq<u8>)
    requires
        0 <= off <= t.len(),
    ensures
        forall|j: int|
            0 <= j ==> (#[trigger] matches_at(t.subrange(off, t.len() as int), j, m) == matches_at(
                t,
                j + off,
                m,
            )),
{
    let b = t.subrange(off, t.len() as int);
    assert forall|j: int| 0 <= j implies (#[trigger] matches_at(b, j, m) == matches_at(
        t,
        j + off,
        m,
    )) by {
        if j + m.len() <= b.len() {
            assert(b.subrange(j, j + m.len()) =~= t.subrange(j + off, j + off + m.len()));
        }
    }
}

/// With no occurrence before `off`, the first occurrence in `t` is the first one in its suffix.
proof fn lemma_find_in_suffix(t: Seq<u8>, off: int, m: Seq<u8>)
    requires
        0 <= off <= t.len(),
        forall|j: int| 0 <= j < off ==> !#[trigger] matches_at(t, j, m),
    ensures
        match find_from(t.subrange(off, t.len() as int), m, 0) {
            Some(k) => find_from(t, m, 0) == Some(k + off),
            None => find_from(t, m, 0) is None,
        },
{
    let b = t.subrange(off, t.len() as int);
    lemma_suffix_matches(t, off, m);
    lemma_find_from(b, m, 0);
    match find_from(b, m, 0) {
        Some(k) => {
            assert forall|j: int| 0 <= j < k + off implies !#[trigger] matches_at(t, j, m) by {
                if j >= off {
                    assert(matches_at(b, j - off, m) == matches_at(t, j, m));
                }
            }
            assert(matches_at(b, k, m));
            lemma_find_from_unique(t, m, 0, k + off);
        },
        None => {
            lemma_find_from(t, m, 0);
            if find_from(t, m, 0) is Some {
                let k = find_from(t, m, 0)->0;
                assert(matches_at(b, k - off, m) == matches_at(t, k, m));
            }
        },
    }
}

/// The bytes of `a` followed by those of `b`.
fn concat(a: &[u8], b: &[u8]) -> (r: Vec<u8>)
    ensures
        r@ == a@ + b@,
{
    let mut r: Vec<u8> = Vec::new();
    let mut i: usize = 0;
    while i < a.len()
        invariant
            i <= a@.len(),
            r@ == a@.subrange(0, i as int),
        decreases a.len() - i,
    {
        r.push(a[i]);
        i += 1;
        assert(r@ =~= a@.subrange(0, i as int));
    }
    let mut i: usize = 0;
    while i < b.len()
        invariant
            i <= b@.len(),
            r@ == a@ + b@.subrange(0, i as int),
        decreases b.len() - i,
    {
        r.push(b[i]);
        i += 1;
        assert(r@ =~= a@ + b@.subrange(0, i as int));
    }
    assert(a@.subrange(0, a@.len() as int) =~= a@);
    assert(b@.subrange(0, b@.len() as int) =~= b@);
    r
}

/// The bytes of `v` from `lo` up to `hi`.
pub fn copy_range(v: &[u8], lo: usize, hi: usize) -> (r: Vec<u8>)
    requires
        lo <= hi <= v@.len(),
    ensures
        r@ == v@.subrange(lo as int, hi as int),
{
    let mut r: Vec<u8> = Vec::new();
    let mut j: usize = lo;
    while j < hi
        invariant
            lo <= j <= hi,
            hi <= v@.len(),
            r@ == v@.subrange(lo as int, j as int),
        decreases hi - j,
    {
        r.push(v[j]);
        j += 1;
        assert(r@ =~= v@.subrange(lo as int, j as int));
    }
    r
}

/// The carry-over followed by a new chunk is the tail of everything seen from where the
/// carry-over starts, and holds the first end marker of it, if any.
proof fn lemma_carry_window(old_seen: Seq<u8>, chunk: Seq<u8>, carry: Seq<u8>, buf: Seq<u8>)
    requires
        end_position(old_seen) is None,
        carry == carry_of(old_seen),
        buf == carry + chunk,
    ensures
        ({
            let seen = old_seen + chunk;
            let off = carry_start(old_seen);
            &&& buf == seen.subrange(off, seen.len() as int)
            &&& old_seen.subrange(0, off) == seen.subrange(0, off)
            &&& match end_position(buf) {
                Some(k) => end_position(seen) == Some(k + off),
                None => end_position(seen) is None,
            }
        }),
{
    let seen = old_seen + chunk;
    let off = carry_start(old_seen);
    assert(buf =~= seen.subrange(off, seen.len() as int));
    lemma_find_from(old_seen, end_marker(), 0);
    assert forall|j: int| 0 <= j < off implies !#[trigger] matches_at(seen, j, end_marker()) by {
        if matches_at(seen, j, end_marker()) {
            assert(seen.subrange(j, j + 8) =~= old_seen.subrange(j, j + 8));
            assert(matches_at(old_seen, j, end_marker()));
        }
    }
    lemma_find_in_suffix(seen, off, end_marker());
    assert(old_seen.subrange(0, off) =~= seen.subrange(0, off));
}

impl PayloadScanner {
    /// Every byte the scanner has been handed so far.
    pub closed spec fn seen(&self) -> Seq<u8> {
        self.seen@
    }

    /// The end marker has been found.
    pub closed spec fn is_done(&self) -> bool {
        self.done
    }

    pub closed spec fn wf(&self) -> bool {
        &&& self.carry@.len() <= CARRY_LEN
        &&& !self.done ==> end_position(self.seen@) is None && self.carry@ == carry_of(self.seen@)
    }

    /// A scanner that has seen nothing.
    pub fn new() -> (r: PayloadScanner)
        ensures
            r.wf(),
            r.seen() == Seq::<u8>::empty(),
            !r.is_done(),
    {
        let r = PayloadScanner { carry: Vec::new(), done: false, seen: Ghost(Seq::empty()) };
        assert(r.carry@ =~= carry_of(r.seen@));
        r
    }

    /// Hands the scanner the next chunk read from the source. An empty chunk means that the
    /// source has ended, which before the end marker is `StreamTruncated`.
    pub fn feed(&mut self, chunk: &[u8]) -> (r: Result<Scan, ProtocolError>)
        requires
            old(self).wf(),
            !old(self).is_done(),
        ensures
            final(self).wf(),
            chunk.len() == 0 ==> r == Err::<Scan, ProtocolError>(ProtocolError::StreamTruncated)
                && final(self).seen() == old(self).seen() && !final(self).is_done(),
            chunk.len() > 0 ==> {
                let seen = old(self).seen() + chunk@;
                &&& final(self).seen() == seen
                &&& r is Ok
                &&& match r->Ok_0 {
                    Scan::More(out) => {
                        &&& end_position(seen) is None
                        &&& !final(self).is_done()
                        &&& payload_so_far(old(self).seen()) + out@ == payload_so_far(seen)
                    },
                    Scan::Found { payload, rest } => {
                        &&& end_position(seen) is Some
                        &&& final(self).is_done()
                        &&& payload_so_far(old(self).seen()) + payload@ == payload_so_far(seen)
                        &&& rest@ == seen.subrange(
                            end_position(seen)->0 + end_marker().len(),
                            seen.len() as int,
                        )
                    },
                }
            },
    {
        if chunk.len() == 0 {
            return Err(ProtocolError::StreamTruncated);
        }
        let ghost old_seen = self.seen@;
        let ghost seen = old_seen + chunk@;
        let ghost off = carry_start(old_seen);
        let buf = concat(self.carry.as_slice(), chunk);
        proof {
            lemma_carry_window(old_seen, chunk@, self.carry@, buf@);
        }
        self.seen = Ghost(seen);
        let window = buf.as_slice();
        assert(window@ == buf@);
        let found = stream_end(window);
        match found {
            Some(p) => {
                proof {
                    lemma_find_from(buf@, end_marker(), 0);
                    assert(end_marker().len() == 8);
                    assert(matches_at(buf@, p as int, end_marker()));
                    assert(p + 8 <= buf@.len());
                }
                let payload = copy_range(buf.as_slice(), 0, p);
                let rest = copy_range(buf.as_slice(), p + 8, buf.len());
                self.done = true;
                self.carry = Vec::new();
                proof {
                    assert(seen.subrange(0, p + off) =~= old_seen.subrange(0, off) + payload@);
                    assert(rest@ =~= seen.subrange(p + off + 8, seen.len() as int));
                }
                Ok(Scan::Found { payload, rest })
            },
            None => {
                let keep: usize = if buf.len() < CARRY_LEN {
                    buf.len()
                } else {
                    CARRY_LEN
                };
                let cut: usize = buf.len() - keep;
                let out = copy_range(buf.as_slice(), 0, cut);
                let carry = copy_range(buf.as_slice(), cut, buf.len());
                self.carry = carry;
                proof {
                    assert(seen.len() == off + buf@.len());
                    assert(carry@ =~= carry_of(seen));
                    assert(seen.subrange(0, off + cut) =~= old_seen.subrange(0, off) + out@);
                    if seen.len() < CARRY_LEN {
                        assert(payload_so_far(seen) =~= old_seen.subrange(0, off) + out@);
                    }
                }
                Ok(Scan::More(out))
            },
        }
    }
}

/// All chunks, one after the other.
pub open spec fn flatten(chunks: Seq<Seq<u8>>) -> Seq<u8>
    decreases chunks.len(),
{
    if chunks.len() == 0 {
        Seq::empty()
    } else {
        flatten(chunks.drop_last()) + chunks.last()
    }
}

/// The payload bytes that one feed hands out: what became ready with `chunk`.
pub open spec fn fed_out(before: Seq<u8>, chunk: Seq<u8>) -> Seq<u8> {
    let now = payload_so_far(before + chunk);
    now.subrange(payload_so_far(before).len() as int, now.len() as int)
}

/// Everything a scanner hands out when fed `chunks` in turn.
pub open spec fn handed_out(chunks: Seq<Seq<u8>>) -> Seq<u8>
    decreases chunks.len(),
{
    if chunks.len() == 0 {
        Seq::empty()
    } else {
        handed_out(chunks.drop_last()) + fed_out(flatten(chunks.drop_last()), chunks.last())
    }
}

/// What is ready after `s` stays ready, unchanged, whatever arrives after it.
pub proof fn lemma_payload_so_far_grows(s: Seq<u8>, t: Seq<u8>)
    ensures
        payload_so_far(s).len() <= payload_so_far(s + t).len(),
        payload_so_far(s) == payload_so_far(s + t).subrange(0, payload_so_far(s).len() as int),
{
    let st = s + t;
    lemma_find_from(s, end_marker(), 0);
    match end_position(s) {
        Some(k) => {
            assert forall|j: int| 0 <= j < k implies !#[trigger] matches_at(st, j, end_marker()) by {
                if matches_at(st, j, end_marker()) {
                    assert(st.subrange(j, j + 8) =~= s.subrange(j, j + 8));
                    assert(matches_at(s, j, end_marker()));
                }
            }
            assert(st.subrange(k, k + 8) =~= s.subrange(k, k + 8));
            lemma_find_from_unique(st, end_marker(), 0, k);
            assert(st.subrange(0, k) =~= s.subrange(0, k));
        },
        None => {
            let carry = carry_of(s);
            lemma_carry_window(s, t, carry, carry + t);
            lemma_find_from(st, end_marker(), 0);
            let off = carry_start(s);
            assert(payload_so_far(s) =~= s.subrange(0, off));
            lemma_find_from(carry + t, end_marker(), 0);
            match end_position(st) {
                Some(kk) => {
                    assert(kk >= off);
                    assert(payload_so_far(st) == st.subrange(0, kk));
                },
                None => {
                    assert(st.len() >= s.len());
                },
            }
            assert(payload_so_far(st).subrange(0, off) =~= s.subrange(0, off));
        },
    }
}

/// Chunking never changes the payload: whatever the split of a byte stream into reads,
/// the scanner hands out exactly what it hands out for the stream in one read, and once
/// the end marker has arrived, that is the stream up to its first end marker.
pub proof fn lemma_chunking_invariant(chunks: Seq<Seq<u8>>)
    ensures
        handed_out(chunks) == payload_so_far(flatten(chunks)),
        handed_out(chunks) == handed_out(seq![flatten(chunks)]),
        end_position(flatten(chunks)) is Some ==> handed_out(chunks) == payload_of(
            flatten(chunks),
        ),
    decreases chunks.len(),
{
    if chunks.len() > 0 {
        let init = chunks.drop_last();
        lemma_chunking_invariant(init);
        lemma_payload_so_far_grows(flatten(init), chunks.last());
        assert(handed_out(chunks) =~= payload_so_far(flatten(chunks)));
    }
    let one = seq![flatten(chunks)];
    assert(one.drop_last() =~= Seq::<Seq<u8>>::empty());
    assert(flatten(one.drop_last()) =~= Seq::<u8>::empty());
    assert(flatten(one) =~= flatten(chunks));
    assert(payload_so_far(Seq::<u8>::empty()) =~= Seq::<u8>::empty());
    assert(handed_out(one.drop_last()) =~= Seq::<u8>::empty());
    assert(Seq::<u8>::empty() + flatten(chunks) =~= flatten(chunks));
    assert(handed_out(one) =~= fed_out(Seq::<u8>::empty(), flatten(chunks)));
    assert(handed_out(one) =~= payload_so_far(flatten(chunks)));
}

/// A payload in which no end marker begins comes back whole from the stream that carries it
/// followed by the end marker: what a store writes is what a fetch reads.
pub proof fn lemma_round_trip(p: Seq<u8>)
    requires
        forall|j: int| 0 <= j < p.len() ==> !#[trigger] matches_at(p + end_marker(), j, end_marker()),
    ensures
        end_position(p + end_marker()) == Some(p.len() as int),
        payload_of(p + end_marker()) == p,
{
    let s = p + end_marker();
    assert(s.subrange(p.len() as int, p.len() + 8 as int) =~= end_marker());
    lemma_find_from_unique(s, end_marker(), 0, p.len() as int);
    assert(s.subrange(0, p.len() as int) =~= p);
}

} // verus!
