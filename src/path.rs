use vstd::prelude::*;

use crate::payload::copy_range;

verus! {

/// Why a client path was refused.
#[derive(Clone, Copy, Debug, PartialEq, Eq, Structural)]
pub enum PathError {
    /// Resolution would leave the server root.
    Escape,
    /// A null byte, an empty segment, or bytes that are not text.
    Malformed,
}

pub open spec fn slash() -> u8 {
    47u8
}

/// A path as seen by the library: its segments below the server root.
pub open spec fn segs_view(v: Seq<Vec<u8>>) -> Seq<Seq<u8>> {
    v.map_values(|x: Vec<u8>| x@)
}

/// The segments of `s` separated by `/` (one empty segment for an empty `s`).
pub open spec fn split_on(s: Seq<u8>) -> Seq<Seq<u8>>
    decreases s.len(),
{
    if s.len() == 0 {
        seq![Seq::empty()]
    } else {
        let r = split_on(s.drop_last());
        if s.last() == slash() {
            r.push(Seq::empty())
        } else {
            r.update(r.len() - 1, r.last().push(s.last()))
        }
    }
}

pub open spec fn is_dot(seg: Seq<u8>) -> bool {
    seg == seq![46u8]
}

pub open spec fn is_dot_dot(seg: Seq<u8>) -> bool {
    seg == seq![46u8, 46u8]
}

/// One segment applied to a path: `.` keeps it, `..` leaves the last directory (and fails
/// at the root), any other name enters it.
pub open spec fn apply_segment(acc: Seq<Seq<u8>>, seg: Seq<u8>) -> Option<Seq<Seq<u8>>> {
    if is_dot(seg) {
        Some(acc)
    } else if is_dot_dot(seg) {
        if acc.len() == 0 {
            None
        } else {
            Some(acc.drop_last())
        }
    } else {
        Some(acc.push(seg))
    }
}

/// `segs` applied in turn to `base`; `None` when one of them climbs above the root.
pub open spec fn fold_segments(base: Seq<Seq<u8>>, segs: Seq<Seq<u8>>) -> Option<Seq<Seq<u8>>>
    decreases segs.len(),
{
    if segs.len() == 0 {
        Some(base)
    } else {
        match fold_segments(base, segs.drop_last()) {
            None => None,
            Some(acc) => apply_segment(acc, segs.last()),
        }
    }
}

pub open spec fn has_byte(s: Seq<u8>, b: u8) -> bool {
    exists|i: int| 0 <= i < s.len() && s[i] == b
}

/// Two separators in a row, or one at an end, leave an empty segment.
pub open spec fn has_empty_segment(segs: Seq<Seq<u8>>) -> bool {
    exists|i: int| 0 <= i < segs.len() && (#[trigger] segs[i]).len() == 0
}

/// A segment of a resolved path: a plain name.
pub open spec fn valid_segment(seg: Seq<u8>) -> bool {
    &&& seg.len() > 0
    &&& !is_dot(seg)
    &&& !is_dot_dot(seg)
    &&& !has_byte(seg, slash())
    &&& !has_byte(seg, 0u8)
}

/// A resolved directory path: plain names only.
pub open spec fn valid_dir(segs: Seq<Seq<u8>>) -> bool {
    forall|i: int| 0 <= i < segs.len() ==> valid_segment(#[trigger] segs[i])
}

/// `p` resolved against `cwd`: a leading `/` starts from the root. Null bytes and empty
/// segments are malformed; climbing above the root is an escape.
pub open spec fn simplify_spec(cwd: Seq<Seq<u8>>, p: Seq<u8>) -> Result<Seq<Seq<u8>>, PathError> {
    let rooted = p.len() > 0 && p[0] == slash();
    let base = if rooted {
        Seq::empty()
    } else {
        cwd
    };
    let rest = if rooted {
        p.drop_first()
    } else {
        p
    };
    if has_byte(p, 0u8) {
        Err(PathError::Malformed)
    } else if rest.len() == 0 {
        Ok(base)
    } else if has_empty_segment(split_on(rest)) {
        Err(PathError::Malformed)
    } else {
        match fold_segments(base, split_on(rest)) {
            None => Err(PathError::Escape),
            Some(r) => Ok(r),
        }
    }
}

/// Every segment of a split comes from `s` and holds no separator.
proof fn lemma_split_on(s: Seq<u8>)
    ensures
        split_on(s).len() >= 1,
        forall|i: int| 0 <= i < split_on(s).len() ==> !has_byte(#[trigger] split_on(s)[i], slash()),
        !has_byte(s, 0u8) ==> forall|i: int|
            0 <= i < split_on(s).len() ==> !has_byte(#[trigger] split_on(s)[i], 0u8),
    decreases s.len(),
{
    if s.len() > 0 {
        let d = s.drop_last();
        lemma_split_on(d);
        if !has_byte(s, 0u8) {
            assert forall|k: int| 0 <= k < d.len() implies d[k] != 0u8 by {
                assert(s[k] == d[k]);
            }
        }
        let r = split_on(d);
        if s.last() != slash() {
            let last = r.last().push(s.last());
            assert forall|k: int| 0 <= k < last.len() implies last[k] != slash() by {
                if k < r.last().len() {
                    assert(!has_byte(r[r.len() - 1], slash()));
                    assert(last[k] == r.last()[k]);
                }
            }
            if !has_byte(s, 0u8) {
                assert forall|k: int| 0 <= k < last.len() implies last[k] != 0u8 by {
                    if k < r.last().len() {
                        assert(!has_byte(r[r.len() - 1], 0u8));
                        assert(last[k] == r.last()[k]);
                    }
                }
            }
        }
    }
}

/// Bytes without a separator are one segment.
pub proof fn lemma_split_single(s: Seq<u8>)
    requires
        !has_byte(s, slash()),
    ensures
        split_on(s) == seq![s],
    decreases s.len(),
{
    if s.len() > 0 {
        let d = s.drop_last();
        assert(!has_byte(d, slash())) by {
            if has_byte(d, slash()) {
                let k = choose|k: int| 0 <= k < d.len() && d[k] == slash();
                assert(s[k] == d[k]);
            }
        }
        lemma_split_single(d);
        assert(s.last() == s[s.len() - 1]);
        assert(s.last() != slash());
        assert(d.push(s.last()) =~= s);
        assert(seq![d].update(0, d.push(s.last())) =~= seq![s]);
    } else {
        assert(s =~= Seq::<u8>::empty());
    }
}

/// A plain name resolves, against any directory, to that directory with the name appended.
pub proof fn lemma_resolve_name(cwd: Seq<Seq<u8>>, name: Seq<u8>)
    requires
        valid_segment(name),
    ensures
        simplify_spec(cwd, name) == Ok::<Seq<Seq<u8>>, PathError>(cwd.push(name)),
{
    assert(name[0] != slash());
    assert(!has_byte(name, 0u8));
    lemma_split_single(name);
    let segs = seq![name];
    assert(segs.drop_last() =~= Seq::<Seq<u8>>::empty());
    assert(segs.last() == name);
    assert(fold_segments(cwd, segs.drop_last()) == Some(cwd));
    assert(fold_segments(cwd, segs) == Some(cwd.push(name)));
    assert(split_on(name) == segs);
    assert(!has_empty_segment(segs)) by {
        if has_empty_segment(segs) {
            let i = choose|i: int| 0 <= i < segs.len() && (#[trigger] segs[i]).len() == 0;
            assert(segs[i] == name);
        }
    }
}

/// Folding plain segments into a plain directory keeps it plain.
proof fn lemma_fold_valid(base: Seq<Seq<u8>>, segs: Seq<Seq<u8>>)
    requires
        valid_dir(base),
        forall|i: int|
            0 <= i < segs.len() ==> {
                let seg = #[trigger] segs[i];
                seg.len() > 0 && !has_byte(seg, slash()) && !has_byte(seg, 0u8)
            },
    ensures
        fold_segments(base, segs) matches Some(r) ==> valid_dir(r),
    decreases segs.len(),
{
    if segs.len() > 0 {
        let init = segs.drop_last();
        assert forall|i: int| 0 <= i < init.len() implies {
            let seg = #[trigger] init[i];
            seg.len() > 0 && !has_byte(seg, slash()) && !has_byte(seg, 0u8)
        } by {
            assert(init[i] == segs[i]);
        }
        lemma_fold_valid(base, init);
        if let Some(acc) = fold_segments(base, init) {
            let seg = segs.last();
            assert(seg == segs[segs.len() - 1]);
            if !is_dot(seg) && is_dot_dot(seg) && acc.len() > 0 {
                assert forall|i: int| 0 <= i < acc.drop_last().len() implies valid_segment(
                    #[trigger] acc.drop_last()[i],
                ) by {
                    assert(acc.drop_last()[i] == acc[i]);
                }
            } else if !is_dot(seg) && !is_dot_dot(seg) {
                assert forall|i: int| 0 <= i < acc.push(seg).len() implies valid_segment(
                    #[trigger] acc.push(seg)[i],
                ) by {
                    if i < acc.len() {
                        assert(acc.push(seg)[i] == acc[i]);
                    }
                }
            }
        }
    }
}

/// The segments joined, each after a `/`.
pub open spec fn join(segs: Seq<Seq<u8>>) -> Seq<u8>
    decreases segs.len(),
{
    if segs.len() == 0 {
        Seq::empty()
    } else {
        join(segs.drop_last()) + seq![slash()] + segs.last()
    }
}

/// The filesystem path of `segs` below a root whose path is `base` (without trailing `/`;
/// empty for the filesystem root itself).
pub open spec fn render(base: Seq<u8>, segs: Seq<Seq<u8>>) -> Seq<u8> {
    if base.len() == 0 && segs.len() == 0 {
        seq![slash()]
    } else {
        base + join(segs)
    }
}

/// `p` is the root `base` or lies below it.
pub open spec fn within_root(base: Seq<u8>, p: Seq<u8>) -> bool {
    ||| p == render(base, Seq::empty())
    ||| (p.len() > base.len() && p.subrange(0, base.len() as int) == base && p[base.len() as int]
        == slash())
}

proof fn lemma_join_starts_with_slash(segs: Seq<Seq<u8>>)
    requires
        segs.len() > 0,
    ensures
        join(segs).len() > 0,
        join(segs)[0] == slash(),
    decreases segs.len(),
{
    let init = join(segs.drop_last());
    if segs.drop_last().len() > 0 {
        lemma_join_starts_with_slash(segs.drop_last());
        assert((init + seq![slash()] + segs.last())[0] == init[0]);
    } else {
        assert(init =~= Seq::<u8>::empty());
        assert((init + seq![slash()] + segs.last())[0] == slash());
    }
}

/// Resolution never leaves the server root: for any working directory inside the root and
/// any client path, the result is an error or a path of plain names below the root, whose
/// filesystem path lies within the root's.
pub proof fn lemma_resolve_stays_inside(base: Seq<u8>, cwd: Seq<Seq<u8>>, p: Seq<u8>)
    requires
        valid_dir(cwd),
    ensures
        simplify_spec(cwd, p) matches Ok(r) ==> valid_dir(r) && within_root(base, render(base, r)),
{
    let rooted = p.len() > 0 && p[0] == slash();
    let base_dir = if rooted {
        Seq::<Seq<u8>>::empty()
    } else {
        cwd
    };
    let rest = if rooted {
        p.drop_first()
    } else {
        p
    };
    if let Ok(r) = simplify_spec(cwd, p) {
        if rest.len() > 0 {
            assert forall|k: int| 0 <= k < rest.len() implies rest[k] != 0u8 by {
                if rooted {
                    assert(rest[k] == p[k + 1]);
                } else {
                    assert(rest[k] == p[k]);
                }
            }
            assert(!has_byte(rest, 0u8));
            assert(!has_byte(p, 0u8));
            lemma_split_on(rest);
            let parts = split_on(rest);
            assert(!has_empty_segment(parts));
            assert forall|i: int| 0 <= i < parts.len() implies {
                let seg = #[trigger] parts[i];
                seg.len() > 0 && !has_byte(seg, slash()) && !has_byte(seg, 0u8)
            } by {
                assert(parts[i].len() != 0);
            }
            lemma_fold_valid(base_dir, split_on(rest));
        }
        if r.len() > 0 {
            lemma_join_starts_with_slash(r);
            let q = render(base, r);
            assert(q.subrange(0, base.len() as int) =~= base);
            assert(q[base.len() as int] == join(r)[0]);
        }
    }
}

/// The next step in confirming that a path's real location is inside the root.
#[derive(Clone, Copy, Debug, PartialEq, Eq, Structural)]
pub enum Probe {
    /// The real location is the root or below it: the path may be used.
    Inside,
    /// The real location is outside the root, or nothing on the way up exists: refuse.
    Outside,
    /// This entry does not exist yet: probe its parent.
    Up,
}

/// The server root: an absolute directory path, kept without its trailing `/`.
pub struct ServerRoot {
    base: Vec<u8>,
}

impl ServerRoot {
    /// The root's path without trailing `/` (empty for the filesystem root).
    pub closed spec fn base(&self) -> Seq<u8> {
        self.base@
    }

    pub closed spec fn wf(&self) -> bool {
        self.base@.len() == 0 || (self.base@[0] == slash() && self.base@.last() != slash())
    }

    /// The root at an absolute path; `None` for a path that does not start with `/`.
    pub fn new(path: &[u8]) -> (r: Option<ServerRoot>)
        ensures
            (path@.len() > 0 && path@[0] == slash()) <==> r is Some,
            r matches Some(root) ==> root.wf() && within_root(root.base(), path@) && path@
                == root.base() + Seq::new((path@.len() - root.base().len()) as nat, |i: int| slash()),
    {
        if path.len() == 0 || path[0] != 47u8 {
            return None;
        }
        let mut end: usize = path.len();
        while end > 0 && path[end - 1] == 47u8
            invariant
                end <= path@.len(),
                forall|k: int| end <= k < path@.len() ==> path@[k] == slash(),
            decreases end,
        {
            end -= 1;
        }
        let base = copy_range(path, 0, end);
        let root = ServerRoot { base };
        proof {
            let tail = Seq::new((path@.len() - end) as nat, |i: int| slash());
            assert(path@ =~= base@ + tail);
            if end == 0 {
                assert(path@[0] == slash());
            }
        }
        Some(root)
    }

    /// The filesystem path of `segs` below this root.
    pub fn render(&self, segs: &Vec<Vec<u8>>) -> (r: Vec<u8>)
        ensures
            r@ == render(self.base(), segs_view(segs@)),
    {
        if self.base.len() == 0 && segs.len() == 0 {
            let r: Vec<u8> = vec![47u8];
            assert(r@ =~= seq![slash()]);
            return r;
        }
        let mut r = copy_range(self.base.as_slice(), 0, self.base.len());
        assert(self.base@.subrange(0, self.base@.len() as int) =~= self.base@);
        let mut i: usize = 0;
        while i < segs.len()
            invariant
                i <= segs@.len(),
                r@ == self.base@ + join(segs_view(segs@.subrange(0, i as int))),
            decreases segs.len() - i,
        {
            r.push(47u8);
            let seg = &segs[i];
            let mut j: usize = 0;
            let ghost before = r@;
            while j < seg.len()
                invariant
                    j <= seg@.len(),
                    r@ == before + seg@.subrange(0, j as int),
                decreases seg.len() - j,
            {
                r.push(seg[j]);
                j += 1;
                assert(r@ =~= before + seg@.subrange(0, j as int));
            }
            proof {
                let v = segs_view(segs@.subrange(0, i + 1));
                assert(v.drop_last() =~= segs_view(segs@.subrange(0, i as int)));
                assert(v.last() == seg@);
                assert(seg@.subrange(0, seg@.len() as int) =~= seg@);
                assert(r@ =~= self.base@ + join(v));
            }
            i += 1;
        }
        assert(segs@.subrange(0, segs@.len() as int) =~= segs@);
        r
    }

    /// One step of the walk from a path up to its deepest existing ancestor: `resolved` is the
    /// filesystem's resolution of the probed entry (`None` where it does not exist), and
    /// `has_parent` whether the probe can still move up.
    pub fn probe_step(&self, resolved: Option<&[u8]>, has_parent: bool) -> (r: Probe)
        ensures
            r == match resolved {
                Some(p) => if within_root(self.base(), p@) {
                    Probe::Inside
                } else {
                    Probe::Outside
                },
                None => if has_parent {
                    Probe::Up
                } else {
                    Probe::Outside
                },
            },
    {
        match resolved {
            Some(p) => if self.contains(p) {
                Probe::Inside
            } else {
                Probe::Outside
            },
            None => if has_parent {
                Probe::Up
            } else {
                Probe::Outside
            },
        }
    }

    /// Whether the real path `p` of an entry (after the filesystem has resolved its links)
    /// is still the root or below it.
    pub fn contains(&self, p: &[u8]) -> (r: bool)
        ensures
            r == within_root(self.base(), p@),
    {
        let plen: usize = p.len();
        let blen: usize = self.base.len();
        let top = self.render(&Vec::new());
        assert(segs_view(Seq::<Vec<u8>>::empty()) =~= Seq::<Seq<u8>>::empty());
        if plen == top.len() && crate::frame::bytes_equal(p, top.as_slice()) {
            return true;
        }
        if plen <= blen {
            return false;
        }
        let head = copy_range(p, 0, blen);
        let same = crate::frame::bytes_equal(head.as_slice(), self.base.as_slice());
        same && p[blen] == 47u8
    }
}

/// Once a fold has climbed above the root, no further segment brings it back.
proof fn lemma_fold_stays_none(base: Seq<Seq<u8>>, segs: Seq<Seq<u8>>, i: int)
    requires
        0 <= i <= segs.len(),
        fold_segments(base, segs.subrange(0, i)) is None,
    ensures
        fold_segments(base, segs) is None,
    decreases segs.len() - i,
{
    if i < segs.len() {
        let next = segs.subrange(0, i + 1);
        assert(next.drop_last() =~= segs.subrange(0, i));
        lemma_fold_stays_none(base, segs, i + 1);
    } else {
        assert(segs.subrange(0, i) =~= segs);
    }
}

/// Whether `s` holds the byte `b`.
pub fn contains_byte(s: &[u8], b: u8) -> (r: bool)
    ensures
        r == has_byte(s@, b),
{
    let mut i: usize = 0;
    while i < s.len()
        invariant
            i <= s@.len(),
            forall|k: int| 0 <= k < i ==> s@[k] != b,
        decreases s.len() - i,
    {
        if s[i] == b {
            return true;
        }
        i += 1;
    }
    false
}

/// A copy of a byte vector.
pub fn copy_vec(v: &Vec<u8>) -> (r: Vec<u8>)
    ensures
        r@ == v@,
{
    let mut r: Vec<u8> = Vec::new();
    let mut i: usize = 0;
    while i < v.len()
        invariant
            i <= v@.len(),
            r@ == v@.subrange(0, i as int),
        decreases v.len() - i,
    {
        r.push(v[i]);
        i += 1;
        assert(r@ =~= v@.subrange(0, i as int));
    }
    assert(v@.subrange(0, v@.len() as int) =~= v@);
    r
}

/// A copy of a list of segments.
pub fn copy_segments(v: &Vec<Vec<u8>>) -> (r: Vec<Vec<u8>>)
    ensures
        segs_view(r@) == segs_view(v@),
{
    let mut r: Vec<Vec<u8>> = Vec::new();
    let mut i: usize = 0;
    while i < v.len()
        invariant
            i <= v@.len(),
            r@.len() == i,
            forall|k: int| 0 <= k < i ==> (#[trigger] r@[k])@ == v@[k]@,
        decreases v.len() - i,
    {
        let seg = copy_vec(&v[i]);
        r.push(seg);
        i += 1;
    }
    assert(segs_view(r@) =~= segs_view(v@));
    r
}

/// The segments of `path` from position `start` on, split at each `/`.
fn split_path(path: &[u8], start: usize) -> (r: Vec<Vec<u8>>)
    requires
        start <= path@.len(),
    ensures
        segs_view(r@) == split_on(path@.subrange(start as int, path@.len() as int)),
{
    let mut done: Vec<Vec<u8>> = Vec::new();
    let mut cur: Vec<u8> = Vec::new();
    let mut i: usize = start;
    assert(path@.subrange(start as int, start as int) =~= Seq::<u8>::empty());
    assert(segs_view(done@).push(cur@) =~= seq![Seq::<u8>::empty()]);
    while i < path.len()
        invariant
            start <= i <= path@.len(),
            segs_view(done@).push(cur@) == split_on(path@.subrange(start as int, i as int)),
        decreases path.len() - i,
    {
        let ghost prev = path@.subrange(start as int, i as int);
        let ghost next = path@.subrange(start as int, i + 1);
        assert(next.drop_last() =~= prev);
        assert(next.last() == path@[i as int]);
        if path[i] == 47u8 {
            let ghost old_done = segs_view(done@);
            done.push(cur);
            cur = Vec::new();
            assert(segs_view(done@) =~= old_done.push(segs_view(done@).last()));
            assert(segs_view(done@).push(cur@) =~= split_on(prev).push(Seq::<u8>::empty()));
        } else {
            cur.push(path[i]);
            assert(segs_view(done@).push(cur@) =~= split_on(prev).update(
                split_on(prev).len() - 1,
                split_on(prev).last().push(path@[i as int]),
            ));
        }
        i += 1;
    }
    let ghost before = segs_view(done@);
    done.push(cur);
    assert(segs_view(done@) =~= before.push(segs_view(done@).last()));
    done
}

/// Whether a segment is `.` or `..`.
fn dot_kind(seg: &Vec<u8>) -> (r: (bool, bool))
    ensures
        r.0 == is_dot(seg@),
        r.1 == is_dot_dot(seg@),
{
    let one = seg.len() == 1 && seg[0] == 46u8;
    let two = seg.len() == 2 && seg[0] == 46u8 && seg[1] == 46u8;
    proof {
        if seg@.len() == 1 && seg@[0] == 46u8 {
            assert(seg@ =~= seq![46u8]);
        }
        if seg@.len() == 2 && seg@[0] == 46u8 && seg@[1] == 46u8 {
            assert(seg@ =~= seq![46u8, 46u8]);
        }
    }
    (one, two)
}

/// Resolves the client path `path` against the working directory `cwd` (both below the
/// server root): `.` and `..` are folded, `..` above the root is an escape, and null bytes
/// or empty segments are malformed.
pub fn simplify_path(cwd: &Vec<Vec<u8>>, path: &[u8]) -> (r: Result<Vec<Vec<u8>>, PathError>)
    ensures
        match simplify_spec(segs_view(cwd@), path@) {
            Ok(v) => r is Ok && segs_view(r->Ok_0@) == v,
            Err(e) => r == Err::<Vec<Vec<u8>>, PathError>(e),
        },
{
    if contains_byte(path, 0u8) {
        return Err(PathError::Malformed);
    }
    let rooted = path.len() > 0 && path[0] == 47u8;
    let start: usize = if rooted {
        1
    } else {
        0
    };
    let ghost rest = path@.subrange(start as int, path@.len() as int);
    proof {
        if rooted {
            assert(rest =~= path@.drop_first());
        } else {
            assert(rest =~= path@);
        }
    }
    let mut acc: Vec<Vec<u8>> = if rooted {
        Vec::new()
    } else {
        copy_segments(cwd)
    };
    let ghost base = segs_view(acc@);
    assert(base =~= (if rooted {
        Seq::<Seq<u8>>::empty()
    } else {
        segs_view(cwd@)
    }));
    if start == path.len() {
        return Ok(acc);
    }
    let parts = split_path(path, start);
    let mut i: usize = 0;
    while i < parts.len()
        invariant
            i <= parts@.len(),
            forall|k: int| 0 <= k < i ==> (#[trigger] parts@[k])@.len() != 0,
            segs_view(parts@) == split_on(rest),
            rest == path@.subrange(start as int, path@.len() as int),
            rest.len() > 0,
            !has_byte(path@, 0u8),
            rest == (if path@.len() > 0 && path@[0] == slash() {
                path@.drop_first()
            } else {
                path@
            }),
            base == (if path@.len() > 0 && path@[0] == slash() {
                Seq::<Seq<u8>>::empty()
            } else {
                segs_view(cwd@)
            }),
        decreases parts.len() - i,
    {
        if parts[i].len() == 0 {
            assert(segs_view(parts@)[i as int].len() == 0);
            assert(has_empty_segment(segs_view(parts@)));
            return Err(PathError::Malformed);
        }
        i += 1;
    }
    assert(!has_empty_segment(segs_view(parts@))) by {
        assert forall|k: int| 0 <= k < parts@.len() implies (#[trigger] segs_view(parts@)[k]).len() != 0 by {
            assert(segs_view(parts@)[k] == parts@[k]@);
        }
    }
    let mut i: usize = 0;
    assert(segs_view(parts@).subrange(0, 0) =~= Seq::<Seq<u8>>::empty());
    while i < parts.len()
        invariant
            i <= parts@.len(),
            fold_segments(base, segs_view(parts@).subrange(0, i as int)) == Some(segs_view(acc@)),
            segs_view(parts@) == split_on(rest),
            rest.len() > 0,
            !has_byte(path@, 0u8),
            rest == (if path@.len() > 0 && path@[0] == slash() {
                path@.drop_first()
            } else {
                path@
            }),
            base == (if path@.len() > 0 && path@[0] == slash() {
                Seq::<Seq<u8>>::empty()
            } else {
                segs_view(cwd@)
            }),
            !has_empty_segment(split_on(rest)),
        decreases parts.len() - i,
    {
        let ghost done = segs_view(parts@).subrange(0, i as int);
        let ghost next = segs_view(parts@).subrange(0, i + 1);
        assert(next.drop_last() =~= done);
        assert(next.last() == parts@[i as int]@);
        let (dot, dot_dot) = dot_kind(&parts[i]);
        if dot {
        } else if dot_dot {
            if acc.len() == 0 {
                proof {
                    lemma_fold_stays_none(base, segs_view(parts@), i + 1);
                }
                return Err(PathError::Escape);
            }
            let ghost before = segs_view(acc@);
            acc.pop();
            assert(segs_view(acc@) =~= before.drop_last());
        } else {
            let ghost before = segs_view(acc@);
            let seg = copy_vec(&parts[i]);
            acc.push(seg);
            assert(segs_view(acc@) =~= before.push(parts@[i as int]@));
        }
        i += 1;
    }
    assert(segs_view(parts@).subrange(0, parts@.len() as int) =~= segs_view(parts@));
    Ok(acc)
}

/// A client path resolved against `cwd`: bytes that are not UTF-8 text are malformed,
/// anything else resolves as `simplify_spec` says.
pub open spec fn resolve_spec(cwd: Seq<Seq<u8>>, p: Seq<u8>) -> Result<Seq<Seq<u8>>, PathError> {
    if !vstd::utf8::valid_utf8(p) {
        Err(PathError::Malformed)
    } else {
        simplify_spec(cwd, p)
    }
}

/// Relies on std::str::from_utf8, which succeeds exactly on valid UTF-8.
#[verifier::external_body]
fn is_text(b: &[u8]) -> (r: bool)
    ensures
        r == vstd::utf8::valid_utf8(b@),
{
    std::str::from_utf8(b).is_ok()
}

/// Resolves a client path against the working directory `cwd`.
pub fn resolve(cwd: &Vec<Vec<u8>>, path: &[u8]) -> (r: Result<Vec<Vec<u8>>, PathError>)
    ensures
        match resolve_spec(segs_view(cwd@), path@) {
            Ok(v) => r is Ok && segs_view(r->Ok_0@) == v,
            Err(e) => r == Err::<Vec<Vec<u8>>, PathError>(e),
        },
{
    if !is_text(path) {
        return Err(PathError::Malformed);
    }
    simplify_path(cwd, path)
}

} // verus!
