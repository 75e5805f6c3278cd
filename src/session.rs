use vstd::prelude::*;

use crate::bus::{ChangeEvent, ChangeKind};
use crate::frame::{needs_path, Command};
use crate::path::{copy_segments, render, resolve, resolve_spec, segs_view, valid_dir, valid_segment, PathError, lemma_resolve_stays_inside};
use crate::response::{refusal_response, refusal_text, response, response_spec, Refusal, Status};

verus! {

/// What the connection must do next for a request, in terms of sequences.
pub enum EffectView {
    Reply(Seq<u8>),
    RefuseUpload(Seq<u8>),
    Fetch(Seq<Seq<u8>>),
    Store(Seq<Seq<u8>>),
    Remove(Seq<Seq<u8>>),
    CreateDir(Seq<Seq<u8>>),
    RemoveDir(Seq<Seq<u8>>),
    Stat(Seq<Seq<u8>>),
    List(Seq<Seq<u8>>),
    EnterDir(Seq<Seq<u8>>),
    Wait(Option<Seq<Seq<u8>>>),
    Close,
}

/// What the connection must do next for a request. Paths are segments below the server
/// root, already resolved and checked.
pub enum Effect {
    /// Send these bytes and read the next request.
    Reply(Vec<u8>),
    /// Send these bytes, then read and drop the refused upload's payload through its end
    /// marker: it belongs to this request, not to the next.
    RefuseUpload(Vec<u8>),
    /// Stream the file out: `OUT`, its bytes, the end marker.
    Fetch(Vec<Vec<u8>>),
    /// Answer `ACK` and stream the payload into the file.
    Store(Vec<Vec<u8>>),
    /// Remove a file or an empty directory.
    Remove(Vec<Vec<u8>>),
    /// Create a directory; its parent must exist.
    CreateDir(Vec<Vec<u8>>),
    /// Remove an empty directory.
    RemoveDir(Vec<Vec<u8>>),
    /// Report kind, size and modification time.
    Stat(Vec<Vec<u8>>),
    /// List a directory.
    List(Vec<Vec<u8>>),
    /// Check that this is a directory, then report back through `Session::enter`.
    EnterDir(Vec<Vec<u8>>),
    /// Wait for a change under this scope (`None`: anywhere in the tree).
    Wait(Option<Vec<Vec<u8>>>),
    /// Close the connection.
    Close,
}

impl Effect {
    pub open spec fn view(&self) -> EffectView {
        match self {
            Effect::Reply(b) => EffectView::Reply(b@),
            Effect::RefuseUpload(b) => EffectView::RefuseUpload(b@),
            Effect::Fetch(p) => EffectView::Fetch(segs_view(p@)),
            Effect::Store(p) => EffectView::Store(segs_view(p@)),
            Effect::Remove(p) => EffectView::Remove(segs_view(p@)),
            Effect::CreateDir(p) => EffectView::CreateDir(segs_view(p@)),
            Effect::RemoveDir(p) => EffectView::RemoveDir(segs_view(p@)),
            Effect::Stat(p) => EffectView::Stat(segs_view(p@)),
            Effect::List(p) => EffectView::List(segs_view(p@)),
            Effect::EnterDir(p) => EffectView::EnterDir(segs_view(p@)),
            Effect::Wait(s) => EffectView::Wait(
                match s {
                    Some(p) => Some(segs_view(p@)),
                    None => None,
                },
            ),
            Effect::Close => EffectView::Close,
        }
    }
}

/// The effect of a command on a resolved path.
pub open spec fn path_effect(c: Command, p: Seq<Seq<u8>>) -> EffectView {
    match c {
        Command::Get => EffectView::Fetch(p),
        Command::Put => EffectView::Store(p),
        Command::Del => EffectView::Remove(p),
        Command::Mkdir => EffectView::CreateDir(p),
        Command::Rmdir => EffectView::RemoveDir(p),
        Command::Stat => EffectView::Stat(p),
        Command::List => EffectView::List(p),
        Command::Sleep => EffectView::Wait(Some(p)),
        _ => EffectView::EnterDir(p),
    }
}

/// The answer to a refused command: an `ERROR` reply, and for a store also the dropping of
/// the payload that follows its header.
pub open spec fn refusal_effect(c: Command, why: Refusal) -> EffectView {
    let reply = response_spec(Status::Error, refusal_text(why));
    if c == Command::Put {
        EffectView::RefuseUpload(reply)
    } else {
        EffectView::Reply(reply)
    }
}

/// The path `/` followed by the segments, as `PWD` reports it.
pub open spec fn pwd_text(cwd: Seq<Seq<u8>>) -> Seq<u8> {
    render(Seq::empty(), cwd)
}

/// What a request does in a session whose working directory is `cwd`.
pub open spec fn dispatch_spec(cwd: Seq<Seq<u8>>, c: Command, arg: Option<Seq<u8>>) -> EffectView {
    match c {
        Command::Quit => EffectView::Close,
        Command::Pwd => EffectView::Reply(response_spec(Status::Success, pwd_text(cwd))),
        _ => match arg {
            None => if needs_path(c) {
                refusal_effect(c, Refusal::MissingPath)
            } else if c == Command::List {
                EffectView::List(cwd)
            } else {
                EffectView::Wait(None)
            },
            Some(a) => match resolve_spec(cwd, a) {
                Err(e) => refusal_effect(c, Refusal::Path(e)),
                Ok(p) => path_effect(c, p),
            },
        },
    }
}

/// The state of one connection: its working directory below the server root, whether it has
/// been closed, and the target of a `CD` that waits for the filesystem's answer.
pub struct Session {
    cwd: Vec<Vec<u8>>,
    closed: bool,
    pending: Option<Vec<Vec<u8>>>,
}

impl Session {
    /// The working directory, as segments below the server root.
    pub closed spec fn cwd(&self) -> Seq<Seq<u8>> {
        segs_view(self.cwd@)
    }

    pub closed spec fn is_closed(&self) -> bool {
        self.closed
    }

    /// The target of the last request if it was a `CD`.
    pub closed spec fn pending(&self) -> Option<Seq<Seq<u8>>> {
        match self.pending {
            Some(p) => Some(segs_view(p@)),
            None => None,
        }
    }

    /// The working directory, and any directory it may move to, are plain paths inside the
    /// root.
    pub closed spec fn wf(&self) -> bool {
        &&& valid_dir(segs_view(self.cwd@))
        &&& self.pending matches Some(p) ==> valid_dir(segs_view(p@))
    }

    /// A session that starts at the server root.
    pub fn new() -> (r: Session)
        ensures
            r.wf(),
            r.cwd() == Seq::<Seq<u8>>::empty(),
            r.pending() is None,
            !r.is_closed(),
    {
        let r = Session { cwd: Vec::new(), closed: false, pending: None };
        assert(segs_view(r.cwd@) =~= Seq::<Seq<u8>>::empty());
        r
    }

    /// Whether the session has been closed.
    pub fn closed(&self) -> (r: bool)
        ensures
            r == self.is_closed(),
    {
        self.closed
    }

    /// The working directory as `PWD` reports it.
    pub fn pwd(&self) -> (r: Vec<u8>)
        ensures
            r@ == pwd_text(self.cwd()),
    {
        absolute_text(&self.cwd)
    }

    /// Decides what a parsed request does. The working directory stays; `QUIT` closes the
    /// session; `CD` remembers its target, which `enter` makes the working directory once the
    /// filesystem has confirmed a directory.
    pub fn dispatch(&mut self, command: Command, arg: Option<Vec<u8>>) -> (r: Effect)
        requires
            old(self).wf(),
        ensures
            final(self).wf(),
            final(self).cwd() == old(self).cwd(),
            final(self).is_closed() == (old(self).is_closed() || command == Command::Quit),
            r@ == dispatch_spec(old(self).cwd(), command, match arg {
                Some(a) => Some(a@),
                None => None,
            }),
            final(self).pending() == match r@ {
                EffectView::EnterDir(p) => Some(p),
                _ => None,
            },
    {
        self.pending = None;
        match command {
            Command::Quit => {
                self.closed = true;
                return Effect::Close;
            },
            Command::Pwd => {
                let text = self.pwd();
                return Effect::Reply(response(Status::Success, text.as_slice()));
            },
            _ => {},
        }
        match arg {
            None => {
                if command.needs_path() {
                    refuse(command, Refusal::MissingPath)
                } else if command == Command::List {
                    Effect::List(copy_segments(&self.cwd))
                } else {
                    Effect::Wait(None)
                }
            },
            Some(a) => {
                let s = a.as_slice();
                match resolve(&self.cwd, s) {
                    Err(e) => refuse(command, Refusal::Path(e)),
                    Ok(p) => match command {
                        Command::Get => Effect::Fetch(p),
                        Command::Put => Effect::Store(p),
                        Command::Del => Effect::Remove(p),
                        Command::Mkdir => Effect::CreateDir(p),
                        Command::Rmdir => Effect::RemoveDir(p),
                        Command::Stat => Effect::Stat(p),
                        Command::List => Effect::List(p),
                        Command::Sleep => Effect::Wait(Some(p)),
                        _ => {
                            proof {
                                lemma_resolve_stays_inside(Seq::empty(), self.cwd(), a@);
                            }
                            self.pending = Some(copy_segments(&p));
                            Effect::EnterDir(p)
                        },
                    },
                }
            },
        }
    }

    /// Finishes a `CD` once the filesystem has said whether its target is a directory: the
    /// working directory moves there only if it is. Without a pending `CD` the request is
    /// invalid. Returns the reply.
    pub fn enter(&mut self, is_dir: bool) -> (r: Vec<u8>)
        requires
            old(self).wf(),
        ensures
            final(self).wf(),
            final(self).is_closed() == old(self).is_closed(),
            final(self).pending() is None,
            match old(self).pending() {
                Some(t) => if is_dir {
                    final(self).cwd() == t && r@ == response_spec(Status::Success, Seq::empty())
                } else {
                    final(self).cwd() == old(self).cwd() && r@ == response_spec(
                        Status::Error,
                        refusal_text(Refusal::NotADirectory),
                    )
                },
                None => final(self).cwd() == old(self).cwd() && r@ == response_spec(
                    Status::Error,
                    refusal_text(Refusal::InvalidRequest),
                ),
            },
    {
        let mut pending: Option<Vec<Vec<u8>>> = None;
        std::mem::swap(&mut pending, &mut self.pending);
        match pending {
            Some(target) => {
                if is_dir {
                    self.cwd = target;
                    let empty: Vec<u8> = Vec::new();
                    response(Status::Success, empty.as_slice())
                } else {
                    refusal_response(Refusal::NotADirectory)
                }
            },
            None => refusal_response(Refusal::InvalidRequest),
        }
    }
}

/// The answer to a refused command.
fn refuse(command: Command, why: Refusal) -> (r: Effect)
    ensures
        r@ == refusal_effect(command, why),
{
    let reply = refusal_response(why);
    if command == Command::Put {
        Effect::RefuseUpload(reply)
    } else {
        Effect::Reply(reply)
    }
}

/// A path below the root written as `/` and its segments, each after a `/`.
pub fn absolute_text(segs: &Vec<Vec<u8>>) -> (r: Vec<u8>)
    ensures
        r@ == pwd_text(segs_view(segs@)),
{
    let mut r: Vec<u8> = Vec::new();
    if segs.len() == 0 {
        r.push(47u8);
        assert(r@ =~= pwd_text(segs_view(segs@)));
        return r;
    }
    let mut i: usize = 0;
    while i < segs.len()
        invariant
            i <= segs@.len(),
            segs@.len() > 0,
            r@ == crate::path::join(segs_view(segs@.subrange(0, i as int))),
        decreases segs.len() - i,
    {
        let ghost before = r@;
        r.push(47u8);
        let seg = segs[i].as_slice();
        crate::response::append(&mut r, seg);
        proof {
            let next = segs_view(segs@.subrange(0, i + 1));
            assert(next.drop_last() =~= segs_view(segs@.subrange(0, i as int)));
            assert(next.last() == segs@[i as int]@);
            assert(r@ =~= before + seq![47u8] + segs@[i as int]@);
        }
        i += 1;
    }
    assert(segs@.subrange(0, segs@.len() as int) =~= segs@);
    assert(Seq::<u8>::empty() + r@ =~= r@);
    r
}

/// The change that a successful mutating effect publishes: a store creates or modifies the
/// file (as `existed` says), a removal removes, a new directory is created.
pub open spec fn change_spec(e: EffectView, existed: bool) -> Option<(Seq<Seq<u8>>, ChangeKind)> {
    match e {
        EffectView::Store(p) => Some((p, if existed {
            ChangeKind::Modified
        } else {
            ChangeKind::Created
        })),
        EffectView::Remove(p) => Some((p, ChangeKind::Removed)),
        EffectView::CreateDir(p) => Some((p, ChangeKind::Created)),
        EffectView::RemoveDir(p) => Some((p, ChangeKind::Removed)),
        _ => None,
    }
}

/// The change to publish once `effect` has succeeded; `None` for effects that change nothing.
pub fn change_for(effect: &Effect, existed: bool) -> (r: Option<ChangeEvent>)
    ensures
        match change_spec(effect@, existed) {
            Some((p, k)) => r is Some && segs_view(r->0.path@) == p && r->0.kind == k,
            None => r is None,
        },
{
    match effect {
        Effect::Store(p) => Some(ChangeEvent {
            path: copy_segments(p),
            kind: if existed {
                ChangeKind::Modified
            } else {
                ChangeKind::Created
            },
        }),
        Effect::Remove(p) => Some(ChangeEvent { path: copy_segments(p), kind: ChangeKind::Removed }),
        Effect::CreateDir(p) => Some(ChangeEvent { path: copy_segments(p), kind: ChangeKind::Created }),
        Effect::RemoveDir(p) => Some(ChangeEvent { path: copy_segments(p), kind: ChangeKind::Removed }),
        _ => None,
    }
}

/// A relative `GET` after `CD` reads inside the new directory: once `CD` to `target` has
/// named directory `p` (and `enter` has made `p` the working directory), `GET` of a plain
/// name fetches `p` followed by that name, not the name at the root.
pub proof fn lemma_cd_then_relative_get(cwd: Seq<Seq<u8>>, target: Seq<u8>, name: Seq<u8>)
    requires
        valid_dir(cwd),
        valid_segment(name),
        vstd::utf8::valid_utf8(name),
    ensures
        dispatch_spec(cwd, Command::Cd, Some(target)) matches EffectView::EnterDir(p) ==> dispatch_spec(
            p,
            Command::Get,
            Some(name),
        ) == EffectView::Fetch(p.push(name)),
{
    if let EffectView::EnterDir(p) = dispatch_spec(cwd, Command::Cd, Some(target)) {
        crate::path::lemma_resolve_name(p, name);
    }
}

/// Every path that a request hands to the filesystem lies inside the server root.
pub proof fn lemma_effect_paths_inside(base: Seq<u8>, cwd: Seq<Seq<u8>>, c: Command, arg: Option<Seq<u8>>)
    requires
        valid_dir(cwd),
    ensures
        match dispatch_spec(cwd, c, arg) {
            EffectView::Fetch(p) | EffectView::Store(p) | EffectView::Remove(p)
            | EffectView::CreateDir(p) | EffectView::RemoveDir(p) | EffectView::Stat(p)
            | EffectView::List(p) | EffectView::EnterDir(p) | EffectView::Wait(Some(p)) => valid_dir(p)
                && crate::path::within_root(base, render(base, p)),
            _ => true,
        },
{
    if let Some(a) = arg {
        lemma_resolve_stays_inside(base, cwd, a);
    }
    lemma_resolve_stays_inside(base, cwd, Seq::empty());
}

/// The word that names a kind of change.
pub open spec fn kind_text(k: ChangeKind) -> Seq<u8> {
    match k {
        ChangeKind::Created => seq![99u8, 114u8, 101u8, 97u8, 116u8, 101u8, 100u8],
        ChangeKind::Modified => seq![109u8, 111u8, 100u8, 105u8, 102u8, 105u8, 101u8, 100u8],
        ChangeKind::Removed => seq![114u8, 101u8, 109u8, 111u8, 118u8, 101u8, 100u8],
    }
}

/// The reply that ends a `SLEEP`: `OK`, then the kind of change and the changed path.
pub fn wake_response(event: &ChangeEvent) -> (r: Vec<u8>)
    ensures
        r@ == response_spec(
            Status::Success,
            kind_text(event.kind) + seq![32u8] + pwd_text(segs_view(event.path@)),
        ),
{
    let mut body: Vec<u8> = match event.kind {
        ChangeKind::Created => vec![99u8, 114u8, 101u8, 97u8, 116u8, 101u8, 100u8],
        ChangeKind::Modified => vec![109u8, 111u8, 100u8, 105u8, 102u8, 105u8, 101u8, 100u8],
        ChangeKind::Removed => vec![114u8, 101u8, 109u8, 111u8, 118u8, 101u8, 100u8],
    };
    assert(body@ =~= kind_text(event.kind));
    body.push(32u8);
    let text = absolute_text(&event.path);
    crate::response::append(&mut body, text.as_slice());
    response(Status::Success, body.as_slice())
}

} // verus!
