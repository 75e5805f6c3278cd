use vstd::prelude::*;

verus! {

/// The bytes `\r\nFSYNC\r\n` that open every request and response frame.
pub open spec fn start_marker() -> Seq<u8> {
    seq![13u8, 10u8, 70u8, 83u8, 89u8, 78u8, 67u8, 13u8, 10u8]
}

/// The bytes `\r\nDONE\r\n` that close every request and response frame.
pub open spec fn end_marker() -> Seq<u8> {
    seq![13u8, 10u8, 68u8, 79u8, 78u8, 69u8, 13u8, 10u8]
}

/// A request whose framing could not be read.
#[derive(Clone, Copy, Debug, PartialEq, Eq, Structural)]
pub enum ProtocolError {
    /// The first bytes are not the start marker.
    BadStartMarker,
    /// The command line names no known command.
    UnknownCommand,
    /// The source ended before the end marker.
    StreamTruncated,
}

/// Length of the start marker.
pub const START_LEN: usize = 9;

/// `m` occurs in `s` at position `i`.
pub open spec fn matches_at(s: Seq<u8>, i: int, m: Seq<u8>) -> bool {
    0 <= i && i + m.len() <= s.len() && s.subrange(i, i + m.len()) == m
}

/// The first position at or after `i` where `m` occurs in `s`.
pub open spec fn find_from(s: Seq<u8>, m: Seq<u8>, i: int) -> Option<int>
    decreases s.len() + 1 - i,
{
    if i < 0 || i + m.len() > s.len() {
        None
    } else if matches_at(s, i, m) {
        Some(i)
    } else {
        find_from(s, m, i + 1)
    }
}

/// The first position where the end marker occurs in `s`.
pub open spec fn end_position(s: Seq<u8>) -> Option<int> {
    find_from(s, end_marker(), 0)
}

pub proof fn lemma_find_from(s: Seq<u8>, m: Seq<u8>, i: int)
    requires
        0 <= i,
    ensures
        match find_from(s, m, i) {
            Some(k) => i <= k && matches_at(s, k, m) && forall|j: int|
                i <= j < k ==> !#[trigger] matches_at(s, j, m),
            None => forall|j: int| i <= j ==> !#[trigger] matches_at(s, j, m),
        },
    decreases s.len() + 1 - i,
{
    if i + m.len() > s.len() {
    } else if matches_at(s, i, m) {
    } else {
        lemma_find_from(s, m, i + 1);
    }
}

/// A first occurrence is the one `find_from` reports.
pub proof fn lemma_find_from_unique(s: Seq<u8>, m: Seq<u8>, i: int, k: int)
    requires
        0 <= i <= k,
        matches_at(s, k, m),
        forall|j: int| i <= j < k ==> !#[trigger] matches_at(s, j, m),
    ensures
        find_from(s, m, i) == Some(k),
    decreases k - i,
{
    if i < k {
        lemma_find_from_unique(s, m, i + 1, k);
    }
}

/// The end marker as bytes.
pub fn end_marker_bytes() -> (r: Vec<u8>)
    ensures
        r@ == end_marker(),
{
    let r: Vec<u8> = vec![13u8, 10u8, 68u8, 79u8, 78u8, 69u8, 13u8, 10u8];
    assert(r@ =~= end_marker());
    r
}

/// The start marker as bytes.
pub fn start_marker_bytes() -> (r: Vec<u8>)
    ensures
        r@ == start_marker(),
{
    let r: Vec<u8> = vec![13u8, 10u8, 70u8, 83u8, 89u8, 78u8, 67u8, 13u8, 10u8];
    assert(r@ =~= start_marker());
    r
}

/// Whether `m` occurs in `s` at position `i`.
pub fn occurs_at(s: &[u8], i: usize, m: &[u8]) -> (r: bool)
    ensures
        r == matches_at(s@, i as int, m@),
{
    if i > s.len() || m.len() > s.len() - i {
        return false;
    }
    let mut j: usize = 0;
    while j < m.len()
        invariant
            i + m.len() <= s.len(),
            j <= m.len(),
            forall|t: int| 0 <= t < j ==> s@[i + t] == m@[t],
        decreases m.len() - j,
    {
        if s[i + j] != m[j] {
            assert(s@.subrange(i as int, i + m.len())[j as int] != m@[j as int]);
            return false;
        }
        j += 1;
    }
    assert(s@.subrange(i as int, i + m.len()) =~= m@);
    true
}

/// The first position at or after `from` where `m` occurs in `s`.
pub fn find_bytes(s: &[u8], m: &[u8], from: usize) -> (r: Option<usize>)
    requires
        m.len() > 0,
    ensures
        match find_from(s@, m@, from as int) {
            Some(k) => r == Some(k as usize),
            None => r is None,
        },
{
    let mut i: usize = from;
    while i <= s.len() && m.len() <= s.len() - i
        invariant
            from <= i,
            m.len() > 0,
            find_from(s@, m@, from as int) == find_from(s@, m@, i as int),
        decreases s.len() + 1 - i,
    {
        if occurs_at(s, i, m) {
            return Some(i);
        }
        i += 1;
    }
    None
}

/// The position where the end marker first occurs in `data`, if it does.
pub fn stream_end(data: &[u8]) -> (r: Option<usize>)
    ensures
        match end_position(data@) {
            Some(k) => r == Some(k as usize),
            None => r is None,
        },
{
    let m = end_marker_bytes();
    find_bytes(data, m.as_slice(), 0)
}

/// The commands of the protocol.
#[derive(Clone, Copy, Debug, PartialEq, Eq, Structural)]
pub enum Command {
    Get,
    Put,
    Del,
    Mkdir,
    Rmdir,
    Stat,
    List,
    Cd,
    Pwd,
    Sleep,
    Quit,
}

/// The word that names a command on its line.
pub open spec fn token(c: Command) -> Seq<u8> {
    match c {
        Command::Get => seq![71u8, 69u8, 84u8],
        Command::Put => seq![80u8, 85u8, 84u8],
        Command::Del => seq![68u8, 69u8, 76u8],
        Command::Mkdir => seq![77u8, 75u8, 68u8, 73u8, 82u8],
        Command::Rmdir => seq![82u8, 77u8, 68u8, 73u8, 82u8],
        Command::Stat => seq![83u8, 84u8, 65u8, 84u8],
        Command::List => seq![76u8, 73u8, 83u8, 84u8],
        Command::Cd => seq![67u8, 68u8],
        Command::Pwd => seq![80u8, 87u8, 68u8],
        Command::Sleep => seq![83u8, 76u8, 69u8, 69u8, 80u8],
        Command::Quit => seq![81u8, 85u8, 73u8, 84u8],
    }
}

/// The command that a word names, if any.
pub open spec fn command_of(t: Seq<u8>) -> Option<Command> {
    if t == token(Command::Get) {
        Some(Command::Get)
    } else if t == token(Command::Put) {
        Some(Command::Put)
    } else if t == token(Command::Del) {
        Some(Command::Del)
    } else if t == token(Command::Mkdir) {
        Some(Command::Mkdir)
    } else if t == token(Command::Rmdir) {
        Some(Command::Rmdir)
    } else if t == token(Command::Stat) {
        Some(Command::Stat)
    } else if t == token(Command::List) {
        Some(Command::List)
    } else if t == token(Command::Cd) {
        Some(Command::Cd)
    } else if t == token(Command::Pwd) {
        Some(Command::Pwd)
    } else if t == token(Command::Sleep) {
        Some(Command::Sleep)
    } else if t == token(Command::Quit) {
        Some(Command::Quit)
    } else {
        None
    }
}

impl Command {
    /// The word that names this command.
    pub fn token_bytes(&self) -> (r: Vec<u8>)
        ensures
            r@ == token(*self),
    {
        let r: Vec<u8> = match self {
            Command::Get => vec![71u8, 69u8, 84u8],
            Command::Put => vec![80u8, 85u8, 84u8],
            Command::Del => vec![68u8, 69u8, 76u8],
            Command::Mkdir => vec![77u8, 75u8, 68u8, 73u8, 82u8],
            Command::Rmdir => vec![82u8, 77u8, 68u8, 73u8, 82u8],
            Command::Stat => vec![83u8, 84u8, 65u8, 84u8],
            Command::List => vec![76u8, 73u8, 83u8, 84u8],
            Command::Cd => vec![67u8, 68u8],
            Command::Pwd => vec![80u8, 87u8, 68u8],
            Command::Sleep => vec![83u8, 76u8, 69u8, 69u8, 80u8],
            Command::Quit => vec![81u8, 85u8, 73u8, 84u8],
        };
        assert(r@ =~= token(*self));
        r
    }

    /// Whether a payload follows this command's argument line.
    pub fn has_payload(&self) -> (r: bool)
        ensures
            r == (*self == Command::Put),
    {
        match self {
            Command::Put => true,
            _ => false,
        }
    }

    /// Whether this command needs a path argument.
    pub fn needs_path(&self) -> (r: bool)
        ensures
            r == needs_path(*self),
    {
        match self {
            Command::Get | Command::Put | Command::Del | Command::Mkdir | Command::Rmdir
            | Command::Stat | Command::Cd => true,
            _ => false,
        }
    }
}

/// Commands that act on a path given on their argument line.
pub open spec fn needs_path(c: Command) -> bool {
    match c {
        Command::Get | Command::Put | Command::Del | Command::Mkdir | Command::Rmdir
        | Command::Stat | Command::Cd => true,
        _ => false,
    }
}

/// Whether two byte strings are equal.
pub fn bytes_equal(a: &[u8], b: &[u8]) -> (r: bool)
    ensures
        r == (a@ == b@),
{
    if a.len() != b.len() {
        return false;
    }
    let r = occurs_at(a, 0, b);
    assert(a@.subrange(0, b@.len() as int) =~= a@);
    r
}

/// The command that a line names, if any.
pub fn parse_command(t: &[u8]) -> (r: Option<Command>)
    ensures
        r == command_of(t@),
{
    let all: Vec<Command> = vec![
        Command::Get,
        Command::Put,
        Command::Del,
        Command::Mkdir,
        Command::Rmdir,
        Command::Stat,
        Command::List,
        Command::Cd,
        Command::Pwd,
        Command::Sleep,
        Command::Quit,
    ];
    let mut i: usize = 0;
    while i < all.len()
        invariant
            all@ == seq![
                Command::Get,
                Command::Put,
                Command::Del,
                Command::Mkdir,
                Command::Rmdir,
                Command::Stat,
                Command::List,
                Command::Cd,
                Command::Pwd,
                Command::Sleep,
                Command::Quit,
            ],
            i <= all@.len(),
            forall|j: int| 0 <= j < i ==> t@ != token(#[trigger] all@[j]),
        decreases all.len() - i,
    {
        let c = all[i];
        let word = c.token_bytes();
        if bytes_equal(t, word.as_slice()) {
            return Some(c);
        }
        i += 1;
    }
    assert(t@ != token(all@[0]));
    assert(t@ != token(all@[1]));
    assert(t@ != token(all@[2]));
    assert(t@ != token(all@[3]));
    assert(t@ != token(all@[4]));
    assert(t@ != token(all@[5]));
    assert(t@ != token(all@[6]));
    assert(t@ != token(all@[7]));
    assert(t@ != token(all@[8]));
    assert(t@ != token(all@[9]));
    assert(t@ != token(all@[10]));
    None
}

} // verus!
