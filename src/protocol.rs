//! The wire protocol: commands, their byte encoding, and the two-phase
//! decoder (`Frame::check` finds a whole frame, `Frame::parse` reads it).

use vstd::prelude::*;
use vstd::utf8::*;
use vstd::string::*;
use crate::decimal::{all_digits, decimal, is_digit, is_u64_numeral, value_of, parse_u64, push_decimal};

verus! {

pub type ClientID = u64;

pub const CREATE_BYTE: u8 = 43;
pub const READ_BYTE: u8 = 36;
pub const QUIT_BYTE: u8 = 45;
pub const LIST_BYTE: u8 = 37;
pub const DISCONNECT_BYTE: u8 = 33;
pub const ID_BYTE: u8 = 35;
/// Separates an entry's length from its bytes inside a list body.
pub const LENGTH_MARK: u8 = 35;

#[derive(Debug, Clone, PartialEq, Eq)]
pub enum Command {
    Create(String),
    List(Vec<String>),
    Id(ClientID),
    Disconnect(ClientID),
    Read,
    Quit,
}

pub ghost enum CommandView {
    Create(Seq<char>),
    List(Seq<Seq<char>>),
    Id(u64),
    Disconnect(u64),
    Read,
    Quit,
}

impl View for Command {
    type V = CommandView;

    open spec fn view(&self) -> CommandView {
        match self {
            Command::Create(t) => CommandView::Create(t@),
            Command::List(v) => CommandView::List(v@.map_values(|s: String| s@)),
            Command::Id(n) => CommandView::Id(*n),
            Command::Disconnect(n) => CommandView::Disconnect(*n),
            Command::Read => CommandView::Read,
            Command::Quit => CommandView::Quit,
        }
    }
}

#[derive(Debug, Clone, PartialEq, Eq)]
pub struct Frame(pub Command);

impl View for Frame {
    type V = CommandView;

    open spec fn view(&self) -> CommandView {
        self.0@
    }
}

#[derive(Debug, Clone, Copy, PartialEq, Eq, Structural)]
pub enum FrameParseError {
    /// More bytes are needed before a whole frame is present.
    Incomplete,
    /// The leading byte names no command.
    Invalid(u8),
    /// A whole frame is present but its body does not decode.
    Malformed,
}

pub open spec fn tag_of(c: CommandView) -> u8 {
    match c {
        CommandView::Create(_) => CREATE_BYTE,
        CommandView::List(_) => LIST_BYTE,
        CommandView::Read => READ_BYTE,
        CommandView::Quit => QUIT_BYTE,
        CommandView::Disconnect(_) => DISCONNECT_BYTE,
        CommandView::Id(_) => ID_BYTE,
    }
}

/// Tags of the commands whose body runs up to a CRLF.
pub open spec fn has_line(tag: u8) -> bool {
    tag == CREATE_BYTE || tag == LIST_BYTE || tag == DISCONNECT_BYTE || tag == ID_BYTE
}

pub open spec fn crlf() -> Seq<u8> {
    seq![13u8, 10u8]
}

pub open spec fn crlf_at(s: Seq<u8>, i: int) -> bool {
    0 <= i && i + 1 < s.len() && s[i] == 13 && s[i + 1] == 10
}

pub open spec fn has_crlf(s: Seq<u8>) -> bool {
    exists|i: int| #[trigger] crlf_at(s, i)
}

/// The first position at or after `i` where a CRLF starts.
pub open spec fn first_crlf(s: Seq<u8>, i: int) -> Option<int>
    decreases s.len() - i,
{
    if i < 0 || i + 1 >= s.len() {
        None
    } else if crlf_at(s, i) {
        Some(i)
    } else {
        first_crlf(s, i + 1)
    }
}

/// How many bytes the frame at the start of `b` occupies, or why none is there.
pub open spec fn check_spec(b: Seq<u8>) -> Result<nat, FrameParseError> {
    if b.len() == 0 {
        Err(FrameParseError::Incomplete)
    } else if b[0] == READ_BYTE || b[0] == QUIT_BYTE {
        Ok(1)
    } else if has_line(b[0]) {
        match first_crlf(b, 1) {
            Some(i) => Ok((i + 2) as nat),
            None => Err(FrameParseError::Incomplete),
        }
    } else {
        Err(FrameParseError::Invalid(b[0]))
    }
}

/// The bytes that `e` is sent as: its UTF-8 encoding.
pub open spec fn text_bytes(e: Seq<char>) -> Seq<u8> {
    encode_utf8(e)
}

/// One list entry on the wire: `<length>#<bytes>`.
pub open spec fn entry_bytes(e: Seq<char>) -> Seq<u8> {
    decimal(text_bytes(e).len()) + seq![LENGTH_MARK] + text_bytes(e)
}

pub open spec fn list_body(es: Seq<Seq<char>>) -> Seq<u8>
    decreases es.len(),
{
    if es.len() == 0 {
        Seq::empty()
    } else {
        entry_bytes(es[0]) + list_body(es.drop_first())
    }
}

/// The full encoding of a command.
pub open spec fn encode_spec(c: CommandView) -> Seq<u8> {
    match c {
        CommandView::Create(t) => seq![CREATE_BYTE] + text_bytes(t) + crlf(),
        CommandView::List(es) => seq![LIST_BYTE] + list_body(es) + crlf(),
        CommandView::Id(n) => seq![ID_BYTE] + decimal(n as nat) + crlf(),
        CommandView::Disconnect(n) => seq![DISCONNECT_BYTE] + decimal(n as nat) + crlf(),
        CommandView::Read => seq![READ_BYTE],
        CommandView::Quit => seq![QUIT_BYTE],
    }
}

/// A command that the framing can carry: no text holds an embedded CRLF.
pub open spec fn encodable(c: CommandView) -> bool {
    match c {
        CommandView::Create(t) => !has_crlf(text_bytes(t)),
        CommandView::List(es) => forall|i: int| 0 <= i < es.len() ==> !has_crlf(text_bytes(#[trigger] es[i])),
        _ => true,
    }
}

/// Number of leading digits of `s`.
pub open spec fn digit_run(s: Seq<u8>) -> nat
    decreases s.len(),
{
    if s.len() == 0 || !is_digit(s[0]) {
        0
    } else {
        1 + digit_run(s.drop_first())
    }
}

/// Splits a list body into the bytes of its entries.
pub open spec fn decode_entries(line: Seq<u8>) -> Option<Seq<Seq<u8>>>
    decreases line.len(),
{
    if line.len() == 0 {
        Some(Seq::empty())
    } else {
        let k = digit_run(line) as int;
        if k == 0 || k >= line.len() || line[k] != LENGTH_MARK {
            None
        } else {
            let n = value_of(line.take(k)) as int;
            if k + 1 + n > line.len() {
                None
            } else {
                match decode_entries(line.skip(k + 1 + n)) {
                    Some(rest) => Some(seq![line.subrange(k + 1, k + 1 + n)] + rest),
                    None => None,
                }
            }
        }
    }
}

pub open spec fn all_valid_utf8(es: Seq<Seq<u8>>) -> bool {
    forall|i: int| 0 <= i < es.len() ==> valid_utf8(#[trigger] es[i])
}

/// The command that a complete frame with tag `tag` and line `line` decodes to.
pub open spec fn decode_line(tag: u8, line: Seq<u8>) -> Result<CommandView, FrameParseError> {
    if tag == CREATE_BYTE {
        if valid_utf8(line) {
            Ok(CommandView::Create(decode_utf8(line)))
        } else {
            Err(FrameParseError::Malformed)
        }
    } else if tag == LIST_BYTE {
        match decode_entries(line) {
            Some(es) => if all_valid_utf8(es) {
                Ok(CommandView::List(es.map_values(|e: Seq<u8>| decode_utf8(e))))
            } else {
                Err(FrameParseError::Malformed)
            },
            None => Err(FrameParseError::Malformed),
        }
    } else if is_u64_numeral(line) {
        if tag == ID_BYTE {
            Ok(CommandView::Id(value_of(line) as u64))
        } else {
            Ok(CommandView::Disconnect(value_of(line) as u64))
        }
    } else {
        Err(FrameParseError::Malformed)
    }
}

/// What `Frame::parse` yields on the bytes `b`.
pub open spec fn parse_spec(b: Seq<u8>) -> Result<CommandView, FrameParseError> {
    match check_spec(b) {
        Err(e) => Err(e),
        Ok(n) => if b[0] == READ_BYTE {
            Ok(CommandView::Read)
        } else if b[0] == QUIT_BYTE {
            Ok(CommandView::Quit)
        } else {
            decode_line(b[0], b.subrange(1, n - 2))
        },
    }
}

/// The name a command goes by in messages.
pub open spec fn name_of(c: CommandView) -> Seq<char> {
    match c {
        CommandView::Create(_) => seq!['C', 'R', 'E', 'A', 'T', 'E'],
        CommandView::List(_) => seq!['L', 'I', 'S', 'T'],
        CommandView::Read => seq!['R', 'E', 'A', 'D'],
        CommandView::Quit => seq!['Q', 'U', 'I', 'T'],
        CommandView::Disconnect(_) => seq!['D', 'I', 'S', 'C', 'O', 'N', 'N', 'E', 'C', 'T'],
        CommandView::Id(_) => seq!['I', 'D'],
    }
}

impl Command {
    /// The command's name.
    pub fn to_string(&self) -> (r: String)
        ensures
            r@ == name_of(self@),
    {
        let r = match self {
            Command::Create(_) => String::from_str("CREATE"),
            Command::List(_) => String::from_str("LIST"),
            Command::Read => String::from_str("READ"),
            Command::Quit => String::from_str("QUIT"),
            Command::Disconnect(_) => String::from_str("DISCONNECT"),
            Command::Id(_) => String::from_str("ID"),
        };
        proof {
            reveal_strlit("CREATE");
            reveal_strlit("LIST");
            reveal_strlit("READ");
            reveal_strlit("QUIT");
            reveal_strlit("DISCONNECT");
            reveal_strlit("ID");
        }
        assert(r@ =~= name_of(self@));
        r
    }

    /// The tag byte that opens this command's frame.
    pub fn byte(&self) -> (r: u8)
        ensures
            r == tag_of(self@),
    {
        match self {
            Command::Create(_) => CREATE_BYTE,
            Command::List(_) => LIST_BYTE,
            Command::Read => READ_BYTE,
            Command::Quit => QUIT_BYTE,
            Command::Disconnect(_) => DISCONNECT_BYTE,
            Command::Id(_) => ID_BYTE,
        }
    }
}

/// Position of the first CRLF at or after `start`.
pub proof fn lemma_first_crlf(s: Seq<u8>, i: int)
    requires
        0 <= i,
    ensures
        first_crlf(s, i) matches Some(m) ==> i <= m && crlf_at(s, m)
            && forall|j: int| i <= j < m ==> !crlf_at(s, j),
        first_crlf(s, i) is None ==> forall|j: int| i <= j ==> !crlf_at(s, j),
    decreases s.len() - i,
{
    if i < 0 || i + 1 >= s.len() {
    } else if crlf_at(s, i) {
    } else {
        lemma_first_crlf(s, i + 1);
        assert forall|j: int| i <= j && j < i + 1 implies !crlf_at(s, j) by {
            assert(j == i);
        }
    }
}

fn find_crlf(b: &[u8], start: usize) -> (r: Option<usize>)
    requires
        1 <= start <= b@.len(),
    ensures
        r matches Some(i) ==> i + 1 < b@.len(),
        match r {
            Some(i) => first_crlf(b@, start as int) == Some(i as int),
            None => first_crlf(b@, start as int) is None,
        },
{
    let mut i: usize = start;
    while i < b.len() - 1
        invariant
            1 <= start <= i <= b@.len(),
            first_crlf(b@, start as int) == first_crlf(b@, i as int),
        decreases b@.len() - i,
    {
        if b[i] == 13 && b[i + 1] == 10 {
            return Some(i);
        }
        i = i + 1;
    }
    None
}

/// Relies on `String::from_utf8`: it succeeds exactly on valid UTF-8, and the
/// string then holds the characters that the bytes encode.
#[verifier::external_body]
fn string_from_utf8(b: &[u8], start: usize, end: usize) -> (r: Option<String>)
    requires
        start <= end <= b@.len(),
    ensures
        r is Some <==> valid_utf8(b@.subrange(start as int, end as int)),
        r matches Some(s) ==> s@ == decode_utf8(b@.subrange(start as int, end as int)),
{
    String::from_utf8(b[start..end].to_vec()).ok()
}

/// Appends the bytes of `s` to `out`.
fn push_text(s: &String, out: &mut Vec<u8>)
    ensures
        final(out)@ == old(out)@ + text_bytes(s@),
{
    let b = s.as_str().as_bytes();
    let mut i: usize = 0;
    while i < b.len()
        invariant
            i <= b@.len(),
            b@ == text_bytes(s@),
            out@ == old(out)@ + b@.take(i as int),
        decreases b@.len() - i,
    {
        out.push(b[i]);
        i = i + 1;
        assert(out@ =~= old(out)@ + b@.take(i as int));
    }
    assert(b@.take(i as int) =~= b@);
}

proof fn lemma_list_body_push(es: Seq<Seq<char>>, i: int)
    requires
        0 <= i < es.len(),
    ensures
        list_body(es.take(i + 1)) == list_body(es.take(i)) + entry_bytes(es[i]),
    decreases i,
{
    if i == 0 {
        assert(es.take(1).drop_first() =~= Seq::<Seq<char>>::empty());
        assert(list_body(es.take(1).drop_first()) == Seq::<u8>::empty());
        assert(es.take(1)[0] == es[0]);
        assert(es.take(0) =~= Seq::<Seq<char>>::empty());
        assert(list_body(es.take(1)) =~= entry_bytes(es[0]) + Seq::<u8>::empty());
    } else {
        let d = es.drop_first();
        lemma_list_body_push(d, i - 1);
        assert(es.take(i + 1).drop_first() =~= d.take(i));
        assert(es.take(i).drop_first() =~= d.take(i - 1));
        assert(es.take(i + 1)[0] == es[0]);
        assert(es.take(i)[0] == es[0]);
        assert(list_body(es.take(i + 1)) =~= entry_bytes(es[0]) + list_body(d.take(i)));
        assert(list_body(es.take(i)) =~= entry_bytes(es[0]) + list_body(d.take(i - 1)));
    }
}

/// End of the run of digits that starts at `p` in `b[..hi]`.
fn digit_end(b: &[u8], p: usize, hi: usize) -> (j: usize)
    requires
        p <= hi <= b@.len(),
    ensures
        p <= j <= hi,
        forall|q: int| p <= q < j ==> is_digit(#[trigger] b@[q]),
        digit_run(b@.subrange(p as int, hi as int)) == j - p,
{
    let ghost rest = b@.subrange(p as int, hi as int);
    let mut j: usize = p;
    assert(rest.skip(0) =~= rest);
    while j < hi && b[j] >= 48 && b[j] <= 57
        invariant
            p <= j <= hi <= b@.len(),
            rest == b@.subrange(p as int, hi as int),
            forall|q: int| p <= q < j ==> is_digit(#[trigger] b@[q]),
            digit_run(rest) == (j - p) + digit_run(rest.skip(j - p)),
        decreases hi - j,
    {
        assert(rest.skip(j - p).drop_first() =~= rest.skip(j + 1 - p));
        j = j + 1;
    }
    assert(digit_run(rest.skip(j - p)) == 0);
    j
}

/// Reads the entries of the list body `b[lo..hi]`.
#[verifier::rlimit(50)]
fn parse_list(b: &[u8], lo: usize, hi: usize) -> (r: Result<Vec<String>, FrameParseError>)
    requires
        lo <= hi <= b@.len(),
    ensures
        ({
            let d = decode_line(LIST_BYTE, b@.subrange(lo as int, hi as int));
            match r {
                Ok(v) => d == Ok::<CommandView, FrameParseError>(CommandView::List(v@.map_values(|s: String| s@))),
                Err(e) => d == Err::<CommandView, FrameParseError>(e),
            }
        }),
{
    let ghost w = b@.subrange(lo as int, hi as int);
    let ghost mut acc: Seq<Seq<u8>> = Seq::empty();
    let mut out: Vec<String> = Vec::new();
    let mut p: usize = lo;
    assert(w.skip(0) =~= w);
    proof {
        match decode_entries(w) {
            Some(es) => {
                assert(acc + es =~= es);
            },
            None => {},
        }
    }
    while p < hi
        invariant
            lo <= p <= hi <= b@.len(),
            w == b@.subrange(lo as int, hi as int),
            all_valid_utf8(acc),
            out@.len() == acc.len(),
            forall|q: int| 0 <= q < acc.len() ==> (#[trigger] out@[q])@ == decode_utf8(acc[q]),
            decode_entries(w) == (match decode_entries(w.skip(p - lo)) {
                Some(rest) => Some(acc + rest),
                None => None::<Seq<Seq<u8>>>,
            }),
        decreases hi - p,
    {
        let ghost rest = w.skip(p - lo);
        assert(rest =~= b@.subrange(p as int, hi as int));
        let j = digit_end(b, p, hi);
        let ghost k = j - p;
        assert(rest.take(k) =~= b@.subrange(p as int, j as int));
        if j == p || j >= hi || b[j] != LENGTH_MARK {
            return Err(FrameParseError::Malformed);
        }
        assert(all_digits(rest.take(k)));
        let n = match parse_u64(b, p, j) {
            Some(n) => n,
            None => {
                return Err(FrameParseError::Malformed);
            },
        };
        if n > (hi - j - 1) as u64 {
            return Err(FrameParseError::Malformed);
        }
        let start: usize = j + 1;
        let end: usize = j + 1 + n as usize;
        assert(rest.subrange(k + 1, k + 1 + n) =~= b@.subrange(start as int, end as int));
        assert(rest.skip(k + 1 + n) =~= w.skip(end - lo));
        match string_from_utf8(b, start, end) {
            Some(s) => {
                out.push(s);
                proof {
                    let e = b@.subrange(start as int, end as int);
                    let ghost old_acc = acc;
                    acc = acc.push(e);
                    assert(forall|q: int| 0 <= q < old_acc.len() ==> acc[q] == old_acc[q]);
                    match decode_entries(w.skip(end - lo)) {
                        Some(r2) => {
                            assert(old_acc + (seq![e] + r2) =~= acc + r2);
                        },
                        None => {},
                    }
                }
                p = end;
            },
            None => {
                proof {
                    match decode_entries(w) {
                        Some(es) => {
                            let e = b@.subrange(start as int, end as int);
                            assert(es[acc.len() as int] == e);
                        },
                        None => {},
                    }
                }
                return Err(FrameParseError::Malformed);
            },
        }
    }
    assert(w.skip(p - lo) =~= Seq::<u8>::empty());
    assert(acc + Seq::<Seq<u8>>::empty() =~= acc);
    assert(out@.map_values(|s: String| s@) =~= acc.map_values(|e: Seq<u8>| decode_utf8(e)));
    Ok(out)
}

impl Frame {
    /// Finds whether one whole frame stands at the start of `src`, and how
    /// many bytes it occupies. `src` is left as it is.
    pub fn check(src: &[u8]) -> (r: Result<usize, FrameParseError>)
        ensures
            match r {
                Ok(n) => check_spec(src@) == Ok::<nat, FrameParseError>(n as nat),
                Err(e) => check_spec(src@) == Err::<nat, FrameParseError>(e),
            },
    {
        if src.len() == 0 {
            return Err(FrameParseError::Incomplete);
        }
        let tag = src[0];
        if tag == READ_BYTE || tag == QUIT_BYTE {
            Ok(1)
        } else if tag == CREATE_BYTE || tag == LIST_BYTE || tag == DISCONNECT_BYTE || tag == ID_BYTE {
            match find_crlf(src, 1) {
                Some(i) => Ok(i + 2),
                None => Err(FrameParseError::Incomplete),
            }
        } else {
            Err(FrameParseError::Invalid(tag))
        }
    }

    /// Decodes the frame at the start of `src`.
    pub fn parse(src: &[u8]) -> (r: Result<Frame, FrameParseError>)
        ensures
            match r {
                Ok(f) => parse_spec(src@) == Ok::<CommandView, FrameParseError>(f@),
                Err(e) => parse_spec(src@) == Err::<CommandView, FrameParseError>(e),
            },
    {
        let n = match Frame::check(src) {
            Ok(n) => n,
            Err(e) => {
                return Err(e);
            },
        };
        proof {
            lemma_first_crlf(src@, 1);
        }
        let tag = src[0];
        if tag == READ_BYTE {
            return Ok(Frame(Command::Read));
        }
        if tag == QUIT_BYTE {
            return Ok(Frame(Command::Quit));
        }
        let end: usize = n - 2;
        if tag == CREATE_BYTE {
            match string_from_utf8(src, 1, end) {
                Some(t) => Ok(Frame(Command::Create(t))),
                None => Err(FrameParseError::Malformed),
            }
        } else if tag == LIST_BYTE {
            match parse_list(src, 1, end) {
                Ok(v) => Ok(Frame(Command::List(v))),
                Err(e) => Err(e),
            }
        } else {
            match parse_u64(src, 1, end) {
                Some(v) => if tag == ID_BYTE {
                    Ok(Frame(Command::Id(v)))
                } else {
                    Ok(Frame(Command::Disconnect(v)))
                },
                None => Err(FrameParseError::Malformed),
            }
        }
    }

    /// The bytes that this frame is sent as.
    pub fn encode(&self) -> (r: Vec<u8>)
        ensures
            r@ == encode_spec(self@),
    {
        let mut out: Vec<u8> = Vec::new();
        out.push(self.0.byte());
        match &self.0 {
            Command::Create(t) => {
                push_text(t, &mut out);
            },
            Command::List(es) => {
                let ghost v = es@.map_values(|s: String| s@);
                let mut i: usize = 0;
                while i < es.len()
                    invariant
                        i <= es@.len(),
                        v == es@.map_values(|s: String| s@),
                        out@ == seq![LIST_BYTE] + list_body(v.take(i as int)),
                    decreases es@.len() - i,
                {
                    let e = &es[i];
                    let bytes = e.as_str().as_bytes();
                    let len = bytes.len() as u64;
                    push_decimal(len, &mut out);
                    out.push(LENGTH_MARK);
                    push_text(e, &mut out);
                    proof {
                        assert(v[i as int] == e@);
                        assert(bytes@ == text_bytes(e@));
                        lemma_list_body_push(v, i as int);
                        assert(out@ =~= seq![LIST_BYTE] + list_body(v.take(i + 1)));
                    }
                    i = i + 1;
                }
                assert(v.take(i as int) =~= v);
            },
            Command::Id(n) => {
                push_decimal(*n, &mut out);
            },
            Command::Disconnect(n) => {
                push_decimal(*n, &mut out);
            },
            _ => {
                assert(out@ =~= encode_spec(self@));
                return out;
            },
        }
        out.push(13);
        out.push(10);
        assert(out@ =~= encode_spec(self@));
        out
    }
}

} // verus!
