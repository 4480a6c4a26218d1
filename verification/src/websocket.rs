use vstd::prelude::*;

use crate::accept::{accept_key, challenge_response, MAX_CHALLENGE_CHARS};
use crate::headers::HeaderMap;
use crate::text::{
    is_white_space, law_trim_ignores_trailing_white_space, lemma_trim_len, string_from_chars, trim,
    trimmed_chars,
};

verus! {

/// `std::io::Error`, carried through unread in `MioWsError::Io`.
#[verifier::external_type_specification]
#[verifier::external_body]
pub struct ExIoError(std::io::Error);

/// What can go wrong while opening a WebSocket.
pub enum MioWsError {
    Io(std::io::Error),
    Parse(String),
    Handshake(String),
}

impl From<std::io::Error> for MioWsError {
    fn from(err: std::io::Error) -> (res: Self) {
        MioWsError::Io(err)
    }
}

impl vstd::std_specs::convert::FromSpecImpl<std::io::Error> for MioWsError {
    open spec fn obeys_from_spec() -> bool {
        true
    }

    open spec fn from_spec(err: std::io::Error) -> Self {
        MioWsError::Io(err)
    }
}

/// One `name: value` line of an HTTP request head.
pub struct HttpHeader {
    pub name: String,
    pub value: String,
}

/// The number of characters before the first `:` of `t` (all of `t` if it has none).
pub open spec fn colon_index(t: Seq<char>) -> nat
    decreases t.len(),
{
    if t.len() == 0 || t[0] == ':' {
        0
    } else {
        1 + colon_index(t.drop_first())
    }
}

/// The header grammar `name ": " value`, where `name` is one or more characters
/// other than `:` and `value` is one or more characters, applied to the trimmed line.
/// Gives the name and the value, or `None` where the line does not match.
pub open spec fn parse_header_spec(line: Seq<char>) -> Option<(Seq<char>, Seq<char>)> {
    let t = trim(line);
    let i = colon_index(t) as int;
    if 0 < i && i + 2 < t.len() && t[i + 1] == ' ' {
        Some((t.take(i), t.skip(i + 2)))
    } else {
        None
    }
}

/// The message of the error for a header line that does not parse.
pub const MALFORMED_HEADER: &'static str = "Malformed header line, expected `name: value`";

proof fn lemma_colon_index_skip(t: Seq<char>, i: int)
    requires
        0 <= i <= t.len(),
        forall|k: int| 0 <= k < i ==> #[trigger] t[k] != ':',
    ensures
        colon_index(t) == i + colon_index(t.skip(i)),
    decreases i,
{
    if i > 0 {
        assert(t[0] != ':');
        lemma_colon_index_skip(t.drop_first(), i - 1);
        assert(t.drop_first().skip(i - 1) =~= t.skip(i));
    } else {
        assert(t.skip(0) =~= t);
    }
}

/// A header written as `name: value` reads back as that name and value, where the name is
/// not empty, holds no `:` and does not start with white space, and the value is not empty
/// and does not end with white space.
pub proof fn law_header_round_trip(name: Seq<char>, value: Seq<char>)
    requires
        name.len() > 0,
        !name.contains(':'),
        !is_white_space(name[0]),
        value.len() > 0,
        !is_white_space(value.last()),
    ensures
        parse_header_spec(name + seq![':', ' '] + value) == Some((name, value)),
{
    let s = name + seq![':', ' '] + value;
    assert(s[0] == name[0]);
    assert(s.last() == value.last());
    assert(trim(s) == s);
    assert forall|k: int| 0 <= k < name.len() implies #[trigger] s[k] != ':' by {
        assert(s[k] == name[k]);
    }
    lemma_colon_index_skip(s, name.len() as int);
    assert(s.skip(name.len() as int)[0] == ':');
    assert(s.take(name.len() as int) =~= name);
    assert(s.skip(name.len() + 2int) =~= value);
}

/// A line that parses is, once trimmed, the name, `": "` and the value, and the name
/// holds no `:`.
pub proof fn law_header_parse_inverse(line: Seq<char>)
    ensures
        parse_header_spec(line) matches Some((name, value)) ==> {
            &&& trim(line) == name + seq![':', ' '] + value
            &&& !name.contains(':')
        },
{
    let t = trim(line);
    let i = colon_index(t) as int;
    if parse_header_spec(line) is Some {
        lemma_colon_index_prefix(t);
        assert(t =~= t.take(i) + seq![':', ' '] + t.skip(i + 2));
    }
}

proof fn lemma_colon_index_prefix(t: Seq<char>)
    ensures
        colon_index(t) <= t.len(),
        colon_index(t) < t.len() ==> t[colon_index(t) as int] == ':',
        !t.take(colon_index(t) as int).contains(':'),
    decreases t.len(),
{
    if t.len() > 0 && t[0] != ':' {
        lemma_colon_index_prefix(t.drop_first());
        let i = colon_index(t) as int;
        assert(t.take(i) =~= seq![t[0]] + t.drop_first().take(i - 1));
        if t.take(i).contains(':') {
            let k = choose|k: int| 0 <= k < t.take(i).len() && t.take(i)[k] == ':';
            if k > 0 {
                assert(t.drop_first().take(i - 1)[k - 1] == ':');
            }
        }
    } else {
        assert(t.take(0) =~= Seq::<char>::empty());
    }
}

/// Parsing sees only the trimmed line: two lines that trim alike parse alike, so a line
/// ending (`\n`, `\r\n`) or any other trailing or leading white space changes nothing.
pub proof fn law_parse_sees_trimmed_line(l1: Seq<char>, l2: Seq<char>, c: char)
    ensures
        trim(l1) == trim(l2) ==> parse_header_spec(l1) == parse_header_spec(l2),
        is_white_space(c) ==> parse_header_spec(l1.push(c)) == parse_header_spec(l1),
{
    if is_white_space(c) {
        law_trim_ignores_trailing_white_space(l1, c);
    }
}

/// Parses one header line. Where the line does not match the grammar, the error carries
/// the fixed message `MALFORMED_HEADER`, whatever the line.
pub fn parse_header(line: &String) -> (res: Result<HttpHeader, MioWsError>)
    ensures
        match parse_header_spec(line@) {
            Some((name, value)) => res matches Ok(h) && h.name@ == name && h.value@ == value,
            None => res matches Err(MioWsError::Handshake(msg)) && msg@ == MALFORMED_HEADER@,
        },
{
    let t = trimmed_chars(line.as_str());
    let n = t.len();
    let mut i: usize = 0;
    while i < n && t[i] != ':'
        invariant
            n == t@.len(),
            i <= n,
            forall|k: int| 0 <= k < i ==> #[trigger] t@[k] != ':',
        decreases n - i,
    {
        i = i + 1;
    }
    proof {
        lemma_colon_index_skip(t@, i as int);
    }
    assert(colon_index(t@) == i);
    if 0 < i && i < n && n - i > 2 && t[i + 1] == ' ' {
        let name = string_from_chars(&t, 0, i);
        let value = string_from_chars(&t, i + 2, n);
        assert(t@.take(i as int) =~= t@.subrange(0, i as int));
        assert(t@.skip(i + 2) =~= t@.subrange(i + 2, n as int));
        Ok(HttpHeader { name, value })
    } else {
        Err(MioWsError::Handshake(String::from_str(MALFORMED_HEADER)))
    }
}


/// The header that carries the client's key.
pub const CHALLENGE_HEADER: &'static str = "Sec-WebSocket-Key";

/// The message of the error for a request without a key.
pub const NO_CHALLENGE: &'static str = "No WebSocket Challenge Header";

/// The answer up to the accept value.
pub const RESPONSE_HEAD: &'static str =
    "HTTP/1.1 101 Switching Protocols\r\nUpgrade: websocket\r\nConnection: Upgrade\r\nSec-WebSocket-Accept: ";

/// What follows the accept value: the end of the line and of the answer.
pub const RESPONSE_TAIL: &'static str = "\r\n\r\n";

/// The server's `101 Switching Protocols` answer carrying `accept`.
pub open spec fn upgrade_response_text(accept: Seq<char>) -> Seq<char> {
    RESPONSE_HEAD@ + accept + RESPONSE_TAIL@
}

/// Builds the `101 Switching Protocols` answer carrying `accept`.
pub fn upgrade_response(accept: &String) -> (res: String)
    ensures
        res@ == upgrade_response_text(accept@),
        res@.len() == RESPONSE_HEAD@.len() + accept@.len() + RESPONSE_TAIL@.len(),
        res@.take(RESPONSE_HEAD@.len() as int) == RESPONSE_HEAD@,
        res@.subrange(RESPONSE_HEAD@.len() as int, (RESPONSE_HEAD@.len() + accept@.len()) as int) == accept@,
        res@.skip((RESPONSE_HEAD@.len() + accept@.len()) as int) == RESPONSE_TAIL@,
{
    let mut res = String::from_str(RESPONSE_HEAD);
    res.append(accept.as_str());
    res.append(RESPONSE_TAIL);
    proof {
        law_response_carries_accept(accept@);
    }
    res
}

/// The response is the fixed head, then the accept value unchanged, then the fixed tail;
/// so two accept values give the same response only when they are equal.
pub proof fn law_response_carries_accept(accept: Seq<char>)
    ensures
        upgrade_response_text(accept).len() == RESPONSE_HEAD@.len() + accept.len()
            + RESPONSE_TAIL@.len(),
        upgrade_response_text(accept).take(RESPONSE_HEAD@.len() as int) == RESPONSE_HEAD@,
        upgrade_response_text(accept).subrange(
            RESPONSE_HEAD@.len() as int,
            (RESPONSE_HEAD@.len() + accept.len()) as int,
        ) == accept,
        upgrade_response_text(accept).skip((RESPONSE_HEAD@.len() + accept.len()) as int) == RESPONSE_TAIL@,
        forall|other: Seq<char>|
            #[trigger] upgrade_response_text(other) == upgrade_response_text(accept) ==> other
                == accept,
{
    let r = upgrade_response_text(accept);
    let h = RESPONSE_HEAD@.len() as int;
    assert(r.take(h) =~= RESPONSE_HEAD@);
    assert(r.subrange(h, h + accept.len()) =~= accept);
    assert(r.skip(h + accept.len()) =~= RESPONSE_TAIL@);
    assert forall|other: Seq<char>|
        #[trigger] upgrade_response_text(other) == upgrade_response_text(accept) implies other
        == accept by {
        let ro = upgrade_response_text(other);
        assert(other.len() == accept.len());
        assert(ro.subrange(h, h + other.len()) =~= other);
    }
}

/// Headers whose challenge, if present, is short enough to be hashed.
pub open spec fn challenge_fits(headers: Map<Seq<char>, Seq<char>>) -> bool {
    headers.contains_key(CHALLENGE_HEADER@) ==> headers[CHALLENGE_HEADER@].len()
        <= MAX_CHALLENGE_CHARS
}

/// The answer to a request with these headers: the upgrade response for the client's
/// key, or a handshake error where the request carries none.
pub fn handshake_response(headers: &HeaderMap) -> (res: Result<String, MioWsError>)
    requires
        headers.wf(),
        challenge_fits(headers@),
    ensures
        headers@.contains_key(CHALLENGE_HEADER@) ==> (res matches Ok(s) && s@
            == upgrade_response_text(accept_key(headers@[CHALLENGE_HEADER@])) && accept_key(
            headers@[CHALLENGE_HEADER@],
        ).len() == 28),
        !headers@.contains_key(CHALLENGE_HEADER@) ==> (res matches Err(MioWsError::Handshake(m))
            && m@ == NO_CHALLENGE@),
{
    let key = String::from_str(CHALLENGE_HEADER);
    match headers.get(&key) {
        None => Err(MioWsError::Handshake(String::from_str(NO_CHALLENGE))),
        Some(challenge) => {
            let accept = challenge_response(challenge);
            Ok(upgrade_response(&accept))
        },
    }
}

/// What the server does next during the opening handshake.
pub enum HandshakeStep {
    /// Read the next line of the request and hand it to `Handshake::on_line`.
    ReadLine,
    /// Write this response; the connection is a WebSocket from now on.
    Respond(String),
    /// Give up with this error.
    Fail(MioWsError),
}

/// The server side of the opening handshake, fed one request line at a time.
pub struct Handshake {
    request_line_read: bool,
    finished: bool,
    headers: HeaderMap,
}

/// Longest request line, in characters, that the handshake takes.
pub const MAX_LINE_CHARS: u64 = 0x0100_0000_0000_0000;

impl Handshake {
    /// The request line has been read; header lines come next.
    pub closed spec fn request_line_read(&self) -> bool {
        self.request_line_read
    }

    /// A response or an error has been given; no more lines are taken.
    pub closed spec fn finished(&self) -> bool {
        self.finished
    }

    /// The headers read so far.
    pub closed spec fn headers(&self) -> Map<Seq<char>, Seq<char>> {
        self.headers@
    }

    pub closed spec fn wf(&self) -> bool {
        &&& self.headers.wf()
        &&& forall|k: Seq<char>| #[trigger]
            self.headers@.contains_key(k) ==> self.headers@[k].len() <= MAX_LINE_CHARS
    }

    /// A handshake that waits for the request line.
    pub fn new() -> (h: Self)
        ensures
            h.wf(),
            !h.request_line_read(),
            !h.finished(),
            h.headers() == Map::<Seq<char>, Seq<char>>::empty(),
    {
        Handshake { request_line_read: false, finished: false, headers: HeaderMap::new() }
    }

    /// Takes the next line of the request (without regard to its line ending). The first
    /// line is the request line and is passed over; each later line is a header, until a
    /// line that is empty once trimmed ends the head and the response is given.
    pub fn on_line(&mut self, line: &String) -> (step: HandshakeStep)
        requires
            old(self).wf(),
            !old(self).finished(),
            line@.len() <= MAX_LINE_CHARS,
        ensures
            final(self).wf(),
            final(self).request_line_read(),
            !old(self).request_line_read() ==> {
                &&& step is ReadLine
                &&& !final(self).finished()
                &&& final(self).headers() == old(self).headers()
            },
            old(self).request_line_read() && trim(line@).len() == 0 ==> {
                &&& final(self).finished()
                &&& final(self).headers() == old(self).headers()
                &&& old(self).headers().contains_key(CHALLENGE_HEADER@) ==> (step matches HandshakeStep::Respond(s)
                    && s@ == upgrade_response_text(accept_key(old(self).headers()[CHALLENGE_HEADER@]))
                    && accept_key(old(self).headers()[CHALLENGE_HEADER@]).len() == 28)
                &&& !old(self).headers().contains_key(CHALLENGE_HEADER@) ==> (step matches HandshakeStep::Fail(
                    MioWsError::Handshake(m)) && m@ == NO_CHALLENGE@)
            },
            old(self).request_line_read() && trim(line@).len() > 0 ==> match parse_header_spec(
                line@,
            ) {
                Some((name, value)) => {
                    &&& step is ReadLine
                    &&& !final(self).finished()
                    &&& final(self).headers() == old(self).headers().insert(name, value)
                },
                None => {
                    &&& final(self).finished()
                    &&& final(self).headers() == old(self).headers()
                    &&& step matches HandshakeStep::Fail(MioWsError::Handshake(m)) && m@
                        == MALFORMED_HEADER@
                },
            },
    {
        if !self.request_line_read {
            self.request_line_read = true;
            return HandshakeStep::ReadLine;
        }
        let t = trimmed_chars(line.as_str());
        if t.len() == 0 {
            self.finished = true;
            proof {
                reveal_strlit("Sec-WebSocket-Key");
            }
            return match handshake_response(&self.headers) {
                Ok(s) => HandshakeStep::Respond(s),
                Err(e) => HandshakeStep::Fail(e),
            };
        }
        match parse_header(line) {
            Ok(header) => {
                proof {
                    assert(trim(line@).len() <= line@.len()) by {
                        lemma_trim_len(line@);
                    }
                }
                self.headers.insert(header);
                HandshakeStep::ReadLine
            },
            Err(e) => {
                self.finished = true;
                HandshakeStep::Fail(e)
            },
        }
    }
}


/// The value held under `name`, if any.
pub open spec fn lookup(headers: Map<Seq<char>, Seq<char>>, name: Seq<char>) -> Option<Seq<char>> {
    if headers.contains_key(name) {
        Some(headers[name])
    } else {
        None
    }
}

/// The answer to a request head whose headers are `headers`: the upgrade response, or the
/// message of the error.
pub open spec fn answer_for(headers: Map<Seq<char>, Seq<char>>) -> Result<Seq<char>, Seq<char>> {
    match lookup(headers, CHALLENGE_HEADER@) {
        Some(key) => Ok(upgrade_response_text(accept_key(key))),
        None => Err(NO_CHALLENGE@),
    }
}

/// What the header lines `lines` lead to when the headers read before them are `headers`:
/// `None` while the head has not ended, else the answer or the error message.
pub open spec fn header_lines_outcome(
    headers: Map<Seq<char>, Seq<char>>,
    lines: Seq<Seq<char>>,
) -> Option<Result<Seq<char>, Seq<char>>>
    decreases lines.len(),
{
    if lines.len() == 0 {
        None
    } else if trim(lines[0]).len() == 0 {
        Some(answer_for(headers))
    } else {
        match parse_header_spec(lines[0]) {
            Some((name, value)) => header_lines_outcome(
                headers.insert(name, value),
                lines.drop_first(),
            ),
            None => Some(Err(MALFORMED_HEADER@)),
        }
    }
}

/// What a request, given as its lines, leads to: the first line is the request line.
pub open spec fn request_outcome(lines: Seq<Seq<char>>) -> Option<Result<Seq<char>, Seq<char>>> {
    if lines.len() == 0 {
        None
    } else {
        header_lines_outcome(Map::empty(), lines.drop_first())
    }
}

/// A whole request head: a request line, header lines that each parse, and a line that is
/// empty once trimmed, which is the last.
pub open spec fn is_request_head(lines: Seq<Seq<char>>) -> bool {
    &&& lines.len() >= 2
    &&& trim(lines.last()).len() == 0
    &&& forall|i: int|
        1 <= i < lines.len() - 1 ==> trim(#[trigger] lines[i]).len() > 0 && parse_header_spec(
            lines[i],
        ) is Some
}

/// The value of the last of the header lines `lines` named `name`; `found` where none is.
pub open spec fn last_value(found: Option<Seq<char>>, lines: Seq<Seq<char>>, name: Seq<char>) -> Option<
    Seq<char>,
>
    decreases lines.len(),
{
    if lines.len() == 0 {
        found
    } else {
        let next = match parse_header_spec(lines[0]) {
            Some((n, v)) => if n == name {
                Some(v)
            } else {
                found
            },
            None => found,
        };
        last_value(next, lines.drop_first(), name)
    }
}

proof fn lemma_header_lines_outcome(
    headers: Map<Seq<char>, Seq<char>>,
    lines: Seq<Seq<char>>,
    name: Seq<char>,
)
    requires
        lines.len() >= 1,
        trim(lines.last()).len() == 0,
        forall|i: int|
            0 <= i < lines.len() - 1 ==> trim(#[trigger] lines[i]).len() > 0 && parse_header_spec(
                lines[i],
            ) is Some,
    ensures
        exists|h: Map<Seq<char>, Seq<char>>|
            header_lines_outcome(headers, lines) == Some(answer_for(h)) && lookup(h, name)
                == last_value(lookup(headers, name), lines, name),
    decreases lines.len(),
{
    if lines.len() == 1 {
        assert(header_lines_outcome(headers, lines) == Some(answer_for(headers)));
        assert(lines.drop_first().len() == 0);
        assert(last_value(lookup(headers, name), lines, name) == lookup(headers, name)) by {
            assert(parse_header_spec(lines[0]) is None) by {
                lemma_blank_does_not_parse(lines[0]);
            }
            assert(last_value(lookup(headers, name), lines.drop_first(), name) == lookup(
                headers,
                name,
            ));
        }
    } else {
        assert(trim(lines[0]).len() > 0 && parse_header_spec(lines[0]) is Some);
        let (n, v) = parse_header_spec(lines[0])->0;
        let next = headers.insert(n, v);
        let rest = lines.drop_first();
        assert forall|i: int| 0 <= i < rest.len() - 1 implies trim(#[trigger] rest[i]).len() > 0
            && parse_header_spec(rest[i]) is Some by {
            assert(rest[i] == lines[i + 1]);
        }
        lemma_header_lines_outcome(next, rest, name);
        assert(lookup(next, name) == (if n == name {
            Some(v)
        } else {
            lookup(headers, name)
        }));
    }
}

proof fn lemma_blank_does_not_parse(line: Seq<char>)
    requires
        trim(line).len() == 0,
    ensures
        parse_header_spec(line) is None,
{
}

/// A whole request head is answered from the value of its last `Sec-WebSocket-Key`
/// header alone: the upgrade response for that key, or the missing-key error.
pub proof fn law_request_answer(lines: Seq<Seq<char>>)
    requires
        is_request_head(lines),
    ensures
        request_outcome(lines) == Some(
            match last_value(None, lines.drop_first(), CHALLENGE_HEADER@) {
                Some(key) => Ok(upgrade_response_text(accept_key(key))),
                None => Err::<Seq<char>, Seq<char>>(NO_CHALLENGE@),
            },
        ),
{
    let rest = lines.drop_first();
    assert forall|i: int| 0 <= i < rest.len() - 1 implies trim(#[trigger] rest[i]).len() > 0
        && parse_header_spec(rest[i]) is Some by {
        assert(rest[i] == lines[i + 1]);
    }
    assert(rest.last() == lines.last());
    lemma_header_lines_outcome(Map::empty(), rest, CHALLENGE_HEADER@);
    assert(lookup(Map::empty(), CHALLENGE_HEADER@) == None::<Seq<char>>);
}

/// Two whole request heads whose last `Sec-WebSocket-Key` headers carry the same value (or
/// that both lack one) get the same answer, whatever their request lines and other headers.
pub proof fn law_same_last_key_same_answer(lines1: Seq<Seq<char>>, lines2: Seq<Seq<char>>)
    requires
        is_request_head(lines1),
        is_request_head(lines2),
        last_value(None, lines1.drop_first(), CHALLENGE_HEADER@) == last_value(
            None,
            lines2.drop_first(),
            CHALLENGE_HEADER@,
        ),
    ensures
        request_outcome(lines1) == request_outcome(lines2),
{
    law_request_answer(lines1);
    law_request_answer(lines2);
}

/// No answer before the head ends: while every line after the request line parses as a
/// header and none is empty once trimmed, the request has no outcome yet.
pub proof fn law_no_answer_before_head_ends(lines: Seq<Seq<char>>)
    requires
        forall|i: int|
            1 <= i < lines.len() ==> trim(#[trigger] lines[i]).len() > 0 && parse_header_spec(
                lines[i],
            ) is Some,
    ensures
        request_outcome(lines) is None,
{
    if lines.len() > 0 {
        let rest = lines.drop_first();
        assert forall|i: int| 0 <= i < rest.len() implies trim(#[trigger] rest[i]).len() > 0
            && parse_header_spec(rest[i]) is Some by {
            assert(rest[i] == lines[i + 1]);
        }
        lemma_no_blank_no_outcome(Map::empty(), rest);
    }
}

proof fn lemma_no_blank_no_outcome(headers: Map<Seq<char>, Seq<char>>, lines: Seq<Seq<char>>)
    requires
        forall|i: int|
            0 <= i < lines.len() ==> trim(#[trigger] lines[i]).len() > 0 && parse_header_spec(
                lines[i],
            ) is Some,
    ensures
        header_lines_outcome(headers, lines) is None,
    decreases lines.len(),
{
    if lines.len() > 0 {
        assert(trim(lines[0]).len() > 0 && parse_header_spec(lines[0]) is Some);
        let (n, v) = parse_header_spec(lines[0])->0;
        let rest = lines.drop_first();
        assert forall|i: int| 0 <= i < rest.len() implies trim(#[trigger] rest[i]).len() > 0
            && parse_header_spec(rest[i]) is Some by {
            assert(rest[i] == lines[i + 1]);
        }
        lemma_no_blank_no_outcome(headers.insert(n, v), rest);
    }
}

/// The views of the lines.
pub open spec fn lines_view(lines: Seq<String>) -> Seq<Seq<char>> {
    lines.map_values(|l: String| l@)
}

/// Answers a request given as its lines, one `Handshake` step per line: `None` where the
/// lines end before the head does, else the response or the error.
pub fn answer_request(lines: &Vec<String>) -> (res: Option<Result<String, MioWsError>>)
    requires
        forall|i: int| 0 <= i < lines@.len() ==> (#[trigger] lines@[i])@.len() <= MAX_LINE_CHARS,
    ensures
        match request_outcome(lines_view(lines@)) {
            None => res is None,
            Some(Ok(response)) => res matches Some(Ok(s)) && s@ == response && s@.len()
                == RESPONSE_HEAD@.len() + 28 + RESPONSE_TAIL@.len(),
            Some(Err(message)) => res matches Some(Err(MioWsError::Handshake(m))) && m@ == message,
        },
{
    let ghost all = lines_view(lines@);
    let n = lines.len();
    if n == 0 {
        return None;
    }
    let mut h = Handshake::new();
    let first = h.on_line(&lines[0]);
    assert(first is ReadLine);
    let mut i: usize = 1;
    assert(all.drop_first() =~= all.skip(1));
    while i < n
        invariant
            1 <= i <= n,
            n == lines@.len(),
            all == lines_view(lines@),
            forall|k: int| 0 <= k < lines@.len() ==> (#[trigger] lines@[k])@.len() <= MAX_LINE_CHARS,
            h.wf(),
            h.request_line_read(),
            !h.finished(),
            request_outcome(all) == header_lines_outcome(h.headers(), all.skip(i as int)),
        decreases n - i,
    {
        let ghost before = h.headers();
        let ghost rest = all.skip(i as int);
        assert(rest[0] == lines@[i as int]@);
        assert(rest.drop_first() =~= all.skip(i + 1));
        let step = h.on_line(&lines[i]);
        proof {
            reveal_strlit("Sec-WebSocket-Key");
        }
        match step {
            HandshakeStep::ReadLine => {},
            HandshakeStep::Respond(s) => {
                return Some(Ok(s));
            },
            HandshakeStep::Fail(e) => {
                return Some(Err(e));
            },
        }
        i = i + 1;
    }
    assert(all.skip(n as int).len() == 0);
    None
}

} // verus!
