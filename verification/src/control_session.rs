//! One connection on the control socket: the bytes it has sent that are not
//! yet handled, the replies that are not yet sent, and the line protocol.
//!
//! A command is one line: tab-separated fields, the first naming the verb
//! (`start`, `stop` or `status`) and the second the unit. Each command is
//! answered by one line.

use vstd::prelude::*;
use vstd::string::*;
use vstd::utf8::*;
use vstd::slice::*;
use crate::poll::{PollEvents, INPUT_BITS, OUTPUT_BITS};
use crate::text::{append_bytes, append_str, append_signed_decimal, signed_decimal};
use crate::unit_manager::{UnitStatus, Error, UnitManager};

verus! {

/// The size of the input and of the output buffer of a session.
pub const BUF_LEN: usize = 256;

/// The room that the output buffer must have before the next command is read.
pub const MAX_RESPONSE_LEN: usize = 256;

/// The output buffer is too full for another command to be handled.
pub open spec fn output_full(output: Seq<u8>) -> bool {
    output.len() > BUF_LEN - MAX_RESPONSE_LEN
}

/// The verbs of the protocol.
#[derive(Copy, Clone, Debug, PartialEq, Eq)]
pub enum Verb {
    Start,
    Stop,
    Status,
}

/// A line of input, understood.
#[derive(Debug)]
pub enum Command {
    Start(String),
    Stop(String),
    Status(String),
    /// A known verb without a unit name.
    MissingName(Verb),
    /// An unknown verb.
    Unknown,
    /// An empty line, or one that is not UTF-8: it gets no reply.
    Ignored,
}

/// The answer to a command.
#[derive(Debug)]
pub enum Reply {
    Success,
    Error(String),
    Status(UnitStatus),
    Unknown,
}

// ----- the grammar -----

/// `i` is the index of the first tab in `s`.
pub open spec fn is_first_tab(s: Seq<char>, i: int) -> bool {
    &&& 0 <= i < s.len()
    &&& s[i] == '\t'
    &&& forall|j: int| 0 <= j < i ==> s[j] != '\t'
}

/// The first tab-separated field of `s`.
pub open spec fn first_field(s: Seq<char>) -> Seq<char> {
    if exists|i: int| is_first_tab(s, i) {
        s.subrange(0, choose|i: int| is_first_tab(s, i))
    } else {
        s
    }
}

/// What follows the first tab of `s`, if it has one.
pub open spec fn after_first_tab(s: Seq<char>) -> Option<Seq<char>> {
    if exists|i: int| is_first_tab(s, i) {
        Some(s.subrange((choose|i: int| is_first_tab(s, i)) + 1, s.len() as int))
    } else {
        None
    }
}

/// The second tab-separated field of `s`, if it has one.
pub open spec fn second_field(s: Seq<char>) -> Option<Seq<char>> {
    match after_first_tab(s) {
        Some(rest) => Some(first_field(rest)),
        None => None,
    }
}

/// `cmd` is the command with `verb` for the unit `name`, or the complaint
/// that the name is missing.
pub open spec fn names_unit(cmd: Command, verb: Verb, name: Option<Seq<char>>) -> bool {
    match name {
        None => cmd matches Command::MissingName(v) && v == verb,
        Some(n) => match verb {
            Verb::Start => cmd matches Command::Start(x) && x@ == n,
            Verb::Stop => cmd matches Command::Stop(x) && x@ == n,
            Verb::Status => cmd matches Command::Status(x) && x@ == n,
        },
    }
}

/// `cmd` is what the line `line` (without its newline) asks for.
pub open spec fn parses(line: Seq<u8>, cmd: Command) -> bool {
    if line.len() == 0 || !valid_utf8(line) {
        cmd is Ignored
    } else {
        let s = decode_utf8(line);
        let verb = first_field(s);
        let name = second_field(s);
        if verb == "start"@ {
            names_unit(cmd, Verb::Start, name)
        } else if verb == "stop"@ {
            names_unit(cmd, Verb::Stop, name)
        } else if verb == "status"@ {
            names_unit(cmd, Verb::Status, name)
        } else {
            cmd is Unknown
        }
    }
}

/// `std::str::from_utf8`: the text of `bytes`, if they are valid UTF-8. As
/// std documents it, it succeeds exactly on valid UTF-8, and the text it
/// returns has the same bytes.
#[verifier::external_body]
fn utf8_text(bytes: &[u8]) -> (r: Option<&str>)
    ensures
        r is Some == valid_utf8(bytes@),
        r matches Some(text) ==> text.spec_bytes() == bytes@,
{
    std::str::from_utf8(bytes).ok()
}

/// The index of the first tab in `s` at or after `from`, if any.
fn find_tab(s: &str, from: usize, len: usize) -> (r: Option<usize>)
    requires
        len == s@.len(),
        from <= len,
    ensures
        match r {
            Some(i) => from <= i < len && s@[i as int] == '\t' && forall|j: int| from <= j < i ==> s@[j] != '\t',
            None => forall|j: int| from <= j < len ==> s@[j] != '\t',
        },
{
    let mut i = from;
    while i < len
        invariant
            len == s@.len(),
            from <= i <= len,
            forall|j: int| from <= j < i ==> s@[j] != '\t',
        decreases len - i,
    {
        if s.get_char(i) == '\t' {
            return Some(i);
        }
        i = i + 1;
    }
    None
}

/// Whether the two texts are equal.
fn same_text(a: &str, b: &str) -> (r: bool)
    ensures
        r == (a@ == b@),
{
    let alen = a.unicode_len();
    let blen = b.unicode_len();
    if alen != blen {
        return false;
    }
    let mut i: usize = 0;
    while i < alen
        invariant
            alen == a@.len(),
            blen == b@.len(),
            alen == blen,
            i <= alen,
            forall|j: int| 0 <= j < i ==> a@[j] == b@[j],
        decreases alen - i,
    {
        if a.get_char(i) != b.get_char(i) {
            return false;
        }
        i = i + 1;
    }
    assert(a@ =~= b@);
    true
}

/// The command that names `verb`, for the unit `name` if there is one.
fn named_command(verb: Verb, name: Option<&str>) -> (cmd: Command)
    ensures
        names_unit(cmd, verb, match name {
            Some(n) => Some(n@),
            None => None,
        }),
{
    match name {
        None => Command::MissingName(verb),
        Some(n) => match verb {
            Verb::Start => Command::Start(n.to_owned()),
            Verb::Stop => Command::Stop(n.to_owned()),
            Verb::Status => Command::Status(n.to_owned()),
        },
    }
}

/// Understands the line `line`, without its newline.
pub fn parse_command(line: &[u8]) -> (cmd: Command)
    ensures
        parses(line@, cmd),
{
    if line.len() == 0 {
        return Command::Ignored;
    }
    let text = match utf8_text(line) {
        Some(text) => text,
        None => return Command::Ignored,
    };
    proof {
        encode_utf8_decode_utf8(text@);
    }
    let ghost s = decode_utf8(line@);
    assert(text@ == s);
    let len = text.unicode_len();
    let tab = find_tab(text, 0, len);
    let (verb, name) = match tab {
        Some(i) => {
            assert(is_first_tab(s, i as int));
            assert forall|k: int| is_first_tab(s, k) implies k == i by {
                if k < i {
                    assert(s[k] != '\t');
                } else if k > i {
                    assert(s[i as int] != '\t');
                }
            }
            let verb = text.substring_char(0, i);
            let rest_tab = find_tab(text, i + 1, len);
            let end = match rest_tab {
                Some(j) => j,
                None => len,
            };
            let name = text.substring_char(i + 1, end);
            proof {
                let rest = s.subrange(i + 1, len as int);
                assert(after_first_tab(s) == Some(rest));
                match rest_tab {
                    Some(j) => {
                        assert(is_first_tab(rest, j - i - 1));
                        assert forall|k: int| is_first_tab(rest, k) implies k == j - i - 1 by {
                            if k < j - i - 1 {
                                assert(rest[k] == s[k + i + 1]);
                            } else if k > j - i - 1 {
                                assert(rest[j - i - 1] == s[j as int]);
                            }
                        }
                        assert(first_field(rest) =~= s.subrange(i + 1, j as int));
                    },
                    None => {
                        assert forall|k: int| !is_first_tab(rest, k) by {
                            if 0 <= k < rest.len() {
                                assert(rest[k] == s[k + i + 1]);
                            }
                        }
                        assert(first_field(rest) =~= rest);
                    },
                }
                assert(second_field(s) == Some(name@));
                assert(first_field(s) == verb@);
            }
            (verb, Some(name))
        },
        None => {
            assert forall|k: int| !is_first_tab(s, k) by {}
            (text, None)
        },
    };
    assert(first_field(s) == verb@);
    if same_text(verb, "start") {
        named_command(Verb::Start, name)
    } else if same_text(verb, "stop") {
        named_command(Verb::Stop, name)
    } else if same_text(verb, "status") {
        named_command(Verb::Status, name)
    } else {
        Command::Unknown
    }
}


// ----- replies -----

/// The text of `verb` in the protocol.
pub open spec fn verb_text(verb: Verb) -> Seq<char> {
    match verb {
        Verb::Start => "start"@,
        Verb::Stop => "stop"@,
        Verb::Status => "status"@,
    }
}

/// The text that describes a unit's status: its process id, or `dead`, and
/// whether it is to be alive, as `Display` writes them.
pub open spec fn status_bytes(status: UnitStatus) -> Seq<u8> {
    let pid_part = match status.pid {
        Some(p) => encode_utf8("pid="@) + signed_decimal(p as int) + encode_utf8("\t"@),
        None => encode_utf8("pid=dead\t"@),
    };
    let alive_part = if status.want_alive {
        encode_utf8("true"@)
    } else {
        encode_utf8("false"@)
    };
    pid_part + encode_utf8("want_alive="@) + alive_part
}

/// `s` ends with `suffix`.
pub open spec fn ends_with(s: Seq<u8>, suffix: Seq<u8>) -> bool {
    s.len() >= suffix.len() && s.subrange(s.len() - suffix.len(), s.len() as int) == suffix
}

/// `s` begins with `prefix`.
pub open spec fn starts_with(s: Seq<u8>, prefix: Seq<u8>) -> bool {
    s.len() >= prefix.len() && s.subrange(0, prefix.len() as int) == prefix
}

/// The status text reports the process and the wish separately: it begins
/// with `pid=` and the decimal process id, or with `pid=dead`, as the process
/// is, and it ends with `want_alive=true` exactly when the unit is wanted
/// alive, and with `want_alive=false` otherwise, whatever its process is.
pub proof fn lemma_status_reports_wish_and_process(status: UnitStatus)
    ensures
        ends_with(status_bytes(status), encode_utf8("want_alive="@) + encode_utf8(
            if status.want_alive { "true"@ } else { "false"@ },
        )),
        status.pid is None ==> starts_with(status_bytes(status), encode_utf8("pid=dead\t"@)),
        status.pid matches Some(p) ==> starts_with(
            status_bytes(status),
            encode_utf8("pid="@) + signed_decimal(p as int) + encode_utf8("\t"@),
        ),
{
    let pid_part = match status.pid {
        Some(p) => encode_utf8("pid="@) + signed_decimal(p as int) + encode_utf8("\t"@),
        None => encode_utf8("pid=dead\t"@),
    };
    let tail = encode_utf8("want_alive="@) + encode_utf8(if status.want_alive { "true"@ } else { "false"@ });
    let b = status_bytes(status);
    assert(b =~= pid_part + tail);
    assert(b.subrange(b.len() - tail.len(), b.len() as int) =~= tail);
    assert(b.subrange(0, pid_part.len() as int) =~= pid_part);
}

/// The line that answers with `reply`.
pub open spec fn reply_bytes(reply: Reply) -> Seq<u8> {
    match reply {
        Reply::Success => encode_utf8("ok\n"@),
        Reply::Error(message) => encode_utf8("error: "@) + encode_utf8(message@) + encode_utf8("\n"@),
        Reply::Status(status) => encode_utf8("ok: "@) + status_bytes(status) + encode_utf8("\n"@),
        Reply::Unknown => encode_utf8("unkn\n"@),
    }
}

/// A session waits for the connection's input only while no reply is
/// pending: the room kept for a reply is the whole buffer.
pub proof fn lemma_one_reply_pending(output: Seq<u8>)
    ensures
        output_full(output) <==> output.len() > 0,
{
}

/// Every reply is one line: it ends with a newline.
pub proof fn lemma_reply_ends_line(reply: Reply)
    ensures
        reply_bytes(reply).len() > 0,
        reply_bytes(reply).last() == 10u8,
{
    reveal_strlit("\n");
    reveal_strlit("ok\n");
    reveal_strlit("unkn\n");
    let nl = "\n"@;
    assert(is_ascii_chars(nl));
    is_ascii_chars_encode_utf8(nl);
    match reply {
        Reply::Success => {
            assert(is_ascii_chars("ok\n"@));
            is_ascii_chars_encode_utf8("ok\n"@);
        },
        Reply::Unknown => {
            assert(is_ascii_chars("unkn\n"@));
            is_ascii_chars_encode_utf8("unkn\n"@);
        },
        Reply::Error(m) => {
            let b = reply_bytes(reply);
            assert(b == encode_utf8("error: "@) + encode_utf8(m@) + encode_utf8(nl));
        },
        Reply::Status(st) => {
            let b = reply_bytes(reply);
            assert(b == encode_utf8("ok: "@) + status_bytes(st) + encode_utf8(nl));
        },
    }
}

/// Writes the status of a unit.
pub fn serialize_unit_status(status: &UnitStatus) -> (r: Vec<u8>)
    ensures
        r@ == status_bytes(*status),
{
    let mut out: Vec<u8> = Vec::new();
    match status.pid {
        Some(pid) => {
            append_str(&mut out, "pid=");
            append_signed_decimal(&mut out, pid);
            append_str(&mut out, "\t");
        },
        None => {
            append_str(&mut out, "pid=dead\t");
        },
    }
    append_str(&mut out, "want_alive=");
    if status.want_alive {
        append_str(&mut out, "true");
    } else {
        append_str(&mut out, "false");
    }
    assert(out@ =~= status_bytes(*status));
    out
}

impl Reply {
    /// The reply to a command that succeeded or failed with `result`.
    pub fn from_result<T>(result: Result<T, Error>) -> (r: Reply)
        ensures
            match result {
                Result::Ok(_) => r is Success,
                Result::Err(e) => r matches Reply::Error(m) && e.describes(m@),
            },
    {
        match result {
            Result::Ok(_) => Reply::Success,
            Result::Err(e) => Reply::Error(e.message()),
        }
    }

    /// The reply to `status` about a unit that `status` describes, if it exists.
    pub fn for_status(status: Option<UnitStatus>) -> (r: Reply)
        ensures
            match status {
                Some(s) => r matches Reply::Status(t) && t == s,
                None => r matches Reply::Error(m) && m@ == "not found"@,
            },
    {
        match status {
            Some(s) => Reply::Status(s),
            None => Reply::Error("not found".to_owned()),
        }
    }

    /// The reply to a command with `verb` but without a unit name.
    pub fn missing_name(verb: Verb) -> (r: Reply)
        ensures
            r matches Reply::Error(m) && m@ == "expected a unit name after '"@ + verb_text(verb) + "'"@,
    {
        let text = match verb {
            Verb::Start => "expected a unit name after 'start'",
            Verb::Stop => "expected a unit name after 'stop'",
            Verb::Status => "expected a unit name after 'status'",
        };
        proof {
            reveal_strlit("expected a unit name after '");
            reveal_strlit("'");
            reveal_strlit("start");
            reveal_strlit("stop");
            reveal_strlit("status");
            reveal_strlit("expected a unit name after 'start'");
            reveal_strlit("expected a unit name after 'stop'");
            reveal_strlit("expected a unit name after 'status'");
        }
        let r = Reply::Error(text.to_owned());
        assert(text@ =~= "expected a unit name after '"@ + verb_text(verb) + "'"@);
        r
    }

    /// The reply to input that filled the buffer without ending a line.
    pub fn command_too_long() -> (r: Reply)
        ensures
            r matches Reply::Error(m) && m@ == "command too long"@,
    {
        Reply::Error("command too long".to_owned())
    }

    /// The line that answers with this reply.
    pub fn to_bytes(&self) -> (r: Vec<u8>)
        ensures
            r@ == reply_bytes(*self),
    {
        let mut out: Vec<u8> = Vec::new();
        match self {
            Reply::Success => {
                append_str(&mut out, "ok\n");
            },
            Reply::Error(message) => {
                append_str(&mut out, "error: ");
                append_str(&mut out, message.as_str());
                append_str(&mut out, "\n");
            },
            Reply::Status(status) => {
                append_str(&mut out, "ok: ");
                let body = serialize_unit_status(status);
                append_bytes(&mut out, body.as_slice());
                append_str(&mut out, "\n");
            },
            Reply::Unknown => {
                append_str(&mut out, "unkn\n");
            },
        }
        assert(out@ =~= reply_bytes(*self));
        out
    }
}


/// What a command asks of the supervisor: a reply that is known at once,
/// starting or stopping a unit (whose outcome makes the reply), or nothing.
#[derive(Debug)]
pub enum Action {
    Answer(Reply),
    Start(String),
    Stop(String),
    Nothing,
}

/// What the supervisor does about `cmd`, with `manager` holding the units:
/// `status` is answered from the unit's record, a complaint or an unknown
/// verb is answered at once, `start` and `stop` are to be carried out, and an
/// ignored line gets nothing.
pub fn action_for(cmd: Command, manager: &UnitManager) -> (a: Action)
    requires
        manager.wf(),
    ensures
        match cmd {
            Command::Start(n) => a == Action::Start(n),
            Command::Stop(n) => a == Action::Stop(n),
            Command::Status(n) => match manager@.key_of(n@) {
                Some(k) => a matches Action::Answer(Reply::Status(s)) && s.pid == manager@.units[k].pid
                    && s.want_alive == manager@.units[k].want_alive,
                None => a matches Action::Answer(Reply::Error(m)) && m@ == "not found"@,
            },
            Command::MissingName(v) => a matches Action::Answer(Reply::Error(m))
                && m@ == "expected a unit name after '"@ + verb_text(v) + "'"@,
            Command::Unknown => a matches Action::Answer(Reply::Unknown),
            Command::Ignored => a is Nothing,
        },
{
    match cmd {
        Command::Start(n) => Action::Start(n),
        Command::Stop(n) => Action::Stop(n),
        Command::Status(n) => Action::Answer(Reply::for_status(manager.status(n.as_str()))),
        Command::MissingName(v) => Action::Answer(Reply::missing_name(v)),
        Command::Unknown => Action::Answer(Reply::Unknown),
        Command::Ignored => Action::Nothing,
    }
}

// ----- the session -----

/// `i` is the index of the first newline in `bytes`.
pub open spec fn is_first_newline(bytes: Seq<u8>, i: int) -> bool {
    &&& 0 <= i < bytes.len()
    &&& bytes[i] == 10u8
    &&& forall|j: int| 0 <= j < i ==> bytes[j] != 10u8
}

/// The index of the first newline in `bytes`, if any.
fn find_newline(bytes: &[u8]) -> (r: Option<usize>)
    ensures
        match r {
            Some(i) => is_first_newline(bytes@, i as int),
            None => forall|j: int| 0 <= j < bytes@.len() ==> bytes@[j] != 10u8,
        },
{
    let mut i: usize = 0;
    while i < bytes.len()
        invariant
            i <= bytes@.len(),
            forall|j: int| 0 <= j < i ==> bytes@[j] != 10u8,
        decreases bytes@.len() - i,
    {
        if bytes[i] == 10u8 {
            return Some(i);
        }
        i = i + 1;
    }
    None
}

/// What a session holds: the input not yet handled, the output not yet sent.
pub struct ControlSessionView {
    pub input: Seq<u8>,
    pub output: Seq<u8>,
}

/// What the session can do with its connection's input.
#[derive(Debug)]
pub enum InputRequest {
    /// The output is too full: read nothing for now.
    Wait,
    /// The input buffer is full: the connection is to be closed.
    Close,
    /// Read at most this many bytes.
    Read(usize),
}

/// One connection on the control socket.
pub struct ControlSession {
    input: Vec<u8>,
    output: Vec<u8>,
}

impl View for ControlSession {
    type V = ControlSessionView;

    closed spec fn view(&self) -> ControlSessionView {
        ControlSessionView { input: self.input@, output: self.output@ }
    }
}

impl ControlSession {
    /// Both buffers fit in their room.
    pub open spec fn wf(&self) -> bool {
        &&& self@.input.len() <= BUF_LEN
        &&& self@.output.len() <= BUF_LEN
    }

    /// A session with empty buffers.
    pub fn new() -> (s: ControlSession)
        ensures
            s.wf(),
            s@.input.len() == 0,
            s@.output.len() == 0,
    {
        ControlSession { input: Vec::new(), output: Vec::new() }
    }

    /// The events to wait for: output while there is output to send, input
    /// while the output buffer has room for a reply.
    pub fn events(&self) -> (r: PollEvents)
        ensures
            r.bits == ((if self@.output.len() > 0 { OUTPUT_BITS } else { 0i16 }) | (if !output_full(
                self@.output,
            ) {
                INPUT_BITS
            } else {
                0i16
            })),
    {
        let mut events = PollEvents::none();
        if self.output.len() > 0 {
            events = events | PollEvents::output();
        }
        if !self.output_buf_is_full() {
            events = events | PollEvents::input();
        }
        proof {
            let o: i16 = if self@.output.len() > 0 { OUTPUT_BITS } else { 0i16 };
            let n: i16 = if !output_full(self@.output) { INPUT_BITS } else { 0i16 };
            assert((0i16 | o) == o) by (bit_vector);
            assert((0i16 | n) == n) by (bit_vector);
            assert((o | 0i16) == o) by (bit_vector);
            assert((0i16 | 0i16) == 0i16) by (bit_vector);
        }
        events
    }

    fn output_buf_is_full(&self) -> (r: bool)
        ensures
            r == output_full(self@.output),
    {
        self.output.len() > BUF_LEN - MAX_RESPONSE_LEN
    }

    /// The output not yet sent.
    pub fn pending_output(&self) -> (r: &[u8])
        ensures
            r@ == self@.output,
    {
        self.output.as_slice()
    }

    /// Records that the first `written` bytes of the output were sent.
    pub fn output_written(&mut self, written: usize)
        requires
            old(self).wf(),
            written <= old(self)@.output.len(),
        ensures
            final(self).wf(),
            final(self)@.input == old(self)@.input,
            final(self)@.output == old(self)@.output.subrange(written as int, old(self)@.output.len() as int),
    {
        let rest = slice_to_vec(slice_subrange(self.output.as_slice(), written, self.output.len()));
        self.output = rest;
    }

    /// What to do about the connection's input.
    pub fn input_request(&self) -> (r: InputRequest)
        requires
            self.wf(),
        ensures
            output_full(self@.output) ==> r is Wait,
            !output_full(self@.output) && self@.input.len() >= BUF_LEN ==> r is Close,
            !output_full(self@.output) && self@.input.len() < BUF_LEN ==> (r matches InputRequest::Read(n)
                && n == BUF_LEN - self@.input.len()),
    {
        if self.output_buf_is_full() {
            InputRequest::Wait
        } else if self.input.len() >= BUF_LEN {
            InputRequest::Close
        } else {
            InputRequest::Read(BUF_LEN - self.input.len())
        }
    }

    /// Records bytes that were read from the connection.
    pub fn input_received(&mut self, data: &[u8])
        requires
            old(self).wf(),
            old(self)@.input.len() + data@.len() <= BUF_LEN,
        ensures
            final(self).wf(),
            final(self)@.input == old(self)@.input + data@,
            final(self)@.output == old(self)@.output,
    {
        append_bytes(&mut self.input, data);
    }

    /// Takes the next complete line of input, while the output has room for
    /// its reply, and says what it asks for.
    pub fn next_command(&mut self) -> (r: Option<Command>)
        requires
            old(self).wf(),
        ensures
            final(self).wf(),
            final(self)@.output == old(self)@.output,
            (output_full(old(self)@.output) || !old(self)@.input.contains(10u8)) ==> r is None
                && final(self)@ == old(self)@,
            !output_full(old(self)@.output) && old(self)@.input.contains(10u8) ==> (r matches Some(cmd)
                && exists|i: int| is_first_newline(old(self)@.input, i)
                    && parses(old(self)@.input.subrange(0, i), cmd)
                    && final(self)@.input == old(self)@.input.subrange(i + 1, old(self)@.input.len() as int)),
    {
        if self.output_buf_is_full() {
            return None;
        }
        let i = match find_newline(self.input.as_slice()) {
            Some(i) => i,
            None => {
                assert(!self.input@.contains(10u8));
                return None;
            },
        };
        let cmd = parse_command(slice_subrange(self.input.as_slice(), 0, i));
        let rest = slice_to_vec(slice_subrange(self.input.as_slice(), i + 1, self.input.len()));
        self.input = rest;
        Some(cmd)
    }

    /// Whether the input filled its buffer without a complete line.
    pub fn input_overflowed(&self) -> (r: bool)
        ensures
            r == (self@.input.len() == BUF_LEN),
    {
        self.input.len() == BUF_LEN
    }

    /// Queues the line of `reply`, if it fits into the output buffer; else
    /// changes nothing and returns `Err`.
    pub fn write_reply(&mut self, reply: &Reply) -> (r: Result<(), ()>)
        requires
            old(self).wf(),
        ensures
            final(self).wf(),
            final(self)@.input == old(self)@.input,
            r is Ok <==> old(self)@.output.len() + reply_bytes(*reply).len() <= BUF_LEN,
            r is Ok ==> final(self)@.output == old(self)@.output + reply_bytes(*reply),
            r is Err ==> final(self)@ == old(self)@,
    {
        let bytes = reply.to_bytes();
        if bytes.len() > BUF_LEN - self.output.len() {
            return Err(());
        }
        append_bytes(&mut self.output, bytes.as_slice());
        Ok(())
    }
}

} // verus!
