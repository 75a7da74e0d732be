//! The command lines of the supervisor and of its control client, and the
//! client's side of the protocol.

use vstd::prelude::*;
use vstd::string::*;
use vstd::utf8::*;
use crate::control_session::{Command, Verb, parses, names_unit, verb_text, first_field, second_field, is_first_tab, after_first_tab};
use crate::paths::{path_push, push_path};
use crate::text::{append_bytes, append_str};

verus! {

/// The supervisor's options.
pub struct Args {
    pub control_socket: Option<String>,
    pub units: String,
    pub help: bool,
    pub kill_on_exit: bool,
}

impl Args {
    /// The options from what the option parser found: the control socket's
    /// path, whether help and kill-on-exit were asked for, and the free
    /// arguments. Exactly one free argument, the units' directory, is
    /// expected; without it only a request for help is accepted, with an
    /// empty directory.
    pub fn from_options(control_socket: Option<String>, help: bool, kill_on_exit: bool, free: Vec<String>) -> (r: Result<Args, ()>)
        ensures
            free@.len() == 1 ==> (r matches Ok(a) && a.units@ == free@[0]@ && a.help == help
                && a.kill_on_exit == kill_on_exit && a.control_socket == control_socket),
            free@.len() != 1 && !help ==> r is Err,
            free@.len() != 1 && help ==> (r matches Ok(a) && a.units@ == Seq::<char>::empty() && a.help
                && a.kill_on_exit == kill_on_exit && a.control_socket == control_socket),
    {
        let mut free = free;
        if free.len() == 1 {
            let units = match free.pop() {
                Some(u) => u,
                None => String::new(),
            };
            Ok(Args { control_socket, units, help, kill_on_exit })
        } else if !help {
            Err(())
        } else {
            Ok(Args { control_socket, units: String::new(), help, kill_on_exit })
        }
    }

    /// Whether only the usage text was asked for.
    pub fn need_help(&self) -> (r: bool)
        ensures
            r == self.help,
    {
        self.help
    }
}

/// The control socket's path: the one given, else `control.sock` in the
/// units' directory.
pub open spec fn control_sock_path(args: Args) -> Seq<char> {
    match args.control_socket {
        Some(path) => path@,
        None => path_push(path_push(Seq::empty(), args.units@), "control.sock"@),
    }
}

/// The control socket's path.
pub fn get_control_sock_path(args: &Args) -> (r: String)
    ensures
        r@ == control_sock_path(*args),
{
    match &args.control_socket {
        Some(path) => path.clone(),
        None => {
            let p = push_path(String::new(), args.units.as_str());
            push_path(p, "control.sock")
        },
    }
}

/// Whether an entry of the units' directory names a unit: names with a dot
/// are not units.
pub fn is_unit_name(name: &str) -> (r: bool)
    ensures
        r == !name@.contains('.'),
{
    let len = name.unicode_len();
    let mut i: usize = 0;
    while i < len
        invariant
            len == name@.len(),
            i <= len,
            forall|j: int| 0 <= j < i ==> name@[j] != '.',
        decreases len - i,
    {
        if name.get_char(i) == '.' {
            return false;
        }
        i = i + 1;
    }
    true
}

// ----- the control client -----

/// The control client's options.
pub struct ClientArgs {
    pub help: bool,
    pub control_socket: String,
    pub free_args: Vec<String>,
}

impl ClientArgs {
    /// The options from what the option parser found; the parser insists on
    /// the control socket, so it is there.
    pub fn from_options(help: bool, control_socket: Option<String>, free_args: Vec<String>) -> (r: ClientArgs)
        requires
            control_socket is Some,
        ensures
            r.help == help,
            r.control_socket@ == control_socket->0@,
            r.free_args@ == free_args@,
    {
        let control_socket = match control_socket {
            Some(s) => s,
            None => String::new(),
        };
        ClientArgs { help, control_socket, free_args }
    }

    /// Whether only the usage text was asked for.
    pub fn need_help(&self) -> (r: bool)
        ensures
            r == self.help,
    {
        self.help
    }
}

/// The fields joined by tabs.
pub open spec fn join_tabs(fields: Seq<Seq<char>>) -> Seq<char>
    decreases fields.len(),
{
    if fields.len() == 0 {
        Seq::empty()
    } else if fields.len() == 1 {
        fields[0]
    } else {
        join_tabs(fields.drop_last()) + seq!['\t'] + fields.last()
    }
}

/// The line that the client sends: its free arguments, joined by tabs, and
/// a newline.
pub fn request_line(fields: &Vec<String>) -> (r: Vec<u8>)
    ensures
        r@ == encode_utf8(join_tabs(fields@.map_values(|f: String| f@))) + encode_utf8("\n"@),
{
    let ghost views = fields@.map_values(|f: String| f@);
    let mut joined = String::new();
    let mut i: usize = 0;
    while i < fields.len()
        invariant
            i <= fields@.len(),
            views == fields@.map_values(|f: String| f@),
            joined@ == join_tabs(views.take(i as int)),
        decreases fields@.len() - i,
    {
        if i != 0 {
            joined.append("\t");
            proof {
                reveal_strlit("\t");
            }
        }
        joined.append(fields[i].as_str());
        proof {
            assert(views.take(i + 1).drop_last() =~= views.take(i as int));
            if i == 0 {
                assert(views.take(1) =~= seq![fields@[0]@]);
            }
        }
        i = i + 1;
    }
    assert(views.take(fields@.len() as int) =~= views);
    let mut out: Vec<u8> = Vec::new();
    append_str(&mut out, joined.as_str());
    append_str(&mut out, "\n");
    out
}

/// Whether the client has read the whole reply: the read found the end of
/// the stream, or the reply ends in a newline, or the buffer is full.
pub fn response_complete(buf: &[u8], filled: usize, bytes_read: usize) -> (r: bool)
    requires
        filled <= buf@.len(),
    ensures
        r == (bytes_read == 0 || filled >= buf@.len() || (filled > 0 && buf@[filled - 1] == 10u8)),
{
    bytes_read == 0 || filled >= buf.len() || (filled > 0 && buf[filled - 1] == 10u8)
}

/// The reply as the client shows it: each tab turned into a space.
pub fn render_response(buf: &[u8]) -> (r: Vec<u8>)
    ensures
        r@.len() == buf@.len(),
        forall|i: int| 0 <= i < buf@.len() ==> #[trigger] r@[i] == (if buf@[i] == 9u8 { 32u8 } else { buf@[i] }),
{
    let mut out: Vec<u8> = Vec::new();
    let mut i: usize = 0;
    while i < buf.len()
        invariant
            i <= buf@.len(),
            out@.len() == i,
            forall|j: int| 0 <= j < i ==> #[trigger] out@[j] == (if buf@[j] == 9u8 { 32u8 } else { buf@[j] }),
        decreases buf@.len() - i,
    {
        let b = buf[i];
        out.push(if b == 9u8 { 32u8 } else { b });
        i = i + 1;
    }
    out
}


/// What the client sends for a verb and a unit name without tabs is, up to
/// its newline, understood by the supervisor as that verb for that unit.
pub proof fn lemma_request_is_understood(verb: Verb, name: Seq<char>, cmd: Command)
    requires
        !name.contains('\t'),
    ensures
        parses(encode_utf8(join_tabs(seq![verb_text(verb), name])), cmd) == names_unit(cmd, verb, Some(name)),
{
    reveal_strlit("start");
    reveal_strlit("stop");
    reveal_strlit("status");
    reveal_with_fuel(join_tabs, 2);
    let v = verb_text(verb);
    let s = join_tabs(seq![v, name]);
    assert(seq![v, name].drop_last() =~= seq![v]);
    assert(s == v + seq!['\t'] + name);
    assert(v.len() > 0);
    assert(forall|j: int| 0 <= j < v.len() ==> v[j] != '\t');
    let line = encode_utf8(s);
    encode_utf8_valid_utf8(s);
    encode_utf8_decode_utf8(s);
    encode_utf8_first_scalar(s);
    assert(line.len() > 0);
    let i = v.len() as int;
    assert(s[i] == '\t');
    assert(is_first_tab(s, i));
    assert forall|k: int| is_first_tab(s, k) implies k == i by {
        if k < i {
            assert(s[k] == v[k]);
        } else if k > i {
            assert(s[i] != '\t');
        }
    }
    assert(first_field(s) =~= v);
    let rest = s.subrange(i + 1, s.len() as int);
    assert(rest =~= name);
    assert(after_first_tab(s) == Some(rest));
    assert forall|k: int| !is_first_tab(name, k) by {
        if 0 <= k < name.len() && name[k] == '\t' {
            assert(name.contains('\t'));
        }
    }
    assert(first_field(name) == name);
    assert(second_field(s) == Some(name));
    assert("start"@[2] != "stop"@[2]);
    assert("start"@ != "stop"@);
    assert("start"@[3] != "status"@[3]);
    assert("start"@ != "status"@);
    assert("stop"@[2] != "status"@[2]);
    assert("stop"@ != "status"@);
}

} // verus!
