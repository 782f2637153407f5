pub mod framing;

use vstd::prelude::*;
use vstd::string::StringExecFns;

verus! {

/// The identity of an agent: a name compared, ordered and hashed by its text.
#[derive(Debug, PartialEq, Eq, PartialOrd, Ord, Hash)]
pub struct AgentId {
    name: String,
}

impl View for AgentId {
    type V = Seq<char>;

    closed spec fn view(&self) -> Seq<char> {
        self.name@
    }
}

impl Clone for AgentId {
    fn clone(&self) -> (r: AgentId)
        ensures
            r == *self,
    {
        AgentId { name: self.name.clone() }
    }
}

impl AgentId {
    /// An identity with the given name.
    pub fn new(name: &str) -> (r: AgentId)
        ensures
            r@ == name@,
    {
        AgentId { name: String::from_str(name) }
    }

    /// The identity of the process numbered `pid` on the host named `host`:
    /// `<host>+<pid>`.
    pub fn for_process(host: &str, pid: u32) -> (r: AgentId)
        ensures
            r@ == process_name(host@, pid as nat),
    {
        let mut name = String::from_str(host);
        name.append("+");
        proof {
            reveal_strlit("+");
        }
        append_decimal(&mut name, pid);
        AgentId { name }
    }

    /// The identity of this process, numbered `pid`, on this machine: its
    /// host name (or a placeholder), `+`, the process number.
    pub fn new_local(pid: u32) -> (r: AgentId)
        ensures
            exists|host: Seq<char>| r@ == process_name(host, pid as nat),
    {
        let host = guess_hostname();
        AgentId::for_process(host.as_str(), pid)
    }

    /// The name of this identity.
    pub fn name(&self) -> (r: &str)
        ensures
            r@ == self@,
    {
        self.name.as_str()
    }
}

/// The decimal digit `d`.
pub open spec fn digit(d: nat) -> char {
    seq!['0', '1', '2', '3', '4', '5', '6', '7', '8', '9'][d as int]
}

/// `n` written in decimal, without leading zeros.
pub open spec fn decimal(n: nat) -> Seq<char>
    decreases n,
{
    if n < 10 {
        seq![digit(n)]
    } else {
        decimal(n / 10).push(digit(n % 10))
    }
}

/// The name of a process: host name, `+`, process number.
pub open spec fn process_name(host: Seq<char>, pid: nat) -> Seq<char> {
    host + seq!['+'] + decimal(pid)
}

/// The text of the decimal digit `d`.
fn digit_text(d: u32) -> (r: &'static str)
    requires
        d < 10,
    ensures
        r@ == seq![digit(d as nat)],
{
    proof {
        reveal_strlit("0");
        reveal_strlit("1");
        reveal_strlit("2");
        reveal_strlit("3");
        reveal_strlit("4");
        reveal_strlit("5");
        reveal_strlit("6");
        reveal_strlit("7");
        reveal_strlit("8");
        reveal_strlit("9");
    }
    match d {
        0 => "0",
        1 => "1",
        2 => "2",
        3 => "3",
        4 => "4",
        5 => "5",
        6 => "6",
        7 => "7",
        8 => "8",
        _ => "9",
    }
}

/// Writes `n` in decimal at the end of `out`.
fn append_decimal(out: &mut String, n: u32)
    ensures
        final(out)@ == old(out)@ + decimal(n as nat),
    decreases n,
{
    if n >= 10 {
        append_decimal(out, n / 10);
    }
    out.append(digit_text(n % 10));
    proof {
        if n >= 10 {
            assert(decimal(n as nat) == decimal((n / 10) as nat).push(digit((n % 10) as nat)));
        }
        assert(final(out)@ =~= old(out)@ + decimal(n as nat));
    }
}

/// Relies on `hostname::get`: the host name of this machine, `None` where it
/// could not be read, `Some(None)` where it is not valid Unicode. Nothing is
/// known of the name itself.
#[verifier::external_body]
fn system_hostname() -> (r: Option<Option<String>>)
{
    match hostname::get() {
        Ok(h) => Some(h.into_string().ok()),
        Err(_) => None,
    }
}

/// The host name to name this process by: the one read, or a placeholder
/// that says why there is none.
pub fn host_label(read: Option<Option<String>>) -> (r: String)
    ensures
        read matches Some(Some(h)) ==> r@ == h@,
        read matches Some(None) ==> r@ == "Invalid Unicode?"@,
        read is None ==> r@ == "Unknown?"@,
{
    match read {
        Some(Some(h)) => h,
        Some(None) => String::from_str("Invalid Unicode?"),
        None => String::from_str("Unknown?"),
    }
}

/// The host name of this machine, or a placeholder where it cannot be read.
fn guess_hostname() -> String {
    host_label(system_hostname())
}

/// The lifecycle of a connection as seen by its owner.
pub enum Event {
    ConnectionEstablished,
    ConnectionTerminated,
}

} // verus!
