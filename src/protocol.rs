//! The wire protocol: a request line `<COMMAND> <KEY> [<VALUE>]` and the
//! single reply line a node sends back.

use vstd::prelude::*;
use vstd::string::*;
use crate::text::{parse_i32, parse_i32_spec, split_bytes, split_on, SPACE};

verus! {

/// A well-formed request, with the key and value it carries.
pub enum Request {
    Store { key: Vec<u8>, value: i32 },
    Fetch { key: Vec<u8> },
    Delete { key: Vec<u8> },
}

/// The meaning of a request: an operation on one key of a table.
pub enum Op {
    Store(Seq<u8>, i32),
    Fetch(Seq<u8>),
    Delete(Seq<u8>),
}

impl View for Request {
    type V = Op;

    open spec fn view(&self) -> Op {
        match self {
            Request::Store { key, value } => Op::Store(key@, *value),
            Request::Fetch { key } => Op::Fetch(key@),
            Request::Delete { key } => Op::Delete(key@),
        }
    }
}

/// What a node answers to one request.
#[derive(Clone, Copy, Debug, PartialEq, Eq, Structural)]
pub enum Reply {
    /// A `SET` stored its value, or a `DEL` removed its key.
    Done { node: usize },
    /// A `GET` found its key.
    Value { value: i32, node: usize },
    /// A `GET` or `DEL` named a key that is not held.
    KeyNotFound,
    /// A `SET` without exactly a key and a value, or whose value is no integer.
    InvalidSet,
    /// A `GET` without exactly one key.
    InvalidGet,
    /// A `DEL` without exactly one key.
    InvalidDel,
    /// A command that is none of `SET`, `GET` and `DEL`.
    InvalidCommand,
}

/// The bytes of `SET`.
pub open spec fn set_word() -> Seq<u8> {
    seq![83u8, 69u8, 84u8]
}

/// The bytes of `GET`.
pub open spec fn get_word() -> Seq<u8> {
    seq![71u8, 69u8, 84u8]
}

/// The bytes of `DEL`.
pub open spec fn del_word() -> Seq<u8> {
    seq![68u8, 69u8, 76u8]
}

/// Whether `w` is one of the three command words.
pub open spec fn is_command_word(w: Seq<u8>) -> bool {
    w == set_word() || w == get_word() || w == del_word()
}

/// The request that a list of tokens makes, or the error reply it earns.
pub open spec fn parse_tokens(tokens: Seq<Seq<u8>>) -> Result<Op, Reply> {
    let command = tokens[0];
    if command == set_word() {
        if tokens.len() == 3 {
            match parse_i32_spec(tokens[2]) {
                Some(v) => Ok(Op::Store(tokens[1], v)),
                None => Err(Reply::InvalidSet),
            }
        } else {
            Err(Reply::InvalidSet)
        }
    } else if command == get_word() {
        if tokens.len() == 2 {
            Ok(Op::Fetch(tokens[1]))
        } else {
            Err(Reply::InvalidGet)
        }
    } else if command == del_word() {
        if tokens.len() == 2 {
            Ok(Op::Delete(tokens[1]))
        } else {
            Err(Reply::InvalidDel)
        }
    } else {
        Err(Reply::InvalidCommand)
    }
}

/// The request that a line makes, split on single spaces.
pub open spec fn parse_line(line: Seq<u8>) -> Result<Op, Reply> {
    parse_tokens(split_on(line, SPACE))
}

/// Whether `t` is the three-byte word `a b c`.
pub fn is_word(t: &[u8], a: u8, b: u8, c: u8) -> (r: bool)
    ensures
        r == (t@ == seq![a, b, c]),
{
    let r = t.len() == 3 && t[0] == a && t[1] == b && t[2] == c;
    proof {
        if r {
            assert(t@ =~= seq![a, b, c]);
        }
    }
    r
}

/// Reads a request line.
pub fn parse_request(line: &[u8]) -> (r: Result<Request, Reply>)
    ensures
        match r {
            Ok(q) => parse_line(line@) == Ok::<Op, Reply>(q@),
            Err(e) => parse_line(line@) == Err::<Op, Reply>(e),
        },
{
    let mut tokens = split_bytes(line, SPACE);
    let ghost spec_tokens = split_on(line@, SPACE);
    proof {
        crate::text::lemma_split_nonempty(line@, SPACE);
    }
    let n = tokens.len();
    // SET, GET and DEL in ASCII
    let is_set = is_word(tokens[0].as_slice(), 83, 69, 84);
    let is_get = is_word(tokens[0].as_slice(), 71, 69, 84);
    let is_del = is_word(tokens[0].as_slice(), 68, 69, 76);
    assert(tokens@[0]@ == spec_tokens[0]);
    if is_set {
        if n == 3 {
            match parse_i32(tokens[2].as_slice()) {
                Some(value) => {
                    assert(tokens@[1]@ == spec_tokens[1]);
                    let key = tokens.swap_remove(1);
                    Ok(Request::Store { key, value })
                },
                None => Err(Reply::InvalidSet),
            }
        } else {
            Err(Reply::InvalidSet)
        }
    } else if is_get {
        if n == 2 {
            assert(tokens@[1]@ == spec_tokens[1]);
            let key = tokens.swap_remove(1);
            Ok(Request::Fetch { key })
        } else {
            Err(Reply::InvalidGet)
        }
    } else if is_del {
        if n == 2 {
            assert(tokens@[1]@ == spec_tokens[1]);
            let key = tokens.swap_remove(1);
            Ok(Request::Delete { key })
        } else {
            Err(Reply::InvalidDel)
        }
    } else {
        Err(Reply::InvalidCommand)
    }
}

/// The character of a decimal digit.
pub open spec fn digit_char(d: nat) -> char {
    seq!['0', '1', '2', '3', '4', '5', '6', '7', '8', '9'][d as int]
}

/// `n` in decimal, without leading zeros.
pub open spec fn digits_text(n: nat) -> Seq<char>
    decreases n,
{
    if n < 10 {
        seq![digit_char(n)]
    } else {
        digits_text(n / 10).push(digit_char(n % 10))
    }
}

/// `n` in decimal, with a leading `-` when it is negative.
pub open spec fn decimal_text(n: int) -> Seq<char> {
    if n < 0 {
        seq!['-'] + digits_text((-n) as nat)
    } else {
        digits_text(n as nat)
    }
}

/// The line, newline included, that carries a reply.
pub open spec fn reply_text(r: Reply) -> Seq<char> {
    match r {
        Reply::Done { node } => "OK (from node "@ + digits_text(node as nat) + ")\n"@,
        Reply::Value { value, node } => decimal_text(value as int) + " (from node "@
            + digits_text(node as nat) + ")\n"@,
        Reply::KeyNotFound => "ERROR: Key not found\n"@,
        Reply::InvalidSet => "ERROR: Invalid SET command\n"@,
        Reply::InvalidGet => "ERROR: Invalid GET command\n"@,
        Reply::InvalidDel => "ERROR: Invalid DEL command\n"@,
        Reply::InvalidCommand => "ERROR: Invalid command\n"@,
    }
}

fn digit_str(d: u64) -> (r: &'static str)
    requires
        d < 10,
    ensures
        r@ == seq![digit_char(d as nat)],
{
    proof {
        reveal_strlit("0");
        reveal_strlit("1");
        reveal_strlit("2");
        reveal_strlit("3");
        reveal_strlit("4");
        reveal_strlit("5");
        reveal_strlit("6");
        reveal_strlit("7");
        reveal_strlit("8");
        reveal_strlit("9");
    }
    let r = if d == 0 {
        "0"
    } else if d == 1 {
        "1"
    } else if d == 2 {
        "2"
    } else if d == 3 {
        "3"
    } else if d == 4 {
        "4"
    } else if d == 5 {
        "5"
    } else if d == 6 {
        "6"
    } else if d == 7 {
        "7"
    } else if d == 8 {
        "8"
    } else {
        "9"
    };
    assert(r@ =~= seq![digit_char(d as nat)]);
    r
}

/// Appends `n` in decimal to `out`.
fn push_digits(out: &mut String, n: u64)
    ensures
        final(out)@ == old(out)@ + digits_text(n as nat),
    decreases n,
{
    if n >= 10 {
        push_digits(out, n / 10);
    }
    out.append(digit_str(n % 10));
    proof {
        if n >= 10 {
            assert(old(out)@ + digits_text(n as nat) =~= old(out)@ + digits_text((n / 10) as nat)
                + seq![digit_char((n % 10) as nat)]);
        } else {
            assert(digits_text(n as nat) =~= seq![digit_char((n % 10) as nat)]);
        }
    }
}

/// Appends `n` in decimal, signed, to `out`.
fn push_decimal(out: &mut String, n: i64)
    ensures
        final(out)@ == old(out)@ + decimal_text(n as int),
{
    if n < 0 {
        proof {
            reveal_strlit("-");
        }
        out.append("-");
        let magnitude: u64 = if n == i64::MIN {
            9223372036854775808u64
        } else {
            (0 - n) as u64
        };
        push_digits(out, magnitude);
        assert(final(out)@ =~= old(out)@ + decimal_text(n as int));
    } else {
        push_digits(out, n as u64);
    }
}

impl Reply {
    /// The line, newline included, that carries this reply.
    pub fn to_line(&self) -> (r: String)
        ensures
            r@ == reply_text(*self),
    {
        match self {
            Reply::Done { node } => {
                let mut out = String::from_str("OK (from node ");
                push_digits(&mut out, *node as u64);
                out.append(")\n");
                out
            },
            Reply::Value { value, node } => {
                let mut out = String::new();
                push_decimal(&mut out, *value as i64);
                out.append(" (from node ");
                push_digits(&mut out, *node as u64);
                out.append(")\n");
                out
            },
            Reply::KeyNotFound => String::from_str("ERROR: Key not found\n"),
            Reply::InvalidSet => String::from_str("ERROR: Invalid SET command\n"),
            Reply::InvalidGet => String::from_str("ERROR: Invalid GET command\n"),
            Reply::InvalidDel => String::from_str("ERROR: Invalid DEL command\n"),
            Reply::InvalidCommand => String::from_str("ERROR: Invalid command\n"),
        }
    }
}

} // verus!
