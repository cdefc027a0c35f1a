//! The routing decisions: which node a command line goes to, or why it goes
//! to none.

use vstd::prelude::*;
use vstd::string::*;
use crate::protocol::{is_command_word, is_word};
use crate::shard::{byte_sum, shard_of_bytes};
use crate::text::{split_bytes, split_on, SPACE};

verus! {

/// The ways a request can fail.
#[derive(Clone, Copy, Debug, PartialEq, Eq, Structural)]
pub enum ErrorKind {
    /// Too few tokens, or a command that is none of `SET`, `GET` and `DEL`.
    InvalidCommand,
    /// A `GET` or `DEL` named a key that is not held.
    KeyNotFound,
    /// The node that owns the key could not be reached.
    ConnectFailed,
}

/// The message shown for an error.
pub open spec fn error_message(e: ErrorKind) -> Seq<char> {
    match e {
        ErrorKind::InvalidCommand => "Invalid command"@,
        ErrorKind::KeyNotFound => "Key not found"@,
        ErrorKind::ConnectFailed => "Cannot connect to server"@,
    }
}

impl ErrorKind {
    /// The message shown for this error.
    pub fn message(&self) -> (r: String)
        ensures
            r@ == error_message(*self),
    {
        match self {
            ErrorKind::InvalidCommand => String::from_str("Invalid command"),
            ErrorKind::KeyNotFound => String::from_str("Key not found"),
            ErrorKind::ConnectFailed => String::from_str("Cannot connect to server"),
        }
    }
}

/// The node that a command line goes to among `shard_count` nodes: the shard
/// of its second token, when it has at least two and the first is a command.
pub open spec fn route_target(line: Seq<u8>, shard_count: nat) -> Result<nat, ErrorKind> {
    let tokens = split_on(line, SPACE);
    if tokens.len() < 2 || !is_command_word(tokens[0]) {
        Err(ErrorKind::InvalidCommand)
    } else {
        Ok(byte_sum(tokens[1]) % shard_count)
    }
}

/// The cluster as the router sees it: one address per node, in index order.
pub struct Router {
    addresses: Vec<String>,
}

impl Router {
    /// The nodes' addresses, in index order.
    pub closed spec fn addresses(&self) -> Seq<Seq<char>> {
        Seq::new(self.addresses@.len(), |i: int| self.addresses@[i]@)
    }

    /// A router over the given addresses; `None` when there is none.
    pub fn new(addresses: Vec<String>) -> (r: Option<Router>)
        ensures
            addresses@.len() == 0 ==> r is None,
            addresses@.len() > 0 ==> (r matches Some(router) && router.addresses() == Seq::new(
                addresses@.len(),
                |i: int| addresses@[i]@,
            )),
    {
        if addresses.len() == 0 {
            None
        } else {
            Some(Router { addresses })
        }
    }

    /// The number of nodes.
    pub fn shard_count(&self) -> (r: usize)
        ensures
            r == self.addresses().len(),
    {
        self.addresses.len()
    }

    /// The address of node `index`.
    pub fn address(&self, index: usize) -> (r: &str)
        requires
            index < self.addresses().len(),
        ensures
            r@ == self.addresses()[index as int],
    {
        self.addresses[index].as_str()
    }

    /// The index of the node that `line` must be sent to, or `InvalidCommand`
    /// when the line names no command and key; no node is contacted.
    pub fn target(&self, line: &str) -> (r: Result<usize, ErrorKind>)
        requires
            self.addresses().len() > 0,
        ensures
            match r {
                Ok(i) => route_target(line.spec_bytes(), self.addresses().len()) == Ok::<
                    nat,
                    ErrorKind,
                >(i as nat) && i < self.addresses().len(),
                Err(e) => route_target(line.spec_bytes(), self.addresses().len()) == Err::<
                    nat,
                    ErrorKind,
                >(e),
            },
    {
        let tokens = split_bytes(line.as_bytes(), SPACE);
        if tokens.len() < 2 {
            return Err(ErrorKind::InvalidCommand);
        }
        let command = tokens[0].as_slice();
        // SET, GET or DEL in ASCII
        let known = is_word(command, 83, 69, 84) || is_word(command, 71, 69, 84) || is_word(
            command,
            68,
            69,
            76,
        );
        if !known {
            return Err(ErrorKind::InvalidCommand);
        }
        Ok(shard_of_bytes(tokens[1].as_slice(), self.addresses.len()))
    }
}

} // verus!
