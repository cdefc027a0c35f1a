//! A storage node: one table, served one request at a time.

use vstd::prelude::*;
use crate::protocol::{parse_line, parse_request, Op, Reply, Request};
use crate::table::Table;
use crate::text::{request_line, request_text};

verus! {

/// What an operation does to a node's table, and the reply it earns.
pub open spec fn apply_op(table: Map<Seq<u8>, i32>, node: usize, op: Op) -> (
    Map<Seq<u8>, i32>,
    Reply,
) {
    match op {
        Op::Store(key, value) => (table.insert(key, value), Reply::Done { node }),
        Op::Fetch(key) => if table.contains_key(key) {
            (table, Reply::Value { value: table[key], node })
        } else {
            (table, Reply::KeyNotFound)
        },
        Op::Delete(key) => if table.contains_key(key) {
            (table.remove(key), Reply::Done { node })
        } else {
            (table, Reply::KeyNotFound)
        },
    }
}

/// What the bytes read from one connection do to a node's table, and the
/// reply the node sends back. A malformed request leaves the table as it was.
pub open spec fn handle_spec(table: Map<Seq<u8>, i32>, node: usize, raw: Seq<u8>) -> (
    Map<Seq<u8>, i32>,
    Reply,
) {
    match parse_line(request_text(raw)) {
        Ok(op) => apply_op(table, node, op),
        Err(e) => (table, e),
    }
}

/// A node of the store: its index in the cluster and its table.
pub struct DHT {
    table: Table,
    server_id: usize,
}

impl View for DHT {
    type V = Map<Seq<u8>, i32>;

    closed spec fn view(&self) -> Map<Seq<u8>, i32> {
        self.table@
    }
}

impl DHT {
    pub closed spec fn wf(&self) -> bool {
        self.table.wf()
    }

    /// The node's index in the cluster.
    pub closed spec fn id(&self) -> usize {
        self.server_id
    }

    /// A node with the given index and an empty table.
    pub fn new(server_id: usize) -> (r: DHT)
        ensures
            r.wf(),
            r.id() == server_id,
            r@ == Map::<Seq<u8>, i32>::empty(),
    {
        DHT { table: Table::new(), server_id }
    }

    /// The node's index in the cluster.
    pub fn server_id(&self) -> (r: usize)
        ensures
            r == self.id(),
    {
        self.server_id
    }

    /// The number of keys the node holds.
    pub fn len(&self) -> (r: usize)
        requires
            self.wf(),
        ensures
            r == self@.len(),
    {
        self.table.len()
    }

    /// The value the node holds under `key`, if any.
    pub fn lookup(&self, key: &[u8]) -> (r: Option<i32>)
        requires
            self.wf(),
        ensures
            r == (if self@.contains_key(key@) {
                Some(self@[key@])
            } else {
                None::<i32>
            }),
    {
        self.table.get(key)
    }

    /// Applies one well-formed request to the table.
    pub fn execute(&mut self, request: Request) -> (r: Reply)
        requires
            old(self).wf(),
        ensures
            final(self).wf(),
            final(self).id() == old(self).id(),
            (final(self)@, r) == apply_op(old(self)@, old(self).id(), request@),
    {
        let node = self.server_id;
        match request {
            Request::Store { key, value } => {
                self.table.insert(key, value);
                Reply::Done { node }
            },
            Request::Fetch { key } => match self.table.get(key.as_slice()) {
                Some(value) => Reply::Value { value, node },
                None => Reply::KeyNotFound,
            },
            Request::Delete { key } => {
                if self.table.remove(key.as_slice()) {
                    Reply::Done { node }
                } else {
                    Reply::KeyNotFound
                }
            },
        }
    }

    /// Serves the bytes read from one connection: reads the request line,
    /// applies it, and returns the reply to send back.
    pub fn handle_request(&mut self, raw: &[u8]) -> (r: Reply)
        requires
            old(self).wf(),
        ensures
            final(self).wf(),
            final(self).id() == old(self).id(),
            (final(self)@, r) == handle_spec(old(self)@, old(self).id(), raw@),
    {
        let line = request_line(raw);
        match parse_request(line.as_slice()) {
            Ok(request) => self.execute(request),
            Err(e) => e,
        }
    }
}

} // verus!
