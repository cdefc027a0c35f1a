//! Laws of a node's behaviour over sequences of requests.

use vstd::prelude::*;
use vstd::utf8::encode_utf8;
use crate::node::{apply_op, handle_spec};
use crate::protocol::{del_word, get_word, is_command_word, parse_line, set_word, Op, Reply};
use crate::router::{route_target, ErrorKind};
use crate::shard::shard_index;
use crate::text::{
    is_digit, lemma_split_nonempty, line_len, parse_i32_spec, request_text, sign_len, split_on,
    trim_nul_back, trim_nul_front, NEWLINE, NUL, SPACE,
};

verus! {

/// A `GET` of a key just stored returns the stored value, from the same node.
pub proof fn lemma_store_then_fetch(table: Map<Seq<u8>, i32>, node: usize, key: Seq<u8>, value: i32)
    ensures
        apply_op(table, node, Op::Store(key, value)).1 == (Reply::Done { node }),
        apply_op(apply_op(table, node, Op::Store(key, value)).0, node, Op::Fetch(key)).1 == (
        Reply::Value { value, node }),
{
}

/// After a `SET` and a `DEL` of a key, a `GET` of it finds nothing.
pub proof fn lemma_store_delete_fetch(
    table: Map<Seq<u8>, i32>,
    node: usize,
    key: Seq<u8>,
    value: i32,
)
    ensures
        ({
            let stored = apply_op(table, node, Op::Store(key, value)).0;
            let (deleted, reply) = apply_op(stored, node, Op::Delete(key));
            &&& reply == (Reply::Done { node })
            &&& apply_op(deleted, node, Op::Fetch(key)).1 == Reply::KeyNotFound
        }),
{
}

/// A `DEL` of an absent key fails with `KeyNotFound` and changes nothing, so
/// every later `DEL` of it fails the same way.
pub proof fn lemma_delete_absent(table: Map<Seq<u8>, i32>, node: usize, key: Seq<u8>)
    requires
        !table.contains_key(key),
    ensures
        apply_op(table, node, Op::Delete(key)) == (table, Reply::KeyNotFound),
        apply_op(apply_op(table, node, Op::Delete(key)).0, node, Op::Delete(key)).1
            == Reply::KeyNotFound,
{
}

/// The table after a node has applied the given writes, one after another.
pub open spec fn store_all(table: Map<Seq<u8>, i32>, node: usize, writes: Seq<(Seq<u8>, i32)>) -> Map<
    Seq<u8>,
    i32,
>
    decreases writes.len(),
{
    if writes.len() == 0 {
        table
    } else {
        apply_op(
            store_all(table, node, writes.drop_last()),
            node,
            Op::Store(writes.last().0, writes.last().1),
        ).0
    }
}

/// Writes to distinct keys lose nothing: whatever order the node applies
/// them in, a `GET` of each key afterwards returns the value written to it.
pub proof fn lemma_distinct_writes_kept(
    table: Map<Seq<u8>, i32>,
    node: usize,
    writes: Seq<(Seq<u8>, i32)>,
)
    requires
        forall|i: int, j: int|
            0 <= i < j < writes.len() ==> (#[trigger] writes[i]).0 != (#[trigger] writes[j]).0,
    ensures
        forall|i: int|
            0 <= i < writes.len() ==> apply_op(
                store_all(table, node, writes),
                node,
                Op::Fetch((#[trigger] writes[i]).0),
            ).1 == (Reply::Value { value: writes[i].1, node }),
    decreases writes.len(),
{
    if writes.len() > 0 {
        let init = writes.drop_last();
        lemma_distinct_writes_kept(table, node, init);
        assert forall|i: int| 0 <= i < writes.len() implies apply_op(
            store_all(table, node, writes),
            node,
            Op::Fetch((#[trigger] writes[i]).0),
        ).1 == (Reply::Value { value: writes[i].1, node }) by {
            if i < writes.len() - 1 {
                assert(init[i] == writes[i]);
                assert(writes[i].0 != writes[writes.len() - 1].0);
            }
        };
    }
}

/// `w` holds no `sep` byte: it is one token.
proof fn lemma_split_single(w: Seq<u8>, sep: u8)
    requires
        forall|i: int| 0 <= i < w.len() ==> w[i] != sep,
    ensures
        split_on(w, sep) == seq![w],
    decreases w.len(),
{
    if w.len() > 0 {
        lemma_split_single(w.drop_last(), sep);
        assert(w.drop_last().push(w.last()) =~= w);
        assert(seq![w.drop_last()].update(0, w.drop_last().push(w.last())) =~= seq![w]);
    } else {
        assert(w =~= Seq::<u8>::empty());
    }
}

/// Splitting at a separator splits the two sides apart.
proof fn lemma_split_concat(a: Seq<u8>, b: Seq<u8>, sep: u8)
    ensures
        split_on(a + seq![sep] + b, sep) == split_on(a, sep) + split_on(b, sep),
    decreases b.len(),
{
    let s = a + seq![sep] + b;
    if b.len() == 0 {
        assert(s.drop_last() =~= a);
        assert(split_on(a, sep).push(Seq::empty()) =~= split_on(a, sep) + split_on(b, sep));
    } else {
        lemma_split_concat(a, b.drop_last(), sep);
        assert(s.drop_last() =~= a + seq![sep] + b.drop_last());
        lemma_split_nonempty(b.drop_last(), sep);
        let left = split_on(a, sep);
        let right = split_on(b.drop_last(), sep);
        if b.last() == sep {
            assert((left + right).push(Seq::empty()) =~= left + right.push(Seq::empty()));
        } else {
            let whole = left + right;
            assert(whole.update(whole.len() - 1, whole.last().push(b.last())) =~= left
                + right.update(right.len() - 1, right.last().push(b.last())));
        }
    }
}

/// A line that has no newline and neither starts nor ends with NUL is read
/// as it stands.
proof fn lemma_request_text_plain(line: Seq<u8>)
    requires
        line.len() > 0,
        forall|i: int| 0 <= i < line.len() ==> line[i] != NEWLINE,
        line[0] != NUL,
        line.last() != NUL,
    ensures
        request_text(line) == line,
{
    lemma_line_len_full(line);
    assert(line.take(line.len() as int) =~= line);
}

proof fn lemma_line_len_full(line: Seq<u8>)
    requires
        forall|i: int| 0 <= i < line.len() ==> line[i] != NEWLINE,
    ensures
        line_len(line) == line.len(),
    decreases line.len(),
{
    if line.len() > 0 {
        lemma_line_len_full(line.drop_first());
    }
}

/// A value that reads as an integer is made of digits and a sign only.
proof fn lemma_number_bytes(text: Seq<u8>)
    requires
        parse_i32_spec(text) is Some,
    ensures
        text.len() > 0,
        forall|i: int| 0 <= i < text.len() ==> text[i] != SPACE && text[i] != NEWLINE,
        text.last() != NUL,
{
    let start = sign_len(text);
    let digits = text.subrange(start, text.len() as int);
    assert forall|i: int| 0 <= i < text.len() implies text[i] != SPACE && text[i] != NEWLINE by {
        if i >= start {
            assert(is_digit(digits[i - start]));
        }
    };
    assert(is_digit(digits[digits.len() - 1]));
}

/// The request line `SET <key> <value>`.
pub open spec fn set_line(key: Seq<u8>, value: Seq<u8>) -> Seq<u8> {
    set_word() + seq![SPACE] + key + seq![SPACE] + value
}

/// The request line `GET <key>`.
pub open spec fn get_line(key: Seq<u8>) -> Seq<u8> {
    get_word() + seq![SPACE] + key
}

/// The request line `DEL <key>`.
pub open spec fn del_line(key: Seq<u8>) -> Seq<u8> {
    del_word() + seq![SPACE] + key
}

/// A key that fits in a request line as one token.
pub open spec fn is_plain_key(key: Seq<u8>) -> bool {
    forall|i: int| 0 <= i < key.len() ==> key[i] != SPACE && key[i] != NEWLINE
}

proof fn lemma_key_line(word: Seq<u8>, key: Seq<u8>)
    requires
        word.len() == 3,
        word[0] != NUL,
        forall|i: int| 0 <= i < 3 ==> word[i] != SPACE && word[i] != NEWLINE,
        is_plain_key(key),
        key.len() > 0 ==> key.last() != NUL,
    ensures
        request_text(word + seq![SPACE] + key) == word + seq![SPACE] + key,
        split_on(word + seq![SPACE] + key, SPACE) == seq![word, key],
{
    let line = word + seq![SPACE] + key;
    assert forall|i: int| 0 <= i < line.len() implies line[i] != NEWLINE by {
        if i >= 4 {
            assert(line[i] == key[i - 4]);
        }
    };
    if key.len() > 0 {
        assert(line.last() == key.last());
    }
    lemma_request_text_plain(line);
    lemma_split_key_line(word, key);
}

/// The lines `SET <key> <value>` and `GET <key>`, sent to one node in turn,
/// store the value and return it.
pub proof fn lemma_line_round_trip(
    table: Map<Seq<u8>, i32>,
    node: usize,
    key: Seq<u8>,
    value: Seq<u8>,
)
    requires
        is_plain_key(key),
        key.len() > 0 ==> key.last() != NUL,
        parse_i32_spec(value) is Some,
    ensures
        ({
            let (stored, reply) = handle_spec(table, node, set_line(key, value));
            &&& reply == (Reply::Done { node })
            &&& handle_spec(stored, node, get_line(key)).1 == (Reply::Value {
                value: parse_i32_spec(value).unwrap(),
                node,
            })
        }),
{
    lemma_set_line(key, value);
    lemma_key_line(get_word(), key);
}

/// `SET <key> <value>` reads as a store of the value's number under the key.
pub proof fn lemma_set_line(key: Seq<u8>, value: Seq<u8>)
    requires
        is_plain_key(key),
        parse_i32_spec(value) is Some,
    ensures
        parse_line(request_text(set_line(key, value))) == Ok::<Op, Reply>(
            Op::Store(key, parse_i32_spec(value).unwrap()),
        ),
        split_on(set_line(key, value), SPACE) == seq![set_word(), key, value],
{
    lemma_number_bytes(value);
    let line = set_line(key, value);
    let head = set_word() + seq![SPACE] + key;
    assert(line =~= head + seq![SPACE] + value);
    assert forall|i: int| 0 <= i < line.len() implies line[i] != NEWLINE by {
        if 4 <= i < 4 + key.len() {
            assert(line[i] == key[i - 4]);
        } else if i > 4 + key.len() {
            assert(line[i] == value[i - 5 - key.len()]);
        }
    };
    assert(line.last() == value.last());
    lemma_request_text_plain(line);
    lemma_split_concat(head, value, SPACE);
    lemma_split_concat(set_word(), key, SPACE);
    lemma_split_single(set_word(), SPACE);
    lemma_split_single(key, SPACE);
    lemma_split_single(value, SPACE);
    assert(split_on(line, SPACE) =~= seq![set_word(), key, value]);
}

/// The lines `SET <key> <value>`, `DEL <key>` and `GET <key>`, sent to one
/// node in turn: the `GET` finds nothing.
pub proof fn lemma_line_delete(table: Map<Seq<u8>, i32>, node: usize, key: Seq<u8>, value: Seq<u8>)
    requires
        is_plain_key(key),
        key.len() > 0 ==> key.last() != NUL,
        parse_i32_spec(value) is Some,
    ensures
        ({
            let stored = handle_spec(table, node, set_line(key, value)).0;
            let (deleted, reply) = handle_spec(stored, node, del_line(key));
            &&& reply == (Reply::Done { node })
            &&& handle_spec(deleted, node, get_line(key)).1 == Reply::KeyNotFound
        }),
{
    lemma_set_line(key, value);
    lemma_key_line(get_word(), key);
    lemma_key_line(del_word(), key);
}

/// `DEL <key>` of a key the node does not hold fails with `KeyNotFound` and
/// changes nothing, however often it is sent.
pub proof fn lemma_line_delete_absent(table: Map<Seq<u8>, i32>, node: usize, key: Seq<u8>)
    requires
        is_plain_key(key),
        key.len() > 0 ==> key.last() != NUL,
        !table.contains_key(key),
    ensures
        handle_spec(table, node, del_line(key)) == (table, Reply::KeyNotFound),
{
    lemma_key_line(del_word(), key);
}

/// Malformed request lines earn their error replies: `SET` with a key alone,
/// `SET` whose value is no 32-bit integer, and a command word that is none of
/// `SET`, `GET` and `DEL`.
pub proof fn lemma_malformed_lines(word: Seq<u8>, key: Seq<u8>, value: Seq<u8>)
    requires
        forall|i: int| 0 <= i < word.len() ==> word[i] != SPACE,
        is_plain_key(key),
        forall|i: int| 0 <= i < value.len() ==> value[i] != SPACE,
    ensures
        parse_line(set_word() + seq![SPACE] + key) == Err::<Op, Reply>(Reply::InvalidSet),
        parse_i32_spec(value) is None ==> parse_line(set_line(key, value)) == Err::<Op, Reply>(
            Reply::InvalidSet,
        ),
        !is_command_word(word) ==> parse_line(word + seq![SPACE] + key) == Err::<Op, Reply>(
            Reply::InvalidCommand,
        ),
{
    lemma_split_key_line(set_word(), key);
    lemma_split_key_line(word, key);
    let head = set_word() + seq![SPACE] + key;
    assert(set_line(key, value) =~= head + seq![SPACE] + value);
    lemma_split_concat(head, value, SPACE);
    lemma_split_single(value, SPACE);
    assert(split_on(set_line(key, value), SPACE) =~= seq![set_word(), key, value]);
}

/// `<word> <key>` splits into the word and the key.
proof fn lemma_split_key_line(word: Seq<u8>, key: Seq<u8>)
    requires
        forall|i: int| 0 <= i < word.len() ==> word[i] != SPACE,
        is_plain_key(key),
    ensures
        split_on(word + seq![SPACE] + key, SPACE) == seq![word, key],
{
    lemma_split_concat(word, key, SPACE);
    lemma_split_single(word, SPACE);
    lemma_split_single(key, SPACE);
}

/// Every command on a key is routed to the same node, the key's shard, so a
/// `GET` or `DEL` reaches the node that the `SET` before it reached.
pub proof fn lemma_route_to_owner(key: Seq<char>, value: Seq<u8>, shard_count: nat)
    requires
        shard_count > 0,
        is_plain_key(encode_utf8(key)),
        parse_i32_spec(value) is Some,
    ensures
        route_target(set_line(encode_utf8(key), value), shard_count) == Ok::<nat, ErrorKind>(
            shard_index(key, shard_count),
        ),
        route_target(get_line(encode_utf8(key)), shard_count) == Ok::<nat, ErrorKind>(
            shard_index(key, shard_count),
        ),
        route_target(del_line(encode_utf8(key)), shard_count) == Ok::<nat, ErrorKind>(
            shard_index(key, shard_count),
        ),
{
    let k = encode_utf8(key);
    lemma_set_line(k, value);
    lemma_split_key_line(get_word(), k);
    lemma_split_key_line(del_word(), k);
}

} // verus!
