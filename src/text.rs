//! Byte-level text handling for the wire protocol: cutting a request down to
//! its line, splitting it into tokens, reading and writing decimal integers.

use vstd::prelude::*;

verus! {

/// The byte that ends a line.
pub const NEWLINE: u8 = 10;

/// The byte that separates the tokens of a command.
pub const SPACE: u8 = 32;

/// The padding byte that a fixed-size read leaves after the text.
pub const NUL: u8 = 0;

pub const PLUS: u8 = 43;

pub const MINUS: u8 = 45;

/// The ASCII digits run from `ZERO` to `NINE`.
pub const ZERO: u8 = 48;

pub const NINE: u8 = 57;

/// The number of bytes before the first newline (all of them if there is none).
pub open spec fn line_len(s: Seq<u8>) -> nat
    decreases s.len(),
{
    if s.len() == 0 || s[0] == NEWLINE {
        0
    } else {
        1 + line_len(s.drop_first())
    }
}

/// `s` without its leading NUL bytes.
pub open spec fn trim_nul_front(s: Seq<u8>) -> Seq<u8>
    decreases s.len(),
{
    if s.len() > 0 && s[0] == NUL {
        trim_nul_front(s.drop_first())
    } else {
        s
    }
}

/// `s` without its trailing NUL bytes.
pub open spec fn trim_nul_back(s: Seq<u8>) -> Seq<u8>
    decreases s.len(),
{
    if s.len() > 0 && s.last() == NUL {
        trim_nul_back(s.drop_last())
    } else {
        s
    }
}

/// The text of a request as read from a connection: what comes before the
/// first newline, with NUL padding stripped from both ends.
pub open spec fn request_text(raw: Seq<u8>) -> Seq<u8> {
    trim_nul_back(trim_nul_front(raw.take(line_len(raw) as int)))
}

/// `s` split at every `sep` byte, as `str::split` does: `n` separators give
/// `n + 1` tokens, some of which may be empty.
pub open spec fn split_on(s: Seq<u8>, sep: u8) -> Seq<Seq<u8>>
    decreases s.len(),
{
    if s.len() == 0 {
        seq![Seq::empty()]
    } else {
        let init = split_on(s.drop_last(), sep);
        if s.last() == sep {
            init.push(Seq::empty())
        } else {
            init.update(init.len() - 1, init.last().push(s.last()))
        }
    }
}

/// Splitting always yields at least one token.
pub proof fn lemma_split_nonempty(s: Seq<u8>, sep: u8)
    ensures
        split_on(s, sep).len() >= 1,
    decreases s.len(),
{
    if s.len() > 0 {
        lemma_split_nonempty(s.drop_last(), sep);
    }
}

/// Whether `b` is an ASCII decimal digit.
pub open spec fn is_digit(b: u8) -> bool {
    ZERO <= b <= NINE
}

/// The number written by a sequence of decimal digits, most significant first.
pub open spec fn digits_value(s: Seq<u8>) -> nat
    decreases s.len(),
{
    if s.len() == 0 {
        0
    } else {
        digits_value(s.drop_last()) * 10 + (s.last() - ZERO) as nat
    }
}

/// The length of the sign that may open a decimal integer: one for `+` or `-`.
pub open spec fn sign_len(s: Seq<u8>) -> int {
    if s.len() > 0 && (s[0] == MINUS || s[0] == PLUS) {
        1
    } else {
        0
    }
}

/// A 32-bit signed integer in decimal, as `str::parse::<i32>` reads it: an
/// optional `+` or `-`, then one or more ASCII digits, with a value in range.
pub open spec fn parse_i32_spec(s: Seq<u8>) -> Option<i32> {
    let negative = s.len() > 0 && s[0] == MINUS;
    let digits = s.subrange(sign_len(s), s.len() as int);
    let magnitude = digits_value(digits) as int;
    let v = if negative {
        -magnitude
    } else {
        magnitude
    };
    if digits.len() > 0 && (forall|i: int| 0 <= i < digits.len() ==> is_digit(#[trigger] digits[i]))
        && i32::MIN <= v <= i32::MAX {
        Some(v as i32)
    } else {
        None
    }
}

proof fn lemma_digits_value_grows(s: Seq<u8>, k: int)
    requires
        0 <= k <= s.len(),
        forall|i: int| 0 <= i < s.len() ==> is_digit(#[trigger] s[i]),
    ensures
        digits_value(s.take(k)) <= digits_value(s),
    decreases s.len(),
{
    if k < s.len() {
        assert(s.drop_last().take(k) =~= s.take(k));
        lemma_digits_value_grows(s.drop_last(), k);
    } else {
        assert(s.take(k) =~= s);
    }
}

/// Reads a 32-bit signed integer in decimal.
pub fn parse_i32(s: &[u8]) -> (r: Option<i32>)
    ensures
        r == parse_i32_spec(s@),
{
    let len = s.len();
    let negative = len > 0 && s[0] == MINUS;
    let start: usize = if len > 0 && (s[0] == MINUS || s[0] == PLUS) {
        1
    } else {
        0
    };
    let ghost digits = s@.subrange(start as int, len as int);
    if start == len {
        return None;
    }
    // the magnitude of i32::MIN, the largest any accepted value has
    let limit: u64 = 2147483648;
    let mut acc: u64 = 0;
    let mut i: usize = start;
    while i < len
        invariant
            start <= i <= len,
            len == s@.len(),
            start == sign_len(s@),
            limit == 2147483648,
            digits == s@.subrange(start as int, len as int),
            acc <= limit,
            acc == digits_value(digits.take(i - start)),
            forall|j: int| 0 <= j < i - start ==> is_digit(#[trigger] digits[j]),
        decreases len - i,
    {
        let b = s[i];
        if b < ZERO || b > NINE {
            assert(!is_digit(digits[i - start]));
            return None;
        }
        proof {
            assert(digits.take(i - start + 1).drop_last() =~= digits.take(i - start));
        }
        assert(acc * 10 <= limit * 10) by (nonlinear_arith)
            requires
                acc <= limit,
        ;
        let next: u64 = acc * 10 + (b - ZERO) as u64;
        if next > limit {
            proof {
                if forall|j: int| 0 <= j < digits.len() ==> is_digit(#[trigger] digits[j]) {
                    lemma_digits_value_grows(digits, i - start + 1);
                }
            }
            return None;
        }
        acc = next;
        i = i + 1;
    }
    proof {
        assert(digits.take(len - start) =~= digits);
    }
    if negative {
        Some((0 - (acc as i64)) as i32)
    } else if acc < limit {
        Some(acc as i32)
    } else {
        None
    }
}

/// Whether two byte sequences are equal.
pub fn bytes_eq(a: &[u8], b: &[u8]) -> (r: bool)
    ensures
        r == (a@ == b@),
{
    if a.len() != b.len() {
        return false;
    }
    let mut i: usize = 0;
    while i < a.len()
        invariant
            a@.len() == b@.len(),
            i <= a@.len(),
            forall|j: int| 0 <= j < i ==> a@[j] == b@[j],
        decreases a@.len() - i,
    {
        if a[i] != b[i] {
            return false;
        }
        i = i + 1;
    }
    assert(a@ =~= b@);
    true
}

proof fn lemma_line_len(s: Seq<u8>, k: int)
    requires
        0 <= k <= s.len(),
        forall|j: int| 0 <= j < k ==> s[j] != NEWLINE,
        k == s.len() || s[k] == NEWLINE,
    ensures
        line_len(s) == k,
    decreases k,
{
    if k > 0 {
        lemma_line_len(s.drop_first(), k - 1);
    }
}

/// The text of a request read into `raw`: the bytes before the first newline,
/// without NUL padding at either end.
pub fn request_line(raw: &[u8]) -> (r: Vec<u8>)
    ensures
        r@ == request_text(raw@),
{
    let len = raw.len();
    let mut k: usize = 0;
    while k < len && raw[k] != NEWLINE
        invariant
            k <= len == raw@.len(),
            forall|j: int| 0 <= j < k ==> raw@[j] != NEWLINE,
        decreases len - k,
    {
        k = k + 1;
    }
    proof {
        lemma_line_len(raw@, k as int);
        assert(raw@.take(k as int) =~= raw@.subrange(0, k as int));
    }
    let ghost line = raw@.subrange(0, k as int);
    let mut i: usize = 0;
    while i < k && raw[i] == NUL
        invariant
            i <= k <= len == raw@.len(),
            line == raw@.subrange(0, k as int),
            trim_nul_front(raw@.subrange(i as int, k as int)) == trim_nul_front(line),
        decreases k - i,
    {
        assert(raw@.subrange(i as int, k as int).drop_first() =~= raw@.subrange(
            i + 1,
            k as int,
        ));
        i = i + 1;
    }
    let ghost front = raw@.subrange(i as int, k as int);
    assert(trim_nul_front(front) == front);
    let mut j: usize = k;
    while j > i && raw[j - 1] == NUL
        invariant
            i <= j <= k <= len == raw@.len(),
            front == raw@.subrange(i as int, k as int),
            trim_nul_back(raw@.subrange(i as int, j as int)) == trim_nul_back(front),
        decreases j - i,
    {
        assert(raw@.subrange(i as int, j as int).drop_last() =~= raw@.subrange(
            i as int,
            j - 1,
        ));
        j = j - 1;
    }
    let mut out: Vec<u8> = Vec::new();
    let mut p: usize = i;
    while p < j
        invariant
            i <= p <= j <= len == raw@.len(),
            out@ == raw@.subrange(i as int, p as int),
        decreases j - p,
    {
        out.push(raw[p]);
        p = p + 1;
        assert(out@ =~= raw@.subrange(i as int, p as int));
    }
    assert(trim_nul_back(out@) == out@);
    out
}

/// The tokens of `s` between `sep` bytes.
pub fn split_bytes(s: &[u8], sep: u8) -> (r: Vec<Vec<u8>>)
    ensures
        r@.len() == split_on(s@, sep).len(),
        forall|t: int| 0 <= t < r@.len() ==> (#[trigger] r@[t])@ == split_on(s@, sep)[t],
{
    let mut done: Vec<Vec<u8>> = Vec::new();
    let mut cur: Vec<u8> = Vec::new();
    let mut i: usize = 0;
    assert(s@.take(0) =~= Seq::<u8>::empty());
    while i < s.len()
        invariant
            i <= s@.len(),
            done@.len() + 1 == split_on(s@.take(i as int), sep).len(),
            forall|t: int|
                0 <= t < done@.len() ==> (#[trigger] done@[t])@ == split_on(
                    s@.take(i as int),
                    sep,
                )[t],
            cur@ == split_on(s@.take(i as int), sep).last(),
        decreases s@.len() - i,
    {
        let b = s[i];
        proof {
            assert(s@.take(i + 1).drop_last() =~= s@.take(i as int));
            lemma_split_nonempty(s@.take(i as int), sep);
        }
        if b == sep {
            let finished = cur;
            done.push(finished);
            cur = Vec::new();
        } else {
            cur.push(b);
        }
        i = i + 1;
    }
    assert(s@.take(s@.len() as int) =~= s@);
    done.push(cur);
    done
}

} // verus!
