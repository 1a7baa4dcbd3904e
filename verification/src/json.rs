//! JSON string literals: the only part of JSON that a record's bytes vary in.
//!
//! Quoting and unquoting are done by `serde_json`; finding where a literal
//! ends is done here, and proved to agree with how literals are quoted.

use vstd::prelude::*;
use vstd::slice::*;
use vstd::string::*;

verus! {

/// `serde_json::Error`, of which nothing is known but that it is one.
#[verifier::external_type_specification]
#[verifier::external_body]
pub struct ExJsonError(serde_json::Error);

/// The byte `"`.
pub const QUOTE: u8 = 0x22;

/// The byte `\`.
pub const BACKSLASH: u8 = 0x5c;

/// The lower-case hexadecimal digit of a number below 16.
pub open spec fn hex_digit(n: int) -> u8 {
    if n < 10 {
        (0x30 + n) as u8
    } else {
        (0x61 + n - 10) as u8
    }
}

/// How one byte of a string's UTF-8 text stands inside a JSON literal:
/// `"` and `\` behind a backslash, the control characters as `\b`, `\t`,
/// `\n`, `\f`, `\r` or `\u00XX`, every other byte as itself.
pub open spec fn escape_byte(b: u8) -> Seq<u8> {
    if b == QUOTE {
        seq![BACKSLASH, QUOTE]
    } else if b == BACKSLASH {
        seq![BACKSLASH, BACKSLASH]
    } else if b == 0x08 {
        seq![BACKSLASH, 0x62u8]
    } else if b == 0x09 {
        seq![BACKSLASH, 0x74u8]
    } else if b == 0x0a {
        seq![BACKSLASH, 0x6eu8]
    } else if b == 0x0c {
        seq![BACKSLASH, 0x66u8]
    } else if b == 0x0d {
        seq![BACKSLASH, 0x72u8]
    } else if b < 0x20 {
        seq![BACKSLASH, 0x75u8, 0x30u8, 0x30u8, hex_digit(b as int / 16), hex_digit(b as int % 16)]
    } else {
        seq![b]
    }
}

/// The bytes of `text`, each escaped, in order.
pub open spec fn escape_bytes(text: Seq<u8>) -> Seq<u8>
    decreases text.len(),
{
    if text.len() == 0 {
        Seq::empty()
    } else {
        escape_byte(text[0]) + escape_bytes(text.skip(1))
    }
}

/// The compact JSON literal of the string whose UTF-8 text is `text`.
pub open spec fn json_quote(text: Seq<u8>) -> Seq<u8> {
    seq![QUOTE] + escape_bytes(text) + seq![QUOTE]
}

/// The string that `serde_json` reads from `bytes` when asked for one JSON
/// string, or `None` where it refuses them.
pub uninterp spec fn json_unquote(bytes: Seq<u8>) -> Option<Seq<char>>;

/// `serde_json::to_vec` on a string slice.
///
/// Trusted: the call succeeds (a string has no map keys and its serializer
/// does not fail, and a `Vec` accepts every write); it yields the opening
/// quote, the escaped UTF-8 text and the closing quote, as `json_quote`
/// states; and reading the literal back gives the string again.
#[verifier::external_body]
pub(crate) fn quote(s: &str) -> (r: std::result::Result<Vec<u8>, serde_json::Error>)
    ensures
        r is Ok,
        r matches Ok(out) ==> out@ == json_quote(s.spec_bytes()),
        r matches Ok(out) ==> json_unquote(out@) == Some(s@),
{
    serde_json::to_vec(s)
}

/// `serde_json::from_slice` asked for a `String`.
///
/// Trusted: the outcome is a function of the bytes alone, which
/// `json_unquote` names.
#[verifier::external_body]
pub(crate) fn unquote(bytes: &[u8]) -> (r: std::result::Result<String, serde_json::Error>)
    ensures
        match r {
            Ok(s) => json_unquote(bytes@) == Some(s@),
            Err(_) => json_unquote(bytes@) is None,
        },
{
    serde_json::from_slice::<String>(bytes)
}

/// The place of the first quote at or after `from` that no backslash
/// escapes, reading `data` from `from` on.
pub open spec fn closing_quote(data: Seq<u8>, from: int) -> Option<int>
    decreases data.len() - from,
{
    if from < 0 || from >= data.len() {
        None
    } else if data[from] == QUOTE {
        Some(from)
    } else if data[from] == BACKSLASH {
        if from + 1 < data.len() {
            closing_quote(data, from + 2)
        } else {
            None
        }
    } else {
        closing_quote(data, from + 1)
    }
}

/// The string whose literal starts at `pos`, and the place after its
/// closing quote.
pub open spec fn string_at(data: Seq<u8>, pos: int) -> Option<(Seq<char>, int)> {
    if 0 <= pos < data.len() && data[pos] == QUOTE {
        match closing_quote(data, pos + 1) {
            Some(close) => match json_unquote(data.subrange(pos, close + 1)) {
                Some(s) => Some((s, close + 1)),
                None => None,
            },
            None => None,
        }
    } else {
        None
    }
}

/// Two byte sequences agree on `n` bytes, from `i` in the first and from
/// `j` in the second.
pub open spec fn same_window(a: Seq<u8>, i: int, b: Seq<u8>, j: int, n: int) -> bool {
    &&& 0 <= i && 0 <= j && 0 <= n
    &&& i + n <= a.len()
    &&& j + n <= b.len()
    &&& forall|k: int| 0 <= k < n ==> #[trigger] a[i + k] == b[j + k]
}

/// A closing quote that is found lies at or after the place where the
/// search began, inside the data, and is a quote.
pub proof fn lemma_closing_quote_bounds(data: Seq<u8>, from: int)
    ensures
        closing_quote(data, from) matches Some(close) ==> from <= close < data.len()
            && data[close] == QUOTE,
    decreases data.len() - from,
{
    if from < 0 || from >= data.len() {
    } else if data[from] == QUOTE {
    } else if data[from] == BACKSLASH {
        if from + 1 < data.len() {
            lemma_closing_quote_bounds(data, from + 2);
        }
    } else {
        lemma_closing_quote_bounds(data, from + 1);
    }
}

/// The closing quote is found by the bytes up to it alone.
pub proof fn lemma_closing_quote_local(a: Seq<u8>, i: int, b: Seq<u8>, j: int, n: int, from: int)
    requires
        same_window(a, i, b, j, n),
        0 <= from,
        closing_quote(a, i + from) matches Some(close) && close < i + n,
    ensures
        closing_quote(b, j + from) == Some(closing_quote(a, i + from).unwrap() - i + j),
    decreases n - from,
{
    lemma_closing_quote_bounds(a, i + from);
    assert(a[i + from] == b[j + from]);
    if a[i + from] == QUOTE {
    } else if a[i + from] == BACKSLASH {
        lemma_closing_quote_bounds(a, i + from + 2);
        assert(a[i + (from + 1)] == b[j + (from + 1)]);
        lemma_closing_quote_local(a, i, b, j, n, from + 2);
    } else {
        lemma_closing_quote_bounds(a, i + from + 1);
        lemma_closing_quote_local(a, i, b, j, n, from + 1);
    }
}

/// A literal is at least its two quotes long and lies inside the data.
pub proof fn lemma_string_at_bounds(data: Seq<u8>, pos: int)
    ensures
        string_at(data, pos) matches Some((s, end)) ==> pos + 2 <= end <= data.len(),
{
    lemma_closing_quote_bounds(data, pos + 1);
}

/// A literal reads the same wherever its bytes stand.
pub proof fn lemma_string_at_local(a: Seq<u8>, i: int, b: Seq<u8>, j: int, n: int, from: int)
    requires
        same_window(a, i, b, j, n),
        0 <= from,
        string_at(a, i + from) matches Some((s, end)) && end <= i + n,
    ensures
        string_at(b, j + from) == Some(
            (string_at(a, i + from).unwrap().0, string_at(a, i + from).unwrap().1 - i + j),
        ),
{
    lemma_closing_quote_bounds(a, i + from + 1);
    let close = closing_quote(a, i + from + 1).unwrap();
    lemma_closing_quote_local(a, i, b, j, n, from + 1);
    assert(a[i + from] == b[j + from]);
    let lit_a = a.subrange(i + from, close + 1);
    let lit_b = b.subrange(j + from, close - i + j + 1);
    assert(lit_a =~= lit_b) by {
        assert forall|k: int| 0 <= k < lit_a.len() implies lit_a[k] == lit_b[k] by {
            assert(a[i + (from + k)] == b[j + (from + k)]);
        }
    }
}

/// Scanning over the escaped form of `text` never stops at a quote inside it.
pub proof fn lemma_closing_quote_skips_escaped(data: Seq<u8>, at: int, text: Seq<u8>)
    requires
        0 <= at,
        at + escape_bytes(text).len() < data.len(),
        data.subrange(at, at + escape_bytes(text).len()) == escape_bytes(text),
        data[at + escape_bytes(text).len()] == QUOTE,
    ensures
        closing_quote(data, at) == Some(at + escape_bytes(text).len()),
    decreases text.len(),
{
    let esc = escape_bytes(text);
    if text.len() == 0 {
    } else {
        let head = escape_byte(text[0]);
        let tail = escape_bytes(text.skip(1));
        assert(esc == head + tail);
        assert forall|k: int| 0 <= k < head.len() implies #[trigger] data[at + k] == head[k] by {
            assert(data.subrange(at, at + esc.len())[k] == esc[k]);
        }
        let rest = data.subrange(at + head.len(), at + head.len() + tail.len());
        assert(rest =~= tail) by {
            assert forall|k: int| 0 <= k < tail.len() implies rest[k] == tail[k] by {
                assert(data.subrange(at, at + esc.len())[head.len() + k] == esc[head.len() + k]);
            }
        }
        lemma_closing_quote_skips_escaped(data, at + head.len(), text.skip(1));
        lemma_step_over_escape(data, at, text[0]);
    }
}

/// Scanning from the start of one escaped byte goes on right behind it.
proof fn lemma_step_over_escape(data: Seq<u8>, at: int, b: u8)
    requires
        0 <= at,
        at + escape_byte(b).len() < data.len(),
        forall|k: int| 0 <= k < escape_byte(b).len() ==> #[trigger] data[at + k] == escape_byte(b)[k],
    ensures
        closing_quote(data, at) == closing_quote(data, at + escape_byte(b).len()),
{
    let e = escape_byte(b);
    assert(data[at + 0] == e[0]);
    if e.len() == 1 {
    } else if e.len() == 2 {
    } else {
        assert(e.len() == 6);
        assert(data[at + 2] == e[2]);
        assert(data[at + 3] == e[3]);
        assert(data[at + 4] == e[4]);
        assert(data[at + 5] == e[5]);
        reveal_with_fuel(closing_quote, 6);
    }
}

/// A quoted string, wherever it stands, is read back whole.
pub proof fn lemma_string_at_quoted(data: Seq<u8>, pos: int, text: Seq<u8>, s: Seq<char>)
    requires
        0 <= pos,
        pos + json_quote(text).len() <= data.len(),
        data.subrange(pos, pos + json_quote(text).len()) == json_quote(text),
        json_unquote(json_quote(text)) == Some(s),
    ensures
        string_at(data, pos) == Some((s, pos + json_quote(text).len())),
{
    let lit = json_quote(text);
    let esc = escape_bytes(text);
    let n = esc.len() as int;
    assert(lit.len() == n + 2);
    assert forall|k: int| 0 <= k < lit.len() implies #[trigger] data[pos + k] == lit[k] by {
        assert(data.subrange(pos, pos + lit.len())[k] == lit[k]);
    }
    assert(data[pos + 0] == lit[0]);
    assert(data[pos + (n + 1)] == lit[n + 1]);
    let inner = data.subrange(pos + 1, pos + 1 + n);
    assert(inner =~= esc) by {
        assert forall|k: int| 0 <= k < n implies inner[k] == esc[k] by {
            assert(data[pos + (k + 1)] == lit[k + 1]);
        }
    }
    lemma_closing_quote_skips_escaped(data, pos + 1, text);
}

/// Finds the closing quote of a literal whose opening quote stands just
/// before `from`.
pub fn find_closing_quote(data: &[u8], from: usize) -> (r: Option<usize>)
    ensures
        match r {
            Some(close) => closing_quote(data@, from as int) == Some(close as int),
            None => closing_quote(data@, from as int) is None,
        },
{
    let mut i: usize = from;
    while i < data.len()
        invariant
            from <= i,
            closing_quote(data@, from as int) == closing_quote(data@, i as int),
        decreases data.len() - i,
    {
        let b: u8 = data[i];
        if b == QUOTE {
            return Some(i);
        } else if b == BACKSLASH {
            if i + 1 >= data.len() {
                return None;
            }
            i = i + 2;
        } else {
            i = i + 1;
        }
    }
    None
}

/// Reads the string whose literal starts at `pos`.
pub fn read_string(data: &[u8], pos: usize) -> (r: Option<(String, usize)>)
    ensures
        match r {
            Some((s, end)) => string_at(data@, pos as int) == Some((s@, end as int)),
            None => string_at(data@, pos as int) is None,
        },
{
    if pos >= data.len() || data[pos] != QUOTE {
        return None;
    }
    match find_closing_quote(data, pos + 1) {
        None => None,
        Some(close) => {
            proof {
                lemma_closing_quote_bounds(data@, pos + 1);
            }
            match unquote(slice_subrange(data, pos, close + 1)) {
                Ok(s) => Some((s, close + 1)),
                Err(_) => None,
            }
        },
    }
}

} // verus!
