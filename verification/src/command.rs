//! The records of the log: `Set` and `Remove` commands, and their bytes.
//!
//! A record is compact JSON: `{"Set":{"key":K,"value":V}}` or
//! `{"Remove":{"key":K}}`, where `K` and `V` are JSON string literals.
//! Records follow one another with nothing in between.

use crate::error::{KvsError, Result};
use crate::json::{
    json_quote, json_unquote, lemma_string_at_bounds, lemma_string_at_local,
    lemma_string_at_quoted, quote, read_string, same_window, string_at,
};
use vstd::prelude::*;
use vstd::string::*;
use vstd::utf8::*;

verus! {

/// One change to the store, as it is kept in the log.
#[derive(Debug)]
pub enum Command {
    /// Gives `key` the value `value`; its record is tagged `Set`.
    SetValue { key: String, value: String },
    /// Takes the value of `key` away.
    Remove { key: String },
}

/// A command over mathematical strings.
pub enum CommandView {
    SetValue { key: Seq<char>, value: Seq<char> },
    Remove { key: Seq<char> },
}

impl View for Command {
    type V = CommandView;

    open spec fn view(&self) -> CommandView {
        match self {
            Command::SetValue { key, value } => CommandView::SetValue { key: key@, value: value@ },
            Command::Remove { key } => CommandView::Remove { key: key@ },
        }
    }
}

impl CommandView {
    /// The key that the command is about.
    pub open spec fn key(self) -> Seq<char> {
        match self {
            CommandView::SetValue { key, .. } => key,
            CommandView::Remove { key } => key,
        }
    }
}

/// The bytes `{"Set":{"key":`.
#[verifier::opaque]
pub open spec fn set_head() -> Seq<u8> {
    seq![
        0x7bu8, 0x22u8, 0x53u8, 0x65u8, 0x74u8, 0x22u8, 0x3au8, 0x7bu8, 0x22u8, 0x6bu8, 0x65u8,
        0x79u8, 0x22u8, 0x3au8,
    ]
}

/// The bytes `,"value":`.
#[verifier::opaque]
pub open spec fn value_sep() -> Seq<u8> {
    seq![0x2cu8, 0x22u8, 0x76u8, 0x61u8, 0x6cu8, 0x75u8, 0x65u8, 0x22u8, 0x3au8]
}

/// The bytes `{"Remove":{"key":`.
#[verifier::opaque]
pub open spec fn remove_head() -> Seq<u8> {
    seq![
        0x7bu8, 0x22u8, 0x52u8, 0x65u8, 0x6du8, 0x6fu8, 0x76u8, 0x65u8, 0x22u8, 0x3au8, 0x7bu8,
        0x22u8, 0x6bu8, 0x65u8, 0x79u8, 0x22u8, 0x3au8,
    ]
}

/// The bytes `}}`.
#[verifier::opaque]
pub open spec fn tail() -> Seq<u8> {
    seq![0x7du8, 0x7du8]
}

/// The lengths of the four fixed parts, and the byte that tells the two
/// heads apart.
pub proof fn lemma_token_shapes()
    ensures
        set_head().len() == 14,
        value_sep().len() == 9,
        remove_head().len() == 17,
        tail().len() == 2,
        set_head()[2] != remove_head()[2],
{
    reveal(set_head);
    reveal(value_sep);
    reveal(remove_head);
    reveal(tail);
}

/// The JSON literal of a string.
pub open spec fn literal(s: Seq<char>) -> Seq<u8> {
    json_quote(encode_utf8(s))
}

/// The bytes of a record.
pub open spec fn encode(cmd: CommandView) -> Seq<u8> {
    match cmd {
        CommandView::SetValue { key, value } => set_head() + literal(key) + value_sep() + literal(value)
            + tail(),
        CommandView::Remove { key } => remove_head() + literal(key) + tail(),
    }
}

/// The literal of `s` is read back as `s`.
pub open spec fn reads_back(s: Seq<char>) -> bool {
    json_unquote(literal(s)) == Some(s)
}

/// Every string of the command is read back from its literal.
pub open spec fn round_trips(cmd: CommandView) -> bool {
    match cmd {
        CommandView::SetValue { key, value } => reads_back(key) && reads_back(value),
        CommandView::Remove { key } => reads_back(key),
    }
}

/// `token` stands in `data` at `pos`.
pub open spec fn has_token(data: Seq<u8>, pos: int, token: Seq<u8>) -> bool {
    &&& 0 <= pos
    &&& pos + token.len() <= data.len()
    &&& data.subrange(pos, pos + token.len()) == token
}

/// What follows the head of a `Set` record: key, separator, value, tail.
pub open spec fn set_body_at(data: Seq<u8>, pos: int) -> Option<(CommandView, int)> {
    match string_at(data, pos) {
        Some((key, after_key)) => if has_token(data, after_key, value_sep()) {
            match string_at(data, after_key + value_sep().len()) {
                Some((value, after_value)) => if has_token(data, after_value, tail()) {
                    Some((CommandView::SetValue { key, value }, after_value + tail().len()))
                } else {
                    None
                },
                None => None,
            }
        } else {
            None
        },
        None => None,
    }
}

/// What follows the head of a `Remove` record: key, tail.
pub open spec fn remove_body_at(data: Seq<u8>, pos: int) -> Option<(CommandView, int)> {
    match string_at(data, pos) {
        Some((key, after_key)) => if has_token(data, after_key, tail()) {
            Some((CommandView::Remove { key }, after_key + tail().len()))
        } else {
            None
        },
        None => None,
    }
}

/// The record that starts at `pos`, and the place where it ends; `None`
/// where the bytes from `pos` on do not start with a record.
pub open spec fn decode_at(data: Seq<u8>, pos: int) -> Option<(CommandView, int)> {
    if has_token(data, pos, set_head()) {
        set_body_at(data, pos + set_head().len())
    } else if has_token(data, pos, remove_head()) {
        remove_body_at(data, pos + remove_head().len())
    } else {
        None
    }
}

/// A record is not empty and lies inside the data.
pub proof fn lemma_decode_bounds(data: Seq<u8>, pos: int)
    ensures
        decode_at(data, pos) matches Some((cmd, end)) ==> 0 <= pos < end <= data.len(),
{
    lemma_token_shapes();
    if has_token(data, pos, set_head()) {
        let after_head = pos + set_head().len();
        lemma_string_at_bounds(data, after_head);
        if let Some((key, after_key)) = string_at(data, after_head) {
            lemma_string_at_bounds(data, after_key + value_sep().len());
        }
    } else if has_token(data, pos, remove_head()) {
        lemma_string_at_bounds(data, pos + remove_head().len());
    }
}

/// Whether a token stands at a place is a matter of the bytes there alone.
proof fn lemma_token_moves(a: Seq<u8>, i: int, b: Seq<u8>, j: int, n: int, from: int, token: Seq<u8>)
    requires
        same_window(a, i, b, j, n),
        0 <= from,
        from + token.len() <= n,
    ensures
        has_token(a, i + from, token) == has_token(b, j + from, token),
{
    let wa = a.subrange(i + from, i + from + token.len());
    let wb = b.subrange(j + from, j + from + token.len());
    assert(wa =~= wb) by {
        assert forall|k: int| 0 <= k < token.len() implies wa[k] == wb[k] by {
            assert(a[i + (from + k)] == b[j + (from + k)]);
        }
    }
}

/// A record is read by its own bytes alone: the same bytes at another
/// place, or in other data, give the same command.
pub proof fn lemma_decode_local(a: Seq<u8>, i: int, b: Seq<u8>, j: int, n: int)
    requires
        same_window(a, i, b, j, n),
        decode_at(a, i) matches Some((cmd, end)) && end == i + n,
    ensures
        decode_at(b, j) == Some((decode_at(a, i).unwrap().0, j + n)),
{
    lemma_decode_bounds(a, i);
    lemma_token_shapes();
    if has_token(a, i, set_head()) {
        let h = set_head().len() as int;
        let (key, after_key) = string_at(a, i + h).unwrap();
        lemma_string_at_bounds(a, i + h);
        let (value, after_value) = string_at(a, after_key + value_sep().len()).unwrap();
        lemma_string_at_bounds(a, after_key + value_sep().len());
        lemma_token_moves(a, i, b, j, n, 0, set_head());
        lemma_string_at_local(a, i, b, j, n, h);
        lemma_token_moves(a, i, b, j, n, after_key - i, value_sep());
        lemma_string_at_local(a, i, b, j, n, after_key - i + value_sep().len());
        lemma_token_moves(a, i, b, j, n, after_value - i, tail());
    } else {
        let h = remove_head().len() as int;
        let (key, after_key) = string_at(a, i + h).unwrap();
        lemma_string_at_bounds(a, i + h);
        lemma_token_moves(a, i, b, j, n, 0, remove_head());
        assert(a[i + 2] == b[j + 2]);
        assert(!has_token(b, j, set_head())) by {
            if has_token(b, j, set_head()) {
                assert(b.subrange(j, j + set_head().len())[2] == set_head()[2]);
                assert(a.subrange(i, i + remove_head().len())[2] == remove_head()[2]);
            }
        }
        lemma_string_at_local(a, i, b, j, n, h);
        lemma_token_moves(a, i, b, j, n, after_key - i, tail());
    }
}

/// The bytes of a command, wherever they stand, are read back as that
/// command.
pub proof fn lemma_decode_encoded(data: Seq<u8>, pos: int, cmd: CommandView)
    requires
        0 <= pos,
        pos + encode(cmd).len() <= data.len(),
        data.subrange(pos, pos + encode(cmd).len()) == encode(cmd),
        round_trips(cmd),
    ensures
        decode_at(data, pos) == Some((cmd, pos + encode(cmd).len())),
{
    lemma_token_shapes();
    let enc = encode(cmd);
    let window = data.subrange(pos, pos + enc.len());
    assert forall|k: int| 0 <= k < enc.len() implies #[trigger] data[pos + k] == enc[k] by {
        assert(window[k] == enc[k]);
    }
    match cmd {
        CommandView::SetValue { key, value } => {
            let h = set_head().len() as int;
            let kl = literal(key);
            let vl = literal(value);
            let s = value_sep().len() as int;
            let at_sep = h + kl.len();
            let at_value = at_sep + s;
            let at_tail = at_value + vl.len();
            assert(enc.subrange(0, h) =~= set_head());
            assert(enc.subrange(h, h + kl.len()) =~= kl);
            assert(enc.subrange(at_sep, at_sep + s) =~= value_sep());
            assert(enc.subrange(at_value, at_value + vl.len()) =~= vl);
            assert(enc.subrange(at_tail, at_tail + tail().len()) =~= tail());
            lemma_piece(data, pos, enc, 0, set_head());
            lemma_piece(data, pos, enc, h, kl);
            lemma_piece(data, pos, enc, at_sep, value_sep());
            lemma_piece(data, pos, enc, at_value, vl);
            lemma_piece(data, pos, enc, at_tail, tail());
            lemma_string_at_quoted(data, pos + h, encode_utf8(key), key);
            lemma_string_at_quoted(data, pos + at_value, encode_utf8(value), value);
        },
        CommandView::Remove { key } => {
            let h = remove_head().len() as int;
            let kl = literal(key);
            let at_tail = h + kl.len();
            assert(enc.subrange(0, h) =~= remove_head());
            assert(enc.subrange(h, h + kl.len()) =~= kl);
            assert(enc.subrange(at_tail, at_tail + tail().len()) =~= tail());
            lemma_piece(data, pos, enc, 0, remove_head());
            lemma_piece(data, pos, enc, h, kl);
            lemma_piece(data, pos, enc, at_tail, tail());
            lemma_string_at_quoted(data, pos + h, encode_utf8(key), key);
            assert(!has_token(data, pos, set_head())) by {
                if has_token(data, pos, set_head()) {
                    assert(data.subrange(pos, pos + set_head().len())[2] == set_head()[2]);
                    assert(data[pos + 2] == enc[2]);
                }
            }
        },
    }
}

/// A piece of an encoding stands in the data where the encoding puts it.
proof fn lemma_piece(data: Seq<u8>, pos: int, enc: Seq<u8>, at: int, piece: Seq<u8>)
    requires
        0 <= pos,
        0 <= at,
        at + piece.len() <= enc.len(),
        pos + enc.len() <= data.len(),
        enc.subrange(at, at + piece.len()) == piece,
        forall|k: int| 0 <= k < enc.len() ==> #[trigger] data[pos + k] == enc[k],
    ensures
        has_token(data, pos + at, piece),
        data.subrange(pos + at, pos + at + piece.len()) == piece,
{
    let w = data.subrange(pos + at, pos + at + piece.len());
    assert(w =~= piece) by {
        assert forall|k: int| 0 <= k < piece.len() implies w[k] == piece[k] by {
            assert(data[pos + (at + k)] == enc[at + k]);
            assert(enc.subrange(at, at + piece.len())[k] == enc[at + k]);
        }
    }
}

/// Appends `bytes` to `out`.
pub fn append_bytes(out: &mut Vec<u8>, bytes: &[u8])
    ensures
        final(out)@ == old(out)@ + bytes@,
{
    let mut i: usize = 0;
    while i < bytes.len()
        invariant
            i <= bytes.len(),
            out@ == old(out)@ + bytes@.subrange(0, i as int),
        decreases bytes.len() - i,
    {
        out.push(bytes[i]);
        i = i + 1;
        assert(out@ =~= old(out)@ + bytes@.subrange(0, i as int));
    }
    assert(bytes@.subrange(0, i as int) =~= bytes@);
}

/// Whether `token` stands in `data` at `pos`.
pub fn starts_with_at(data: &[u8], pos: usize, token: &[u8]) -> (r: bool)
    ensures
        r == has_token(data@, pos as int, token@),
{
    if pos > data.len() || token.len() > data.len() - pos {
        return false;
    }
    let ghost window = data@.subrange(pos as int, pos + token.len());
    let mut i: usize = 0;
    while i < token.len()
        invariant
            i <= token.len(),
            pos + token.len() <= data.len(),
            window == data@.subrange(pos as int, pos + token.len()),
            forall|k: int| 0 <= k < i ==> window[k] == token@[k],
        decreases token.len() - i,
    {
        if data[pos + i] != token[i] {
            assert(window[i as int] != token@[i as int]);
            return false;
        }
        i = i + 1;
    }
    assert(window =~= token@);
    true
}

/// The bytes `{"Set":{"key":`.
fn set_head_bytes() -> (t: Vec<u8>)
    ensures
        t@ == set_head(),
{
    let t = vec![
        0x7bu8, 0x22u8, 0x53u8, 0x65u8, 0x74u8, 0x22u8, 0x3au8, 0x7bu8, 0x22u8, 0x6bu8, 0x65u8,
        0x79u8, 0x22u8, 0x3au8,
    ];
    reveal(set_head);
    assert(t@ =~= set_head());
    t
}

/// The bytes `,"value":`.
fn value_sep_bytes() -> (t: Vec<u8>)
    ensures
        t@ == value_sep(),
{
    let t = vec![0x2cu8, 0x22u8, 0x76u8, 0x61u8, 0x6cu8, 0x75u8, 0x65u8, 0x22u8, 0x3au8];
    reveal(value_sep);
    assert(t@ =~= value_sep());
    t
}

/// The bytes `{"Remove":{"key":`.
fn remove_head_bytes() -> (t: Vec<u8>)
    ensures
        t@ == remove_head(),
{
    let t = vec![
        0x7bu8, 0x22u8, 0x52u8, 0x65u8, 0x6du8, 0x6fu8, 0x76u8, 0x65u8, 0x22u8, 0x3au8, 0x7bu8,
        0x22u8, 0x6bu8, 0x65u8, 0x79u8, 0x22u8, 0x3au8,
    ];
    reveal(remove_head);
    assert(t@ =~= remove_head());
    t
}

/// The bytes `}}`.
fn tail_bytes() -> (t: Vec<u8>)
    ensures
        t@ == tail(),
{
    let t = vec![0x7du8, 0x7du8];
    reveal(tail);
    assert(t@ =~= tail());
    t
}

/// The JSON literal of a string, by `serde_json`.
fn literal_bytes(s: &str) -> (r: Result<Vec<u8>>)
    ensures
        r matches Ok(out) && out@ == literal(s@) && reads_back(s@),
{
    match quote(s) {
        Ok(out) => Ok(out),
        Err(_) => Err(KvsError::SerdeError),
    }
}

/// Encodes a command as one record.
pub fn encode_command(cmd: &Command) -> (r: Result<Vec<u8>>)
    ensures
        r matches Ok(out) && out@ == encode(cmd@) && round_trips(cmd@),
{
    match cmd {
        Command::SetValue { key, value } => {
            let key_lit = literal_bytes(key.as_str())?;
            let value_lit = literal_bytes(value.as_str())?;
            let mut out = set_head_bytes();
            append_bytes(&mut out, key_lit.as_slice());
            append_bytes(&mut out, value_sep_bytes().as_slice());
            append_bytes(&mut out, value_lit.as_slice());
            append_bytes(&mut out, tail_bytes().as_slice());
            Ok(out)
        },
        Command::Remove { key } => {
            let key_lit = literal_bytes(key.as_str())?;
            let mut out = remove_head_bytes();
            append_bytes(&mut out, key_lit.as_slice());
            append_bytes(&mut out, tail_bytes().as_slice());
            Ok(out)
        },
    }
}

/// Reads the record that starts at `pos`.
///
/// Returns the command and the place where the record ends, or `None`
/// where no record starts at `pos`.
pub fn decode_command(data: &[u8], pos: usize) -> (r: Option<(Command, usize)>)
    ensures
        match r {
            Some((cmd, end)) => decode_at(data@, pos as int) == Some((cmd@, end as int)),
            None => decode_at(data@, pos as int) is None,
        },
{
    let set_head = set_head_bytes();
    let remove_head = remove_head_bytes();
    let value_sep = value_sep_bytes();
    let tail = tail_bytes();
    if pos >= data.len() {
        return None;
    }
    proof {
        lemma_token_shapes();
    }
    if starts_with_at(data, pos, set_head.as_slice()) {
        let (key, after_key) = match read_string(data, pos + set_head.len()) {
            Some(found) => found,
            None => { return None; },
        };
        if !starts_with_at(data, after_key, value_sep.as_slice()) {
            return None;
        }
        let (value, after_value) = match read_string(data, after_key + value_sep.len()) {
            Some(found) => found,
            None => { return None; },
        };
        proof {
            lemma_string_at_bounds(data@, after_key + 9);
        }
        if !starts_with_at(data, after_value, tail.as_slice()) {
            return None;
        }
        Some((Command::SetValue { key, value }, after_value + tail.len()))
    } else if starts_with_at(data, pos, remove_head.as_slice()) {
        let (key, after_key) = match read_string(data, pos + remove_head.len()) {
            Some(found) => found,
            None => { return None; },
        };
        if !starts_with_at(data, after_key, tail.as_slice()) {
            return None;
        }
        Some((Command::Remove { key }, after_key + tail.len()))
    } else {
        None
    }
}

} // verus!
