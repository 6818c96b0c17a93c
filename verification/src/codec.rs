//! The record codec: a JSON-shaped, self-delimiting text form for
//! [`Command`] and [`Response`] values.
//!
//! A record is the encoded value followed by a single `#` terminator.  The
//! encoding quotes keys, values and messages, escaping `\`, `"` and `#`
//! (the last as the unicode escape `#`), so that an encoded value
//! never contains a raw `#` and splitting a stream at `#` recovers exactly
//! the records that were written.

use vstd::prelude::*;
use crate::protocol::{CmdModel, Command, RespModel, Response};
use crate::text::{chars_to_string, str_to_chars};

verus! {

// ---------------------------------------------------------------------------
// Escaping
// ---------------------------------------------------------------------------

/// How a single character appears inside a quoted string.
pub open spec fn esc_char(c: char) -> Seq<char> {
    if c == '\\' {
        seq!['\\', '\\']
    } else if c == '"' {
        seq!['\\', '"']
    } else if c == '#' {
        seq!['\\', 'u', '0', '0', '2', '3']
    } else {
        seq![c]
    }
}

/// How a whole string appears inside quotes.
pub open spec fn esc(s: Seq<char>) -> Seq<char>
    decreases s.len(),
{
    if s.len() == 0 {
        Seq::empty()
    } else {
        esc_char(s[0]) + esc(s.drop_first())
    }
}

/// No character of `s` is the record delimiter.
pub open spec fn no_delim(s: Seq<char>) -> bool {
    forall|i: int| 0 <= i < s.len() ==> s[i] != '#'
}

pub proof fn lemma_esc_one(c: char)
    ensures
        esc(seq![c]) == esc_char(c),
{
    assert(seq![c].drop_first() =~= Seq::<char>::empty());
    assert(esc_char(c) + esc(Seq::<char>::empty()) =~= esc_char(c));
}

pub proof fn lemma_esc_append(a: Seq<char>, b: Seq<char>)
    ensures
        esc(a + b) == esc(a) + esc(b),
    decreases a.len(),
{
    if a.len() == 0 {
        assert(a + b =~= b);
        assert(esc(a) + esc(b) =~= esc(b));
    } else {
        assert((a + b).drop_first() =~= a.drop_first() + b);
        lemma_esc_append(a.drop_first(), b);
        assert(esc_char(a[0]) + (esc(a.drop_first()) + esc(b)) =~= (esc_char(a[0]) + esc(
            a.drop_first(),
        )) + esc(b));
    }
}

pub proof fn lemma_esc_no_delim(s: Seq<char>)
    ensures
        no_delim(esc(s)),
    decreases s.len(),
{
    if s.len() != 0 {
        lemma_esc_no_delim(s.drop_first());
    }
}

// ---------------------------------------------------------------------------
// The fixed pieces of the encoded forms
// ---------------------------------------------------------------------------

/// `{"Set":{"key":"` — opens a stored `Put` record.
pub open spec fn set_tag() -> Seq<char> {
    seq!['{', '"', 'S', 'e', 't', '"', ':', '{', '"', 'k', 'e', 'y', '"', ':', '"']
}

/// `{"Get":{"key":"` — opens a `Get` request.
pub open spec fn get_tag() -> Seq<char> {
    seq!['{', '"', 'G', 'e', 't', '"', ':', '{', '"', 'k', 'e', 'y', '"', ':', '"']
}

/// `{"Rm":{"key":"` — opens a removal record.
pub open spec fn rm_tag() -> Seq<char> {
    seq!['{', '"', 'R', 'm', '"', ':', '{', '"', 'k', 'e', 'y', '"', ':', '"']
}

/// `,"value":"` — separates the key from the value of a `Put`.
pub open spec fn val_mid() -> Seq<char> {
    seq![',', '"', 'v', 'a', 'l', 'u', 'e', '"', ':', '"']
}

/// `}}` — closes a command object after its last quoted string.
pub open spec fn obj_end() -> Seq<char> {
    seq!['}', '}']
}

/// `{"SuccessSet":[]}` — the whole reply to a successful `Put`.
pub open spec fn resp_set() -> Seq<char> {
    seq!['{', '"', 'S', 'u', 'c', 'c', 'e', 's', 's', 'S', 'e', 't', '"', ':', '[', ']', '}']
}

/// `{"SuccessRm":[]}` — the whole reply to a successful `Rm`.
pub open spec fn resp_rm() -> Seq<char> {
    seq!['{', '"', 'S', 'u', 'c', 'c', 'e', 's', 's', 'R', 'm', '"', ':', '[', ']', '}']
}

/// `{"SuccessGet":null}` — the whole reply to a `Get` that found nothing.
pub open spec fn resp_get_null() -> Seq<char> {
    seq![
        '{', '"', 'S', 'u', 'c', 'c', 'e', 's', 's', 'G', 'e', 't', '"', ':', 'n', 'u', 'l', 'l',
        '}',
    ]
}

/// `{"SuccessGet":"` — opens the reply to a `Get` that found a value.
pub open spec fn resp_get_some() -> Seq<char> {
    seq!['{', '"', 'S', 'u', 'c', 'c', 'e', 's', 's', 'G', 'e', 't', '"', ':', '"']
}

/// `{"Fail":"` — opens a failure reply.
pub open spec fn resp_fail() -> Seq<char> {
    seq!['{', '"', 'F', 'a', 'i', 'l', '"', ':', '"']
}

/// `"}` — closes a response object after its quoted string.
pub open spec fn resp_end() -> Seq<char> {
    seq!['}']
}

// ---------------------------------------------------------------------------
// Encoding, at the specification level
// ---------------------------------------------------------------------------

/// The encoded text of a command (without the trailing `#`).
pub open spec fn encode_cmd(m: CmdModel) -> Seq<char> {
    match m {
        CmdModel::Put { key, value } => set_tag() + esc(key) + seq!['"'] + val_mid() + esc(value)
            + seq!['"'] + obj_end(),
        CmdModel::Get { key } => get_tag() + esc(key) + seq!['"'] + obj_end(),
        CmdModel::Rm { key } => rm_tag() + esc(key) + seq!['"'] + obj_end(),
    }
}

/// The encoded text of a response (without the trailing `#`).
pub open spec fn encode_resp(m: RespModel) -> Seq<char> {
    match m {
        RespModel::SuccessSet => resp_set(),
        RespModel::SuccessRm => resp_rm(),
        RespModel::SuccessGet { value: None } => resp_get_null(),
        RespModel::SuccessGet { value: Some(v) } => resp_get_some() + esc(v) + seq!['"']
            + resp_end(),
        RespModel::Fail { message } => resp_fail() + esc(message) + seq!['"'] + resp_end(),
    }
}

pub proof fn lemma_encode_cmd_no_delim(m: CmdModel)
    ensures
        no_delim(encode_cmd(m)),
{
    match m {
        CmdModel::Put { key, value } => {
            lemma_esc_no_delim(key);
            lemma_esc_no_delim(value);
        },
        CmdModel::Get { key } => lemma_esc_no_delim(key),
        CmdModel::Rm { key } => lemma_esc_no_delim(key),
    }
}

pub proof fn lemma_encode_resp_no_delim(m: RespModel)
    ensures
        no_delim(encode_resp(m)),
{
    match m {
        RespModel::SuccessGet { value: Some(v) } => lemma_esc_no_delim(v),
        RespModel::Fail { message } => lemma_esc_no_delim(message),
        _ => {},
    }
}

// ---------------------------------------------------------------------------
// Decoding, at the specification level
// ---------------------------------------------------------------------------

/// `p` is an initial segment of `s`.
pub open spec fn has_prefix(s: Seq<char>, p: Seq<char>) -> bool {
    p.len() <= s.len() && s.subrange(0, p.len() as int) == p
}

/// One step of string parsing: a character prepended to a parse result.
pub open spec fn cons_parsed(c: char, r: Option<(Seq<char>, Seq<char>)>) -> Option<
    (Seq<char>, Seq<char>),
> {
    match r {
        Some((content, rest)) => Some((seq![c] + content, rest)),
        None => None,
    }
}

/// Reads a quoted string's contents up to and over its closing quote;
/// yields the unescaped contents and what follows the quote.
pub open spec fn parse_str(s: Seq<char>) -> Option<(Seq<char>, Seq<char>)>
    decreases s.len(),
{
    if s.len() == 0 {
        None
    } else if s[0] == '"' {
        Some((Seq::empty(), s.drop_first()))
    } else if s[0] == '\\' {
        if s.len() >= 2 && s[1] == '\\' {
            cons_parsed('\\', parse_str(s.skip(2)))
        } else if s.len() >= 2 && s[1] == '"' {
            cons_parsed('"', parse_str(s.skip(2)))
        } else if s.len() >= 6 && s[1] == 'u' && s[2] == '0' && s[3] == '0' && s[4] == '2' && s[5]
            == '3' {
            cons_parsed('#', parse_str(s.skip(6)))
        } else {
            None
        }
    } else if s[0] == '#' {
        None
    } else {
        cons_parsed(s[0], parse_str(s.drop_first()))
    }
}

/// The command a record's text stands for, if it is well formed.
pub open spec fn decode_cmd(s: Seq<char>) -> Option<CmdModel> {
    if has_prefix(s, set_tag()) {
        match parse_str(s.skip(set_tag().len() as int)) {
            Some((key, r1)) => if has_prefix(r1, val_mid()) {
                match parse_str(r1.skip(val_mid().len() as int)) {
                    Some((value, r2)) => if r2 == obj_end() {
                        Some(CmdModel::Put { key, value })
                    } else {
                        None
                    },
                    None => None,
                }
            } else {
                None
            },
            None => None,
        }
    } else if has_prefix(s, get_tag()) {
        match parse_str(s.skip(get_tag().len() as int)) {
            Some((key, r1)) => if r1 == obj_end() {
                Some(CmdModel::Get { key })
            } else {
                None
            },
            None => None,
        }
    } else if has_prefix(s, rm_tag()) {
        match parse_str(s.skip(rm_tag().len() as int)) {
            Some((key, r1)) => if r1 == obj_end() {
                Some(CmdModel::Rm { key })
            } else {
                None
            },
            None => None,
        }
    } else {
        None
    }
}

/// The response a reply's text stands for, if it is well formed.
pub open spec fn decode_resp(s: Seq<char>) -> Option<RespModel> {
    if s == resp_set() {
        Some(RespModel::SuccessSet)
    } else if s == resp_rm() {
        Some(RespModel::SuccessRm)
    } else if s == resp_get_null() {
        Some(RespModel::SuccessGet { value: None })
    } else if has_prefix(s, resp_get_some()) {
        match parse_str(s.skip(resp_get_some().len() as int)) {
            Some((v, r1)) => if r1 == resp_end() {
                Some(RespModel::SuccessGet { value: Some(v) })
            } else {
                None
            },
            None => None,
        }
    } else if has_prefix(s, resp_fail()) {
        match parse_str(s.skip(resp_fail().len() as int)) {
            Some((m, r1)) => if r1 == resp_end() {
                Some(RespModel::Fail { message: m })
            } else {
                None
            },
            None => None,
        }
    } else {
        None
    }
}

// ---------------------------------------------------------------------------
// Round trip: decoding an encoded value yields the value back
// ---------------------------------------------------------------------------

/// Parsing a quoted string that was produced by escaping recovers the
/// original contents and leaves the trailing text untouched.
pub proof fn lemma_parse_esc(k: Seq<char>, rest: Seq<char>)
    ensures
        parse_str(esc(k) + seq!['"'] + rest) == Some((k, rest)),
    decreases k.len(),
{
    let s = esc(k) + seq!['"'] + rest;
    if k.len() == 0 {
        assert(s =~= seq!['"'] + rest);
        assert(s[0] == '"');
        assert(s.drop_first() =~= rest);
    } else {
        let c = k[0];
        let kd = k.drop_first();
        lemma_parse_esc(kd, rest);
        let sd = esc(kd) + seq!['"'] + rest;
        assert(esc(k) == esc_char(c) + esc(kd));
        if c == '\\' {
            assert(s[0] == '\\' && s[1] == '\\');
            assert(s.skip(2) =~= sd);
            assert(seq![c] + kd =~= k);
        } else if c == '"' {
            assert(s[0] == '\\' && s[1] == '"');
            assert(s.skip(2) =~= sd);
            assert(seq![c] + kd =~= k);
        } else if c == '#' {
            assert(s[0] == '\\' && s[1] == 'u' && s[2] == '0' && s[3] == '0' && s[4] == '2' && s[5]
                == '3');
            assert(s.skip(6) =~= sd);
            assert(seq![c] + kd =~= k);
        } else {
            assert(s[0] == c);
            assert(s.drop_first() =~= sd);
            assert(seq![c] + kd =~= k);
        }
    }
}

/// Stripping a known prefix off a concatenation leaves the remainder.
pub proof fn lemma_strip_prefix(p: Seq<char>, t: Seq<char>)
    ensures
        has_prefix(p + t, p),
        (p + t).skip(p.len() as int) == t,
{
    assert((p + t).subrange(0, p.len() as int) =~= p);
    assert((p + t).skip(p.len() as int) =~= t);
}

/// Round trip for commands: every encoded command decodes to itself.
pub proof fn lemma_cmd_round_trip(m: CmdModel)
    ensures
        decode_cmd(encode_cmd(m)) == Some(m),
{
    let s = encode_cmd(m);
    match m {
        CmdModel::Put { key, value } => {
            let t1 = esc(key) + seq!['"'] + (val_mid() + esc(value) + seq!['"'] + obj_end());
            assert(s =~= set_tag() + t1);
            lemma_strip_prefix(set_tag(), t1);
            lemma_parse_esc(key, val_mid() + esc(value) + seq!['"'] + obj_end());
            let r1 = val_mid() + esc(value) + seq!['"'] + obj_end();
            let t2 = esc(value) + seq!['"'] + obj_end();
            assert(r1 =~= val_mid() + t2);
            lemma_strip_prefix(val_mid(), t2);
            lemma_parse_esc(value, obj_end());
            assert(!has_prefix(s, get_tag())) by {
                assert(s[2] == 'S' && get_tag()[2] == 'G');
            }
        },
        CmdModel::Get { key } => {
            let t1 = esc(key) + seq!['"'] + obj_end();
            assert(s =~= get_tag() + t1);
            lemma_strip_prefix(get_tag(), t1);
            lemma_parse_esc(key, obj_end());
            assert(!has_prefix(s, set_tag())) by {
                assert(s[2] == 'G' && set_tag()[2] == 'S');
            }
        },
        CmdModel::Rm { key } => {
            let t1 = esc(key) + seq!['"'] + obj_end();
            assert(s =~= rm_tag() + t1);
            lemma_strip_prefix(rm_tag(), t1);
            lemma_parse_esc(key, obj_end());
            assert(!has_prefix(s, set_tag())) by {
                assert(s[2] == 'R' && set_tag()[2] == 'S');
            }
            assert(!has_prefix(s, get_tag())) by {
                assert(s[2] == 'R' && get_tag()[2] == 'G');
            }
        },
    }
}

/// Round trip for responses: every encoded response decodes to itself.
pub proof fn lemma_resp_round_trip(m: RespModel)
    ensures
        decode_resp(encode_resp(m)) == Some(m),
{
    let s = encode_resp(m);
    match m {
        RespModel::SuccessSet => {},
        RespModel::SuccessRm => {
            assert(s != resp_set()) by {
                assert(s.len() != resp_set().len());
            }
        },
        RespModel::SuccessGet { value: None } => {
            assert(s != resp_set()) by {
                assert(s.len() != resp_set().len());
            }
            assert(s != resp_rm()) by {
                assert(s.len() != resp_rm().len());
            }
        },
        RespModel::SuccessGet { value: Some(v) } => {
            let t1 = esc(v) + seq!['"'] + resp_end();
            assert(s =~= resp_get_some() + t1);
            lemma_strip_prefix(resp_get_some(), t1);
            lemma_parse_esc(v, resp_end());
            assert(s[14] == '"');
            assert(s != resp_set()) by {
                if s.len() == resp_set().len() {
                    assert(s[9] == 'G' && resp_set()[9] == 'S');
                }
            }
            assert(s != resp_rm()) by {
                assert(s[9] == 'G');
                if s.len() == resp_rm().len() {
                    assert(resp_rm()[9] == 'R');
                }
            }
            assert(s != resp_get_null()) by {
                if s.len() == resp_get_null().len() {
                    assert(resp_get_null()[14] == 'n');
                    assert(s[14] != 'n');
                }
            }
        },
        RespModel::Fail { message } => {
            let t1 = esc(message) + seq!['"'] + resp_end();
            assert(s =~= resp_fail() + t1);
            lemma_strip_prefix(resp_fail(), t1);
            lemma_parse_esc(message, resp_end());
            assert(s != resp_set()) by {
                assert(s[2] == 'F' && resp_set()[2] == 'S');
            }
            assert(s != resp_rm()) by {
                assert(s[2] == 'F' && resp_rm()[2] == 'S');
            }
            assert(s != resp_get_null()) by {
                assert(s[2] == 'F' && resp_get_null()[2] == 'S');
            }
            assert(!has_prefix(s, resp_get_some())) by {
                assert(s[2] == 'F' && resp_get_some()[2] == 'S');
            }
        },
    }
}

// ---------------------------------------------------------------------------
// Executable literal pieces
// ---------------------------------------------------------------------------

/// `set_tag()` as a character vector.
pub fn set_tag_vec() -> (v: Vec<char>)
    ensures
        v@ == set_tag(),
{
    let mut v: Vec<char> = Vec::new();
    v.push('{');
    v.push('"');
    v.push('S');
    v.push('e');
    v.push('t');
    v.push('"');
    v.push(':');
    v.push('{');
    v.push('"');
    v.push('k');
    v.push('e');
    v.push('y');
    v.push('"');
    v.push(':');
    v.push('"');
    proof {
        assert(v@ =~= set_tag());
    }
    v
}

/// `get_tag()` as a character vector.
pub fn get_tag_vec() -> (v: Vec<char>)
    ensures
        v@ == get_tag(),
{
    let mut v: Vec<char> = Vec::new();
    v.push('{');
    v.push('"');
    v.push('G');
    v.push('e');
    v.push('t');
    v.push('"');
    v.push(':');
    v.push('{');
    v.push('"');
    v.push('k');
    v.push('e');
    v.push('y');
    v.push('"');
    v.push(':');
    v.push('"');
    proof {
        assert(v@ =~= get_tag());
    }
    v
}

/// `rm_tag()` as a character vector.
pub fn rm_tag_vec() -> (v: Vec<char>)
    ensures
        v@ == rm_tag(),
{
    let mut v: Vec<char> = Vec::new();
    v.push('{');
    v.push('"');
    v.push('R');
    v.push('m');
    v.push('"');
    v.push(':');
    v.push('{');
    v.push('"');
    v.push('k');
    v.push('e');
    v.push('y');
    v.push('"');
    v.push(':');
    v.push('"');
    proof {
        assert(v@ =~= rm_tag());
    }
    v
}

/// `val_mid()` as a character vector.
pub fn val_mid_vec() -> (v: Vec<char>)
    ensures
        v@ == val_mid(),
{
    let mut v: Vec<char> = Vec::new();
    v.push(',');
    v.push('"');
    v.push('v');
    v.push('a');
    v.push('l');
    v.push('u');
    v.push('e');
    v.push('"');
    v.push(':');
    v.push('"');
    proof {
        assert(v@ =~= val_mid());
    }
    v
}

/// `resp_set()` as a character vector.
pub fn resp_set_vec() -> (v: Vec<char>)
    ensures
        v@ == resp_set(),
{
    let mut v = resp_tag_open();
    v.push('S');
    v.push('e');
    v.push('t');
    v.push('"');
    v.push(':');
    v.push('[');
    v.push(']');
    v.push('}');
    proof {
        assert(v@ =~= resp_set());
    }
    v
}

/// `resp_rm()` as a character vector.
pub fn resp_rm_vec() -> (v: Vec<char>)
    ensures
        v@ == resp_rm(),
{
    let mut v = resp_tag_open();
    v.push('R');
    v.push('m');
    v.push('"');
    v.push(':');
    v.push('[');
    v.push(']');
    v.push('}');
    proof {
        assert(v@ =~= resp_rm());
    }
    v
}

/// `resp_get_null()` as a character vector.
pub fn resp_get_null_vec() -> (v: Vec<char>)
    ensures
        v@ == resp_get_null(),
{
    let mut v = resp_tag_open();
    v.push('G');
    v.push('e');
    v.push('t');
    v.push('"');
    v.push(':');
    v.push('n');
    v.push('u');
    v.push('l');
    v.push('l');
    v.push('}');
    proof {
        assert(v@ =~= resp_get_null());
    }
    v
}

/// `resp_get_some()` as a character vector.
pub fn resp_get_some_vec() -> (v: Vec<char>)
    ensures
        v@ == resp_get_some(),
{
    let mut v = resp_tag_open();
    v.push('G');
    v.push('e');
    v.push('t');
    v.push('"');
    v.push(':');
    v.push('"');
    proof {
        assert(v@ =~= resp_get_some());
    }
    v
}

/// `{"Success` — the shared opening of the success replies.
fn resp_tag_open() -> (v: Vec<char>)
    ensures
        v@ == seq!['{', '"', 'S', 'u', 'c', 'c', 'e', 's', 's'],
{
    let mut v: Vec<char> = Vec::new();
    v.push('{');
    v.push('"');
    v.push('S');
    v.push('u');
    v.push('c');
    v.push('c');
    v.push('e');
    v.push('s');
    v.push('s');
    proof {
        assert(v@ =~= seq!['{', '"', 'S', 'u', 'c', 'c', 'e', 's', 's']);
    }
    v
}

/// `resp_fail()` as a character vector.
pub fn resp_fail_vec() -> (v: Vec<char>)
    ensures
        v@ == resp_fail(),
{
    let mut v: Vec<char> = Vec::new();
    v.push('{');
    v.push('"');
    v.push('F');
    v.push('a');
    v.push('i');
    v.push('l');
    v.push('"');
    v.push(':');
    v.push('"');
    proof {
        assert(v@ =~= resp_fail());
    }
    v
}

// ---------------------------------------------------------------------------
// Executable encoding
// ---------------------------------------------------------------------------

/// Appends every character of `src` to `out`.
pub fn append_chars(out: &mut Vec<char>, src: &Vec<char>)
    ensures
        final(out)@ == old(out)@ + src@,
{
    let mut i: usize = 0;
    while i < src.len()
        invariant
            i <= src@.len(),
            out@ == old(out)@ + src@.take(i as int),
        decreases src@.len() - i,
    {
        out.push(src[i]);
        proof {
            assert(src@.take(i + 1 as int) =~= src@.take(i as int) + seq![src@[i as int]]);
            assert(out@ =~= old(out)@ + src@.take(i + 1 as int));
        }
        i = i + 1;
    }
    proof {
        assert(src@.take(src@.len() as int) =~= src@);
    }
}

/// Appends the escaped form of `s` to `out`.
fn push_esc(out: &mut Vec<char>, s: &str)
    ensures
        final(out)@ == old(out)@ + esc(s@),
{
    let cs = str_to_chars(s);
    let mut i: usize = 0;
    proof {
        assert(cs@.take(0) =~= Seq::<char>::empty());
    }
    while i < cs.len()
        invariant
            cs@ == s@,
            i <= cs@.len(),
            out@ == old(out)@ + esc(cs@.take(i as int)),
        decreases cs@.len() - i,
    {
        let c = cs[i];
        if c == '\\' {
            out.push('\\');
            out.push('\\');
        } else if c == '"' {
            out.push('\\');
            out.push('"');
        } else if c == '#' {
            out.push('\\');
            out.push('u');
            out.push('0');
            out.push('0');
            out.push('2');
            out.push('3');
        } else {
            out.push(c);
        }
        proof {
            assert(cs@.take(i + 1 as int) =~= cs@.take(i as int) + seq![cs@[i as int]]);
            lemma_esc_append(cs@.take(i as int), seq![cs@[i as int]]);
            lemma_esc_one(cs@[i as int]);
            assert(out@ =~= old(out)@ + esc(cs@.take(i + 1 as int)));
        }
        i = i + 1;
    }
    proof {
        assert(cs@.take(cs@.len() as int) =~= s@);
    }
}

/// Encodes a command as its record text (without the trailing `#`).
pub fn encode_command(cmd: &Command) -> (out: Vec<char>)
    ensures
        out@ == encode_cmd(cmd@),
{
    let mut out: Vec<char> = Vec::new();
    match cmd {
        Command::Put { key, value } => {
            let tag = set_tag_vec();
            append_chars(&mut out, &tag);
            push_esc(&mut out, key.as_str());
            out.push('"');
            let mid = val_mid_vec();
            append_chars(&mut out, &mid);
            push_esc(&mut out, value.as_str());
            out.push('"');
            out.push('}');
            out.push('}');
            proof {
                assert(out@ =~= encode_cmd(cmd@));
            }
        },
        Command::Get { key } => {
            let tag = get_tag_vec();
            append_chars(&mut out, &tag);
            push_esc(&mut out, key.as_str());
            out.push('"');
            out.push('}');
            out.push('}');
            proof {
                assert(out@ =~= encode_cmd(cmd@));
            }
        },
        Command::Rm { key } => {
            let tag = rm_tag_vec();
            append_chars(&mut out, &tag);
            push_esc(&mut out, key.as_str());
            out.push('"');
            out.push('}');
            out.push('}');
            proof {
                assert(out@ =~= encode_cmd(cmd@));
            }
        },
    }
    out
}

/// Encodes a response as its reply text (without the trailing `#`).
pub fn encode_response(resp: &Response) -> (out: Vec<char>)
    ensures
        out@ == encode_resp(resp@),
{
    match resp {
        Response::SuccessSet => resp_set_vec(),
        Response::SuccessRm => resp_rm_vec(),
        Response::SuccessGet(None) => resp_get_null_vec(),
        Response::SuccessGet(Some(v)) => {
            let mut out = resp_get_some_vec();
            push_esc(&mut out, v.as_str());
            out.push('"');
            out.push('}');
            proof {
                assert(out@ =~= encode_resp(resp@));
            }
            out
        },
        Response::Fail(m) => {
            let mut out = resp_fail_vec();
            push_esc(&mut out, m.as_str());
            out.push('"');
            out.push('}');
            proof {
                assert(out@ =~= encode_resp(resp@));
            }
            out
        },
    }
}

// ---------------------------------------------------------------------------
// Executable decoding
// ---------------------------------------------------------------------------

/// Whether `pat` occurs in `s` starting at `pos`.
pub fn match_at(s: &Vec<char>, pos: usize, pat: &Vec<char>) -> (b: bool)
    requires
        pos <= s@.len(),
    ensures
        b == has_prefix(s@.skip(pos as int), pat@),
{
    proof {
        lemma_prefix_at(s@, pos as int, pat@);
    }
    let n: usize = s.len();
    if n - pos < pat.len() {
        return false;
    }
    let mut i: usize = 0;
    while i < pat.len()
        invariant
            pos + pat@.len() <= n == s@.len(),
            i <= pat@.len(),
            forall|j: int| 0 <= j < i ==> s@[pos + j] == pat@[j],
        decreases pat@.len() - i,
    {
        if s[pos + i] != pat[i] {
            proof {
                assert(s@.subrange(pos as int, pos + pat@.len() as int)[i as int] != pat@[i as int]);
                lemma_prefix_at(s@, pos as int, pat@);
            }
            return false;
        }
        i = i + 1;
    }
    proof {
        assert(s@.subrange(pos as int, pos + pat@.len() as int) =~= pat@);
    }
    true
}

/// `has_prefix` over a suffix of `s`, stated over `s` itself.
pub proof fn lemma_prefix_at(s: Seq<char>, pos: int, p: Seq<char>)
    requires
        0 <= pos <= s.len(),
    ensures
        has_prefix(s.skip(pos), p) <==> (pos + p.len() <= s.len() && s.subrange(
            pos,
            pos + p.len() as int,
        ) == p),
{
    if pos + p.len() <= s.len() {
        assert(s.skip(pos).subrange(0, p.len() as int) =~= s.subrange(pos, pos + p.len() as int));
    }
}

/// `cons_parsed` folded over a whole accumulated prefix.
pub open spec fn acc_parsed(p: Seq<char>, r: Option<(Seq<char>, Seq<char>)>) -> Option<
    (Seq<char>, Seq<char>),
> {
    match r {
        Some((content, rest)) => Some((p + content, rest)),
        None => None,
    }
}

/// Reads a quoted string starting at `start`; on success yields its
/// unescaped contents and the position just past the closing quote.
pub fn parse_str_at(s: &Vec<char>, start: usize) -> (r: Option<(Vec<char>, usize)>)
    requires
        start <= s@.len(),
    ensures
        match r {
            Some(p) => p.1 <= s@.len() && parse_str(s@.skip(start as int)) == Some(
                (p.0@, s@.skip(p.1 as int)),
            ),
            None => parse_str(s@.skip(start as int)) is None,
        },
{
    let mut acc: Vec<char> = Vec::new();
    let mut i: usize = start;
    proof {
        assert(acc@ + Seq::<char>::empty() =~= acc@);
    }
    loop
        invariant
            start <= i <= s@.len(),
            parse_str(s@.skip(start as int)) == acc_parsed(acc@, parse_str(s@.skip(i as int))),
        decreases s@.len() - i,
    {
        proof {
            assert(s@.skip(i as int).len() == s@.len() - i);
            if i < s@.len() {
                assert(s@.skip(i as int)[0] == s@[i as int]);
            }
        }
        if i >= s.len() {
            return None;
        }
        let c = s[i];
        if c == '"' {
            proof {
                assert(s@.skip(i as int).drop_first() =~= s@.skip(i + 1 as int));
                assert(acc@ + Seq::<char>::empty() =~= acc@);
            }
            return Some((acc, i + 1));
        } else if c == '\\' {
            let ghost pre = acc@;
            let ghost si = s@.skip(i as int);
            if i + 1 < s.len() && s[i + 1] == '\\' {
                acc.push('\\');
                i = i + 2;
                proof {
                    assert(si[1] == s@[i - 1]);
                    assert(si.skip(2) =~= s@.skip(i as int));
                    assert(pre + (seq!['\\'] + parse_content(s@.skip(i as int))) =~= acc@
                        + parse_content(s@.skip(i as int)));
                }
            } else if i + 1 < s.len() && s[i + 1] == '"' {
                acc.push('"');
                i = i + 2;
                proof {
                    assert(si[1] == s@[i - 1]);
                    assert(si.skip(2) =~= s@.skip(i as int));
                    assert(pre + (seq!['"'] + parse_content(s@.skip(i as int))) =~= acc@
                        + parse_content(s@.skip(i as int)));
                }
            } else if s.len() - i > 5 && s[i + 1] == 'u' && s[i + 2] == '0' && s[i + 3] == '0' && s[i
                + 4] == '2' && s[i + 5] == '3' {
                acc.push('#');
                i = i + 6;
                proof {
                    assert(si[1] == s@[i - 5] && si[2] == s@[i - 4] && si[3] == s@[i - 3] && si[4]
                        == s@[i - 2] && si[5] == s@[i - 1]);
                    assert(si.skip(6) =~= s@.skip(i as int));
                    assert(pre + (seq!['#'] + parse_content(s@.skip(i as int))) =~= acc@
                        + parse_content(s@.skip(i as int)));
                }
            } else {
                proof {
                    if s@.len() - i >= 2 {
                        assert(si[1] == s@[i + 1]);
                    }
                }
                return None;
            }
        } else if c == '#' {
            return None;
        } else {
            let ghost pre = acc@;
            acc.push(c);
            i = i + 1;
            proof {
                assert(s@.skip(i - 1).drop_first() =~= s@.skip(i as int));
                assert(pre + (seq![s@[i - 1]] + parse_content(s@.skip(i as int))) =~= acc@
                    + parse_content(s@.skip(i as int)));
            }
        }
    }
}

/// The contents component of a parse, used to relate accumulator steps.
pub open spec fn parse_content(s: Seq<char>) -> Seq<char> {
    match parse_str(s) {
        Some((content, rest)) => content,
        None => Seq::empty(),
    }
}

/// Whether `s` spells out exactly `pat`.
pub fn equals_lit(s: &Vec<char>, pat: &Vec<char>) -> (b: bool)
    ensures
        b == (s@ == pat@),
{
    proof {
        assert(s@.skip(0) =~= s@);
    }
    if s.len() != pat.len() {
        return false;
    }
    let b = match_at(s, 0, pat);
    proof {
        if b {
            assert(s@.subrange(0, pat@.len() as int) =~= s@);
        } else {
            if s@ == pat@ {
                assert(s@.subrange(0, pat@.len() as int) =~= pat@);
            }
        }
    }
    b
}

/// Decodes a record's text back into the command it stands for.
pub fn decode_command(s: &Vec<char>) -> (r: Option<Command>)
    ensures
        match r {
            Some(c) => decode_cmd(s@) == Some(c@),
            None => decode_cmd(s@) is None,
        },
{
    proof {
        assert(s@.skip(0) =~= s@);
    }
    let setp = set_tag_vec();
    let getp = get_tag_vec();
    let rmp = rm_tag_vec();
    if match_at(s, 0, &setp) {
        match parse_str_at(s, setp.len()) {
            Some((key, p1)) => {
                let midp = val_mid_vec();
                if match_at(s, p1, &midp) {
                    let n: usize = s.len();
                    proof {
                        assert(p1 + midp@.len() <= n);
                        assert(s@.skip(p1 as int).skip(val_mid().len() as int) =~= s@.skip(
                            p1 + val_mid().len(),
                        ));
                    }
                    match parse_str_at(s, p1 + midp.len()) {
                        Some((value, p2)) => {
                            if close_obj_at(s, p2) {
                                Some(
                                    Command::Put {
                                        key: chars_to_string(&key),
                                        value: chars_to_string(&value),
                                    },
                                )
                            } else {
                                None
                            }
                        },
                        None => None,
                    }
                } else {
                    None
                }
            },
            None => None,
        }
    } else if match_at(s, 0, &getp) {
        match parse_str_at(s, getp.len()) {
            Some((key, p1)) => {
                if close_obj_at(s, p1) {
                    Some(Command::Get { key: chars_to_string(&key) })
                } else {
                    None
                }
            },
            None => None,
        }
    } else if match_at(s, 0, &rmp) {
        match parse_str_at(s, rmp.len()) {
            Some((key, p1)) => {
                if close_obj_at(s, p1) {
                    Some(Command::Rm { key: chars_to_string(&key) })
                } else {
                    None
                }
            },
            None => None,
        }
    } else {
        None
    }
}

/// Whether the text from `pos` on is exactly the two closing braces.
fn close_obj_at(s: &Vec<char>, pos: usize) -> (b: bool)
    requires
        pos <= s@.len(),
    ensures
        b == (s@.skip(pos as int) == obj_end()),
{
    proof {
        assert(s@.skip(pos as int).len() == s@.len() - pos);
        if s@.len() - pos == 2 {
            assert(s@.skip(pos as int)[0] == s@[pos as int]);
            assert(s@.skip(pos as int)[1] == s@[pos as int + 1]);
        }
    }
    if s.len() - pos == 2 && s[pos] == '}' && s[pos + 1] == '}' {
        proof {
            assert(s@.skip(pos as int) =~= obj_end());
        }
        true
    } else {
        false
    }
}

/// Whether the text from `pos` on is exactly the one closing brace.
fn close_resp_at(s: &Vec<char>, pos: usize) -> (b: bool)
    requires
        pos <= s@.len(),
    ensures
        b == (s@.skip(pos as int) == resp_end()),
{
    proof {
        assert(s@.skip(pos as int).len() == s@.len() - pos);
        if s@.len() - pos == 1 {
            assert(s@.skip(pos as int)[0] == s@[pos as int]);
        }
    }
    if s.len() - pos == 1 && s[pos] == '}' {
        proof {
            assert(s@.skip(pos as int) =~= resp_end());
        }
        true
    } else {
        false
    }
}

/// Decodes a reply's text back into the response it stands for.
pub fn decode_response(s: &Vec<char>) -> (r: Option<Response>)
    ensures
        match r {
            Some(c) => decode_resp(s@) == Some(c@),
            None => decode_resp(s@) is None,
        },
{
    proof {
        assert(s@.skip(0) =~= s@);
    }
    let rset = resp_set_vec();
    let rrm = resp_rm_vec();
    let rnull = resp_get_null_vec();
    let rsome = resp_get_some_vec();
    let rfail = resp_fail_vec();
    if equals_lit(s, &rset) {
        Some(Response::SuccessSet)
    } else if equals_lit(s, &rrm) {
        Some(Response::SuccessRm)
    } else if equals_lit(s, &rnull) {
        Some(Response::SuccessGet(None))
    } else if match_at(s, 0, &rsome) {
        match parse_str_at(s, rsome.len()) {
            Some((v, p1)) => {
                if close_resp_at(s, p1) {
                    Some(Response::SuccessGet(Some(chars_to_string(&v))))
                } else {
                    None
                }
            },
            None => None,
        }
    } else if match_at(s, 0, &rfail) {
        match parse_str_at(s, rfail.len()) {
            Some((m, p1)) => {
                if close_resp_at(s, p1) {
                    Some(Response::Fail(chars_to_string(&m)))
                } else {
                    None
                }
            },
            None => None,
        }
    } else {
        None
    }
}

} // verus!
