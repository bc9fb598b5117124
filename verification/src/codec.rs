//! The wire format: one message per text frame.
//!
//! A frame is a JSON object whose first member is the discriminant
//! (`"type"`), followed by the variant's fields in declaration order; a
//! `Video` payload is written as an array of decimal byte values, so binary
//! content survives the text encoding losslessly. Decoding accepts exactly
//! the frames this module produces, ignores members appended after the
//! known fields, and reports anything else as a failure rather than a
//! panic, so a hostile frame can never take the relay down.

use vstd::prelude::*;
use vstd::string::StringExecFns;
use crate::message::{KimchiMessage, MsgV};

verus! {

broadcast use vstd::string::group_string_axioms;

// ---------------------------------------------------------------------------
// Frame fragments
// ---------------------------------------------------------------------------

pub open spec fn lit_head() -> Seq<char> {
    "{\"type\":\""@
}

pub open spec fn lit_joined() -> Seq<char> {
    "Joined"@
}

pub open spec fn lit_public() -> Seq<char> {
    "Public"@
}

pub open spec fn lit_private() -> Seq<char> {
    "Private"@
}

pub open spec fn lit_video() -> Seq<char> {
    "Video"@
}

pub open spec fn lit_user() -> Seq<char> {
    ",\"user\":\""@
}

pub open spec fn lit_to_user() -> Seq<char> {
    ",\"to_user\":\""@
}

pub open spec fn lit_message() -> Seq<char> {
    ",\"message\":\""@
}

pub open spec fn lit_data() -> Seq<char> {
    ",\"data\":"@
}

pub open spec fn quote() -> Seq<char> {
    seq!['"']
}

pub open spec fn rbrace() -> Seq<char> {
    seq!['}']
}

// ---------------------------------------------------------------------------
// Spec-level serialization
// ---------------------------------------------------------------------------

/// How one character appears inside a quoted string: a quote or a
/// backslash gets a backslash escape, everything else stands for itself.
pub open spec fn esc_char(c: char) -> Seq<char> {
    if c == '"' || c == '\\' {
        seq!['\\', c]
    } else {
        seq![c]
    }
}

/// A string's characters as they appear inside its quotes.
pub open spec fn esc(s: Seq<char>) -> Seq<char>
    decreases s.len(),
{
    if s.len() == 0 {
        Seq::empty()
    } else {
        esc_char(s[0]) + esc(s.drop_first())
    }
}

/// The decimal digit `d` as a character.
pub open spec fn digit_char(d: u8) -> char {
    ((48 + d) as u8) as char
}

/// A byte in decimal, without leading zeros.
pub open spec fn dec_of(b: u8) -> Seq<char> {
    if b < 10 {
        seq![digit_char(b)]
    } else if b < 100 {
        seq![digit_char(b / 10), digit_char(b % 10)]
    } else {
        seq![digit_char(b / 100), digit_char((b / 10) % 10), digit_char(b % 10)]
    }
}

/// The tail of a byte list: each further byte preceded by a comma.
pub open spec fn items_from(d: Seq<u8>) -> Seq<char>
    decreases d.len(),
{
    if d.len() == 0 {
        Seq::empty()
    } else {
        seq![','] + dec_of(d[0]) + items_from(d.drop_first())
    }
}

/// A byte list as comma-separated decimals.
pub open spec fn items(d: Seq<u8>) -> Seq<char> {
    if d.len() == 0 {
        Seq::empty()
    } else {
        dec_of(d[0]) + items_from(d.drop_first())
    }
}

/// A byte payload as a bracketed array of decimals.
pub open spec fn ser_bytes(d: Seq<u8>) -> Seq<char> {
    seq!['['] + items(d) + seq![']']
}

/// The one frame this library writes for a message.
pub open spec fn ser_msg(m: MsgV) -> Seq<char> {
    match m {
        MsgV::Joined { user } => lit_head() + lit_joined() + quote() + lit_user() + esc(user)
            + quote() + rbrace(),
        MsgV::Public { user, message } => lit_head() + lit_public() + quote() + lit_user() + esc(
            user,
        ) + quote() + lit_message() + esc(message) + quote() + rbrace(),
        MsgV::Private { user, to_user, message } => lit_head() + lit_private() + quote()
            + lit_user() + esc(user) + quote() + lit_to_user() + esc(to_user) + quote()
            + lit_message() + esc(message) + quote() + rbrace(),
        MsgV::Video { user, data } => lit_head() + lit_video() + quote() + lit_user() + esc(user)
            + quote() + lit_data() + ser_bytes(data) + rbrace(),
    }
}

// ---------------------------------------------------------------------------
// Escaping and decimal lemmas
// ---------------------------------------------------------------------------

proof fn lemma_esc_append(a: Seq<char>, b: Seq<char>)
    ensures
        esc(a + b) == esc(a) + esc(b),
    decreases a.len(),
{
    if a.len() == 0 {
        assert(a + b =~= b);
        assert(esc(a) + esc(b) =~= esc(b));
    } else {
        assert((a + b).drop_first() =~= a.drop_first() + b);
        lemma_esc_append(a.drop_first(), b);
        assert((a + b)[0] == a[0]);
        assert(esc_char(a[0]) + (esc(a.drop_first()) + esc(b)) =~= (esc_char(a[0]) + esc(
            a.drop_first(),
        )) + esc(b));
    }
}

proof fn lemma_esc_snoc(s: Seq<char>, i: int)
    requires
        0 <= i < s.len(),
    ensures
        esc(s.take(i + 1)) == esc(s.take(i)) + esc_char(s[i]),
{
    assert(s.take(i + 1) =~= s.take(i) + seq![s[i]]);
    lemma_esc_append(s.take(i), seq![s[i]]);
    assert(seq![s[i]].drop_first() =~= Seq::<char>::empty());
    assert(esc(seq![s[i]]) == esc_char(s[i]) + esc(Seq::<char>::empty()));
    assert(esc_char(s[i]) + Seq::<char>::empty() =~= esc_char(s[i]));
}

proof fn lemma_items_from_append(a: Seq<u8>, b: Seq<u8>)
    ensures
        items_from(a + b) == items_from(a) + items_from(b),
    decreases a.len(),
{
    if a.len() == 0 {
        assert(a + b =~= b);
        assert(items_from(a) + items_from(b) =~= items_from(b));
    } else {
        assert((a + b).drop_first() =~= a.drop_first() + b);
        lemma_items_from_append(a.drop_first(), b);
        assert((a + b)[0] == a[0]);
        assert((seq![','] + dec_of(a[0]) + (items_from(a.drop_first()) + items_from(b))) =~= (
        seq![','] + dec_of(a[0]) + items_from(a.drop_first())) + items_from(b));
    }
}

/// What one more byte appends to a byte list.
pub open spec fn sep_item(j: int, b: u8) -> Seq<char> {
    if j == 0 {
        dec_of(b)
    } else {
        seq![','] + dec_of(b)
    }
}

proof fn lemma_items_snoc(d: Seq<u8>, i: int)
    requires
        0 <= i < d.len(),
    ensures
        items(d.take(i + 1)) == items(d.take(i)) + sep_item(i, d[i]),
{
    let a = d.take(i);
    let x = d[i];
    assert(d.take(i + 1) =~= a + seq![x]);
    if i == 0 {
        assert(a.len() == 0);
        assert((a + seq![x])[0] == x);
        assert((a + seq![x]).drop_first() =~= Seq::<u8>::empty());
        assert(items(d.take(i + 1)) == dec_of(x) + items_from(Seq::<u8>::empty()));
        assert(dec_of(x) + Seq::<char>::empty() =~= dec_of(x));
        assert(items(a) + sep_item(i, x) =~= dec_of(x));
    } else {
        assert((a + seq![x])[0] == a[0]);
        assert((a + seq![x]).drop_first() =~= a.drop_first() + seq![x]);
        lemma_items_from_append(a.drop_first(), seq![x]);
        assert(seq![x].drop_first() =~= Seq::<u8>::empty());
        assert(items_from(seq![x]) == seq![','] + dec_of(x) + items_from(Seq::<u8>::empty()));
        assert(seq![','] + dec_of(x) + Seq::<char>::empty() =~= seq![','] + dec_of(x));
        assert(dec_of(a[0]) + (items_from(a.drop_first()) + items_from(seq![x])) =~= (dec_of(a[0])
            + items_from(a.drop_first())) + (seq![','] + dec_of(x)));
    }
}

// ---------------------------------------------------------------------------
// Encoder
// ---------------------------------------------------------------------------

/// Relies on String::push: appends the given character to the end of the
/// string.
#[verifier::external_body]
fn push_char(out: &mut String, c: char)
    ensures
        final(out)@ == old(out)@.push(c),
{
    out.push(c);
}

/// The characters of a string slice, in order.
pub fn str_to_chars(s: &str) -> (v: Vec<char>)
    ensures
        v@ == s@,
{
    let mut v: Vec<char> = Vec::new();
    for c in it: s.chars()
        invariant
            it.seq() == s@,
            v@ == it.seq().take(it.index()),
    {
        v.push(c);
        proof {
            assert(v@ =~= it.seq().take(it.index() + 1));
        }
    }
    proof {
        assert(v@ =~= s@);
    }
    v
}

fn digit_exec(d: u8) -> (c: char)
    requires
        d < 10,
    ensures
        c == digit_char(d),
{
    (48 + d) as char
}

fn push_u8_dec(out: &mut String, b: u8)
    ensures
        final(out)@ == old(out)@ + dec_of(b),
{
    if b >= 100 {
        push_char(out, digit_exec(b / 100));
        push_char(out, digit_exec((b / 10) % 10));
        push_char(out, digit_exec(b % 10));
        proof {
            assert(out@ =~= old(out)@ + dec_of(b));
        }
    } else if b >= 10 {
        push_char(out, digit_exec(b / 10));
        push_char(out, digit_exec(b % 10));
        proof {
            assert(out@ =~= old(out)@ + dec_of(b));
        }
    } else {
        push_char(out, digit_exec(b));
        proof {
            assert(out@ =~= old(out)@ + dec_of(b));
        }
    }
}

fn append_escaped(out: &mut String, s: &String)
    ensures
        final(out)@ == old(out)@ + esc(s@),
{
    let cs = str_to_chars(s.as_str());
    let ghost base = old(out)@;
    let mut i: usize = 0;
    while i < cs.len()
        invariant
            i <= cs.len(),
            cs@ == s@,
            out@ == base + esc(s@.take(i as int)),
        decreases cs.len() - i,
    {
        let c = cs[i];
        if c == '"' || c == '\\' {
            push_char(out, '\\');
        }
        push_char(out, c);
        proof {
            lemma_esc_snoc(s@, i as int);
            assert(out@ =~= base + esc(s@.take(i as int + 1)));
        }
        i = i + 1;
    }
    proof {
        assert(s@.take(s@.len() as int) =~= s@);
    }
}

fn append_bytes(out: &mut String, data: &Vec<u8>)
    ensures
        final(out)@ == old(out)@ + ser_bytes(data@),
{
    let ghost base = old(out)@;
    push_char(out, '[');
    let mut i: usize = 0;
    while i < data.len()
        invariant
            i <= data.len(),
            out@ == base + seq!['['] + items(data@.take(i as int)),
        decreases data.len() - i,
    {
        if i > 0 {
            push_char(out, ',');
        }
        push_u8_dec(out, data[i]);
        proof {
            lemma_items_snoc(data@, i as int);
            assert(out@ =~= base + seq!['['] + items(data@.take(i as int + 1)));
        }
        i = i + 1;
    }
    push_char(out, ']');
    proof {
        assert(data@.take(data.len() as int) =~= data@);
        assert(out@ =~= base + ser_bytes(data@));
    }
}

impl KimchiMessage {
    /// Encode a message as one wire frame. Every constructible message is
    /// representable, so this always succeeds.
    pub fn to_str(msg: &KimchiMessage) -> (r: Option<String>)
        ensures
            r matches Some(s) && s@ == ser_msg(msg@),
    {
        let mut out = String::new();
        out.append("{\"type\":\"");
        match msg {
            KimchiMessage::Joined { user } => {
                out.append("Joined");
                push_char(&mut out, '"');
                out.append(",\"user\":\"");
                append_escaped(&mut out, user);
                push_char(&mut out, '"');
                push_char(&mut out, '}');
                proof {
                    assert(out@ =~= ser_msg(msg@));
                }
            },
            KimchiMessage::Public { user, message } => {
                out.append("Public");
                push_char(&mut out, '"');
                out.append(",\"user\":\"");
                append_escaped(&mut out, user);
                push_char(&mut out, '"');
                out.append(",\"message\":\"");
                append_escaped(&mut out, message);
                push_char(&mut out, '"');
                push_char(&mut out, '}');
                proof {
                    assert(out@ =~= ser_msg(msg@));
                }
            },
            KimchiMessage::Private { user, to_user, message } => {
                out.append("Private");
                push_char(&mut out, '"');
                out.append(",\"user\":\"");
                append_escaped(&mut out, user);
                push_char(&mut out, '"');
                out.append(",\"to_user\":\"");
                append_escaped(&mut out, to_user);
                push_char(&mut out, '"');
                out.append(",\"message\":\"");
                append_escaped(&mut out, message);
                push_char(&mut out, '"');
                push_char(&mut out, '}');
                proof {
                    assert(out@ =~= ser_msg(msg@));
                }
            },
            KimchiMessage::Video { user, data } => {
                out.append("Video");
                push_char(&mut out, '"');
                out.append(",\"user\":\"");
                append_escaped(&mut out, user);
                push_char(&mut out, '"');
                out.append(",\"data\":");
                append_bytes(&mut out, data);
                push_char(&mut out, '}');
                proof {
                    assert(out@ =~= ser_msg(msg@));
                }
            },
        }
        Some(out)
    }
}

} // verus!

verus! {

// ---------------------------------------------------------------------------
// Spec-level parsing
// ---------------------------------------------------------------------------

/// `lit` occurs in `s` at position `i`.
pub open spec fn match_at(s: Seq<char>, i: int, lit: Seq<char>) -> bool {
    0 <= i && i + lit.len() <= s.len() && s.subrange(i, i + lit.len()) == lit
}

/// Read a quoted string's remaining characters starting at `i` (the opening
/// quote already consumed), unescaping as written by `esc`; yields the
/// content accumulated onto `acc` and the position after the closing quote.
pub open spec fn p_str(s: Seq<char>, i: int, acc: Seq<char>) -> Option<(Seq<char>, int)>
    decreases s.len() - i,
{
    if i < 0 || i >= s.len() {
        None
    } else if s[i] == '"' {
        Some((acc, i + 1))
    } else if s[i] == '\\' {
        if i + 1 < s.len() && (s[i + 1] == '"' || s[i + 1] == '\\') {
            p_str(s, i + 2, acc.push(s[i + 1]))
        } else {
            None
        }
    } else {
        p_str(s, i + 1, acc.push(s[i]))
    }
}

pub open spec fn is_digit(c: char) -> bool {
    48 <= c as u32 && c as u32 <= 57
}

/// The value of a digit character.
pub open spec fn dval(c: char) -> int {
    c as u32 - 48
}

/// Read one decimal byte at `i`: one to three digits, value at most 255.
pub open spec fn p_u8(s: Seq<char>, i: int) -> Option<(u8, int)> {
    if 0 <= i && i < s.len() && is_digit(s[i]) {
        if i + 1 < s.len() && is_digit(s[i + 1]) {
            if i + 2 < s.len() && is_digit(s[i + 2]) {
                if i + 3 < s.len() && is_digit(s[i + 3]) {
                    None
                } else {
                    let v = 100 * dval(s[i]) + 10 * dval(s[i + 1]) + dval(s[i + 2]);
                    if v <= 255 {
                        Some((v as u8, i + 3))
                    } else {
                        None
                    }
                }
            } else {
                Some(((10 * dval(s[i]) + dval(s[i + 1])) as u8, i + 2))
            }
        } else {
            Some((dval(s[i]) as u8, i + 1))
        }
    } else {
        None
    }
}

/// Read the rest of a byte array: `,` then a byte, repeated, then `]`.
pub open spec fn p_bytes_rest(s: Seq<char>, i: int, acc: Seq<u8>) -> Option<(Seq<u8>, int)>
    decreases s.len() - i,
{
    if i < 0 || i >= s.len() {
        None
    } else if s[i] == ']' {
        Some((acc, i + 1))
    } else if s[i] == ',' {
        match p_u8(s, i + 1) {
            Some((b, j)) => p_bytes_rest(s, j, acc.push(b)),
            None => None,
        }
    } else {
        None
    }
}

/// Read a bracketed byte array at `i`.
pub open spec fn p_bytes(s: Seq<char>, i: int) -> Option<(Seq<u8>, int)> {
    if 0 <= i && i < s.len() && s[i] == '[' {
        if i + 1 < s.len() && s[i + 1] == ']' {
            Some((Seq::empty(), i + 2))
        } else {
            match p_u8(s, i + 1) {
                Some((b, j)) => p_bytes_rest(s, j, seq![b]),
                None => None,
            }
        }
    } else {
        None
    }
}

/// After the known fields the frame must close; members appended by a newer
/// peer are ignored, provided the frame still ends with `}`.
pub open spec fn p_end(s: Seq<char>, i: int) -> bool {
    0 <= i < s.len() && ((s[i] == '}' && i + 1 == s.len()) || (s[i] == ',' && s[s.len() - 1]
        == '}'))
}

/// Parse the variant's remaining fields once the discriminant and the
/// `user` field are in hand.
pub open spec fn parse_fields(s: Seq<char>, j: int, name: Seq<char>, user: Seq<char>) -> Option<
    MsgV,
> {
    if name == lit_joined() {
        if p_end(s, j) {
            Some(MsgV::Joined { user })
        } else {
            None
        }
    } else if name == lit_public() {
        if match_at(s, j, lit_message()) {
            match p_str(s, j + lit_message().len(), Seq::empty()) {
                Some((message, k)) => if p_end(s, k) {
                    Some(MsgV::Public { user, message })
                } else {
                    None
                },
                None => None,
            }
        } else {
            None
        }
    } else if name == lit_private() {
        if match_at(s, j, lit_to_user()) {
            match p_str(s, j + lit_to_user().len(), Seq::empty()) {
                Some((to_user, k)) => if match_at(s, k, lit_message()) {
                    match p_str(s, k + lit_message().len(), Seq::empty()) {
                        Some((message, l)) => if p_end(s, l) {
                            Some(MsgV::Private { user, to_user, message })
                        } else {
                            None
                        },
                        None => None,
                    }
                } else {
                    None
                },
                None => None,
            }
        } else {
            None
        }
    } else if name == lit_video() {
        if match_at(s, j, lit_data()) {
            match p_bytes(s, j + lit_data().len()) {
                Some((data, k)) => if p_end(s, k) {
                    Some(MsgV::Video { user, data })
                } else {
                    None
                },
                None => None,
            }
        } else {
            None
        }
    } else {
        None
    }
}

/// The frames this library accepts, and the message each denotes.
pub open spec fn parse_msg(s: Seq<char>) -> Option<MsgV> {
    if !match_at(s, 0, lit_head()) {
        None
    } else {
        match p_str(s, lit_head().len() as int, Seq::empty()) {
            None => None,
            Some((name, i)) => {
                if !match_at(s, i, lit_user()) {
                    None
                } else {
                    match p_str(s, i + lit_user().len(), Seq::empty()) {
                        None => None,
                        Some((user, j)) => parse_fields(s, j, name, user),
                    }
                }
            },
        }
    }
}

} // verus!

verus! {

// ---------------------------------------------------------------------------
// Decoder
// ---------------------------------------------------------------------------

fn e_match_at(v: &Vec<char>, i: usize, lit: &Vec<char>) -> (r: bool)
    ensures
        r == match_at(v@, i as int, lit@),
{
    if i > v.len() || v.len() - i < lit.len() {
        return false;
    }
    let mut j: usize = 0;
    while j < lit.len()
        invariant
            i + lit.len() <= v.len(),
            j <= lit.len(),
            forall|k: int| 0 <= k < j ==> v@[i + k] == lit@[k],
        decreases lit.len() - j,
    {
        if v[i + j] != lit[j] {
            proof {
                assert(v@.subrange(i as int, i as int + lit@.len() as int)[j as int] == v@[i + j]);
            }
            return false;
        }
        j = j + 1;
    }
    proof {
        assert(v@.subrange(i as int, i as int + lit@.len() as int) =~= lit@);
    }
    true
}

fn e_p_str(v: &Vec<char>, start: usize) -> (r: Option<(String, usize)>)
    ensures
        match r {
            Some(t) => p_str(v@, start as int, Seq::empty()) == Some((t.0@, t.1 as int)) && t.1
                <= v.len(),
            None => p_str(v@, start as int, Seq::empty()) is None,
        },
{
    let mut acc = String::new();
    let mut i = start;
    loop
        invariant
            i <= v.len() || i == start,
            p_str(v@, start as int, Seq::empty()) == p_str(v@, i as int, acc@),
        decreases v.len() - i,
    {
        if i >= v.len() {
            return None;
        }
        let c = v[i];
        if c == '"' {
            return Some((acc, i + 1));
        } else if c == '\\' {
            if i + 1 < v.len() && (v[i + 1] == '"' || v[i + 1] == '\\') {
                push_char(&mut acc, v[i + 1]);
                i = i + 2;
            } else {
                return None;
            }
        } else {
            push_char(&mut acc, c);
            i = i + 1;
        }
    }
}

fn is_digit_exec(c: char) -> (r: bool)
    ensures
        r == is_digit(c),
{
    let u = c as u32;
    48 <= u && u <= 57
}

fn dval_exec(c: char) -> (d: u8)
    requires
        is_digit(c),
    ensures
        d as int == dval(c),
{
    (c as u32 - 48) as u8
}

fn e_p_u8(v: &Vec<char>, i: usize) -> (r: Option<(u8, usize)>)
    ensures
        match r {
            Some(t) => p_u8(v@, i as int) == Some((t.0, t.1 as int)) && t.1 <= v.len(),
            None => p_u8(v@, i as int) is None,
        },
{
    if !(i < v.len() && is_digit_exec(v[i])) {
        return None;
    }
    let d0 = dval_exec(v[i]);
    if !(i + 1 < v.len() && is_digit_exec(v[i + 1])) {
        return Some((d0, i + 1));
    }
    let d1 = dval_exec(v[i + 1]);
    if !(i + 2 < v.len() && is_digit_exec(v[i + 2])) {
        return Some((10 * d0 + d1, i + 2));
    }
    let d2 = dval_exec(v[i + 2]);
    if i + 3 < v.len() && is_digit_exec(v[i + 3]) {
        return None;
    }
    let val: u32 = 100 * (d0 as u32) + 10 * (d1 as u32) + (d2 as u32);
    if val <= 255 {
        Some((val as u8, i + 3))
    } else {
        None
    }
}

fn e_p_bytes(v: &Vec<char>, start: usize) -> (r: Option<(Vec<u8>, usize)>)
    ensures
        match r {
            Some(t) => p_bytes(v@, start as int) == Some((t.0@, t.1 as int)) && t.1 <= v.len(),
            None => p_bytes(v@, start as int) is None,
        },
{
    if !(start < v.len() && v[start] == '[') {
        return None;
    }
    if start + 1 < v.len() && v[start + 1] == ']' {
        let empty: Vec<u8> = Vec::new();
        proof {
            assert(empty@ =~= Seq::<u8>::empty());
        }
        return Some((empty, start + 2));
    }
    let first = match e_p_u8(v, start + 1) {
        Some(t) => t,
        None => {
            return None;
        },
    };
    let mut acc: Vec<u8> = Vec::new();
    acc.push(first.0);
    let mut i = first.1;
    proof {
        assert(acc@ =~= seq![first.0]);
    }
    loop
        invariant
            i <= v.len(),
            p_bytes(v@, start as int) == p_bytes_rest(v@, i as int, acc@),
        decreases v.len() - i,
    {
        if i >= v.len() {
            return None;
        }
        let c = v[i];
        if c == ']' {
            return Some((acc, i + 1));
        } else if c == ',' {
            match e_p_u8(v, i + 1) {
                Some(t) => {
                    acc.push(t.0);
                    i = t.1;
                },
                None => {
                    return None;
                },
            }
        } else {
            return None;
        }
    }
}

fn e_p_end(v: &Vec<char>, i: usize) -> (r: bool)
    ensures
        r == p_end(v@, i as int),
{
    if i >= v.len() {
        return false;
    }
    let c = v[i];
    if c == '}' && i + 1 == v.len() {
        return true;
    }
    if c == ',' && v[v.len() - 1] == '}' {
        return true;
    }
    false
}

impl KimchiMessage {
    /// Decode one wire frame. Yields the message the frame denotes, or
    /// nothing when the frame is not one this format accepts; a malformed
    /// frame never panics.
    pub fn from_str(msg: &str) -> (r: Option<KimchiMessage>)
        ensures
            match r {
                Some(m) => parse_msg(msg@) == Some(m@),
                None => parse_msg(msg@) is None,
            },
    {
        let v = str_to_chars(msg);
        let head = str_to_chars("{\"type\":\"");
        if !e_match_at(&v, 0, &head) {
            return None;
        }
        let (name, i) = match e_p_str(&v, head.len()) {
            Some(t) => t,
            None => {
                return None;
            },
        };
        let lu = str_to_chars(",\"user\":\"");
        if !e_match_at(&v, i, &lu) {
            return None;
        }
        let (user, j) = match e_p_str(&v, i + lu.len()) {
            Some(t) => t,
            None => {
                return None;
            },
        };
        if name == String::from_str("Joined") {
            if e_p_end(&v, j) {
                Some(KimchiMessage::Joined { user })
            } else {
                None
            }
        } else if name == String::from_str("Public") {
            let lm = str_to_chars(",\"message\":\"");
            if !e_match_at(&v, j, &lm) {
                return None;
            }
            let (message, k) = match e_p_str(&v, j + lm.len()) {
                Some(t) => t,
                None => {
                    return None;
                },
            };
            if e_p_end(&v, k) {
                Some(KimchiMessage::Public { user, message })
            } else {
                None
            }
        } else if name == String::from_str("Private") {
            let lt = str_to_chars(",\"to_user\":\"");
            if !e_match_at(&v, j, &lt) {
                return None;
            }
            let (to_user, k) = match e_p_str(&v, j + lt.len()) {
                Some(t) => t,
                None => {
                    return None;
                },
            };
            let lm = str_to_chars(",\"message\":\"");
            if !e_match_at(&v, k, &lm) {
                return None;
            }
            let (message, l) = match e_p_str(&v, k + lm.len()) {
                Some(t) => t,
                None => {
                    return None;
                },
            };
            if e_p_end(&v, l) {
                Some(KimchiMessage::Private { user, to_user, message })
            } else {
                None
            }
        } else if name == String::from_str("Video") {
            let ld = str_to_chars(",\"data\":");
            if !e_match_at(&v, j, &ld) {
                return None;
            }
            let (data, k) = match e_p_bytes(&v, j + ld.len()) {
                Some(t) => t,
                None => {
                    return None;
                },
            };
            if e_p_end(&v, k) {
                Some(KimchiMessage::Video { user, data })
            } else {
                None
            }
        } else {
            None
        }
    }
}

} // verus!

verus! {

// ---------------------------------------------------------------------------
// Round trip: every frame this library writes decodes to the message it
// was written from.
// ---------------------------------------------------------------------------

proof fn lemma_match_self(s: Seq<char>)
    ensures
        match_at(s, 0, s),
{
    assert(s.subrange(0, s.len() as int) =~= s);
}

proof fn lemma_match_split(s: Seq<char>, i: int, a: Seq<char>, b: Seq<char>)
    requires
        match_at(s, i, a + b),
    ensures
        match_at(s, i, a),
        match_at(s, i + a.len(), b),
{
    assert forall|k: int| 0 <= k < a.len() implies s[i + k] == a[k] by {
        assert(s.subrange(i, i + (a + b).len() as int)[k] == s[i + k]);
    }
    assert(s.subrange(i, i + a.len() as int) =~= a);
    assert forall|k: int| 0 <= k < b.len() implies s[i + a.len() + k] == b[k] by {
        assert(s.subrange(i, i + (a + b).len() as int)[a.len() + k] == s[i + a.len() + k]);
    }
    assert(s.subrange(i + a.len(), i + a.len() + b.len() as int) =~= b);
}

proof fn lemma_match_join(s: Seq<char>, i: int, a: Seq<char>, b: Seq<char>)
    requires
        match_at(s, i, a),
        match_at(s, i + a.len(), b),
    ensures
        match_at(s, i, a + b),
{
    assert forall|k: int| 0 <= k < (a + b).len() implies s.subrange(
        i,
        i + (a + b).len() as int,
    )[k] == (a + b)[k] by {
        if k < a.len() {
            assert(s.subrange(i, i + a.len() as int)[k] == s[i + k]);
        } else {
            assert(s.subrange(i + a.len(), i + a.len() + b.len() as int)[k - a.len()] == s[i
                + a.len() + (k - a.len())]);
        }
    }
    assert(s.subrange(i, i + (a + b).len() as int) =~= a + b);
}

proof fn lemma_p_str_inv(s: Seq<char>, i: int, u: Seq<char>, acc: Seq<char>)
    requires
        match_at(s, i, esc(u) + quote()),
    ensures
        p_str(s, i, acc) == Some((acc + u, i + esc(u).len() + 1)),
    decreases u.len(),
{
    if u.len() == 0 {
        assert(esc(u) + quote() =~= quote());
        assert(s.subrange(i, i + 1)[0] == s[i]);
        assert(s[i] == '"');
        assert(p_str(s, i, acc) == Some((acc, i + 1)));
        assert(acc + u =~= acc);
    } else {
        let c = u[0];
        let rest = u.drop_first();
        assert(esc(u) == esc_char(c) + esc(rest));
        assert((esc_char(c) + esc(rest)) + quote() =~= esc_char(c) + (esc(rest) + quote()));
        lemma_match_split(s, i, esc_char(c), esc(rest) + quote());
        if c == '"' || c == '\\' {
            assert(esc_char(c) == seq!['\\', c]);
            assert(s.subrange(i, i + 2)[0] == s[i]);
            assert(s.subrange(i, i + 2)[1] == s[i + 1]);
            assert(s[i] == '\\' && s[i + 1] == c);
            lemma_p_str_inv(s, i + 2, rest, acc.push(c));
            assert(acc.push(c) + rest =~= acc + u);
            assert(p_str(s, i, acc) == p_str(s, i + 2, acc.push(s[i + 1])));
        } else {
            assert(esc_char(c) == seq![c]);
            assert(s.subrange(i, i + 1)[0] == s[i]);
            assert(s[i] == c);
            lemma_p_str_inv(s, i + 1, rest, acc.push(c));
            assert(acc.push(c) + rest =~= acc + u);
            assert(p_str(s, i, acc) == p_str(s, i + 1, acc.push(s[i])));
        }
    }
}

proof fn lemma_digit_char(d: u8)
    requires
        d < 10,
    ensures
        is_digit(digit_char(d)),
        dval(digit_char(d)) == d as int,
        digit_char(d) != '"',
        digit_char(d) != '\\',
        digit_char(d) != ']',
        digit_char(d) != ',',
{
    assert(digit_char(d) as u32 == 48 + d);
}

proof fn lemma_p_u8_inv(s: Seq<char>, i: int, b: u8)
    requires
        match_at(s, i, dec_of(b)),
        i + dec_of(b).len() < s.len(),
        !is_digit(s[i + dec_of(b).len()]),
    ensures
        p_u8(s, i) == Some((b, i + dec_of(b).len())),
{
    if b < 10 {
        lemma_digit_char(b);
        assert(s.subrange(i, i + 1)[0] == s[i]);
        assert(s[i] == digit_char(b));
    } else if b < 100 {
        lemma_digit_char(b / 10);
        lemma_digit_char(b % 10);
        assert(s.subrange(i, i + 2)[0] == s[i]);
        assert(s.subrange(i, i + 2)[1] == s[i + 1]);
        assert(s[i] == digit_char(b / 10) && s[i + 1] == digit_char(b % 10));
        assert(10 * (b / 10) + (b % 10) == b) by (bit_vector)
            requires
                10 <= b < 100,
        ;
    } else {
        lemma_digit_char(b / 100);
        lemma_digit_char((b / 10) % 10);
        lemma_digit_char(b % 10);
        assert(s.subrange(i, i + 3)[0] == s[i]);
        assert(s.subrange(i, i + 3)[1] == s[i + 1]);
        assert(s.subrange(i, i + 3)[2] == s[i + 2]);
        assert(s[i] == digit_char(b / 100) && s[i + 1] == digit_char((b / 10) % 10) && s[i + 2]
            == digit_char(b % 10));
        assert(100 * (b / 100) + 10 * ((b / 10) % 10) + (b % 10) == b) by (bit_vector)
            requires
                100 <= b,
        ;
    }
}

proof fn lemma_p_bytes_rest_inv(s: Seq<char>, i: int, d: Seq<u8>, acc: Seq<u8>)
    requires
        match_at(s, i, items_from(d) + seq![']']),
    ensures
        p_bytes_rest(s, i, acc) == Some((acc + d, i + items_from(d).len() + 1)),
    decreases d.len(),
{
    if d.len() == 0 {
        assert(items_from(d) + seq![']'] =~= seq![']']);
        assert(s.subrange(i, i + 1)[0] == s[i]);
        assert(s[i] == ']');
        assert(acc + d =~= acc);
    } else {
        let b = d[0];
        let rest = d.drop_first();
        let tail = items_from(rest) + seq![']'];
        assert(items_from(d) == seq![','] + dec_of(b) + items_from(rest));
        assert((seq![','] + dec_of(b) + items_from(rest)) + seq![']'] =~= seq![','] + (dec_of(b)
            + tail));
        lemma_match_split(s, i, seq![','], dec_of(b) + tail);
        lemma_match_split(s, i + 1, dec_of(b), tail);
        assert(s.subrange(i, i + 1)[0] == s[i]);
        assert(s[i] == ',');
        let j = i + 1 + dec_of(b).len();
        // the character after the number is ',' or ']', never a digit
        assert(tail.len() > 0);
        assert(s.subrange(j, j + tail.len() as int)[0] == s[j]);
        assert(s[j] == tail[0]);
        if rest.len() == 0 {
            assert(tail[0] == ']');
            assert(!is_digit(']'));
        } else {
            assert(tail[0] == (seq![','] + dec_of(rest[0]) + items_from(rest.drop_first()))[0]);
            assert(tail[0] == ',');
            assert(!is_digit(','));
        }
        lemma_p_u8_inv(s, i + 1, b);
        lemma_p_bytes_rest_inv(s, j, rest, acc.push(b));
        assert(acc.push(b) + rest =~= acc + d);
        assert(items_from(d).len() == 1 + dec_of(b).len() + items_from(rest).len());
    }
}

proof fn lemma_p_bytes_inv(s: Seq<char>, i: int, d: Seq<u8>)
    requires
        match_at(s, i, ser_bytes(d)),
    ensures
        p_bytes(s, i) == Some((d, i + ser_bytes(d).len())),
{
    assert(ser_bytes(d) =~= seq!['['] + (items(d) + seq![']']));
    lemma_match_split(s, i, seq!['['], items(d) + seq![']']);
    assert(s.subrange(i, i + 1)[0] == s[i]);
    assert(s[i] == '[');
    if d.len() == 0 {
        assert(items(d) + seq![']'] =~= seq![']']);
        assert(s.subrange(i + 1, i + 2)[0] == s[i + 1]);
        assert(s[i + 1] == ']');
        assert(Seq::<u8>::empty() =~= d);
        assert(ser_bytes(d).len() == 2);
    } else {
        let b = d[0];
        let rest = d.drop_first();
        let tail = items_from(rest) + seq![']'];
        assert(items(d) == dec_of(b) + items_from(rest));
        assert((dec_of(b) + items_from(rest)) + seq![']'] =~= dec_of(b) + tail);
        lemma_match_split(s, i + 1, dec_of(b), tail);
        // first character is a digit, so not ']'
        lemma_digit_char(if b < 10 { b } else if b < 100 { b / 10 } else { b / 100 });
        assert(s.subrange(i + 1, i + 1 + dec_of(b).len() as int)[0] == s[i + 1]);
        assert(s[i + 1] == dec_of(b)[0]);
        assert(is_digit(s[i + 1]));
        assert(s[i + 1] != ']');
        let j = i + 1 + dec_of(b).len();
        assert(tail.len() > 0);
        assert(s.subrange(j, j + tail.len() as int)[0] == s[j]);
        assert(s[j] == tail[0]);
        if rest.len() == 0 {
            assert(tail[0] == ']');
            assert(!is_digit(']'));
        } else {
            assert(tail[0] == (seq![','] + dec_of(rest[0]) + items_from(rest.drop_first()))[0]);
            assert(tail[0] == ',');
            assert(!is_digit(','));
        }
        lemma_p_u8_inv(s, i + 1, b);
        lemma_p_bytes_rest_inv(s, j, rest, seq![b]);
        assert(seq![b] + rest =~= d);
        assert(ser_bytes(d).len() == 1 + dec_of(b).len() + items_from(rest).len() + 1);
    }
}

proof fn lemma_esc_id(s: Seq<char>)
    requires
        forall|k: int| 0 <= k < s.len() ==> s[k] != '"' && s[k] != '\\',
    ensures
        esc(s) == s,
    decreases s.len(),
{
    if s.len() == 0 {
        assert(esc(s) =~= s);
    } else {
        assert(forall|k: int|
            0 <= k < s.drop_first().len() ==> s.drop_first()[k] == s[k + 1] && s.drop_first()[k]
                != '"' && s.drop_first()[k] != '\\');
        lemma_esc_id(s.drop_first());
        assert(esc_char(s[0]) == seq![s[0]]);
        assert(seq![s[0]] + s.drop_first() =~= s);
    }
}

proof fn lemma_names()
    ensures
        esc(lit_joined()) == lit_joined(),
        esc(lit_public()) == lit_public(),
        esc(lit_private()) == lit_private(),
        esc(lit_video()) == lit_video(),
        lit_public() != lit_joined(),
        lit_private() != lit_joined(),
        lit_private() != lit_public(),
        lit_video() != lit_joined(),
        lit_video() != lit_public(),
        lit_video() != lit_private(),
{
    reveal_strlit("Joined");
    reveal_strlit("Public");
    reveal_strlit("Private");
    reveal_strlit("Video");
    assert(lit_joined().len() == 6);
    assert(lit_public().len() == 6);
    assert(lit_private().len() == 7);
    assert(lit_video().len() == 5);
    assert(forall|k: int| 0 <= k < 6 ==> lit_joined()[k] != '"' && lit_joined()[k] != '\\');
    lemma_esc_id(lit_joined());
    assert(forall|k: int| 0 <= k < 6 ==> lit_public()[k] != '"' && lit_public()[k] != '\\');
    lemma_esc_id(lit_public());
    assert(forall|k: int| 0 <= k < 7 ==> lit_private()[k] != '"' && lit_private()[k] != '\\');
    lemma_esc_id(lit_private());
    assert(forall|k: int| 0 <= k < 5 ==> lit_video()[k] != '"' && lit_video()[k] != '\\');
    lemma_esc_id(lit_video());
    assert(lit_joined()[0] == 'J');
    assert(lit_public()[0] == 'P');
}

} // verus!

verus! {

#[verifier::rlimit(30)]
proof fn lemma_round_trip_joined(user: Seq<char>)
    ensures
        parse_msg(ser_msg(MsgV::Joined { user })) == Some(MsgV::Joined { user }),
{
    lemma_names();
    let h = lit_head();
    let n = lit_joined();
    let q = quote();
    let lu = lit_user();
    let e = esc(user);
    let r = rbrace();
    let s = ser_msg(MsgV::Joined { user });
    lemma_match_self(s);
    lemma_match_split(s, 0, h + n + q + lu + e + q, r);
    lemma_match_split(s, 0, h + n + q + lu + e, q);
    lemma_match_split(s, 0, h + n + q + lu, e);
    lemma_match_split(s, 0, h + n + q, lu);
    lemma_match_split(s, 0, h + n, q);
    lemma_match_split(s, 0, h, n);
    lemma_match_join(s, h.len() as int, n, q);
    assert(esc(n) + q == n + q);
    lemma_p_str_inv(s, h.len() as int, n, Seq::empty());
    assert(Seq::empty() + n =~= n);
    let i1 = (h.len() + n.len() + 1) as int;
    let i2 = i1 + lu.len();
    lemma_match_join(s, i2, e, q);
    lemma_p_str_inv(s, i2, user, Seq::empty());
    assert(Seq::empty() + user =~= user);
    let i3 = i2 + e.len() + 1;
    assert(s.subrange(i3, i3 + 1)[0] == s[i3]);
    assert(s[i3] == '}');
    assert(i3 + 1 == s.len());
    assert(p_end(s, i3));
}

#[verifier::rlimit(30)]
proof fn lemma_round_trip_public(user: Seq<char>, message: Seq<char>)
    ensures
        parse_msg(ser_msg(MsgV::Public { user, message })) == Some(
            MsgV::Public { user, message },
        ),
{
    lemma_names();
    let h = lit_head();
    let n = lit_public();
    let q = quote();
    let lu = lit_user();
    let e = esc(user);
    let lm = lit_message();
    let em = esc(message);
    let r = rbrace();
    let s = ser_msg(MsgV::Public { user, message });
    lemma_match_self(s);
    lemma_match_split(s, 0, h + n + q + lu + e + q + lm + em + q, r);
    lemma_match_split(s, 0, h + n + q + lu + e + q + lm + em, q);
    lemma_match_split(s, 0, h + n + q + lu + e + q + lm, em);
    lemma_match_split(s, 0, h + n + q + lu + e + q, lm);
    lemma_match_split(s, 0, h + n + q + lu + e, q);
    lemma_match_split(s, 0, h + n + q + lu, e);
    lemma_match_split(s, 0, h + n + q, lu);
    lemma_match_split(s, 0, h + n, q);
    lemma_match_split(s, 0, h, n);
    lemma_match_join(s, h.len() as int, n, q);
    assert(esc(n) + q == n + q);
    lemma_p_str_inv(s, h.len() as int, n, Seq::empty());
    assert(Seq::empty() + n =~= n);
    let i1 = (h.len() + n.len() + 1) as int;
    let i2 = i1 + lu.len();
    lemma_match_join(s, i2, e, q);
    lemma_p_str_inv(s, i2, user, Seq::empty());
    assert(Seq::empty() + user =~= user);
    let i3 = i2 + e.len() + 1;
    let i4 = i3 + lm.len();
    lemma_match_join(s, i4, em, q);
    lemma_p_str_inv(s, i4, message, Seq::empty());
    assert(Seq::empty() + message =~= message);
    let i5 = i4 + em.len() + 1;
    assert(s.subrange(i5, i5 + 1)[0] == s[i5]);
    assert(s[i5] == '}');
    assert(i5 + 1 == s.len());
    assert(p_end(s, i5));
}

#[verifier::rlimit(50)]
proof fn lemma_round_trip_private(user: Seq<char>, to_user: Seq<char>, message: Seq<char>)
    ensures
        parse_msg(ser_msg(MsgV::Private { user, to_user, message })) == Some(
            MsgV::Private { user, to_user, message },
        ),
{
    lemma_names();
    let h = lit_head();
    let n = lit_private();
    let q = quote();
    let lu = lit_user();
    let e = esc(user);
    let lt = lit_to_user();
    let et = esc(to_user);
    let lm = lit_message();
    let em = esc(message);
    let r = rbrace();
    let s = ser_msg(MsgV::Private { user, to_user, message });
    lemma_match_self(s);
    lemma_match_split(s, 0, h + n + q + lu + e + q + lt + et + q + lm + em + q, r);
    lemma_match_split(s, 0, h + n + q + lu + e + q + lt + et + q + lm + em, q);
    lemma_match_split(s, 0, h + n + q + lu + e + q + lt + et + q + lm, em);
    lemma_match_split(s, 0, h + n + q + lu + e + q + lt + et + q, lm);
    lemma_match_split(s, 0, h + n + q + lu + e + q + lt + et, q);
    lemma_match_split(s, 0, h + n + q + lu + e + q + lt, et);
    lemma_match_split(s, 0, h + n + q + lu + e + q, lt);
    lemma_match_split(s, 0, h + n + q + lu + e, q);
    lemma_match_split(s, 0, h + n + q + lu, e);
    lemma_match_split(s, 0, h + n + q, lu);
    lemma_match_split(s, 0, h + n, q);
    lemma_match_split(s, 0, h, n);
    lemma_match_join(s, h.len() as int, n, q);
    assert(esc(n) + q == n + q);
    lemma_p_str_inv(s, h.len() as int, n, Seq::empty());
    assert(Seq::empty() + n =~= n);
    let i1 = (h.len() + n.len() + 1) as int;
    let i2 = i1 + lu.len();
    lemma_match_join(s, i2, e, q);
    lemma_p_str_inv(s, i2, user, Seq::empty());
    assert(Seq::empty() + user =~= user);
    let i3 = i2 + e.len() + 1;
    let i4 = i3 + lt.len();
    lemma_match_join(s, i4, et, q);
    lemma_p_str_inv(s, i4, to_user, Seq::empty());
    assert(Seq::empty() + to_user =~= to_user);
    let i5 = i4 + et.len() + 1;
    let i6 = i5 + lm.len();
    lemma_match_join(s, i6, em, q);
    lemma_p_str_inv(s, i6, message, Seq::empty());
    assert(Seq::empty() + message =~= message);
    let i7 = i6 + em.len() + 1;
    assert(s.subrange(i7, i7 + 1)[0] == s[i7]);
    assert(s[i7] == '}');
    assert(i7 + 1 == s.len());
    assert(p_end(s, i7));
}

#[verifier::rlimit(30)]
proof fn lemma_round_trip_video(user: Seq<char>, data: Seq<u8>)
    ensures
        parse_msg(ser_msg(MsgV::Video { user, data })) == Some(MsgV::Video { user, data }),
{
    lemma_names();
    let h = lit_head();
    let n = lit_video();
    let q = quote();
    let lu = lit_user();
    let e = esc(user);
    let ld = lit_data();
    let sb = ser_bytes(data);
    let r = rbrace();
    let s = ser_msg(MsgV::Video { user, data });
    lemma_match_self(s);
    lemma_match_split(s, 0, h + n + q + lu + e + q + ld + sb, r);
    lemma_match_split(s, 0, h + n + q + lu + e + q + ld, sb);
    lemma_match_split(s, 0, h + n + q + lu + e + q, ld);
    lemma_match_split(s, 0, h + n + q + lu + e, q);
    lemma_match_split(s, 0, h + n + q + lu, e);
    lemma_match_split(s, 0, h + n + q, lu);
    lemma_match_split(s, 0, h + n, q);
    lemma_match_split(s, 0, h, n);
    lemma_match_join(s, h.len() as int, n, q);
    assert(esc(n) + q == n + q);
    lemma_p_str_inv(s, h.len() as int, n, Seq::empty());
    assert(Seq::empty() + n =~= n);
    let i1 = (h.len() + n.len() + 1) as int;
    let i2 = i1 + lu.len();
    lemma_match_join(s, i2, e, q);
    lemma_p_str_inv(s, i2, user, Seq::empty());
    assert(Seq::empty() + user =~= user);
    let i3 = i2 + e.len() + 1;
    let i4 = i3 + ld.len();
    lemma_p_bytes_inv(s, i4, data);
    let i5 = i4 + sb.len();
    assert(s.subrange(i5, i5 + 1)[0] == s[i5]);
    assert(s[i5] == '}');
    assert(i5 + 1 == s.len());
    assert(p_end(s, i5));
}

/// Round-trip law: decoding the frame written for any constructible
/// message yields that same message.
pub proof fn lemma_round_trip(m: MsgV)
    ensures
        parse_msg(ser_msg(m)) == Some(m),
{
    match m {
        MsgV::Joined { user } => lemma_round_trip_joined(user),
        MsgV::Public { user, message } => lemma_round_trip_public(user, message),
        MsgV::Private { user, to_user, message } => lemma_round_trip_private(
            user,
            to_user,
            message,
        ),
        MsgV::Video { user, data } => lemma_round_trip_video(user, data),
    }
}

} // verus!
