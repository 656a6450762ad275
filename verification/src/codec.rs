//! The log record codec: one command to and from one line of text.
//!
//! A record is a JSON-shaped object, `{"Set":{"key":K,"value":V}}` or
//! `{"Remove":{"key":K}}`, where `K` and `V` are quoted strings with `"`,
//! `\`, newline, carriage return and tab escaped as two-character escapes
//! and every other control character as `\u00XX`. The decoder accepts
//! exactly the lines this encoder writes; anything else is a corrupt record.
use vstd::prelude::*;

verus! {

use crate::KvsError;
use vstd::string::*;

/// A mutation record as it appears in the log.
#[derive(Debug, PartialEq, Eq)]
pub enum Command {
    Put { key: String, value: String },
    Remove { key: String },
}

/// The mathematical form of a `Command`: its fields as character sequences.
pub enum CommandView {
    Put { key: Seq<char>, value: Seq<char> },
    Remove { key: Seq<char> },
}

impl View for Command {
    type V = CommandView;

    open spec fn view(&self) -> CommandView {
        match self {
            Command::Put { key, value } => CommandView::Put { key: key@, value: value@ },
            Command::Remove { key } => CommandView::Remove { key: key@ },
        }
    }
}

pub open spec fn set_pre() -> Seq<char> {
    "{\"Set\":{\"key\":\""@
}

pub open spec fn rem_pre() -> Seq<char> {
    "{\"Remove\":{\"key\":\""@
}

pub open spec fn val_mid() -> Seq<char> {
    "\",\"value\":\""@
}

pub open spec fn val_sep() -> Seq<char> {
    ",\"value\":\""@
}

pub open spec fn tail() -> Seq<char> {
    "\"}}"@
}

/// The fixed pieces of the record format, spelled out character by character.
pub proof fn lemma_format_chars()
    ensures
        set_pre() =~= seq!['{', '"', 'S', 'e', 't', '"', ':', '{', '"', 'k', 'e', 'y', '"', ':', '"'],
        rem_pre() =~= seq!['{', '"', 'R', 'e', 'm', 'o', 'v', 'e', '"', ':', '{', '"', 'k', 'e', 'y', '"', ':', '"'],
        val_mid() =~= seq!['"', ',', '"', 'v', 'a', 'l', 'u', 'e', '"', ':', '"'],
        val_sep() =~= seq![',', '"', 'v', 'a', 'l', 'u', 'e', '"', ':', '"'],
        tail() =~= seq!['"', '}', '}'],
        val_mid() =~= seq!['"'] + val_sep(),
{
    reveal_strlit("{\"Set\":{\"key\":\"");
    reveal_strlit("{\"Remove\":{\"key\":\"");
    reveal_strlit("\",\"value\":\"");
    reveal_strlit(",\"value\":\"");
    reveal_strlit("\"}}");
}


/// The lower-case hexadecimal digit for a value below sixteen.
pub open spec fn hex_digit(d: u8) -> char {
    if d < 10 {
        ((d + 48) as u8) as char
    } else {
        ((d + 87) as u8) as char
    }
}

pub open spec fn is_hex(c: char) -> bool {
    (48 <= c as u32 && c as u32 <= 57) || (97 <= c as u32 && c as u32 <= 102)
}

pub open spec fn hex_val(c: char) -> u8 {
    if 48 <= c as u32 && c as u32 <= 57 {
        ((c as u32) - 48) as u8
    } else {
        ((c as u32) - 87) as u8
    }
}

proof fn lemma_hex_digit_roundtrip(d: u8)
    requires
        d < 16,
    ensures
        is_hex(hex_digit(d)),
        hex_val(hex_digit(d)) == d,
{
}

/// How one character of a key or value appears inside a record.
pub open spec fn esc_char(c: char) -> Seq<char> {
    if c == '"' {
        seq!['\\', '"']
    } else if c == '\\' {
        seq!['\\', '\\']
    } else if c == '\n' {
        seq!['\\', 'n']
    } else if c == '\r' {
        seq!['\\', 'r']
    } else if c == '\t' {
        seq!['\\', 't']
    } else if (c as u32) < 32 {
        seq!['\\', 'u', '0', '0', hex_digit(((c as u32) / 16) as u8), hex_digit(((c as u32) % 16) as u8)]
    } else {
        seq![c]
    }
}

/// A whole key or value, escaped character by character.
pub open spec fn esc_seq(s: Seq<char>) -> Seq<char>
    decreases s.len(),
{
    if s.len() == 0 {
        Seq::empty()
    } else {
        esc_char(s[0]) + esc_seq(s.skip(1))
    }
}


/// The exact line of text that records a command in the log.
pub open spec fn encode_view(c: CommandView) -> Seq<char> {
    match c {
        CommandView::Put { key, value } => set_pre() + esc_seq(key) + val_mid() + esc_seq(value) + tail(),
        CommandView::Remove { key } => rem_pre() + esc_seq(key) + tail(),
    }
}

/// The character that a two-character escape stands for.
pub open spec fn unesc(e: char) -> char {
    if e == 'n' {
        '\n'
    } else if e == 'r' {
        '\r'
    } else if e == 't' {
        '\t'
    } else {
        e
    }
}

/// Reads an escaped string body starting at `i`, up to and including its
/// closing quote; yields the unescaped content and the index after the quote.
pub open spec fn parse_string(s: Seq<char>, i: int) -> Option<(Seq<char>, int)>
    decreases s.len() - i,
{
    if i < 0 || i >= s.len() {
        None
    } else if s[i] == '"' {
        Some((Seq::empty(), i + 1))
    } else if s[i] == '\\' {
        if i + 1 >= s.len() {
            None
        } else {
            let e = s[i + 1];
            if e == '"' || e == '\\' || e == 'n' || e == 'r' || e == 't' {
                match parse_string(s, i + 2) {
                    None => None,
                    Some((rest, j)) => Some((seq![unesc(e)] + rest, j)),
                }
            } else if e == 'u' {
                if i + 5 >= s.len() {
                    None
                } else if s[i + 2] == '0' && s[i + 3] == '0' && is_hex(s[i + 4]) && is_hex(s[i + 5])
                    && hex_val(s[i + 4]) * 16 + hex_val(s[i + 5]) < 32 {
                    match parse_string(s, i + 6) {
                        None => None,
                        Some((rest, j)) => Some((
                            seq![((hex_val(s[i + 4]) * 16 + hex_val(s[i + 5])) as u8) as char] + rest,
                            j,
                        )),
                    }
                } else {
                    None
                }
            } else {
                None
            }
        }
    } else if (s[i] as u32) < 32 {
        None
    } else {
        match parse_string(s, i + 1) {
            None => None,
            Some((rest, j)) => Some((seq![s[i]] + rest, j)),
        }
    }
}

/// Reads one whole record line back into a command; `None` means the line is
/// not a well-formed record.
pub open spec fn decode_view(s: Seq<char>) -> Option<CommandView> {
    if s.len() >= 15 && s.take(15) == set_pre() {
        match parse_string(s, 15) {
            None => None,
            Some((key, j)) => {
                if j + 10 <= s.len() && s.subrange(j, j + 10) == val_sep() {
                    match parse_string(s, j + 10) {
                        None => None,
                        Some((value, m)) => {
                            if m + 2 == s.len() && s[m] == '}' && s[m + 1] == '}' {
                                Some(CommandView::Put { key, value })
                            } else {
                                None
                            }
                        },
                    }
                } else {
                    None
                }
            },
        }
    } else if s.len() >= 18 && s.take(18) == rem_pre() {
        match parse_string(s, 18) {
            None => None,
            Some((key, j)) => {
                if j + 2 == s.len() && s[j] == '}' && s[j + 1] == '}' {
                    Some(CommandView::Remove { key })
                } else {
                    None
                }
            },
        }
    } else {
        None
    }
}


/// Casting a control character through its code point gives it back.
proof fn lemma_low_char_cast(c: char)
    requires
        (c as u32) < 32,
    ensures
        ((c as u32) as u8) as char == c,
{
}

/// Holds when a sequence of characters contains no newline.
pub open spec fn no_nl(s: Seq<char>) -> bool {
    forall|j: int| 0 <= j < s.len() ==> s[j] != '\n'
}

proof fn lemma_esc_char_no_nl(c: char)
    ensures
        forall|j: int| 0 <= j < esc_char(c).len() ==> esc_char(c)[j] != '\n',
{
}

proof fn lemma_esc_seq_no_nl(s: Seq<char>)
    ensures
        no_nl(esc_seq(s)),
    decreases s.len(),
{
    if s.len() == 0 {
    } else {
        lemma_esc_char_no_nl(s[0]);
        lemma_esc_seq_no_nl(s.skip(1));
        assert forall|j: int| 0 <= j < esc_seq(s).len() implies esc_seq(s)[j] != '\n' by {
            if j < esc_char(s[0]).len() {
                assert(esc_seq(s)[j] == esc_char(s[0])[j]);
            } else {
                assert(esc_seq(s)[j] == esc_seq(s.skip(1))[j - esc_char(s[0]).len()]);
            }
        }
    }
}

/// An encoded record never contains a newline: one record is one line.
pub proof fn lemma_encode_no_nl(c: CommandView)
    ensures
        no_nl(encode_view(c)),
{
    lemma_format_chars();
    match c {
        CommandView::Put { key, value } => {
            lemma_esc_seq_no_nl(key);
            lemma_esc_seq_no_nl(value);
            let s = encode_view(c);
            assert forall|j: int| 0 <= j < s.len() implies s[j] != '\n' by {
                let ek = esc_seq(key).len() as int;
                let ev = esc_seq(value).len() as int;
                if j < 15 {
                    assert(s[j] == set_pre()[j]);
                } else if j < 15 + ek {
                    assert(s[j] == esc_seq(key)[j - 15]);
                } else if j < 15 + ek + 11 {
                    assert(s[j] == val_mid()[j - 15 - ek]);
                } else if j < 15 + ek + 11 + ev {
                    assert(s[j] == esc_seq(value)[j - 15 - ek - 11]);
                } else {
                    assert(s[j] == tail()[j - 15 - ek - 11 - ev]);
                }
            }
        },
        CommandView::Remove { key } => {
            lemma_esc_seq_no_nl(key);
            let s = encode_view(c);
            assert forall|j: int| 0 <= j < s.len() implies s[j] != '\n' by {
                let ek = esc_seq(key).len() as int;
                if j < 18 {
                    assert(s[j] == rem_pre()[j]);
                } else if j < 18 + ek {
                    assert(s[j] == esc_seq(key)[j - 18]);
                } else {
                    assert(s[j] == tail()[j - 18 - ek]);
                }
            }
        },
    }
}

/// Parsing an escaped string body that sits at `i`, followed by a closing
/// quote, yields back exactly the unescaped text.
proof fn lemma_parse_esc(s: Seq<char>, k: Seq<char>, i: int)
    requires
        0 <= i,
        i + esc_seq(k).len() + 1 <= s.len(),
        s.subrange(i, i + esc_seq(k).len() as int) =~= esc_seq(k),
        s[i + esc_seq(k).len()] == '"',
    ensures
        parse_string(s, i) == Some((k, i + esc_seq(k).len() + 1)),
    decreases k.len(),
{
    let ek = esc_seq(k).len() as int;
    if k.len() == 0 {
        assert(s[i] == '"');
        assert(k =~= Seq::<char>::empty());
    } else {
        let c = k[0];
        let e = esc_char(c);
        let el = e.len() as int;
        let k2 = k.skip(1);
        assert(esc_seq(k) == e + esc_seq(k2));
        assert forall|m: int| 0 <= m < el implies #[trigger] s[i + m] == e[m] by {
            assert(s[i + m] == s.subrange(i, i + ek)[m]);
            assert(s.subrange(i, i + ek)[m] == esc_seq(k)[m]);
            assert((e + esc_seq(k2))[m] == e[m]);
        }
        assert(s.subrange(i + el, i + el + esc_seq(k2).len() as int) =~= esc_seq(k2)) by {
            assert forall|m: int| 0 <= m < esc_seq(k2).len() implies
                s.subrange(i + el, i + el + esc_seq(k2).len() as int)[m] == esc_seq(k2)[m] by {
                assert(s.subrange(i + el, i + el + esc_seq(k2).len() as int)[m] == s[i + el + m]);
                assert(s[i + el + m] == s.subrange(i, i + ek)[el + m]);
                assert((e + esc_seq(k2))[el + m] == esc_seq(k2)[m]);
            }
        }
        assert(s[i + el + esc_seq(k2).len()] == '"');
        lemma_parse_esc(s, k2, i + el);
        assert(seq![c] + k2 =~= k);
        if c == '"' || c == '\\' || c == '\n' || c == '\r' || c == '\t' {
            assert(e[0] == '\\' && s[i + 0] == e[0]);
            assert(s[i + 1] == e[1]);
            assert(s[i] == '\\');
            assert(unesc(e[1]) == c);
        } else if (c as u32) < 32 {
            assert(e[0] == '\\' && s[i + 0] == e[0]);
            assert(s[i + 1] == e[1] && e[1] == 'u');
            assert(s[i + 2] == e[2] && e[2] == '0');
            assert(s[i + 3] == e[3] && e[3] == '0');
            assert(s[i] == '\\');
            let hi = ((c as u32) / 16) as u8;
            let lo = ((c as u32) % 16) as u8;
            lemma_hex_digit_roundtrip(hi);
            lemma_hex_digit_roundtrip(lo);
            assert(s[i + 4] == e[4] && e[4] == hex_digit(hi));
            assert(s[i + 5] == e[5] && e[5] == hex_digit(lo));
            let x: int = hex_val(s[i + 4]) * 16 + hex_val(s[i + 5]);
            assert(x == hi * 16 + lo);
            assert(x == c as u32);
            lemma_low_char_cast(c);
            assert(((c as u32) as u8) as char == c);
            assert((x as u8) as char == c) by {
                assert(x as u8 == (c as u32) as u8);
            }
        } else {
            assert(e[0] == c && s[i + 0] == e[0]);
            assert(s[i] == c);
            assert(c != '"' && c != '\\');
            assert((c as u32) >= 32);
        }
    }
}

/// Round-trip: decoding an encoded command yields that command back.
pub proof fn lemma_round_trip(c: CommandView)
    ensures
        decode_view(encode_view(c)) == Some(c),
{
    lemma_format_chars();
    match c {
        CommandView::Put { key, value } => {
            let s = encode_view(c);
            let ek = esc_seq(key).len() as int;
            let ev = esc_seq(value).len() as int;
            assert(s.len() == 15 + ek + 11 + ev + 3);
            assert(s.take(15) =~= set_pre());
            assert(s.subrange(15, 15 + ek) =~= esc_seq(key));
            assert(s[15 + ek] == val_mid()[0]);
            lemma_parse_esc(s, key, 15);
            let j = 16 + ek;
            assert(s.subrange(j, j + 10) =~= val_sep()) by {
                assert forall|m: int| 0 <= m < 10 implies s.subrange(j, j + 10)[m] == val_sep()[m] by {
                    assert(s[j + m] == val_mid()[m + 1]);
                }
            }
            assert(s.subrange(15 + ek + 11, 15 + ek + 11 + ev) =~= esc_seq(value));
            assert(s[15 + ek + 11 + ev] == tail()[0]);
            lemma_parse_esc(s, value, 15 + ek + 11);
            let m = 15 + ek + 11 + ev + 1;
            assert(s[m] == tail()[1]);
            assert(s[m + 1] == tail()[2]);
        },
        CommandView::Remove { key } => {
            let s = encode_view(c);
            let ek = esc_seq(key).len() as int;
            assert(s.len() == 18 + ek + 3);
            assert(!(s.len() >= 15 && s.take(15) == set_pre())) by {
                if s.len() >= 15 && s.take(15) == set_pre() {
                    assert(s.take(15)[2] == set_pre()[2]);
                    assert(s[2] == rem_pre()[2]);
                }
            }
            assert(s.take(18) =~= rem_pre());
            assert(s.subrange(18, 18 + ek) =~= esc_seq(key));
            assert(s[18 + ek] == tail()[0]);
            lemma_parse_esc(s, key, 18);
            let j = 19 + ek;
            assert(s[j] == tail()[1]);
            assert(s[j + 1] == tail()[2]);
        },
    }
}




/// Relies on String::push: appends exactly the one given character.
#[verifier::external_body]
fn push_char(s: &mut String, c: char)
    ensures
        final(s)@ == old(s)@.push(c),
{
    s.push(c);
}

proof fn lemma_esc_seq_snoc(a: Seq<char>, c: char)
    ensures
        esc_seq(a.push(c)) == esc_seq(a) + esc_char(c),
    decreases a.len(),
{
    if a.len() == 0 {
        assert(a.push(c)[0] == c);
        assert(a.push(c).skip(1) =~= Seq::<char>::empty());
        assert(esc_seq(Seq::<char>::empty()) =~= Seq::<char>::empty());
        assert(esc_seq(a.push(c)) =~= esc_char(c) + esc_seq(Seq::<char>::empty()));
        assert(esc_char(c) + Seq::<char>::empty() =~= esc_char(c));
        assert(esc_seq(a) + esc_char(c) =~= esc_char(c));
    } else {
        assert(a.push(c)[0] == a[0]);
        assert(a.push(c).skip(1) =~= a.skip(1).push(c));
        lemma_esc_seq_snoc(a.skip(1), c);
        assert(esc_char(a[0]) + (esc_seq(a.skip(1)) + esc_char(c)) =~= (esc_char(a[0]) + esc_seq(
            a.skip(1),
        )) + esc_char(c));
    }
}

fn hex_digit_exec(d: u8) -> (r: char)
    requires
        d < 16,
    ensures
        r == hex_digit(d),
{
    if d < 10 {
        (d + 48) as char
    } else {
        (d + 87) as char
    }
}

/// Appends the escaped form of `s` to `out`.
fn append_escaped(out: &mut String, s: &str)
    ensures
        final(out)@ == old(out)@ + esc_seq(s@),
{
    let ghost start = out@;
    let n = s.unicode_len();
    let mut i: usize = 0;
    proof {
        assert(s@.take(0) =~= Seq::<char>::empty());
        assert(out@ =~= start + esc_seq(s@.take(0)));
    }
    while i < n
        invariant
            i <= n,
            n == s@.len(),
            out@ == start + esc_seq(s@.take(i as int)),
        decreases n - i,
    {
        let c = s.get_char(i);
        let ghost before = out@;
        if c == '"' {
            push_char(out, '\\');
            push_char(out, '"');
        } else if c == '\\' {
            push_char(out, '\\');
            push_char(out, '\\');
        } else if c == '\n' {
            push_char(out, '\\');
            push_char(out, 'n');
        } else if c == '\r' {
            push_char(out, '\\');
            push_char(out, 'r');
        } else if c == '\t' {
            push_char(out, '\\');
            push_char(out, 't');
        } else if (c as u32) < 32 {
            let code = (c as u32) as u8;
            push_char(out, '\\');
            push_char(out, 'u');
            push_char(out, '0');
            push_char(out, '0');
            push_char(out, hex_digit_exec(code / 16));
            push_char(out, hex_digit_exec(code % 16));
            proof {
                assert(code == c as u32);
                assert(code / 16 == ((c as u32) / 16) as u8);
                assert(code % 16 == ((c as u32) % 16) as u8);
            }
        } else {
            push_char(out, c);
        }
        proof {
            assert(out@ =~= before + esc_char(c));
            lemma_esc_seq_snoc(s@.take(i as int), c);
            assert(s@.take(i + 1) =~= s@.take(i as int).push(s@[i as int]));
            assert(out@ =~= start + esc_seq(s@.take(i + 1)));
        }
        i = i + 1;
    }
    proof {
        assert(s@.take(n as int) =~= s@);
    }
}

/// Serializes a command as exactly one line of text, without the newline.
pub fn encode(cmd: &Command) -> (r: String)
    ensures
        r@ == encode_view(cmd@),
{
    let mut out = String::new();
    match cmd {
        Command::Put { key, value } => {
            out.append("{\"Set\":{\"key\":\"");
            append_escaped(&mut out, key.as_str());
            out.append("\",\"value\":\"");
            append_escaped(&mut out, value.as_str());
            out.append("\"}}");
            proof {
                assert(out@ =~= set_pre() + esc_seq(key@) + val_mid() + esc_seq(value@) + tail());
            }
        },
        Command::Remove { key } => {
            out.append("{\"Remove\":{\"key\":\"");
            append_escaped(&mut out, key.as_str());
            out.append("\"}}");
            proof {
                assert(out@ =~= rem_pre() + esc_seq(key@) + tail());
            }
        },
    }
    out
}


/// True exactly when the text of `p` occurs in `s` at character position `i`.
fn match_at(s: &str, i: usize, p: &str) -> (r: bool)
    ensures
        r == (i + p@.len() <= s@.len() && s@.subrange(i as int, i + p@.len()) == p@),
{
    let n = s.unicode_len();
    let m = p.unicode_len();
    if m > n || i > n - m {
        return false;
    }
    let mut j: usize = 0;
    while j < m
        invariant
            j <= m,
            n == s@.len(),
            m == p@.len(),
            i + m <= n,
            forall|t: int| 0 <= t < j ==> s@[i + t] == p@[t],
        decreases m - j,
    {
        if s.get_char(i + j) != p.get_char(j) {
            proof {
                assert(s@.subrange(i as int, i + p@.len())[j as int] != p@[j as int]);
            }
            return false;
        }
        j = j + 1;
    }
    proof {
        assert(s@.subrange(i as int, i + p@.len()) =~= p@);
    }
    true
}

fn unesc_exec(e: char) -> (r: char)
    ensures
        r == unesc(e),
{
    if e == 'n' {
        '\n'
    } else if e == 'r' {
        '\r'
    } else if e == 't' {
        '\t'
    } else {
        e
    }
}

fn hex_val_exec(c: char) -> (r: u8)
    requires
        is_hex(c),
    ensures
        r == hex_val(c),
        r < 16,
{
    let code = c as u32;
    if code <= 57 {
        (code - 48) as u8
    } else {
        (code - 87) as u8
    }
}

/// Reads an escaped string body and its closing quote, starting at `start`.
fn parse_body(s: &str, start: usize) -> (r: Result<(String, usize), KvsError>)
    requires
        start <= s@.len(),
    ensures
        match parse_string(s@, start as int) {
            Some(p) => r matches Ok(q) && q.0@ == p.0 && q.1 == p.1 && start < q.1 <= s@.len(),
            None => r == Err::<(String, usize), KvsError>(KvsError::CorruptRecord),
        },
{
    let n = s.unicode_len();
    let mut acc = String::new();
    let mut idx: usize = start;
    loop
        invariant
            start <= idx <= n,
            n == s@.len(),
            parse_string(s@, start as int) == (match parse_string(s@, idx as int) {
                None => None::<(Seq<char>, int)>,
                Some(p) => Some((acc@ + p.0, p.1)),
            }),
        decreases n - idx,
    {
        if idx >= n {
            return Err(KvsError::CorruptRecord);
        }
        let c = s.get_char(idx);
        if c == '"' {
            proof {
                assert(acc@ + Seq::<char>::empty() =~= acc@);
            }
            return Ok((acc, idx + 1));
        } else if c == '\\' {
            if idx + 1 >= n {
                return Err(KvsError::CorruptRecord);
            }
            let e = s.get_char(idx + 1);
            let ghost acc0 = acc@;
            let ghost idx0 = idx as int;
            if e == '"' || e == '\\' || e == 'n' || e == 'r' || e == 't' {
                push_char(&mut acc, unesc_exec(e));
                idx = idx + 2;
                proof {
                    let po = parse_string(s@, idx0 + 2);
                    if po is Some {
                        assert(acc0 + (seq![unesc(e)] + (po->0).0) =~= acc@ + (po->0).0);
                    }
                }
            } else if e == 'u' {
                if n - idx < 6 {
                    return Err(KvsError::CorruptRecord);
                }
                let d2 = s.get_char(idx + 2);
                let d3 = s.get_char(idx + 3);
                let d4 = s.get_char(idx + 4);
                let d5 = s.get_char(idx + 5);
                let h4 = (d4 as u32 >= 48 && d4 as u32 <= 57) || (d4 as u32 >= 97 && d4 as u32 <= 102);
                let h5 = (d5 as u32 >= 48 && d5 as u32 <= 57) || (d5 as u32 >= 97 && d5 as u32 <= 102);
                if !(d2 == '0' && d3 == '0' && h4 && h5) {
                    return Err(KvsError::CorruptRecord);
                }
                let v = hex_val_exec(d4) * 16 + hex_val_exec(d5);
                if v >= 32 {
                    return Err(KvsError::CorruptRecord);
                }
                push_char(&mut acc, v as char);
                idx = idx + 6;
                proof {
                    let po = parse_string(s@, idx0 + 6);
                    if po is Some {
                        assert(acc0 + (seq![(v as u8) as char] + (po->0).0) =~= acc@ + (po->0).0);
                    }
                }
            } else {
                return Err(KvsError::CorruptRecord);
            }
        } else if (c as u32) < 32 {
            return Err(KvsError::CorruptRecord);
        } else {
            let ghost acc0 = acc@;
            let ghost idx0 = idx as int;
            push_char(&mut acc, c);
            idx = idx + 1;
            proof {
                let po = parse_string(s@, idx0 + 1);
                if po is Some {
                    assert(acc0 + (seq![c] + (po->0).0) =~= acc@ + (po->0).0);
                }
            }
        }
    }
}

/// Reads one record line back into a command; a line that is not a
/// well-formed record is reported as corrupt.
pub fn decode(s: &str) -> (r: Result<Command, KvsError>)
    ensures
        match decode_view(s@) {
            Some(c) => r matches Ok(cmd) && cmd@ == c,
            None => r == Err::<Command, KvsError>(KvsError::CorruptRecord),
        },
{
    let n = s.unicode_len();
    if match_at(s, 0, "{\"Set\":{\"key\":\"") {
        proof {
            lemma_format_chars();
            assert(s@.take(15) == s@.subrange(0, 15));
        }
        match parse_body(s, 15) {
            Err(_) => Err(KvsError::CorruptRecord),
            Ok((key, j)) => {
                if match_at(s, j, ",\"value\":\"") {
                    match parse_body(s, j + 10) {
                        Err(_) => Err(KvsError::CorruptRecord),
                        Ok((value, m)) => {
                            if n >= 2 && m == n - 2 && s.get_char(m) == '}' && s.get_char(m + 1)
                                == '}' {
                                Ok(Command::Put { key, value })
                            } else {
                                Err(KvsError::CorruptRecord)
                            }
                        },
                    }
                } else {
                    Err(KvsError::CorruptRecord)
                }
            },
        }
    } else if match_at(s, 0, "{\"Remove\":{\"key\":\"") {
        proof {
            lemma_format_chars();
            assert(s@.take(18) == s@.subrange(0, 18));
            assert(s@.take(15) == s@.subrange(0, 15));
        }
        match parse_body(s, 18) {
            Err(_) => Err(KvsError::CorruptRecord),
            Ok((key, j)) => {
                if n >= 2 && j == n - 2 && s.get_char(j) == '}' && s.get_char(j + 1) == '}' {
                    Ok(Command::Remove { key })
                } else {
                    Err(KvsError::CorruptRecord)
                }
            },
        }
    } else {
        proof {
            lemma_format_chars();
            assert(s@.take(15) == s@.subrange(0, 15));
            assert(s@.take(18) == s@.subrange(0, 18));
        }
        Err(KvsError::CorruptRecord)
    }
}

} // verus!
