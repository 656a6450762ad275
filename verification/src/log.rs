//! The log model: a text that parses as a sequence of records, the state that
//! replaying those records produces, and positioned access to the log text.
use vstd::prelude::*;

verus! {

use crate::KvsError;
use crate::codec::{CommandView, decode_view, no_nl};
use vstd::string::*;

/// The position of the first newline in `s`, or `s.len()` if there is none.
pub open spec fn find_nl(s: Seq<char>) -> nat
    decreases s.len(),
{
    if s.len() == 0 {
        0
    } else if s[0] == '\n' {
        0
    } else {
        1 + find_nl(s.skip(1))
    }
}

/// The records held by a log text: each line, terminated by a newline, must
/// decode as a command. `None` means some line is corrupt or unterminated.
pub open spec fn parse_log(s: Seq<char>) -> Option<Seq<CommandView>>
    decreases s.len(),
{
    if s.len() == 0 {
        Some(Seq::empty())
    } else {
        let i = find_nl(s) as int;
        if i >= s.len() {
            None
        } else {
            match decode_view(s.take(i)) {
                None => None,
                Some(c) => match parse_log(s.skip(i + 1)) {
                    None => None,
                    Some(rest) => Some(seq![c] + rest),
                },
            }
        }
    }
}

/// The key-to-value state that replaying a record sequence produces.
pub open spec fn state_of(cs: Seq<CommandView>) -> Map<Seq<char>, Seq<char>>
    decreases cs.len(),
{
    if cs.len() == 0 {
        Map::empty()
    } else {
        match cs.last() {
            CommandView::Put { key, value } => state_of(cs.drop_last()).insert(key, value),
            CommandView::Remove { key } => state_of(cs.drop_last()).remove(key),
        }
    }
}

pub proof fn lemma_find_nl_props(s: Seq<char>)
    ensures
        find_nl(s) <= s.len(),
        find_nl(s) < s.len() ==> s[find_nl(s) as int] == '\n',
        forall|j: int| 0 <= j < find_nl(s) ==> s[j] != '\n',
    decreases s.len(),
{
    if s.len() == 0 {
    } else if s[0] == '\n' {
    } else {
        lemma_find_nl_props(s.skip(1));
        assert forall|j: int| 0 <= j < find_nl(s) implies s[j] != '\n' by {
            if j > 0 {
                assert(s.skip(1)[j - 1] != '\n');
            }
        }
    }
}

pub proof fn lemma_find_nl_val(s: Seq<char>, n: int)
    requires
        0 <= n < s.len(),
        s[n] == '\n',
        forall|j: int| 0 <= j < n ==> s[j] != '\n',
    ensures
        find_nl(s) == n,
    decreases n,
{
    if n == 0 {
    } else {
        assert(s[0] != '\n');
        assert(s.skip(1)[n - 1] == '\n');
        assert forall|j: int| 0 <= j < n - 1 implies s.skip(1)[j] != '\n' by {
            assert(s[j + 1] != '\n');
        }
        lemma_find_nl_val(s.skip(1), n - 1);
    }
}

/// A parseable prefix can be split off: parsing `a + b` parses `a` first.
pub proof fn lemma_parse_concat(a: Seq<char>, b: Seq<char>)
    requires
        parse_log(a) is Some,
    ensures
        parse_log(a + b) == (match parse_log(b) {
            None => None::<Seq<CommandView>>,
            Some(ds) => Some(parse_log(a)->0 + ds),
        }),
    decreases a.len(),
{
    if a.len() == 0 {
        assert(a + b =~= b);
        assert(parse_log(a)->0 =~= Seq::<CommandView>::empty());
        if parse_log(b) is Some {
            assert(parse_log(a)->0 + parse_log(b)->0 =~= parse_log(b)->0);
        }
    } else {
        lemma_find_nl_props(a);
        let i = find_nl(a) as int;
        assert(i < a.len());
        assert(forall|j: int| 0 <= j < i ==> (a + b)[j] == a[j]);
        assert((a + b)[i] == a[i]);
        lemma_find_nl_val(a + b, i);
        assert((a + b).take(i) =~= a.take(i));
        assert((a + b).skip(i + 1) =~= a.skip(i + 1) + b);
        let c = decode_view(a.take(i))->0;
        lemma_parse_concat(a.skip(i + 1), b);
        if parse_log(b) is Some {
            assert(seq![c] + (parse_log(a.skip(i + 1))->0 + parse_log(b)->0) =~= (seq![c]
                + parse_log(a.skip(i + 1))->0) + parse_log(b)->0);
        }
    }
}

/// One well-formed line followed by its newline parses as one record.
pub proof fn lemma_parse_line(line: Seq<char>, c: CommandView)
    requires
        no_nl(line),
        decode_view(line) == Some(c),
    ensures
        parse_log(line + seq!['\n']) == Some(seq![c]),
{
    let s = line + seq!['\n'];
    lemma_find_nl_val(s, line.len() as int);
    assert(s.take(line.len() as int) =~= line);
    assert(s.skip(line.len() as int + 1) =~= Seq::<char>::empty());
    assert(parse_log(Seq::<char>::empty()) == Some(Seq::<CommandView>::empty()));
    assert(seq![c] + Seq::<CommandView>::empty() =~= seq![c]);
}

/// Replay treats an appended record as one more step of the fold.
pub proof fn lemma_state_push(cs: Seq<CommandView>, c: CommandView)
    ensures
        state_of(cs.push(c)) == (match c {
            CommandView::Put { key, value } => state_of(cs).insert(key, value),
            CommandView::Remove { key } => state_of(cs).remove(key),
        }),
{
    assert(cs.push(c).drop_last() =~= cs);
    assert(cs.push(c).last() == c);
}

/// An append-only writer over the log text, tracking the offset at which the
/// next record will begin.
pub struct BufWriterWithPos {
    data: String,
    pos: u64,
}

impl BufWriterWithPos {
    /// The full log text seen through this writer.
    pub closed spec fn log(&self) -> Seq<char> {
        self.data@
    }

    pub closed spec fn wf(&self) -> bool {
        self.pos == self.data@.len()
    }

    /// Opens a writer positioned at the end of the existing text.
    pub fn new(content: String) -> (r: BufWriterWithPos)
        ensures
            r.wf(),
            r.log() == content@,
    {
        let pos = content.as_str().unicode_len() as u64;
        BufWriterWithPos { data: content, pos }
    }

    pub fn text(&self) -> (r: &str)
        ensures
            r@ == self.log(),
    {
        self.data.as_str()
    }

    /// Appends one line and its newline; returns the offset where it begins.
    pub fn append_line(&mut self, line: &str) -> (pos: u64)
        requires
            old(self).wf(),
        ensures
            final(self).wf(),
            final(self).log() == old(self).log() + line@ + seq!['\n'],
            pos == old(self).log().len(),
    {
        let pos = self.pos;
        self.data.append(line);
        self.data.append("\n");
        proof {
            reveal_strlit("\n");
            assert("\n"@ =~= seq!['\n']);
        }
        self.pos = self.data.as_str().unicode_len() as u64;
        pos
    }
}

/// A read cursor over the log text, tracking the offset after the last read.
pub struct BufReaderWithPos {
    pos: u64,
}

impl BufReaderWithPos {
    pub closed spec fn position(&self) -> u64 {
        self.pos
    }

    /// Opens a fresh cursor at the start of the log.
    pub fn new() -> (r: BufReaderWithPos)
        ensures
            r.position() == 0,
    {
        BufReaderWithPos { pos: 0 }
    }

    /// Reads exactly the extent `[pos, pos + len)` out of `data`; an extent
    /// that reaches past the end of the text is a short read.
    pub fn read_at<'a>(&mut self, data: &'a str, pos: u64, len: u64) -> (r: Result<
        &'a str,
        KvsError,
    >)
        ensures
            pos + len <= data@.len() ==> (r matches Ok(rec) && rec@ == data@.subrange(
                pos as int,
                pos as int + len as int,
            ) && final(self).position() == pos + len),
            pos + len > data@.len() ==> r == Err::<&'a str, KvsError>(KvsError::ShortRead)
                && final(self).position() == old(self).position(),
    {
        let n = data.unicode_len() as u64;
        if pos > n || len > n - pos {
            return Err(KvsError::ShortRead);
        }
        self.pos = pos + len;
        Ok(data.substring_char(pos as usize, (pos + len) as usize))
    }
}

} // verus!
