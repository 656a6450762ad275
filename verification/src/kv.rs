//! The storage engine: an in-memory index over the append-only log, and the
//! open/set/get/remove protocol that keeps the two consistent.
use vstd::prelude::*;

verus! {

use crate::KvsError;
use crate::codec::{Command, CommandView, decode_view, encode_view, encode, decode,
    lemma_encode_no_nl, lemma_round_trip, no_nl};
use crate::log::{BufReaderWithPos, BufWriterWithPos, parse_log, state_of, find_nl,
    lemma_find_nl_props, lemma_find_nl_val, lemma_parse_concat, lemma_parse_line,
    lemma_state_push};
use vstd::string::*;

/// The extent of one record in the log: where it starts and how long its
/// line is, the newline excluded.
#[derive(Clone, Copy, PartialEq, Eq, Structural)]
struct CommandPos {
    pos: u64,
    len: u64,
}

/// One index entry: a key and the extent of its most recent `Set` record.
struct IndexEntry {
    key: String,
    cp: CommandPos,
}

/// The value recorded at extent `cp` of the log.
spec fn entry_value(log: Seq<char>, cp: CommandPos) -> Seq<char> {
    match decode_view(log.subrange(cp.pos as int, cp.pos + cp.len)) {
        Some(CommandView::Put { key, value }) => value,
        _ => Seq::empty(),
    }
}

/// The extent really holds a `Set` record for exactly this entry's key.
spec fn entry_ok(log: Seq<char>, e: IndexEntry) -> bool {
    &&& e.cp.pos + e.cp.len <= log.len()
    &&& decode_view(log.subrange(e.cp.pos as int, e.cp.pos + e.cp.len)) matches Some(
        CommandView::Put { key, value },
    ) && key == e.key@
}

/// The extent mapped to `k`, taking the latest entry when keys repeat.
spec fn find_entry(es: Seq<IndexEntry>, k: Seq<char>) -> Option<CommandPos>
    decreases es.len(),
{
    if es.len() == 0 {
        None
    } else if es.last().key@ == k {
        Some(es.last().cp)
    } else {
        find_entry(es.drop_last(), k)
    }
}

spec fn key_present(es: Seq<IndexEntry>, k: Seq<char>) -> bool {
    exists|j: int| 0 <= j < es.len() && es[j].key@ == k
}

spec fn keys_unique(es: Seq<IndexEntry>) -> bool {
    forall|i: int, j: int| 0 <= i < j < es.len() ==> es[i].key@ != es[j].key@
}

/// The key-to-value map that the index denotes, reading values out of `log`.
spec fn index_map(es: Seq<IndexEntry>, log: Seq<char>) -> Map<Seq<char>, Seq<char>>
    decreases es.len(),
{
    if es.len() == 0 {
        Map::empty()
    } else {
        index_map(es.drop_last(), log).insert(es.last().key@, entry_value(log, es.last().cp))
    }
}

proof fn lemma_find_present(es: Seq<IndexEntry>, k: Seq<char>)
    ensures
        find_entry(es, k) is Some <==> key_present(es, k),
    decreases es.len(),
{
    if es.len() == 0 {
    } else if es.last().key@ == k {
        assert(es[es.len() - 1].key@ == k);
    } else {
        lemma_find_present(es.drop_last(), k);
        if key_present(es, k) {
            let j = choose|j: int| 0 <= j < es.len() && es[j].key@ == k;
            assert(es.drop_last()[j].key@ == k);
        }
        if key_present(es.drop_last(), k) {
            let j = choose|j: int| 0 <= j < es.drop_last().len() && es.drop_last()[j].key@ == k;
            assert(es[j].key@ == k);
        }
    }
}

proof fn lemma_index_map_find(es: Seq<IndexEntry>, log: Seq<char>, k: Seq<char>)
    ensures
        match find_entry(es, k) {
            None => !index_map(es, log).contains_key(k),
            Some(cp) => index_map(es, log).contains_key(k) && index_map(es, log)[k]
                == entry_value(log, cp),
        },
    decreases es.len(),
{
    if es.len() == 0 {
    } else {
        lemma_index_map_find(es.drop_last(), log, k);
    }
}

proof fn lemma_index_map_remove(es: Seq<IndexEntry>, log: Seq<char>, i: int)
    requires
        keys_unique(es),
        0 <= i < es.len(),
    ensures
        keys_unique(es.remove(i)),
        !key_present(es.remove(i), es[i].key@),
        index_map(es.remove(i), log) == index_map(es, log).remove(es[i].key@),
    decreases es.len(),
{
    let k = es[i].key@;
    assert forall|a: int, b: int| 0 <= a < b < es.remove(i).len() implies es.remove(i)[a].key@
        != es.remove(i)[b].key@ by {
        assert(es.remove(i)[a] == (if a < i { es[a] } else { es[a + 1] }));
        assert(es.remove(i)[b] == (if b < i { es[b] } else { es[b + 1] }));
    }
    assert forall|j: int| 0 <= j < es.remove(i).len() implies es.remove(i)[j].key@ != k by {
        assert(es.remove(i)[j] == (if j < i { es[j] } else { es[j + 1] }));
    }
    if i == es.len() - 1 {
        assert(es.remove(i) =~= es.drop_last());
        lemma_find_present(es.drop_last(), k);
        lemma_index_map_find(es.drop_last(), log, k);
        assert(!key_present(es.drop_last(), k)) by {
            if key_present(es.drop_last(), k) {
                let j = choose|j: int| 0 <= j < es.drop_last().len() && es.drop_last()[j].key@
                    == k;
                assert(es[j].key@ == es[i].key@);
            }
        }
        assert(index_map(es.drop_last(), log) =~= index_map(es, log).remove(k));
    } else {
        let last = es.last();
        assert(es.remove(i).last() == last);
        assert(es.remove(i).drop_last() =~= es.drop_last().remove(i));
        assert(es.drop_last()[i] == es[i]);
        assert(keys_unique(es.drop_last()));
        lemma_index_map_remove(es.drop_last(), log, i);
        assert(index_map(es.remove(i), log) == index_map(es.drop_last().remove(i), log).insert(
            last.key@,
            entry_value(log, last.cp),
        ));
        assert(last.key@ != k);
        assert(index_map(es.drop_last(), log).remove(k).insert(last.key@, entry_value(log, last.cp))
            =~= index_map(es.drop_last(), log).insert(last.key@, entry_value(log, last.cp)).remove(
            k,
        ));
    }
}

/// Extending the log does not change what existing extents hold.
proof fn lemma_index_map_stable(es: Seq<IndexEntry>, log: Seq<char>, log2: Seq<char>)
    requires
        log.len() <= log2.len(),
        log2.take(log.len() as int) == log,
        forall|i: int| 0 <= i < es.len() ==> entry_ok(log, #[trigger] es[i]),
    ensures
        forall|i: int| 0 <= i < es.len() ==> entry_ok(log2, #[trigger] es[i]),
        index_map(es, log2) == index_map(es, log),
    decreases es.len(),
{
    assert forall|i: int| 0 <= i < es.len() implies entry_ok(log2, #[trigger] es[i]) by {
        let cp = es[i].cp;
        assert(log2.subrange(cp.pos as int, cp.pos + cp.len) =~= log.subrange(
            cp.pos as int,
            cp.pos + cp.len,
        )) by {
            assert forall|m: int| 0 <= m < cp.len implies #[trigger] log2.subrange(
                cp.pos as int,
                cp.pos + cp.len,
            )[m] == log.subrange(cp.pos as int, cp.pos + cp.len)[m] by {
                assert(log2[cp.pos + m] == log2.take(log.len() as int)[cp.pos + m]);
            }
        }
    }
    if es.len() == 0 {
    } else {
        lemma_index_map_stable(es.drop_last(), log, log2);
        let cp = es.last().cp;
        assert(0 <= es.len() - 1 < es.len() && es[es.len() - 1] == es.last());
        assert(log2.subrange(cp.pos as int, cp.pos + cp.len) =~= log.subrange(
            cp.pos as int,
            cp.pos + cp.len,
        )) by {
            assert(entry_ok(log, es.last()));
            assert forall|m: int| 0 <= m < cp.len implies #[trigger] log2.subrange(
                cp.pos as int,
                cp.pos + cp.len,
            )[m] == log.subrange(cp.pos as int, cp.pos + cp.len)[m] by {
                assert(log2[cp.pos + m] == log2.take(log.len() as int)[cp.pos + m]);
            }
        }
        assert(index_map(es, log2) =~= index_map(es, log));
    }
}

/// Finds the position of the entry for `key`, scanning latest first.
fn find_index(es: &Vec<IndexEntry>, key: &String) -> (r: Option<usize>)
    ensures
        match r {
            Some(i) => i < es@.len() && es@[i as int].key@ == key@ && find_entry(es@, key@)
                == Some(es@[i as int].cp) && forall|j: int|
                i < j < es@.len() ==> es@[j].key@ != key@,
            None => find_entry(es@, key@) is None && !key_present(es@, key@),
        },
{
    let mut i: usize = es.len();
    proof {
        assert(es@.take(es@.len() as int) =~= es@);
    }
    while i > 0
        invariant
            i <= es@.len(),
            find_entry(es@, key@) == find_entry(es@.take(i as int), key@),
            forall|j: int| i <= j < es@.len() ==> es@[j].key@ != key@,
        decreases i,
    {
        i = i - 1;
        proof {
            assert(es@.take(i + 1).drop_last() =~= es@.take(i as int));
            assert(es@.take(i + 1).last() == es@[i as int]);
        }
        if es[i].key.eq(key) {
            return Some(i);
        }
    }
    proof {
        assert(es@.take(0) =~= Seq::<IndexEntry>::empty());
        lemma_find_present(es@, key@);
    }
    None
}


/// Applies one decoded record to the index: a `Set` record replaces or adds
/// the entry for its key; a `Remove` record deletes it if present.
fn apply_record(index: &mut Vec<IndexEntry>, Ghost(log): Ghost<Seq<char>>, cmd: Command,
    cp: CommandPos)
    requires
        keys_unique(old(index)@),
        forall|i: int| 0 <= i < old(index)@.len() ==> entry_ok(log, #[trigger] old(index)@[i]),
        cmd matches Command::Put { .. } ==> cp.pos + cp.len <= log.len() && decode_view(
            log.subrange(cp.pos as int, cp.pos + cp.len),
        ) == Some(cmd@),
    ensures
        keys_unique(final(index)@),
        forall|i: int| 0 <= i < final(index)@.len() ==> entry_ok(log, #[trigger] final(index)@[i]),
        index_map(final(index)@, log) == (match cmd@ {
            CommandView::Put { key, value } => index_map(old(index)@, log).insert(key, value),
            CommandView::Remove { key } => index_map(old(index)@, log).remove(key),
        }),
{
    let ghost c = cmd@;
    match cmd {
        Command::Put { key, value: _value } => {
            let ghost k = key@;
            let ghost m0 = index_map(index@, log);
            match find_index(index, &key) {
                Some(ii) => {
                    proof {
                        lemma_index_map_remove(index@, log, ii as int);
                    }
                    index.remove(ii);
                },
                None => {},
            }
            let ghost pre = index@;
            proof {
                assert(!key_present(pre, k));
                assert(index_map(pre, log) =~= m0.remove(k)) by {
                    lemma_index_map_find(pre, log, k);
                    lemma_find_present(pre, k);
                }
            }
            index.push(IndexEntry { key, cp });
            proof {
                assert(index@.drop_last() =~= pre);
                assert(index@.last().key@ == k);
                assert(index@.last().cp == cp);
                assert(keys_unique(index@)) by {
                    assert forall|a: int, b: int| 0 <= a < b < index@.len() implies index@[a].key@
                        != index@[b].key@ by {
                        if b < index@.len() - 1 {
                            assert(pre[a].key@ != pre[b].key@);
                        } else {
                            assert(index@[a] == pre[a]);
                        }
                    }
                }
                assert(entry_ok(log, index@.last()));
                assert forall|i: int| 0 <= i < index@.len() implies entry_ok(
                    log,
                    #[trigger] index@[i],
                ) by {
                    if i < index@.len() - 1 {
                        assert(index@[i] == pre[i]);
                    } else {
                        assert(index@[i] == index@.last());
                    }
                }
                let v = (match c {
                    CommandView::Put { value, .. } => value,
                    _ => Seq::<char>::empty(),
                });
                assert(entry_value(log, cp) == v);
                assert(index_map(index@, log) == index_map(pre, log).insert(k, v));
                assert(m0.remove(k).insert(k, v) =~= m0.insert(k, v));
            }
        },
        Command::Remove { key } => {
            let ghost k = key@;
            let ghost m0 = index_map(index@, log);
            match find_index(index, &key) {
                Some(ii) => {
                    proof {
                        lemma_index_map_remove(index@, log, ii as int);
                    }
                    index.remove(ii);
                },
                None => {
                    proof {
                        lemma_index_map_find(index@, log, k);
                        assert(m0.remove(k) =~= m0);
                    }
                },
            }
        },
    }
}

/// A persistent key-value store: an append-only log of commands together
/// with an in-memory index from key to the extent of its latest `Set`.
pub struct KvStore {
    writer: BufWriterWithPos,
    index: Vec<IndexEntry>,
    flushed: usize,
}

impl View for KvStore {
    type V = Map<Seq<char>, Seq<char>>;

    /// The abstract state: the map that replaying the whole log produces.
    closed spec fn view(&self) -> Map<Seq<char>, Seq<char>> {
        state_of(self.records())
    }
}

impl KvStore {
    /// The full log text this store has accumulated.
    pub closed spec fn log(&self) -> Seq<char> {
        self.writer.log()
    }

    /// The record sequence the log text parses to.
    pub closed spec fn records(&self) -> Seq<CommandView> {
        parse_log(self.log())->0
    }

    /// How much of the log text has already been handed out for persisting.
    pub closed spec fn flushed_len(&self) -> int {
        self.flushed as int
    }

    /// Well-formedness: the log parses, every index entry points at a `Set`
    /// record for its own key, keys are unique, and the index denotes
    /// exactly the replay state of the log.
    pub closed spec fn wf(&self) -> bool {
        &&& self.writer.wf()
        &&& parse_log(self.log()) is Some
        &&& keys_unique(self.index@)
        &&& forall|i: int| 0 <= i < self.index@.len() ==> entry_ok(self.log(), #[trigger] self.index@[i])
        &&& index_map(self.index@, self.log()) == state_of(self.records())
        &&& self.flushed <= self.log().len()
    }

    /// Opens a store over an existing log text, replaying every record to
    /// rebuild the index; a log with a corrupt or unterminated line is
    /// rejected whole.
    #[verifier::rlimit(100)]
    pub fn open(log_text: String) -> (r: Result<KvStore, KvsError>)
        ensures
            match parse_log(log_text@) {
                Some(rs) => r matches Ok(st) && st.wf() && st@ == state_of(rs) && st.log()
                    == log_text@ && st.flushed_len() == log_text@.len(),
                None => r == Err::<KvStore, KvsError>(KvsError::CorruptRecord),
            },
    {
        let n = log_text.as_str().unicode_len();
        let ghost s = log_text@;
        let mut index: Vec<IndexEntry> = Vec::new();
        let ghost mut rs_done: Seq<CommandView> = Seq::empty();
        let mut pos: usize = 0;
        proof {
            assert(s.take(0) =~= Seq::<char>::empty());
            assert(index_map(index@, s) =~= state_of(rs_done));
        }
        while pos < n
            invariant
                pos <= n,
                n == s.len(),
                log_text@ == s,
                parse_log(s.take(pos as int)) == Some(rs_done),
                keys_unique(index@),
                forall|i: int| 0 <= i < index@.len() ==> entry_ok(s, #[trigger] index@[i]),
                index_map(index@, s) == state_of(rs_done),
            decreases n - pos,
        {
            let mut j: usize = pos;
            while j < n && log_text.as_str().get_char(j) != '\n'
                invariant
                    pos <= j <= n,
                    n == s.len(),
                    log_text@ == s,
                    forall|t: int| pos <= t < j ==> s[t] != '\n',
                decreases n - j,
            {
                j = j + 1;
            }
            let ghost t = s.skip(pos as int);
            if j == n {
                proof {
                    lemma_find_nl_props(t);
                    assert forall|m: int| 0 <= m < t.len() implies t[m] != '\n' by {
                        assert(t[m] == s[pos + m]);
                    }
                    assert(find_nl(t) == t.len());
                    assert(parse_log(t) is None);
                    lemma_parse_concat(s.take(pos as int), t);
                    assert(s.take(pos as int) + t =~= s);
                }
                return Err(KvsError::CorruptRecord);
            }
            let line = log_text.as_str().substring_char(pos, j);
            proof {
                assert(t[(j - pos) as int] == s[j as int]);
                assert forall|m: int| 0 <= m < j - pos implies t[m] != '\n' by {
                    assert(t[m] == s[pos + m]);
                }
                lemma_find_nl_val(t, j - pos);
                assert(line@ =~= t.take((j - pos) as int));
            }
            match decode(line) {
                Ok(cmd) => {
                    let ghost c = cmd@;
                    proof {
                        assert(no_nl(line@)) by {
                            assert forall|m: int| 0 <= m < line@.len() implies line@[m] != '\n' by {
                                assert(line@[m] == s[pos + m]);
                            }
                        }
                        lemma_parse_line(line@, c);
                        lemma_parse_concat(s.take(pos as int), line@ + seq!['\n']);
                        assert(s.take(pos as int) + (line@ + seq!['\n']) =~= s.take(j + 1));
                        assert(rs_done + seq![c] =~= rs_done.push(c));
                        assert(parse_log(s.take(j + 1)) == Some(rs_done.push(c)));
                        lemma_state_push(rs_done, c);
                    }
                    let cp = CommandPos { pos: pos as u64, len: (j - pos) as u64 };
                    proof {
                        assert(s.subrange(cp.pos as int, cp.pos + cp.len) =~= line@);
                    }
                    apply_record(&mut index, Ghost(s), cmd, cp);
                    proof {
                        rs_done = rs_done.push(c);
                        assert(index_map(index@, s) == state_of(rs_done));
                    }
                },
                Err(_) => {
                    proof {
                        assert(parse_log(t) is None);
                        lemma_parse_concat(s.take(pos as int), t);
                        assert(s.take(pos as int) + t =~= s);
                    }
                    return Err(KvsError::CorruptRecord);
                },
            }
            pos = j + 1;
        }
        proof {
            assert(s.take(n as int) =~= s);
        }
        let writer = BufWriterWithPos::new(log_text);
        let st = KvStore { writer, index, flushed: n };
        proof {
            assert(st.log() == s);
            assert(st.records() == rs_done);
        }
        Ok(st)
    }

    /// Inserts or updates the value for `key`: appends a `Set` record to the
    /// log and then points the index at it. Never rejected for an existing
    /// key; the old record stays in the log.
    pub fn set(&mut self, key: String, value: String) -> (r: Result<(), KvsError>)
        requires
            old(self).wf(),
        ensures
            r == Ok::<(), KvsError>(()),
            final(self).wf(),
            final(self)@ == old(self)@.insert(key@, value@),
            final(self).records() == old(self).records().push(
                CommandView::Put { key: key@, value: value@ },
            ),
            final(self).log() == old(self).log() + encode_view(
                CommandView::Put { key: key@, value: value@ },
            ) + seq!['\n'],
            final(self).flushed_len() == old(self).flushed_len(),
    {
        let ghost oldlog = self.log();
        let ghost rs0 = self.records();
        let cmd = Command::Put { key, value };
        let ghost c = cmd@;
        let line = encode(&cmd);
        proof {
            lemma_encode_no_nl(c);
            lemma_round_trip(c);
        }
        let pos = self.writer.append_line(line.as_str());
        let len = line.as_str().unicode_len() as u64;
        let cp = CommandPos { pos, len };
        proof {
            lemma_parse_line(line@, c);
            lemma_parse_concat(oldlog, line@ + seq!['\n']);
            assert(oldlog + (line@ + seq!['\n']) =~= self.log());
            assert(rs0 + seq![c] =~= rs0.push(c));
            assert(self.records() == rs0.push(c));
            assert(self.log().take(oldlog.len() as int) =~= oldlog);
            lemma_index_map_stable(self.index@, oldlog, self.log());
            lemma_state_push(rs0, c);
            assert(self.log().subrange(cp.pos as int, cp.pos + cp.len) =~= line@);
        }
        let ghost newlog = self.log();
        apply_record(&mut self.index, Ghost(newlog), cmd, cp);
        proof {
            assert(index_map(self.index@, self.log()) == state_of(self.records()));
        }
        Ok(())
    }

    /// Looks `key` up in the index and, when present, reads its record back
    /// out of the log; a missing key is a normal empty result, not an error.
    pub fn get(&self, key: String) -> (r: Result<Option<String>, KvsError>)
        requires
            self.wf(),
        ensures
            r matches Ok(v) && (match v {
                Some(val) => self@.contains_key(key@) && val@ == self@[key@],
                None => !self@.contains_key(key@),
            }),
    {
        proof {
            lemma_index_map_find(self.index@, self.log(), key@);
        }
        match find_index(&self.index, &key) {
            None => Ok(None),
            Some(ii) => {
                let cp = self.index[ii].cp;
                let ghost e = self.index@[ii as int];
                proof {
                    assert(entry_ok(self.log(), e));
                }
                let mut reader = BufReaderWithPos::new();
                match reader.read_at(self.writer.text(), cp.pos, cp.len) {
                    Err(err) => Err(err),
                    Ok(rec) => match decode(rec) {
                        Err(err) => Err(err),
                        Ok(found) => match found {
                            Command::Put { key: _k, value } => Ok(Some(value)),
                            Command::Remove { .. } => Err(KvsError::CorruptRecord),
                        },
                    },
                }
            },
        }
    }

    /// Removes `key`: fails with `KeyNotFound` before touching the log when
    /// the key is absent; otherwise appends a `Remove` record and then drops
    /// the index entry.
    pub fn remove(&mut self, key: String) -> (r: Result<(), KvsError>)
        requires
            old(self).wf(),
        ensures
            old(self)@.contains_key(key@) ==> r == Ok::<(), KvsError>(()) && final(self).wf()
                && final(self)@ == old(self)@.remove(key@)
                && final(self).records() == old(self).records().push(CommandView::Remove { key: key@ })
                && final(self).log() == old(self).log() + encode_view(CommandView::Remove { key: key@ }) + seq!['\n']
                && final(self).flushed_len() == old(self).flushed_len(),
            !old(self)@.contains_key(key@) ==> r == Err::<(), KvsError>(KvsError::KeyNotFound)
                && *final(self) == *old(self),
    {
        proof {
            lemma_index_map_find(self.index@, self.log(), key@);
        }
        let present = match find_index(&self.index, &key) {
            Some(_) => true,
            None => false,
        };
        if !present {
            return Err(KvsError::KeyNotFound);
        }
        let ghost oldlog = self.log();
        let ghost rs0 = self.records();
        let cmd = Command::Remove { key };
        let ghost c = cmd@;
        let line = encode(&cmd);
        proof {
            lemma_encode_no_nl(c);
            lemma_round_trip(c);
        }
        self.writer.append_line(line.as_str());
        proof {
            lemma_parse_line(line@, c);
            lemma_parse_concat(oldlog, line@ + seq!['\n']);
            assert(oldlog + (line@ + seq!['\n']) =~= self.log());
            assert(rs0 + seq![c] =~= rs0.push(c));
            assert(self.records() == rs0.push(c));
            assert(self.log().take(oldlog.len() as int) =~= oldlog);
            lemma_index_map_stable(self.index@, oldlog, self.log());
            lemma_state_push(rs0, c);
        }
        let ghost newlog = self.log();
        apply_record(&mut self.index, Ghost(newlog), cmd, CommandPos { pos: 0, len: 0 });
        proof {
            assert(index_map(self.index@, self.log()) == state_of(self.records()));
        }
        Ok(())
    }

    /// Hands out the part of the log text not yet persisted, and marks it as
    /// persisted; the store's state and log are unchanged.
    pub fn take_unflushed(&mut self) -> (r: String)
        requires
            old(self).wf(),
        ensures
            final(self).wf(),
            final(self)@ == old(self)@,
            final(self).log() == old(self).log(),
            final(self).records() == old(self).records(),
            r@ == old(self).log().subrange(old(self).flushed_len(), old(self).log().len() as int),
            final(self).flushed_len() == final(self).log().len(),
    {
        let n = self.writer.text().unicode_len();
        let sub = String::from_str(self.writer.text().substring_char(self.flushed, n));
        self.flushed = n;
        sub
    }
}

/// The line the command dispatcher prints for a lookup result: the value
/// itself when one was found, the fixed not-found notice otherwise.
pub fn render_get(value: Option<String>) -> (r: String)
    ensures
        match value {
            Some(v) => r@ == v@,
            None => r@ == "Key not found"@,
        },
{
    match value {
        Some(v) => v,
        None => String::from_str("Key not found"),
    }
}


/// Recovery idempotence: a well-formed store's log parses back to exactly
/// its record sequence, and replaying it yields exactly the store's state;
/// so opening a fresh store over the same log text rebuilds the same map.
pub proof fn lemma_recovery(st: &KvStore)
    requires
        st.wf(),
    ensures
        parse_log(st.log()) == Some(st.records()),
        state_of(st.records()) == st@,
{
    assert(parse_log(st.log()) is Some);
}



} // verus!
