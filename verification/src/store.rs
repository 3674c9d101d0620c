use vstd::prelude::*;
use vstd::string::*;

use crate::error::KvError;
use crate::index::CommandBuffer;
use crate::index::EntryView;
use crate::index::Index;
use crate::record::decode;
use crate::record::decode_spec;
use crate::record::encode;
use crate::record::encode_spec;
use crate::record::lemma_encode_no_newline;
use crate::record::lemma_round_trip;
use crate::record::push_char;
use crate::record::Record;
use crate::record::RecordView;
use crate::replay::apply_record;
use crate::replay::entries_ok;
use crate::replay::entry_ok;
use crate::replay::lemma_entry_ok_append;
use crate::replay::lemma_first_nl_is;
use crate::replay::lemma_replay_append;
use crate::replay::lemma_replay_entries_ok;
use crate::replay::live_view;
use crate::replay::replay_from;
use crate::replay::replay_log;
use crate::replay::terminated;
use crate::replay::value_of;

verus! {

/// How many successful writes lie between two compaction passes.
pub const COMPACT_EVERY: u64 = 10000;

/// The storage engine: an append-only log of records, mirrored here as
/// text, and an in-memory index from each live key to the position of its
/// most recent record. The log, not the index, is the durable truth: the
/// index is rebuilt from the log text on open.
pub struct KvStore {
    store: Index,
    log: String,
    log_size: usize,
    number_of_writes: u64,
}

impl View for KvStore {
    type V = Map<Seq<char>, Seq<char>>;

    /// The visible state: each live key, mapped to its current value.
    closed spec fn view(&self) -> Map<Seq<char>, Seq<char>> {
        live_view(self.store@, self.log@)
    }
}

impl KvStore {
    /// The log text the store mirrors.
    pub closed spec fn log_view(self) -> Seq<char> {
        self.log@
    }

    /// The index mapping, from keys to log positions.
    pub closed spec fn index_view(self) -> Map<Seq<char>, EntryView> {
        self.store@
    }

    /// The count of successful writes since the store was opened.
    pub closed spec fn write_count(self) -> u64 {
        self.number_of_writes
    }

    /// The index holds one entry per key and is exactly what replaying the
    /// log text from the start yields.
    pub closed spec fn recovered(self) -> bool {
        &&& self.store.wf()
        &&& self.log_size == self.log@.len()
        &&& replay_log(self.log@) == Some(self.store@)
    }

    /// A fully well-formed store: recovered, over newline-terminated text.
    pub closed spec fn wf(self) -> bool {
        &&& self.recovered()
        &&& terminated(self.log@)
    }

    /// A recovered store's entries all point at put records for their keys.
    proof fn lemma_wf_entries(self)
        requires
            self.recovered(),
        ensures
            entries_ok(self.store@, self.log@),
    {
        assert(self.log@ == self.log@.skip(0)) by {
            assert(self.log@ =~= self.log@.skip(0));
        }
        lemma_replay_entries_ok(
            self.log@,
            self.log@,
            0,
            Map::empty(),
            self.store@,
        );
    }

    /// The full log text; front ends persist exactly this.
    pub fn log_contents(&self) -> (l: &String)
        ensures
            l@ == self.log_view(),
    {
        &self.log
    }

    /// Applies one line of log text to the index, as replay does: a put
    /// record binds its key to `(starting_offset, line length)`, a remove
    /// record deletes its key, and a line that is no record fails with
    /// `InvalidLogCommand` and leaves the index alone.
    pub fn read_line_into_store(&mut self, line: String, starting_offset: usize) -> (res: Result<
        (),
        KvError,
    >)
        requires
            old(self).index_wf(),
        ensures
            final(self).index_wf(),
            final(self).log_view() == old(self).log_view(),
            final(self).write_count() == old(self).write_count(),
            match res {
                Ok(_) => match decode_spec(line@) {
                    Some(rv) => final(self).index_view() == apply_record(
                        old(self).index_view(),
                        rv,
                        starting_offset as nat,
                        line@.len(),
                    ),
                    None => false,
                },
                Err(e) => {
                    &&& e == KvError::InvalidLogCommand
                    &&& decode_spec(line@) is None
                    &&& final(self).index_view() == old(self).index_view()
                },
            },
    {
        let size = line.as_str().unicode_len();
        match decode(line.as_str()) {
            Ok(Record::Put { key, value }) => {
                self.store.insert(key, CommandBuffer { start: starting_offset, size });
                Ok(())
            },
            Ok(Record::Remove { key }) => {
                self.store.remove(&key);
                Ok(())
            },
            Err(e) => Err(e),
        }
    }

    /// The index alone is well-formed (at most one entry per key).
    pub closed spec fn index_wf(self) -> bool {
        self.store.wf()
    }

    /// Rebuilds the index by replaying the store's own log text from the
    /// beginning, line by line, in log order. A line that does not decode
    /// aborts the recovery with `InvalidLogCommand`: the engine treats the
    /// whole log as the unit of trust.
    pub fn read_log_file(&mut self) -> (res: Result<(), KvError>)
        requires
            old(self).index_wf(),
        ensures
            final(self).index_wf(),
            final(self).log_view() == old(self).log_view(),
            final(self).write_count() == old(self).write_count(),
            match res {
                Ok(_) => {
                    &&& replay_from(old(self).log_view(), 0, old(self).index_view()) == Some(
                        final(self).index_view(),
                    )
                    &&& (old(self).index_view() == Map::<Seq<char>, EntryView>::empty()
                        ==> final(self).recovered())
                },
                Err(e) => {
                    &&& e == KvError::InvalidLogCommand
                    &&& replay_from(old(self).log_view(), 0, old(self).index_view()) is None
                },
            },
    {
        let ghost l = self.log@;
        let ghost m0 = self.store@;
        let ghost w0 = self.number_of_writes;
        let n = self.log.as_str().unicode_len();
        let mut pos: usize = 0;
        proof {
            assert(l.skip(0) =~= l);
        }
        while pos < n
            invariant
                pos <= n,
                n == self.log@.len(),
                self.log@ == l,
                l == old(self).log_view(),
                m0 == old(self).index_view(),
                w0 == old(self).write_count(),
                self.store.wf(),
                self.number_of_writes == w0,
                replay_from(l, 0, m0) == replay_from(
                    l.skip(pos as int),
                    pos as nat,
                    self.store@,
                ),
            decreases n - pos,
        {
            let mut end: usize = pos;
            while end < n && self.log.as_str().get_char(end) != '\n'
                invariant
                    pos <= end <= n,
                    n == self.log@.len(),
                    self.log@ == l,
                    forall|q: int| pos <= q < end ==> l[q] != '\n',
                decreases n - end,
            {
                end = end + 1;
            }
            proof {
                let su = l.skip(pos as int);
                assert forall|i: int| 0 <= i < (end - pos) implies su[i] != '\n' by {
                    assert(su[i] == l[pos + i]);
                }
                if end < n {
                    assert(su[(end - pos) as int] == l[end as int]);
                }
                lemma_first_nl_is(su, (end - pos) as int);
            }
            let line = String::from_str(self.log.as_str().substring_char(pos, end));
            let ghost mb = self.store@;
            match self.read_line_into_store(line, pos) {
                Ok(_) => {},
                Err(e) => {
                    proof {
                        let su = l.skip(pos as int);
                        assert(su.take((end - pos) as int) =~= l.subrange(pos as int, end as int));
                        if end == n {
                            assert(su =~= l.subrange(pos as int, end as int));
                        }
                        assert(replay_from(su, pos as nat, mb) is None);
                    }
                    return Err(e);
                },
            }
            proof {
                let su = l.skip(pos as int);
                let j = (end - pos) as int;
                assert(su.take(j) =~= l.subrange(pos as int, end as int));
                let rv = decode_spec(l.subrange(pos as int, end as int))->0;
                if end < n {
                    assert(su.skip(j + 1) =~= l.skip((end + 1) as int));
                    assert(replay_from(su, pos as nat, mb) == replay_from(
                        l.skip((end + 1) as int),
                        (end + 1) as nat,
                        apply_record(mb, rv, pos as nat, j as nat),
                    ));
                    assert(self.store@ == apply_record(mb, rv, pos as nat, j as nat));
                } else {
                    assert(su =~= l.subrange(pos as int, end as int));
                    assert(replay_from(su, pos as nat, mb) == Some(
                        apply_record(mb, rv, pos as nat, su.len()),
                    ));
                    assert(self.store@ == apply_record(mb, rv, pos as nat, su.len()));
                    assert(l.skip(n as int) =~= Seq::<char>::empty());
                }
            }
            pos = if end < n {
                end + 1
            } else {
                n
            };
        }
        proof {
            assert(l.skip(n as int) =~= Seq::<char>::empty());
        }
        self.log_size = n;
        Ok(())
    }

    /// Opens a store over the given log text: replays it into a fresh
    /// index, then runs one compaction pass. Text that does not replay is
    /// rejected as `InvalidLogCommand`.
    pub fn open(log_text: String) -> (res: Result<KvStore, KvError>)
        ensures
            match res {
                Ok(s) => {
                    &&& s.wf()
                    &&& replay_log(log_text@) is Some
                    &&& s@ == live_view(replay_log(log_text@)->0, log_text@)
                    &&& s.write_count() == 0
                },
                Err(e) => {
                    &&& e == KvError::InvalidLogCommand
                    &&& replay_log(log_text@) is None
                },
            },
    {
        let mut store = KvStore {
            store: Index::new(),
            log: log_text,
            log_size: 0,
            number_of_writes: 0,
        };
        match store.read_log_file() {
            Ok(_) => {},
            Err(e) => {
                return Err(e);
            },
        }
        store.compact_log();
        Ok(store)
    }

    /// The index's entry list, in its own order; compaction walks it.
    pub closed spec fn index_entries(self) -> Seq<(String, CommandBuffer)> {
        self.store.entries_seq()
    }

    /// Rewrites the log to hold exactly one put record per live key — the
    /// record each index entry points at, copied out of the old text in
    /// index order and newline-closed — rebuilding the index against the
    /// new text; overwritten values and tombstones are dropped. Law:
    /// compaction preserves live state — the visible mapping afterwards is
    /// exactly the one before.
    pub fn compact_log(&mut self)
        requires
            old(self).recovered(),
        ensures
            final(self).wf(),
            final(self)@ == old(self)@,
            final(self).write_count() == old(self).write_count(),
            final(self).log_view() == compacted_text(
                old(self).log_view(),
                old(self).index_entries(),
            ),
    {
        proof {
            old(self).lemma_wf_entries();
        }
        let mut new_log = String::new();
        let mut new_index = Index::new();
        let n = self.store.len();
        let total = self.log.as_str().unicode_len();
        let mut i: usize = 0;
        while i < n
            invariant
                i <= n,
                n == self.store.entries_seq().len(),
                total == self.log@.len(),
                self.store.wf(),
                self.recovered(),
                entries_ok(self.store@, self.log@),
                new_index.wf(),
                terminated(new_log@),
                new_log@ == compacted_text(self.log@, self.store.entries_seq().take(i as int)),
                replay_log(new_log@) == Some(new_index@),
                forall|j: int|
                    0 <= j < i ==> #[trigger] new_index@.contains_key(
                        self.store.entries_seq()[j].0@,
                    ),
                forall|k: Seq<char>| #[trigger]
                    new_index@.contains_key(k) ==> self.store@.contains_key(k) && entry_ok(
                        new_log@,
                        k,
                        new_index@[k],
                    ) && value_of(new_log@, new_index@[k]) == value_of(self.log@, self.store@[k]),
            decreases n - i,
        {
            let key_ref = self.store.key_at(i);
            let e = self.store.entry_at(i);
            proof {
                self.store.lemma_entry_at(i as int);
            }
            let seg_end = e.start + e.size;
            let seg = self.log.as_str().substring_char(e.start, seg_end);
            let start_new = new_log.as_str().unicode_len();
            let ghost before = new_log@;
            new_log.append(seg);
            push_char(&mut new_log, '\n');
            let cb = CommandBuffer { start: start_new, size: e.size };
            let key_copy = key_ref.clone();
            let ghost k = key_ref@;
            proof {
                assert(new_log@ =~= before + seg@ + seq!['\n']);
                let taken = self.store.entries_seq().take((i + 1) as int);
                assert(taken.drop_last() =~= self.store.entries_seq().take(i as int));
                assert(taken.last() == self.store.entries_seq()[i as int]);
                assert(new_log@ =~= compacted_text(self.log@, taken));
                lemma_replay_append(before, seg@, 0, Map::empty());
                let rv = decode_spec(seg@)->0;
                assert(replay_log(new_log@) == Some(
                    apply_record(new_index@, rv, before.len(), seg@.len()),
                ));
                assert(rv == RecordView::Put { key: k, value: value_of(self.log@, e@) });
                assert(new_log@.subrange(
                    start_new as int,
                    (start_new + e.size) as int,
                ) =~= seg@);
                assert(entry_ok(new_log@, k, cb@));
                assert forall|k2: Seq<char>| #[trigger]
                    new_index@.contains_key(k2) implies entry_ok(
                    new_log@,
                    k2,
                    new_index@[k2],
                ) && value_of(new_log@, new_index@[k2]) == value_of(before, new_index@[k2]) by {
                    lemma_entry_ok_append(before, seg@ + seq!['\n'], k2, new_index@[k2]);
                    assert(before + (seg@ + seq!['\n']) =~= new_log@);
                }
            }
            new_index.insert(key_copy, cb);
            i = i + 1;
            proof {
                assert forall|j: int|
                    0 <= j < i implies #[trigger] new_index@.contains_key(
                    self.store.entries_seq()[j].0@,
                ) by {}
            }
        }
        proof {
            assert forall|k: Seq<char>| #[trigger]
                self.store@.contains_key(k) implies new_index@.contains_key(k) by {
                self.store.lemma_contains(k);
                let j = choose|j: int|
                    0 <= j < self.store.entries_seq().len() && self.store.entries_seq()[j].0@ == k;
                assert(new_index@.contains_key(self.store.entries_seq()[j].0@));
            }
            assert(live_view(new_index@, new_log@) =~= live_view(self.store@, self.log@));
            assert(self.store.entries_seq().take(n as int) =~= self.store.entries_seq());
        }
        let new_size = new_log.as_str().unicode_len();
        self.log = new_log;
        self.store = new_index;
        self.log_size = new_size;
    }

    /// Looks `key` up: `Ok(None)` when it holds no live value, otherwise
    /// the value of its most recent put record, read back out of the log
    /// text at the index's offset and decoded. A record that is not a put
    /// for exactly `key` would mean index/log desynchronization and is
    /// reported as `InvalidLogCommand`; a recovered store never holds one.
    pub fn get(&self, key: String) -> (res: Result<Option<String>, KvError>)
        requires
            self.recovered(),
        ensures
            match res {
                Ok(v) => match v {
                    Some(value) => self@.contains_key(key@) && value@ == self@[key@],
                    None => !self@.contains_key(key@),
                },
                Err(_) => false,
            },
    {
        proof {
            self.lemma_wf_entries();
        }
        match self.store.get(&key) {
            None => Ok(None),
            Some(e) => {
                let total = self.log.as_str().unicode_len();
                proof {
                    assert(e@.start + e@.size <= total as nat);
                }
                let seg_end = e.start + e.size;
                let seg = self.log.as_str().substring_char(e.start, seg_end);
                match decode(seg) {
                    Ok(Record::Put { key: k2, value }) => {
                        if k2 == key {
                            Ok(Some(value))
                        } else {
                            proof {
                                assert(false);
                            }
                            Err(KvError::InvalidLogCommand)
                        }
                    },
                    Ok(Record::Remove { key: _ }) => {
                        proof {
                            assert(false);
                        }
                        Err(KvError::InvalidLogCommand)
                    },
                    Err(_) => {
                        proof {
                            assert(false);
                        }
                        Err(KvError::ReadLogError)
                    },
                }
            },
        }
    }

    /// Binds `key` to `value`: appends a put record to the log, points the
    /// index at the new record, then counts the write. Fails only when the
    /// log text would outgrow the machine, and then changes nothing.
    pub fn set(&mut self, key: String, value: String) -> (res: Result<(), KvError>)
        requires
            old(self).wf(),
        ensures
            final(self).wf(),
            match res {
                Ok(_) => final(self)@ == old(self)@.insert(key@, value@),
                Err(e) => e == KvError::WriteError && *final(self) == *old(self),
            },
            (res is Err) <==> (old(self).log_view().len() + encode_spec(
                RecordView::Put { key: key@, value: value@ },
            ).len() + 1 > usize::MAX),
            res is Ok ==> final(self).write_count() == (if old(self).write_count() < u64::MAX {
                old(self).write_count() + 1
            } else {
                old(self).write_count() as int
            }),
            (res is Ok && final(self).write_count() % COMPACT_EVERY != 0) ==> final(self).log_view() == old(self).log_view() + encode_spec(
                RecordView::Put { key: key@, value: value@ },
            ) + seq!['\n'],
    {
        let key_copy = key.clone();
        let record = Record::Put { key, value };
        let line = encode(&record);
        let len = line.as_str().unicode_len();
        if len > usize::MAX - 1 || self.log_size > usize::MAX - 1 - len {
            return Err(KvError::WriteError);
        }
        proof {
            old(self).lemma_wf_entries();
        }
        let start = self.log_size;
        self.log.append(line.as_str());
        push_char(&mut self.log, '\n');
        self.log_size = start + len + 1;
        let cb = CommandBuffer { start, size: len };
        self.store.insert(key_copy, cb);
        proof {
            let l0 = old(self).log_view();
            let m0 = old(self).index_view();
            let enc = encode_spec(record@);
            assert(self.log@ =~= l0 + enc + seq!['\n']);
            lemma_encode_no_newline(record@);
            lemma_replay_append(l0, enc, 0, Map::empty());
            lemma_round_trip(record@);
            assert(replay_log(self.log@) == Some(
                apply_record(m0, record@, l0.len(), enc.len()),
            ));
            assert(self.store@ == m0.insert(key@, cb@));
            assert(cb@ == EntryView { start: l0.len(), size: enc.len() });
            assert(self.log@.subrange(start as int, (start + len) as int) =~= enc);
            assert(entry_ok(self.log@, key@, cb@));
            assert forall|k2: Seq<char>| #[trigger]
                m0.contains_key(k2) implies entry_ok(self.log@, k2, m0[k2]) && value_of(
                self.log@,
                m0[k2],
            ) == value_of(l0, m0[k2]) by {
                lemma_entry_ok_append(l0, enc + seq!['\n'], k2, m0[k2]);
                assert(l0 + (enc + seq!['\n']) =~= self.log@);
            }
            assert(value_of(self.log@, cb@) == value@);
            assert(self.log@[self.log@.len() - 1] == '\n');
            assert(live_view(self.store@, self.log@) =~= old(self)@.insert(key@, value@));
        }
        self.increment_writes();
        Ok(())
    }

    /// Removes `key`: appends a tombstone record and deletes the key from
    /// the index, then counts the write. Removing a key that holds no live
    /// value fails with `RemoveError`; a tombstone the log text cannot
    /// hold fails with `WriteError`. Either failure changes nothing.
    pub fn remove(&mut self, key: String) -> (res: Result<(), KvError>)
        requires
            old(self).wf(),
        ensures
            final(self).wf(),
            match res {
                Ok(_) => old(self)@.contains_key(key@) && final(self)@ == old(self)@.remove(
                    key@,
                ),
                Err(e) => {
                    &&& *final(self) == *old(self)
                    &&& (if old(self)@.contains_key(key@) {
                        e == KvError::WriteError
                    } else {
                        e == KvError::RemoveError
                    })
                },
            },
            (res is Ok) <==> (old(self)@.contains_key(key@) && old(self).log_view().len()
                + encode_spec(RecordView::Remove { key: key@ }).len() + 1 <= usize::MAX),
            res is Ok ==> final(self).write_count() == (if old(self).write_count() < u64::MAX {
                old(self).write_count() + 1
            } else {
                old(self).write_count() as int
            }),
            (res is Ok && final(self).write_count() % COMPACT_EVERY != 0) ==> final(self).log_view() == old(self).log_view() + encode_spec(RecordView::Remove { key: key@ })
                + seq!['\n'],
    {
        proof {
            old(self).lemma_wf_entries();
        }
        match self.store.get(&key) {
            None => Err(KvError::RemoveError),
            Some(_) => {
                let record = Record::Remove { key: key.clone() };
                let line = encode(&record);
                let len = line.as_str().unicode_len();
                if len > usize::MAX - 1 || self.log_size > usize::MAX - 1 - len {
                    return Err(KvError::WriteError);
                }
                let start = self.log_size;
                self.log.append(line.as_str());
                push_char(&mut self.log, '\n');
                self.log_size = start + len + 1;
                self.store.remove(&key);
                proof {
                    let l0 = old(self).log_view();
                    let m0 = old(self).index_view();
                    let enc = encode_spec(record@);
                    assert(self.log@ =~= l0 + enc + seq!['\n']);
                    lemma_encode_no_newline(record@);
                    lemma_replay_append(l0, enc, 0, Map::empty());
                    lemma_round_trip(record@);
                    assert(replay_log(self.log@) == Some(
                        apply_record(m0, record@, l0.len(), enc.len()),
                    ));
                    assert(self.store@ == m0.remove(key@));
                    assert forall|k2: Seq<char>| #[trigger]
                        m0.contains_key(k2) implies entry_ok(self.log@, k2, m0[k2]) && value_of(
                        self.log@,
                        m0[k2],
                    ) == value_of(l0, m0[k2]) by {
                        lemma_entry_ok_append(l0, enc + seq!['\n'], k2, m0[k2]);
                        assert(l0 + (enc + seq!['\n']) =~= self.log@);
                    }
                    assert(self.log@[self.log@.len() - 1] == '\n');
                    assert(live_view(self.store@, self.log@) =~= old(self)@.remove(key@));
                }
                self.increment_writes();
                Ok(())
            },
        }
    }

    /// Counts one successful write, and runs a compaction pass whenever
    /// the count reaches a multiple of `COMPACT_EVERY`. The count stops at
    /// the machine's ceiling rather than wrap.
    fn increment_writes(&mut self)
        requires
            old(self).wf(),
        ensures
            final(self).wf(),
            final(self)@ == old(self)@,
            final(self).write_count() == (if old(self).write_count() < u64::MAX {
                old(self).write_count() + 1
            } else {
                old(self).write_count() as int
            }),
            final(self).write_count() % COMPACT_EVERY != 0 ==> final(self).log_view()
                == old(self).log_view() && final(self).index_view() == old(self).index_view(),
    {
        if self.number_of_writes < u64::MAX {
            self.number_of_writes = self.number_of_writes + 1;
        }
        if self.number_of_writes % COMPACT_EVERY == 0 {
            self.compact_log();
        }
    }
}

/// The text one compaction pass writes: for each index entry, in index
/// order, the record text the entry points at in the old log, closed by a
/// newline.
pub open spec fn compacted_text(l: Seq<char>, entries: Seq<(String, CommandBuffer)>) -> Seq<char>
    decreases entries.len(),
{
    if entries.len() == 0 {
        Seq::empty()
    } else {
        compacted_text(l, entries.drop_last()) + l.subrange(
            entries.last().1@.start as int,
            (entries.last().1@.start + entries.last().1@.size) as int,
        ) + seq!['\n']
    }
}

/// Law: write-then-read — after `set(k, v)`, a `get(k)` sees exactly `v`:
/// `set` makes the visible mapping `m.insert(k, v)`, and `get` returns the
/// visible mapping's value at `k`.
pub proof fn lemma_write_then_read(m: Map<Seq<char>, Seq<char>>, k: Seq<char>, v: Seq<char>)
    ensures
        m.insert(k, v).contains_key(k),
        m.insert(k, v)[k] == v,
{
}

/// Law: overwrite — two puts to one key leave the second value visible.
pub proof fn lemma_overwrite(
    m: Map<Seq<char>, Seq<char>>,
    k: Seq<char>,
    v1: Seq<char>,
    v2: Seq<char>,
)
    ensures
        m.insert(k, v1).insert(k, v2).contains_key(k),
        m.insert(k, v1).insert(k, v2)[k] == v2,
{
}

/// Law: tombstone — after `set(k, v)` then `remove(k)`, the key holds no
/// live value, so `get` reports "not found" and a further `remove` fails
/// with `RemoveError` by `remove`'s own contract.
pub proof fn lemma_tombstone(m: Map<Seq<char>, Seq<char>>, k: Seq<char>, v: Seq<char>)
    ensures
        !m.insert(k, v).remove(k).contains_key(k),
{
}

/// Law: crash-replay equivalence — replaying a well-formed store's log
/// text into a fresh index presents exactly the store's visible state, so
/// closing the store and reopening it over the same text changes no `get`
/// result.
pub proof fn lemma_crash_replay(s: KvStore)
    requires
        s.wf(),
    ensures
        replay_log(s.log_view()) is Some,
        live_view(replay_log(s.log_view())->0, s.log_view()) == s@,
{
}

} // verus!
