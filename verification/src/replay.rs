use vstd::prelude::*;

use crate::index::EntryView;
use crate::record::decode_spec;
use crate::record::no_newline;
use crate::record::RecordView;

verus! {

/// Position of the first newline in `s`, or `s.len()` if there is none.
pub open spec fn first_nl(s: Seq<char>) -> nat
    decreases s.len(),
{
    if s.len() == 0 {
        0
    } else if s[0] == '\n' {
        0
    } else {
        1 + first_nl(s.skip(1))
    }
}

/// `first_nl` points at a newline and nothing before it is one.
pub proof fn lemma_first_nl(s: Seq<char>)
    ensures
        first_nl(s) <= s.len(),
        first_nl(s) < s.len() ==> s[first_nl(s) as int] == '\n',
        forall|i: int| 0 <= i < first_nl(s) ==> s[i] != '\n',
    decreases s.len(),
{
    if s.len() == 0 {
    } else if s[0] == '\n' {
    } else {
        lemma_first_nl(s.skip(1));
        if first_nl(s) < s.len() {
            assert(s[first_nl(s) as int] == s.skip(1)[first_nl(s) - 1]);
        }
        assert forall|i: int| 0 <= i < first_nl(s) implies s[i] != '\n' by {
            if i > 0 {
                assert(s[i] == s.skip(1)[i - 1]);
            }
        }
    }
}

/// Any position with those two properties is `first_nl`.
pub proof fn lemma_first_nl_is(s: Seq<char>, j: int)
    requires
        0 <= j <= s.len(),
        j < s.len() ==> s[j] == '\n',
        forall|i: int| 0 <= i < j ==> s[i] != '\n',
    ensures
        first_nl(s) == j,
{
    lemma_first_nl(s);
    if first_nl(s) < j {
        assert(s[first_nl(s) as int] != '\n');
        assert(false);
    } else if j < first_nl(s) {
        assert(s[j] != '\n');
        assert(false);
    }
}

/// Log text is terminated when every record on it is closed by a newline;
/// appends keep it so, and only such text can be extended line by line.
pub open spec fn terminated(s: Seq<char>) -> bool {
    s.len() == 0 || s[s.len() - 1] == '\n'
}

/// The effect of one decoded record on the mapping: a put binds its key to
/// the record's position, a remove deletes the key.
pub open spec fn apply_record(
    m: Map<Seq<char>, EntryView>,
    r: RecordView,
    start: nat,
    size: nat,
) -> Map<Seq<char>, EntryView> {
    match r {
        RecordView::Put { key, value } => m.insert(key, EntryView { start, size }),
        RecordView::Remove { key } => m.remove(key),
    }
}

/// Replays log text line by line into a mapping, tracking the absolute
/// position `base` of the text's first character. A line that does not
/// decode to a record stops the whole replay with nothing.
pub open spec fn replay_from(
    s: Seq<char>,
    base: nat,
    m: Map<Seq<char>, EntryView>,
) -> Option<Map<Seq<char>, EntryView>>
    decreases s.len(),
{
    if s.len() == 0 {
        Some(m)
    } else {
        let j = first_nl(s);
        if j >= s.len() {
            match decode_spec(s) {
                None => None,
                Some(rv) => Some(apply_record(m, rv, base, s.len())),
            }
        } else {
            match decode_spec(s.take(j as int)) {
                None => None,
                Some(rv) => replay_from(s.skip(j + 1 as int), base + j + 1, apply_record(m, rv, base, j)),
            }
        }
    }
}

/// Replaying a whole log into a fresh mapping.
pub open spec fn replay_log(s: Seq<char>) -> Option<Map<Seq<char>, EntryView>> {
    replay_from(s, 0, Map::empty())
}

/// The entry points into `l` at one whole line that is a put record for
/// exactly the key `k`.
pub open spec fn entry_ok(l: Seq<char>, k: Seq<char>, e: EntryView) -> bool {
    &&& e.start + e.size <= l.len()
    &&& no_newline(l.subrange(e.start as int, (e.start + e.size) as int))
    &&& match decode_spec(l.subrange(e.start as int, (e.start + e.size) as int)) {
        Some(RecordView::Put { key, value }) => key == k,
        _ => false,
    }
}

/// The value of the put record an entry points at.
pub open spec fn value_of(l: Seq<char>, e: EntryView) -> Seq<char> {
    match decode_spec(l.subrange(e.start as int, (e.start + e.size) as int)) {
        Some(RecordView::Put { key, value }) => value,
        _ => Seq::empty(),
    }
}

/// The key-to-value mapping that an index and a log together present.
pub open spec fn live_view(m: Map<Seq<char>, EntryView>, l: Seq<char>) -> Map<
    Seq<char>,
    Seq<char>,
> {
    Map::new(|k: Seq<char>| m.contains_key(k), |k: Seq<char>| value_of(l, m[k]))
}

/// All entries of a mapping point at put records for their own keys.
pub open spec fn entries_ok(m: Map<Seq<char>, EntryView>, l: Seq<char>) -> bool {
    forall|k: Seq<char>| #[trigger] m.contains_key(k) ==> entry_ok(l, k, m[k])
}

/// Extending the log touches no existing record: an entry that was valid
/// stays valid and keeps its value.
pub proof fn lemma_entry_ok_append(l: Seq<char>, suffix: Seq<char>, k: Seq<char>, e: EntryView)
    requires
        entry_ok(l, k, e),
    ensures
        entry_ok(l + suffix, k, e),
        value_of(l + suffix, e) == value_of(l, e),
{
    assert((l + suffix).subrange(e.start as int, (e.start + e.size) as int) =~= l.subrange(
        e.start as int,
        (e.start + e.size) as int,
    ));
}

/// Replay only ever installs valid entries: if every starting entry points
/// at a put record for its key, so does every entry it ends with.
pub proof fn lemma_replay_entries_ok(
    l: Seq<char>,
    s: Seq<char>,
    base: nat,
    m: Map<Seq<char>, EntryView>,
    r: Map<Seq<char>, EntryView>,
)
    requires
        replay_from(s, base, m) == Some(r),
        base <= l.len(),
        s == l.skip(base as int),
        entries_ok(m, l),
    ensures
        entries_ok(r, l),
    decreases s.len(),
{
    if s.len() == 0 {
    } else {
        let j = first_nl(s);
        lemma_first_nl(s);
        if j >= s.len() {
            let rv = decode_spec(s)->0;
            assert(l.subrange(base as int, (base + s.len()) as int) =~= s);
            assert(no_newline(s));
            match rv {
                RecordView::Put { key, value } => {
                    assert(entry_ok(l, key, EntryView { start: base, size: s.len() }));
                }
                RecordView::Remove { key } => {}
            }
        } else {
            let line = s.take(j as int);
            let rv = decode_spec(line)->0;
            let m2 = apply_record(m, rv, base, j);
            assert(l.subrange(base as int, (base + j) as int) =~= line);
            assert(no_newline(line));
            match rv {
                RecordView::Put { key, value } => {
                    assert(entry_ok(l, key, EntryView { start: base, size: j }));
                }
                RecordView::Remove { key } => {}
            }
            assert(entries_ok(m2, l));
            assert(s.skip(j + 1 as int) =~= l.skip((base + j + 1) as int));
            lemma_replay_entries_ok(l, s.skip(j + 1 as int), base + j + 1, m2, r);
        }
    }
}

/// The last word one record has on one key: a fresh binding, a removal,
/// or nothing when the record is about another key.
pub open spec fn record_effect(r: RecordView, k: Seq<char>, start: nat, size: nat) -> Option<
    Option<EntryView>,
> {
    match r {
        RecordView::Put { key, value } => if key == k {
            Some(Some(EntryView { start, size }))
        } else {
            None
        },
        RecordView::Remove { key } => if key == k {
            Some(None)
        } else {
            None
        },
    }
}

/// The last word a stretch of log text has on one key, mirroring the line
/// structure of `replay_from`.
pub open spec fn key_effect(s: Seq<char>, base: nat, k: Seq<char>) -> Option<Option<EntryView>>
    decreases s.len(),
{
    if s.len() == 0 {
        None
    } else {
        let j = first_nl(s);
        if j >= s.len() {
            match decode_spec(s) {
                None => None,
                Some(rv) => record_effect(rv, k, base, s.len()),
            }
        } else {
            match decode_spec(s.take(j as int)) {
                None => None,
                Some(rv) => match key_effect(s.skip(j + 1 as int), base + j + 1, k) {
                    None => record_effect(rv, k, base, j),
                    Some(x) => Some(x),
                },
            }
        }
    }
}

/// Whether replay succeeds depends on the text alone, never on the
/// mapping it starts from.
pub proof fn lemma_replay_some(
    s: Seq<char>,
    base: nat,
    m1: Map<Seq<char>, EntryView>,
    m2: Map<Seq<char>, EntryView>,
)
    requires
        replay_from(s, base, m1) is Some,
    ensures
        replay_from(s, base, m2) is Some,
    decreases s.len(),
{
    if s.len() == 0 {
    } else {
        let j = first_nl(s);
        if j >= s.len() {
        } else {
            match decode_spec(s.take(j as int)) {
                None => {
                    assert(false);
                },
                Some(rv) => {
                    lemma_replay_some(
                        s.skip(j + 1 as int),
                        base + j + 1,
                        apply_record(m1, rv, base, j),
                        apply_record(m2, rv, base, j),
                    );
                },
            }
        }
    }
}

/// Replay acts on each key independently: a key the text never mentions
/// keeps whatever binding it started with, and one the text mentions ends
/// at the text's last word on it, whatever was bound before.
pub proof fn lemma_replay_key(
    s: Seq<char>,
    base: nat,
    m: Map<Seq<char>, EntryView>,
    r: Map<Seq<char>, EntryView>,
    k: Seq<char>,
)
    requires
        replay_from(s, base, m) == Some(r),
    ensures
        match key_effect(s, base, k) {
            None => r.contains_key(k) == m.contains_key(k) && (m.contains_key(k) ==> r[k]
                == m[k]),
            Some(None) => !r.contains_key(k),
            Some(Some(e)) => r.contains_key(k) && r[k] == e,
        },
    decreases s.len(),
{
    if s.len() == 0 {
    } else {
        let j = first_nl(s);
        if j >= s.len() {
        } else {
            match decode_spec(s.take(j as int)) {
                None => {
                    assert(false);
                },
                Some(rv) => {
                    let m2 = apply_record(m, rv, base, j);
                    lemma_replay_key(s.skip(j + 1 as int), base + j + 1, m2, r, k);
                },
            }
        }
    }
}

/// Law: replay idempotence — replaying text that a mapping already
/// reflects leaves the mapping exactly as it is; in particular, replaying
/// one log into a fresh index twice yields the index one replay yields.
pub proof fn lemma_replay_idempotent(
    s: Seq<char>,
    base: nat,
    m: Map<Seq<char>, EntryView>,
    r: Map<Seq<char>, EntryView>,
)
    requires
        replay_from(s, base, m) == Some(r),
    ensures
        replay_from(s, base, r) == Some(r),
{
    lemma_replay_some(s, base, m, r);
    let r2 = replay_from(s, base, r)->0;
    assert forall|k: Seq<char>|
        #![all_triggers]
        (r2.contains_key(k) == r.contains_key(k)) && (r.contains_key(k) ==> r2[k] == r[k]) by {
        lemma_replay_key(s, base, m, r, k);
        lemma_replay_key(s, base, r, r2, k);
    }
    assert(r2 =~= r);
}

/// How replay treats an appended, newline-closed line: the line's record
/// is applied, at the position just past the old text, after everything
/// the old text did.
pub proof fn lemma_replay_append(
    s1: Seq<char>,
    line: Seq<char>,
    base: nat,
    m: Map<Seq<char>, EntryView>,
)
    requires
        terminated(s1),
        no_newline(line),
    ensures
        replay_from(s1 + line + seq!['\n'], base, m) == (match replay_from(s1, base, m) {
            None => None::<Map<Seq<char>, EntryView>>,
            Some(m1) => match decode_spec(line) {
                None => None,
                Some(rv) => Some(apply_record(m1, rv, base + s1.len(), line.len())),
            },
        }),
    decreases s1.len(),
{
    let s = s1 + line + seq!['\n'];
    if s1.len() == 0 {
        assert(s =~= line + seq!['\n']);
        assert(s[line.len() as int] == '\n');
        assert forall|i: int| 0 <= i < line.len() implies s[i] != '\n' by {
            assert(s[i] == line[i]);
        }
        lemma_first_nl_is(s, line.len() as int);
        let j = first_nl(s);
        assert(j < s.len());
        assert(s.take(j as int) =~= line);
        assert(s.skip(j + 1 as int) =~= Seq::<char>::empty());
        match decode_spec(line) {
            None => {
                assert(replay_from(s, base, m) is None);
            },
            Some(rv) => {
                let m2 = apply_record(m, rv, base, j);
                assert(replay_from(s.skip(j + 1 as int), (base + j + 1) as nat, m2) == Some(m2));
                assert(replay_from(s, base, m) == Some(m2));
                assert(replay_from(s1, base, m) == Some(m));
            },
        }
    } else {
        lemma_first_nl(s1);
        let j = first_nl(s1);
        if j == s1.len() {
            assert(s1[s1.len() - 1] != '\n');
            assert(false);
        }
        assert(s[j as int] == s1[j as int]);
        assert forall|i: int| 0 <= i < j implies s[i] != '\n' by {
            assert(s[i] == s1[i]);
        }
        lemma_first_nl_is(s, j as int);
        assert(s.take(j as int) =~= s1.take(j as int));
        assert(s.skip(j + 1 as int) =~= s1.skip(j + 1 as int) + line + seq!['\n']);
        assert(terminated(s1.skip(j + 1 as int))) by {
            if s1.skip(j + 1 as int).len() > 0 {
                assert(s1.skip(j + 1 as int)[s1.skip(j + 1 as int).len() - 1] == s1[s1.len() - 1]);
            }
        }
        match decode_spec(s1.take(j as int)) {
            None => {
                assert(replay_from(s1, base, m) is None);
                assert(replay_from(s, base, m) is None);
            },
            Some(rv) => {
                let m2 = apply_record(m, rv, base, j);
                lemma_replay_append(s1.skip(j + 1 as int), line, (base + j + 1) as nat, m2);
                assert(replay_from(s1, base, m) == replay_from(
                    s1.skip(j + 1 as int),
                    (base + j + 1) as nat,
                    m2,
                ));
                assert(replay_from(s, base, m) == replay_from(
                    s.skip(j + 1 as int),
                    (base + j + 1) as nat,
                    m2,
                ));
                assert(replay_from(s.skip(j + 1 as int), (base + j + 1) as nat, m2)
                    == replay_from(
                    s1.skip(j + 1 as int) + line + seq!['\n'],
                    (base + j + 1) as nat,
                    m2,
                ));
                assert(base + j + 1 + s1.skip(j + 1 as int).len() == base + s1.len());
            },
        }
    }
}

} // verus!
