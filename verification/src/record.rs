use vstd::prelude::*;
use vstd::string::*;

use crate::error::KvError;

verus! {

/// One logical operation, exactly as it is written to the log: either a
/// write of a value to a key or the removal of a key (a tombstone).
#[derive(Debug, PartialEq, Eq)]
pub enum Record {
    Put { key: String, value: String },
    Remove { key: String },
}

/// The mathematical form of a record: its strings as character sequences.
pub enum RecordView {
    Put { key: Seq<char>, value: Seq<char> },
    Remove { key: Seq<char> },
}

impl View for Record {
    type V = RecordView;

    open spec fn view(&self) -> RecordView {
        match self {
            Record::Put { key, value } => RecordView::Put { key: key@, value: value@ },
            Record::Remove { key } => RecordView::Remove { key: key@ },
        }
    }
}

/// How one character is written inside a field: backslash, newline and tab
/// are escaped so that a raw tab only ever separates fields and a raw
/// newline only ever terminates a record.
pub open spec fn esc_char(c: char) -> Seq<char> {
    if c == '\\' {
        seq!['\\', '\\']
    } else if c == '\n' {
        seq!['\\', 'n']
    } else if c == '\t' {
        seq!['\\', 't']
    } else {
        seq![c]
    }
}

/// A whole field, escaped character by character.
pub open spec fn esc(s: Seq<char>) -> Seq<char>
    decreases s.len(),
{
    if s.len() == 0 {
        Seq::empty()
    } else {
        esc_char(s[0]) + esc(s.skip(1))
    }
}

/// The text of one encoded record: a tag character, then the tab-separated,
/// escaped fields. The record terminator (a newline) is not part of it.
pub open spec fn encode_spec(r: RecordView) -> Seq<char> {
    match r {
        RecordView::Put { key, value } => seq!['S', '\t'] + (esc(key) + seq!['\t'] + esc(value)),
        RecordView::Remove { key } => seq!['R', '\t'] + esc(key),
    }
}

/// What an escape pair `\x` stands for, if anything.
pub open spec fn unesc_char(c: char) -> Option<char> {
    if c == '\\' {
        Some('\\')
    } else if c == 'n' {
        Some('\n')
    } else if c == 't' {
        Some('\t')
    } else {
        None
    }
}

/// Reads one escaped field up to and including its tab separator; yields
/// the field and what follows the separator. Fails if the input ends before
/// a separator, holds a raw newline, or holds a malformed escape.
pub open spec fn unesc_field(s: Seq<char>) -> Option<(Seq<char>, Seq<char>)>
    decreases s.len(),
{
    if s.len() == 0 {
        None
    } else if s[0] == '\t' {
        Some((Seq::empty(), s.skip(1)))
    } else if s[0] == '\n' {
        None
    } else if s[0] == '\\' {
        if s.len() < 2 {
            None
        } else {
            match unesc_char(s[1]) {
                None => None,
                Some(c) => match unesc_field(s.skip(2)) {
                    None => None,
                    Some(fr) => Some((seq![c] + fr.0, fr.1)),
                },
            }
        }
    } else {
        match unesc_field(s.skip(1)) {
            None => None,
            Some(fr) => Some((seq![s[0]] + fr.0, fr.1)),
        }
    }
}

/// Reads the final escaped field, which must run to the end of the input:
/// a raw tab or newline, or a malformed escape, makes the record invalid.
pub open spec fn unesc_last(s: Seq<char>) -> Option<Seq<char>>
    decreases s.len(),
{
    if s.len() == 0 {
        Some(Seq::empty())
    } else if s[0] == '\t' || s[0] == '\n' {
        None
    } else if s[0] == '\\' {
        if s.len() < 2 {
            None
        } else {
            match unesc_char(s[1]) {
                None => None,
                Some(c) => match unesc_last(s.skip(2)) {
                    None => None,
                    Some(f) => Some(seq![c] + f),
                },
            }
        }
    } else {
        match unesc_last(s.skip(1)) {
            None => None,
            Some(f) => Some(seq![s[0]] + f),
        }
    }
}

/// The record a line of log text stands for, or nothing if the line is not
/// a well-formed record.
pub open spec fn decode_spec(s: Seq<char>) -> Option<RecordView> {
    if s.len() >= 2 && s[0] == 'S' && s[1] == '\t' {
        match unesc_field(s.skip(2)) {
            None => None,
            Some(kr) => match unesc_last(kr.1) {
                None => None,
                Some(value) => Some(RecordView::Put { key: kr.0, value }),
            },
        }
    } else if s.len() >= 2 && s[0] == 'R' && s[1] == '\t' {
        match unesc_last(s.skip(2)) {
            None => None,
            Some(key) => Some(RecordView::Remove { key }),
        }
    } else {
        None
    }
}

/// Holds of text that is free of raw newlines, so that it fits on one log line.
pub open spec fn no_newline(s: Seq<char>) -> bool {
    forall|i: int| 0 <= i < s.len() ==> s[i] != '\n'
}

/// An escaped field never holds a raw newline.
pub proof fn lemma_esc_no_newline(s: Seq<char>)
    ensures
        no_newline(esc(s)),
    decreases s.len(),
{
    if s.len() == 0 {
    } else {
        lemma_esc_no_newline(s.skip(1));
        let head = esc_char(s[0]);
        assert forall|i: int| 0 <= i < esc(s).len() implies esc(s)[i] != '\n' by {
            if i < head.len() {
                assert(esc(s)[i] == head[i]);
            } else {
                assert(esc(s)[i] == esc(s.skip(1))[i - head.len()]);
            }
        }
    }
}

/// An encoded record never holds a raw newline.
pub proof fn lemma_encode_no_newline(r: RecordView)
    ensures
        no_newline(encode_spec(r)),
{
    match r {
        RecordView::Put { key, value } => {
            lemma_esc_no_newline(key);
            lemma_esc_no_newline(value);
            let body = esc(key) + seq!['\t'] + esc(value);
            assert forall|i: int| 0 <= i < encode_spec(r).len() implies encode_spec(r)[i] != '\n'
            by {
                if i >= 2 {
                    let j = i - 2;
                    assert(encode_spec(r)[i] == body[j]);
                    if j < esc(key).len() {
                        assert(body[j] == esc(key)[j]);
                    } else if j == esc(key).len() {
                        assert(body[j] == '\t');
                    } else {
                        assert(body[j] == esc(value)[j - esc(key).len() - 1]);
                    }
                }
            }
        }
        RecordView::Remove { key } => {
            lemma_esc_no_newline(key);
            assert forall|i: int| 0 <= i < encode_spec(r).len() implies encode_spec(r)[i] != '\n'
            by {
                if i >= 2 {
                    assert(encode_spec(r)[i] == esc(key)[i - 2]);
                }
            }
        }
    }
}

proof fn lemma_unesc_field_esc(k: Seq<char>, rest: Seq<char>)
    ensures
        unesc_field(esc(k) + seq!['\t'] + rest) == Some((k, rest)),
    decreases k.len(),
{
    let s = esc(k) + seq!['\t'] + rest;
    if k.len() == 0 {
        assert(s =~= seq!['\t'] + rest);
        assert(s[0] == '\t');
        assert(s.skip(1) =~= rest);
        assert(k =~= Seq::<char>::empty());
    } else {
        lemma_unesc_field_esc(k.skip(1), rest);
        let c = k[0];
        let tail = esc(k.skip(1)) + seq!['\t'] + rest;
        if c == '\\' || c == '\n' || c == '\t' {
            let x: char = if c == '\\' {
                '\\'
            } else if c == '\n' {
                'n'
            } else {
                't'
            };
            assert(esc_char(c) =~= seq!['\\', x]);
            assert(s =~= seq!['\\', x] + tail);
            assert(s[0] == '\\');
            assert(s[1] == x);
            assert(unesc_char(x) == Some(c));
            assert(s.skip(2) =~= tail);
            assert(seq![c] + k.skip(1) =~= k);
        } else {
            assert(esc_char(c) =~= seq![c]);
            assert(s =~= seq![c] + tail);
            assert(s[0] == c);
            assert(s.skip(1) =~= tail);
            assert(seq![c] + k.skip(1) =~= k);
        }
    }
}

proof fn lemma_unesc_last_esc(v: Seq<char>)
    ensures
        unesc_last(esc(v)) == Some(v),
    decreases v.len(),
{
    let s = esc(v);
    if v.len() == 0 {
    } else {
        lemma_unesc_last_esc(v.skip(1));
        let c = v[0];
        let tail = esc(v.skip(1));
        if c == '\\' || c == '\n' || c == '\t' {
            let x: char = if c == '\\' {
                '\\'
            } else if c == '\n' {
                'n'
            } else {
                't'
            };
            assert(esc_char(c) =~= seq!['\\', x]);
            assert(s =~= seq!['\\', x] + tail);
            assert(s[0] == '\\');
            assert(s[1] == x);
            assert(unesc_char(x) == Some(c));
            assert(s.skip(2) =~= tail);
            assert(seq![c] + v.skip(1) =~= v);
        } else {
            assert(esc_char(c) =~= seq![c]);
            assert(s =~= seq![c] + tail);
            assert(s[0] == c);
            assert(s.skip(1) =~= tail);
            assert(seq![c] + v.skip(1) =~= v);
        }
    }
}

/// Law: the codec round-trips — decoding an encoded record yields exactly
/// the record that was encoded, for every record.
pub proof fn lemma_round_trip(r: RecordView)
    ensures
        decode_spec(encode_spec(r)) == Some(r),
{
    let s = encode_spec(r);
    match r {
        RecordView::Put { key, value } => {
            lemma_unesc_field_esc(key, esc(value));
            lemma_unesc_last_esc(value);
            assert(s[0] == 'S');
            assert(s[1] == '\t');
            assert(s.skip(2) =~= esc(key) + seq!['\t'] + esc(value));
        }
        RecordView::Remove { key } => {
            lemma_unesc_last_esc(key);
            assert(s[0] == 'R');
            assert(s[1] == '\t');
            assert(s.skip(2) =~= esc(key));
        }
    }
}

/// Relies on `String::push`: it appends exactly the given character at the
/// end of the string.
#[verifier::external_body]
pub(crate) fn push_char(s: &mut String, c: char)
    ensures
        final(s)@ == old(s)@.push(c),
{
    s.push(c)
}

proof fn lemma_esc_push(s: Seq<char>, c: char)
    ensures
        esc(s.push(c)) == esc(s) + esc_char(c),
    decreases s.len(),
{
    if s.len() == 0 {
        assert(s.push(c)[0] == c);
        assert(s.push(c).skip(1) =~= Seq::<char>::empty());
        assert(esc(Seq::<char>::empty()) == Seq::<char>::empty());
        assert(esc(s.push(c)) == esc_char(c) + esc(Seq::<char>::empty()));
        assert(esc(s.push(c)) =~= esc(s) + esc_char(c));
    } else {
        lemma_esc_push(s.skip(1), c);
        assert(s.push(c).skip(1) =~= s.skip(1).push(c));
        assert(s.push(c)[0] == s[0]);
        assert(esc(s.push(c)) == esc_char(s[0]) + esc(s.skip(1).push(c)));
        assert(esc(s.skip(1).push(c)) == esc(s.skip(1)) + esc_char(c));
        assert(esc_char(s[0]) + (esc(s.skip(1)) + esc_char(c)) =~= (esc_char(s[0]) + esc(
            s.skip(1),
        )) + esc_char(c));
        assert(esc(s) == esc_char(s[0]) + esc(s.skip(1)));
    }
}

/// Appends the escaped form of `s` to `out`.
fn append_escaped(out: &mut String, s: &String)
    ensures
        final(out)@ == old(out)@ + esc(s@),
{
    let ghost out0 = out@;
    let n = s.as_str().unicode_len();
    let mut i: usize = 0;
    while i < n
        invariant
            i <= n,
            n == s@.len(),
            out@ == out0 + esc(s@.take(i as int)),
        decreases n - i,
    {
        let c = s.as_str().get_char(i);
        proof {
            lemma_esc_push(s@.take(i as int), s@[i as int]);
            assert(s@.take(i as int).push(s@[i as int]) =~= s@.take(i + 1 as int));
        }
        if c == '\\' {
            push_char(out, '\\');
            push_char(out, '\\');
        } else if c == '\n' {
            push_char(out, '\\');
            push_char(out, 'n');
        } else if c == '\t' {
            push_char(out, '\\');
            push_char(out, 't');
        } else {
            push_char(out, c);
        }
        i = i + 1;
        proof {
            assert(out@ =~= out0 + esc(s@.take(i as int)));
        }
    }
    proof {
        assert(s@.take(n as int) =~= s@);
    }
}

/// Turns a record into one line of log text, without the terminator.
pub fn encode(r: &Record) -> (out: String)
    ensures
        out@ == encode_spec(r@),
{
    let mut out = String::new();
    match r {
        Record::Put { key, value } => {
            push_char(&mut out, 'S');
            push_char(&mut out, '\t');
            append_escaped(&mut out, key);
            push_char(&mut out, '\t');
            append_escaped(&mut out, value);
            proof {
                assert(out@ =~= encode_spec(r@));
            }
        }
        Record::Remove { key } => {
            push_char(&mut out, 'R');
            push_char(&mut out, '\t');
            append_escaped(&mut out, key);
            proof {
                assert(out@ =~= encode_spec(r@));
            }
        }
    }
    out
}

/// Reads one escaped field starting at `start`, up to and including its tab
/// separator; yields the field and the position just past the separator.
fn parse_field(s: &str, start: usize) -> (res: Option<(String, usize)>)
    requires
        start <= s@.len(),
    ensures
        match res {
            Some(fj) => {
                &&& start <= fj.1 <= s@.len()
                &&& unesc_field(s@.skip(start as int)) == Some((fj.0@, s@.skip(fj.1 as int)))
            },
            None => unesc_field(s@.skip(start as int)) is None,
        },
{
    let n = s.unicode_len();
    let mut acc = String::new();
    let mut i: usize = start;
    loop
        invariant
            start <= i <= n,
            n == s@.len(),
            unesc_field(s@.skip(start as int)) == (match unesc_field(s@.skip(i as int)) {
                None => None::<(Seq<char>, Seq<char>)>,
                Some(fr) => Some((acc@ + fr.0, fr.1)),
            }),
        decreases n - i,
    {
        if i >= n {
            proof {
                assert(s@.skip(i as int) =~= Seq::<char>::empty());
            }
            return None;
        }
        let c = s.get_char(i);
        proof {
            assert(s@.skip(i as int)[0] == s@[i as int]);
            assert(s@.skip(i as int).len() == n - i);
        }
        if c == '\t' {
            proof {
                assert(s@.skip(i as int).skip(1) =~= s@.skip(i + 1 as int));
                assert(acc@ + Seq::<char>::empty() =~= acc@);
            }
            return Some((acc, i + 1));
        } else if c == '\n' {
            return None;
        } else if c == '\\' {
            if i + 1 >= n {
                return None;
            }
            let c2 = s.get_char(i + 1);
            proof {
                assert(s@.skip(i as int)[1] == s@[i + 1 as int]);
                assert(s@.skip(i as int).skip(2) =~= s@.skip(i + 2 as int));
            }
            let ghost accg = acc@;
            let ghost cx: char = if c2 == '\\' {
                '\\'
            } else if c2 == 'n' {
                '\n'
            } else {
                '\t'
            };
            if c2 == '\\' {
                push_char(&mut acc, '\\');
            } else if c2 == 'n' {
                push_char(&mut acc, '\n');
            } else if c2 == 't' {
                push_char(&mut acc, '\t');
            } else {
                return None;
            }
            i = i + 2;
            proof {
                let su = s@.skip((i - 2) as int);
                assert(su[0] == '\\');
                assert(su.len() >= 2);
                assert(unesc_char(su[1]) == Some(cx));
                assert(su.skip(2) =~= s@.skip(i as int));
                assert(acc@ == accg.push(cx));
                assert(unesc_field(su) == (match unesc_field(s@.skip(i as int)) {
                    None => None::<(Seq<char>, Seq<char>)>,
                    Some(fr) => Some((seq![cx] + fr.0, fr.1)),
                }));
                match unesc_field(s@.skip(i as int)) {
                    None => {},
                    Some(fr) => {
                        assert(accg + (seq![cx] + fr.0) =~= acc@ + fr.0);
                    },
                }
                assert(unesc_field(s@.skip(start as int)) == (match unesc_field(
                    s@.skip(i as int),
                ) {
                    None => None::<(Seq<char>, Seq<char>)>,
                    Some(fr) => Some((acc@ + fr.0, fr.1)),
                }));
            }
        } else {
            let ghost accg = acc@;
            push_char(&mut acc, c);
            i = i + 1;
            proof {
                let su = s@.skip((i - 1) as int);
                let c0 = s@[(i - 1) as int];
                assert(su[0] == c0);
                assert(c0 != '\t' && c0 != '\n' && c0 != '\\');
                assert(su.skip(1) =~= s@.skip(i as int));
                assert(acc@ == accg.push(c0));
                assert(unesc_field(su) == (match unesc_field(s@.skip(i as int)) {
                    None => None::<(Seq<char>, Seq<char>)>,
                    Some(fr) => Some((seq![c0] + fr.0, fr.1)),
                }));
                match unesc_field(s@.skip(i as int)) {
                    None => {},
                    Some(fr) => {
                        assert(accg + (seq![c0] + fr.0) =~= acc@ + fr.0);
                    },
                }
                assert(unesc_field(s@.skip(start as int)) == (match unesc_field(
                    s@.skip(i as int),
                ) {
                    None => None::<(Seq<char>, Seq<char>)>,
                    Some(fr) => Some((acc@ + fr.0, fr.1)),
                }));
            }
        }
    }
}

/// Reads the final escaped field, which must run to the end of the text.
fn parse_last(s: &str, start: usize) -> (res: Option<String>)
    requires
        start <= s@.len(),
    ensures
        match res {
            Some(f) => unesc_last(s@.skip(start as int)) == Some(f@),
            None => unesc_last(s@.skip(start as int)) is None,
        },
{
    let n = s.unicode_len();
    let mut acc = String::new();
    let mut i: usize = start;
    loop
        invariant
            start <= i <= n,
            n == s@.len(),
            unesc_last(s@.skip(start as int)) == (match unesc_last(s@.skip(i as int)) {
                None => None::<Seq<char>>,
                Some(f) => Some(acc@ + f),
            }),
        decreases n - i,
    {
        if i >= n {
            proof {
                assert(s@.skip(i as int) =~= Seq::<char>::empty());
                assert(acc@ + Seq::<char>::empty() =~= acc@);
            }
            return Some(acc);
        }
        let c = s.get_char(i);
        proof {
            assert(s@.skip(i as int)[0] == s@[i as int]);
            assert(s@.skip(i as int).len() == n - i);
        }
        if c == '\t' || c == '\n' {
            return None;
        } else if c == '\\' {
            if i + 1 >= n {
                return None;
            }
            let c2 = s.get_char(i + 1);
            proof {
                assert(s@.skip(i as int)[1] == s@[i + 1 as int]);
                assert(s@.skip(i as int).skip(2) =~= s@.skip(i + 2 as int));
            }
            let ghost accg = acc@;
            let ghost cx: char = if c2 == '\\' {
                '\\'
            } else if c2 == 'n' {
                '\n'
            } else {
                '\t'
            };
            if c2 == '\\' {
                push_char(&mut acc, '\\');
            } else if c2 == 'n' {
                push_char(&mut acc, '\n');
            } else if c2 == 't' {
                push_char(&mut acc, '\t');
            } else {
                return None;
            }
            i = i + 2;
            proof {
                let su = s@.skip((i - 2) as int);
                assert(su[0] == '\\');
                assert(su.len() >= 2);
                assert(unesc_char(su[1]) == Some(cx));
                assert(su.skip(2) =~= s@.skip(i as int));
                assert(acc@ == accg.push(cx));
                assert(unesc_last(su) == (match unesc_last(s@.skip(i as int)) {
                    None => None::<Seq<char>>,
                    Some(f) => Some(seq![cx] + f),
                }));
                match unesc_last(s@.skip(i as int)) {
                    None => {},
                    Some(f) => {
                        assert(accg + (seq![cx] + f) =~= acc@ + f);
                    },
                }
                assert(unesc_last(s@.skip(start as int)) == (match unesc_last(s@.skip(i as int)) {
                    None => None::<Seq<char>>,
                    Some(f) => Some(acc@ + f),
                }));
            }
        } else {
            let ghost accg = acc@;
            push_char(&mut acc, c);
            i = i + 1;
            proof {
                let su = s@.skip((i - 1) as int);
                let c0 = s@[(i - 1) as int];
                assert(su[0] == c0);
                assert(c0 != '\t' && c0 != '\n' && c0 != '\\');
                assert(su.skip(1) =~= s@.skip(i as int));
                assert(acc@ == accg.push(c0));
                assert(unesc_last(su) == (match unesc_last(s@.skip(i as int)) {
                    None => None::<Seq<char>>,
                    Some(f) => Some(seq![c0] + f),
                }));
                match unesc_last(s@.skip(i as int)) {
                    None => {},
                    Some(f) => {
                        assert(accg + (seq![c0] + f) =~= acc@ + f);
                    },
                }
                assert(unesc_last(s@.skip(start as int)) == (match unesc_last(s@.skip(i as int)) {
                    None => None::<Seq<char>>,
                    Some(f) => Some(acc@ + f),
                }));
            }
        }
    }
}

/// Parses one line of log text back into a record; a line that is not a
/// well-formed record is reported as `InvalidLogCommand`.
pub fn decode(s: &str) -> (res: Result<Record, KvError>)
    ensures
        match res {
            Ok(r) => decode_spec(s@) == Some(r@),
            Err(e) => decode_spec(s@) is None && e == KvError::InvalidLogCommand,
        },
{
    let n = s.unicode_len();
    if n < 2 {
        return Err(KvError::InvalidLogCommand);
    }
    let c0 = s.get_char(0);
    let c1 = s.get_char(1);
    if c0 == 'S' && c1 == '\t' {
        match parse_field(s, 2) {
            None => Err(KvError::InvalidLogCommand),
            Some(kj) => {
                let (key, j) = kj;
                match parse_last(s, j) {
                    None => Err(KvError::InvalidLogCommand),
                    Some(value) => Ok(Record::Put { key, value }),
                }
            },
        }
    } else if c0 == 'R' && c1 == '\t' {
        match parse_last(s, 2) {
            None => Err(KvError::InvalidLogCommand),
            Some(key) => Ok(Record::Remove { key }),
        }
    } else {
        Err(KvError::InvalidLogCommand)
    }
}

} // verus!
