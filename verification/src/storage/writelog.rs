//! The write-ahead journal: one line of text for each write, so that writes
//! that have not reached a sorted table can be replayed after a restart.
//!
//! A line is `INSERT,<id>,<payload>`, `UPDATE,<id>,<payload>` or
//! `DELETE,<id>`, the payload in base64.

use base64::Engine;
use vstd::prelude::*;
use vstd::slice::slice_subrange;
use vstd::string::StringSliceAdditionalSpecFns;
use super::record::{Record, RecordView};
use crate::text::{decimal, lemma_decimal, parse_decimal, parse_u64, push_decimal, is_digit};

verus! {

/// The failure that `base64` reports; nothing is read from it.
#[verifier::external_type_specification]
#[verifier::external_body]
pub struct ExBase64DecodeError(base64::DecodeError);

/// The text that the standard base64 engine gives for `data`.
pub uninterp spec fn base64_text(data: Seq<u8>) -> Seq<u8>;

/// The bytes that the standard base64 engine reads from `text`, where it
/// accepts it.
pub uninterp spec fn base64_data(text: Seq<u8>) -> Option<Seq<u8>>;

/// Whether `b` is a letter, a digit, `+`, `/` or `=`: what base64 text is
/// made of.
pub open spec fn is_base64_byte(b: u8) -> bool {
    ||| 65 <= b <= 90
    ||| 97 <= b <= 122
    ||| 48 <= b <= 57
    ||| b == 43
    ||| b == 47
    ||| b == 61
}

/// Whether the base64 text of a payload of `len` bytes has a length that the
/// machine can hold.
pub open spec fn base64_fits(len: nat) -> bool {
    len / 3 * 4 + 4 <= usize::MAX
}

/// Calls `encode` of `base64::engine::general_purpose::STANDARD`, which
/// stops the program where the length of the text overflows. The contract
/// names the text, and claims that it is made of the base64 alphabet and the
/// padding sign alone, and that the same engine reads `data` back from it.
#[verifier::external_body]
fn base64_encode(data: &[u8]) -> (r: Vec<u8>)
    requires
        base64_fits(data@.len()),
    ensures
        r@ == base64_text(data@),
        base64_data(r@) == Some(data@),
        forall|i: int| 0 <= i < r@.len() ==> is_base64_byte(#[trigger] r@[i]),
{
    base64::engine::general_purpose::STANDARD.encode(data).into_bytes()
}

/// Calls `decode` of `base64::engine::general_purpose::STANDARD`. The
/// contract names what comes back.
#[verifier::external_body]
fn base64_decode(text: &[u8]) -> (r: Result<Vec<u8>, base64::DecodeError>)
    ensures
        match r {
            Ok(data) => base64_data(text@) == Some(data@),
            Err(_) => base64_data(text@) is None,
        },
{
    base64::engine::general_purpose::STANDARD.decode(text)
}

/// One journalled write.
#[derive(Debug)]
pub enum LogEntry {
    Insert(Record),
    Update { id: u64, data: Vec<u8> },
    Delete { id: u64 },
}

/// What a journal entry says.
pub enum LogEntryView {
    Insert(RecordView),
    Update { id: u64, data: Seq<u8> },
    Delete { id: u64 },
}

impl View for LogEntry {
    type V = LogEntryView;

    open spec fn view(&self) -> LogEntryView {
        match self {
            LogEntry::Insert(record) => LogEntryView::Insert(record@),
            LogEntry::Update { id, data } => LogEntryView::Update { id: *id, data: data@ },
            LogEntry::Delete { id } => LogEntryView::Delete { id: *id },
        }
    }
}

impl Clone for LogEntry {
    fn clone(&self) -> (r: Self)
        ensures
            r@ == self@,
    {
        match self {
            LogEntry::Insert(record) => LogEntry::Insert(record.clone()),
            LogEntry::Update { id, data } => LogEntry::Update { id: *id, data: data.clone() },
            LogEntry::Delete { id } => LogEntry::Delete { id: *id },
        }
    }
}

/// The bytes of `INSERT`.
pub open spec fn insert_word() -> Seq<u8> {
    seq![73u8, 78u8, 83u8, 69u8, 82u8, 84u8]
}

/// The bytes of `UPDATE`.
pub open spec fn update_word() -> Seq<u8> {
    seq![85u8, 80u8, 68u8, 65u8, 84u8, 69u8]
}

/// The bytes of `DELETE`.
pub open spec fn delete_word() -> Seq<u8> {
    seq![68u8, 69u8, 76u8, 69u8, 84u8, 69u8]
}

/// The number of payload bytes that an entry carries.
pub open spec fn entry_payload_len(e: LogEntryView) -> nat {
    match e {
        LogEntryView::Insert(r) => r.data.len(),
        LogEntryView::Update { data, .. } => data.len(),
        LogEntryView::Delete { .. } => 0,
    }
}

/// The line of an entry, without the line feed.
pub open spec fn entry_line(e: LogEntryView) -> Seq<u8> {
    match e {
        LogEntryView::Insert(r) => insert_word() + seq![44u8] + decimal(r.id as nat) + seq![44u8]
            + base64_text(r.data),
        LogEntryView::Update { id, data } => update_word() + seq![44u8] + decimal(id as nat) + seq![
            44u8,
        ] + base64_text(data),
        LogEntryView::Delete { id } => delete_word() + seq![44u8] + decimal(id as nat),
    }
}

/// How many bytes lie from `from` on before the first `b`, or the end.
pub open spec fn run_length(s: Seq<u8>, b: u8, from: int) -> nat
    decreases s.len() - from,
{
    if from < 0 || from >= s.len() || s[from] == b {
        0
    } else {
        1 + run_length(s, b, from + 1)
    }
}

/// The place of the first `b` at or after `from`, or the length of `s`.
pub open spec fn find_byte(s: Seq<u8>, b: u8, from: int) -> int {
    from + run_length(s, b, from)
}

/// The entry that a line stands for, where it is well formed: the word, the
/// key in decimal and, but for a deletion, the payload in base64, with commas
/// between them and nothing else.
#[verifier::opaque]
pub open spec fn parse_line(s: Seq<u8>) -> Option<LogEntryView> {
    let n = s.len() as int;
    let c1 = find_byte(s, 44, 0);
    let c2 = find_byte(s, 44, c1 + 1);
    let word = s.subrange(0, c1);
    if c1 >= n {
        None
    } else if word == insert_word() || word == update_word() {
        if c2 < n && find_byte(s, 44, c2 + 1) >= n {
            match (parse_decimal(s.subrange(c1 + 1, c2)), base64_data(s.subrange(c2 + 1, n))) {
                (Some(id), Some(data)) => if word == insert_word() {
                    Some(LogEntryView::Insert(RecordView { id, data }))
                } else {
                    Some(LogEntryView::Update { id, data })
                },
                _ => None,
            }
        } else {
            None
        }
    } else if word == delete_word() {
        if c2 >= n {
            match parse_decimal(s.subrange(c1 + 1, n)) {
                Some(id) => Some(LogEntryView::Delete { id }),
                None => None,
            }
        } else {
            None
        }
    } else {
        None
    }
}

/// A line as the journal reader hands it on: without the carriage return
/// that stood before the line feed, if one did.
pub open spec fn without_return(s: Seq<u8>) -> Seq<u8> {
    if s.len() > 0 && s.last() == 13 {
        s.drop_last()
    } else {
        s
    }
}

/// The entries that the journal bytes from `from` on hold, in their order.
/// Lines end at a line feed; a line that is not well formed is passed over.
pub open spec fn replay_from(s: Seq<u8>, from: int) -> Seq<LogEntryView>
    decreases s.len() - from,
{
    if from < 0 || from >= s.len() {
        Seq::empty()
    } else {
        let end = from + run_length(s, 10, from);
        let line = if end < s.len() {
            without_return(s.subrange(from, end))
        } else {
            s.subrange(from, s.len() as int)
        };
        let rest = if end < s.len() {
            replay_from(s, end + 1)
        } else {
            Seq::empty()
        };
        match parse_line(line) {
            Some(e) => seq![e] + rest,
            None => rest,
        }
    }
}

/// Whether the line of `e` is read back as `e`, and can stand in a journal:
/// it holds no line feed and does not end in a carriage return.
pub open spec fn reads_back(e: LogEntryView) -> bool {
    &&& parse_line(entry_line(e)) == Some(e)
    &&& entry_line(e).len() > 0
    &&& entry_line(e).last() != 13
    &&& forall|i: int| 0 <= i < entry_line(e).len() ==> #[trigger] entry_line(e)[i] != 10
}

/// The text of a journal that holds the lines of `entries`, one after another.
pub open spec fn journal_text(entries: Seq<LogEntryView>) -> Seq<u8>
    decreases entries.len(),
{
    if entries.len() == 0 {
        Seq::empty()
    } else {
        entry_line(entries[0]) + seq![10u8] + journal_text(entries.drop_first())
    }
}

/// A journal of lines that read back holds the entries that were written.
pub proof fn lemma_replay_journal(entries: Seq<LogEntryView>)
    requires
        forall|i: int| 0 <= i < entries.len() ==> reads_back(#[trigger] entries[i]),
    ensures
        replay_from(journal_text(entries), 0) == entries,
    decreases entries.len(),
{
    let text = journal_text(entries);
    if entries.len() == 0 {
        assert(replay_from(text, 0) =~= entries);
    } else {
        let line = entry_line(entries[0]);
        let n = line.len() as int;
        let rest = entries.drop_first();
        let tail = journal_text(rest);
        assert(reads_back(entries[0]));
        assert forall|i: int| 0 <= i < rest.len() implies reads_back(#[trigger] rest[i]) by {
            assert(rest[i] == entries[i + 1]);
        }
        lemma_replay_journal(rest);
        assert forall|k: int| 0 <= k < line.len() implies #[trigger] text[k] != 10 by {
            assert(text[k] == line[k]);
        }
        assert(text[n] == 10);
        lemma_find_byte(text, 10, 0, n);
        assert(text.subrange(0, n) =~= line);
        assert(without_return(line) == line);
        lemma_replay_shift(text, tail, n + 1, 0);
        assert(text.subrange(n + 1, text.len() as int) =~= tail);
        if tail.len() == 0 {
            assert(replay_from(text, n + 1) =~= Seq::<LogEntryView>::empty());
            assert(rest =~= Seq::<LogEntryView>::empty()) by {
                if rest.len() > 0 {
                    assert(journal_text(rest).len() > 0);
                }
            }
        }
        assert(replay_from(text, 0) =~= seq![entries[0]] + replay_from(text, n + 1));
        assert(seq![entries[0]] + rest =~= entries);
    }
}

/// Replay looks at nothing before the place where it starts.
proof fn lemma_replay_shift(s: Seq<u8>, t: Seq<u8>, gap: int, from: int)
    requires
        0 <= gap,
        0 <= from <= t.len(),
        s.len() == gap + t.len(),
        forall|k: int| 0 <= k < t.len() ==> #[trigger] s[gap + k] == t[k],
    ensures
        replay_from(s, gap + from) == replay_from(t, from),
    decreases t.len() - from,
{
    if from < t.len() {
        lemma_find_byte_is_first(t, 10, from);
        let end = find_byte(t, 10, from);
        assert forall|k: int| gap + from <= k < gap + end implies #[trigger] s[k] != 10 by {
            assert(s[gap + (k - gap)] == t[k - gap]);
        }
        if end < t.len() {
            assert(s[gap + end] == t[end]);
        }
        lemma_find_byte(s, 10, gap + from, gap + end);
        assert(s.subrange(gap + from, gap + end) =~= t.subrange(from, end)) by {
            assert forall|k: int| 0 <= k < end - from implies s.subrange(gap + from, gap + end)[k]
                == t.subrange(from, end)[k] by {
                assert(s[gap + (from + k)] == t[from + k]);
            }
        }
        if end < t.len() {
            lemma_replay_shift(s, t, gap, end + 1);
        } else {
            assert(s.subrange(gap + from, s.len() as int) =~= t.subrange(from, t.len() as int));
        }
    }
}

/// Where three fields hold no comma, the commas between them are found.
proof fn lemma_three_fields(w: Seq<u8>, d: Seq<u8>, b: Seq<u8>)
    requires
        forall|i: int| 0 <= i < w.len() ==> #[trigger] w[i] != 44,
        forall|i: int| 0 <= i < d.len() ==> #[trigger] d[i] != 44,
        forall|i: int| 0 <= i < b.len() ==> #[trigger] b[i] != 44,
    ensures
        ({
            let s = w + seq![44u8] + d + seq![44u8] + b;
            let c1 = w.len() as int;
            let c2 = c1 + 1 + d.len();
            &&& find_byte(s, 44, 0) == c1
            &&& find_byte(s, 44, c1 + 1) == c2
            &&& find_byte(s, 44, c2 + 1) == s.len()
            &&& s.subrange(0, c1) == w
            &&& s.subrange(c1 + 1, c2) == d
            &&& s.subrange(c2 + 1, s.len() as int) == b
        }),
{
    let s = w + seq![44u8] + d + seq![44u8] + b;
    let c1 = w.len() as int;
    let c2 = c1 + 1 + d.len();
    assert forall|k: int| 0 <= k < c1 implies #[trigger] s[k] != 44 by {
        assert(s[k] == w[k]);
    }
    assert forall|k: int| c1 + 1 <= k < c2 implies #[trigger] s[k] != 44 by {
        assert(s[k] == d[k - c1 - 1]);
    }
    assert forall|k: int| c2 + 1 <= k < s.len() implies #[trigger] s[k] != 44 by {
        assert(s[k] == b[k - c2 - 1]);
    }
    lemma_find_byte(s, 44, 0, c1);
    lemma_find_byte(s, 44, c1 + 1, c2);
    lemma_find_byte(s, 44, c2 + 1, s.len() as int);
    assert(s.subrange(0, c1) =~= w);
    assert(s.subrange(c1 + 1, c2) =~= d);
    assert(s.subrange(c2 + 1, s.len() as int) =~= b);
}

/// Where two fields hold no comma, the comma between them is found.
proof fn lemma_two_fields(w: Seq<u8>, d: Seq<u8>)
    requires
        forall|i: int| 0 <= i < w.len() ==> #[trigger] w[i] != 44,
        forall|i: int| 0 <= i < d.len() ==> #[trigger] d[i] != 44,
    ensures
        ({
            let s = w + seq![44u8] + d;
            let c1 = w.len() as int;
            &&& find_byte(s, 44, 0) == c1
            &&& find_byte(s, 44, c1 + 1) == s.len()
            &&& s.subrange(0, c1) == w
            &&& s.subrange(c1 + 1, s.len() as int) == d
        }),
{
    let s = w + seq![44u8] + d;
    let c1 = w.len() as int;
    assert forall|k: int| 0 <= k < c1 implies #[trigger] s[k] != 44 by {
        assert(s[k] == w[k]);
    }
    assert forall|k: int| c1 + 1 <= k < s.len() implies #[trigger] s[k] != 44 by {
        assert(s[k] == d[k - c1 - 1]);
    }
    lemma_find_byte(s, 44, 0, c1);
    lemma_find_byte(s, 44, c1 + 1, s.len() as int);
    assert(s.subrange(0, c1) =~= w);
    assert(s.subrange(c1 + 1, s.len() as int) =~= d);
}

/// A line with a payload reads back, given that its base64 text does.
proof fn lemma_payload_line(e: LogEntryView, word: Seq<u8>, id: u64, data: Seq<u8>)
    requires
        word == insert_word() && e == LogEntryView::Insert(RecordView { id, data }) || word
            == update_word() && e == (LogEntryView::Update { id, data }),
        base64_data(base64_text(data)) == Some(data),
        forall|i: int|
            0 <= i < base64_text(data).len() ==> is_base64_byte(#[trigger] base64_text(data)[i]),
    ensures
        reads_back(e),
{
    reveal(parse_line);
    let d = decimal(id as nat);
    let b = base64_text(data);
    lemma_decimal(id as nat);
    assert forall|i: int| 0 <= i < d.len() implies #[trigger] d[i] != 44 by {
        assert(is_digit(d[i]));
    }
    assert forall|i: int| 0 <= i < b.len() implies #[trigger] b[i] != 44 by {
        assert(is_base64_byte(b[i]));
    }
    lemma_three_fields(word, d, b);
    let s = entry_line(e);
    assert(s == word + seq![44u8] + d + seq![44u8] + b);
    assert(insert_word() != update_word()) by {
        assert(insert_word()[0] != update_word()[0]);
    }
    assert forall|i: int| 0 <= i < s.len() implies #[trigger] s[i] != 10 by {
        let c1 = word.len() as int;
        let c2 = c1 + 1 + d.len();
        if i < c1 {
            assert(s[i] == word[i]);
        } else if i == c1 {
        } else if i < c2 {
            assert(s[i] == d[i - c1 - 1]);
            assert(is_digit(d[i - c1 - 1]));
        } else if i == c2 {
        } else {
            assert(s[i] == b[i - c2 - 1]);
            assert(is_base64_byte(b[i - c2 - 1]));
        }
    }
    if b.len() > 0 {
        assert(s.last() == b.last());
        assert(is_base64_byte(b[b.len() - 1]));
    }
}

/// The line of a deletion reads back.
proof fn lemma_delete_line(id: u64)
    ensures
        reads_back(LogEntryView::Delete { id }),
{
    reveal(parse_line);
    let e = LogEntryView::Delete { id };
    let d = decimal(id as nat);
    let word = delete_word();
    lemma_decimal(id as nat);
    assert forall|i: int| 0 <= i < d.len() implies #[trigger] d[i] != 44 by {
        assert(is_digit(d[i]));
    }
    lemma_two_fields(word, d);
    let s = entry_line(e);
    assert(s == word + seq![44u8] + d);
    assert(delete_word() != insert_word()) by {
        assert(delete_word()[0] != insert_word()[0]);
    }
    assert(delete_word() != update_word()) by {
        assert(delete_word()[0] != update_word()[0]);
    }
    assert forall|i: int| 0 <= i < s.len() implies #[trigger] s[i] != 10 by {
        let c1 = word.len() as int;
        if i < c1 {
            assert(s[i] == word[i]);
        } else if i == c1 {
        } else {
            assert(s[i] == d[i - c1 - 1]);
            assert(is_digit(d[i - c1 - 1]));
        }
    }
    assert(s.last() == d.last());
    assert(is_digit(d[d.len() - 1]));
}

/// The first `b` at or after `from` is where it is found.
pub proof fn lemma_find_byte(s: Seq<u8>, b: u8, from: int, at: int)
    requires
        0 <= from <= at <= s.len(),
        forall|k: int| from <= k < at ==> #[trigger] s[k] != b,
        at == s.len() || s[at] == b,
    ensures
        find_byte(s, b, from) == at,
    decreases at - from,
{
    if from < at {
        lemma_find_byte(s, b, from + 1, at);
    }
}

/// What `find_byte` finds lies at or after `from`, with no `b` before it.
pub proof fn lemma_find_byte_is_first(s: Seq<u8>, b: u8, from: int)
    requires
        0 <= from <= s.len(),
    ensures
        from <= find_byte(s, b, from) <= s.len(),
        find_byte(s, b, from) < s.len() ==> s[find_byte(s, b, from)] == b,
        forall|k: int| from <= k < find_byte(s, b, from) ==> #[trigger] s[k] != b,
    decreases s.len() - from,
{
    if from < s.len() && s[from] != b {
        lemma_find_byte_is_first(s, b, from + 1);
    }
}

/// The place of the first `b` at or after `from`, or the length of `s`.
fn find(s: &[u8], b: u8, from: usize) -> (r: usize)
    requires
        from <= s@.len(),
    ensures
        r == find_byte(s@, b, from as int),
        from <= r <= s@.len(),
{
    let mut i: usize = from;
    while i < s.len() && s[i] != b
        invariant
            from <= i <= s@.len(),
            forall|k: int| from <= k < i ==> #[trigger] s@[k] != b,
        decreases s@.len() - i,
    {
        i += 1;
    }
    proof {
        lemma_find_byte(s@, b, from as int, i as int);
    }
    i
}

/// Whether the bytes of `s` are those of `word`.
fn is_word(s: &[u8], word: &[u8; 6]) -> (r: bool)
    ensures
        r == (s@ == word@),
{
    if s.len() != 6 {
        return false;
    }
    let mut i: usize = 0;
    while i < 6
        invariant
            s@.len() == 6,
            word@.len() == 6,
            i <= 6,
            forall|k: int| 0 <= k < i ==> s@[k] == word@[k],
        decreases 6 - i,
    {
        if s[i] != word[i] {
            return false;
        }
        i += 1;
    }
    assert(s@ =~= word@);
    true
}

impl LogEntry {
    /// Whether the entry's line can be written on this machine.
    pub open spec fn writable(&self) -> bool {
        base64_fits(entry_payload_len(self@))
    }

    /// The entry's line, with the line feed that ends it.
    pub fn encode(&self) -> (r: Vec<u8>)
        requires
            self.writable(),
        ensures
            r@ == entry_line(self@) + seq![10u8],
            reads_back(self@),
    {
        let mut out: Vec<u8> = Vec::new();
        match self {
            LogEntry::Insert(record) => {
                let word: [u8; 6] = [73, 78, 83, 69, 82, 84];
                out.extend_from_slice(&word);
                out.push(44);
                push_decimal(&mut out, record.id);
                out.push(44);
                let mut text = base64_encode(record.data.as_slice());
                proof {
                    lemma_payload_line(self@, insert_word(), record.id, record.data@);
                }
                out.append(&mut text);
                out.push(10);
                assert(out@ =~= entry_line(self@) + seq![10u8]);
            },
            LogEntry::Update { id, data } => {
                let word: [u8; 6] = [85, 80, 68, 65, 84, 69];
                out.extend_from_slice(&word);
                out.push(44);
                push_decimal(&mut out, *id);
                out.push(44);
                let mut text = base64_encode(data.as_slice());
                proof {
                    lemma_payload_line(self@, update_word(), *id, data@);
                }
                out.append(&mut text);
                out.push(10);
                assert(out@ =~= entry_line(self@) + seq![10u8]);
            },
            LogEntry::Delete { id } => {
                let word: [u8; 6] = [68, 69, 76, 69, 84, 69];
                out.extend_from_slice(&word);
                out.push(44);
                push_decimal(&mut out, *id);
                out.push(10);
                proof {
                    lemma_delete_line(*id);
                }
                assert(out@ =~= entry_line(self@) + seq![10u8]);
            },
        }
        out
    }

    /// Reads one line of the journal, given without its line feed.
    pub fn parse(line: &str) -> (r: Option<LogEntry>)
        ensures
            match r {
                Some(e) => parse_line(line.spec_bytes()) == Some(e@),
                None => parse_line(line.spec_bytes()) is None,
            },
    {
        LogEntry::parse_bytes(line.as_bytes())
    }

    /// Reads one line of the journal from its bytes.
    pub fn parse_bytes(s: &[u8]) -> (r: Option<LogEntry>)
        ensures
            match r {
                Some(e) => parse_line(s@) == Some(e@),
                None => parse_line(s@) is None,
            },
    {
        reveal(parse_line);
        let n = s.len();
        let c1 = find(s, 44, 0);
        if c1 >= n {
            return None;
        }
        let c2 = find(s, 44, c1 + 1);
        let word = slice_subrange(s, 0, c1);
        let insert: [u8; 6] = [73, 78, 83, 69, 82, 84];
        let update: [u8; 6] = [85, 80, 68, 65, 84, 69];
        let delete: [u8; 6] = [68, 69, 76, 69, 84, 69];
        assert(insert@ =~= insert_word());
        assert(update@ =~= update_word());
        assert(delete@ =~= delete_word());
        let is_insert = is_word(word, &insert);
        if is_insert || is_word(word, &update) {
            if c2 >= n {
                return None;
            }
            let c3 = find(s, 44, c2 + 1);
            if c3 < n {
                return None;
            }
            let id = match parse_u64(slice_subrange(s, c1 + 1, c2)) {
                Some(id) => id,
                None => {
                    return None;
                },
            };
            let data = match base64_decode(slice_subrange(s, c2 + 1, n)) {
                Ok(data) => data,
                Err(_) => {
                    return None;
                },
            };
            if is_insert {
                Some(LogEntry::Insert(Record { id, data }))
            } else {
                Some(LogEntry::Update { id, data })
            }
        } else if is_word(word, &delete) {
            if c2 < n {
                return None;
            }
            match parse_u64(slice_subrange(s, c1 + 1, n)) {
                Some(id) => Some(LogEntry::Delete { id }),
                None => None,
            }
        } else {
            None
        }
    }
}

/// What each entry of `v` says, in order.
pub open spec fn entry_views(v: Seq<LogEntry>) -> Seq<LogEntryView> {
    v.map_values(|e: LogEntry| e@)
}

/// The entries that a journal holds, in their order, given the journal's
/// text. Lines that are not well formed are passed over.
pub fn replay(contents: &str) -> (r: Vec<LogEntry>)
    ensures
        entry_views(r@) == replay_from(contents.spec_bytes(), 0),
{
    let s = contents.as_bytes();
    let mut entries: Vec<LogEntry> = Vec::new();
    let mut from: usize = 0;
    proof {
        assert(entry_views(entries@) =~= Seq::<LogEntryView>::empty());
    }
    while from < s.len()
        invariant
            from <= s@.len(),
            replay_from(s@, 0) == entry_views(entries@) + replay_from(s@, from as int),
        decreases s@.len() - from,
    {
        let end = find(s, 10, from);
        let mut stop = end;
        if end < s.len() && end > from && s[end - 1] == 13 {
            stop = end - 1;
        }
        let line = slice_subrange(s, from, stop);
        proof {
            let whole = s@.subrange(from as int, end as int);
            if end < s@.len() {
                if end > from && s@[end - 1] == 13 {
                    assert(whole.last() == 13);
                    assert(line@ =~= whole.drop_last());
                } else {
                    assert(line@ =~= whole);
                    if whole.len() > 0 {
                        assert(whole.last() == s@[end - 1]);
                    }
                }
            }
        }
        let ghost before = entry_views(entries@);
        match LogEntry::parse_bytes(line) {
            Some(entry) => {
                entries.push(entry);
                proof {
                    assert(entry_views(entries@) =~= before.push(entry@));
                    let rest = if end < s@.len() {
                        replay_from(s@, end + 1)
                    } else {
                        Seq::<LogEntryView>::empty()
                    };
                    assert(before.push(entry@) + rest =~= before + (seq![entry@] + rest));
                }
            },
            None => {},
        }
        if end < s.len() {
            from = end + 1;
        } else {
            proof {
                assert(replay_from(s@, end as int) =~= Seq::<LogEntryView>::empty());
            }
            from = end;
        }
    }
    proof {
        assert(replay_from(s@, from as int) =~= Seq::<LogEntryView>::empty());
        assert(entry_views(entries@) + Seq::<LogEntryView>::empty() =~= entry_views(entries@));
    }
    entries
}

} // verus!
