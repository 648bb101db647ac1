//! The key map of a segment: string keys and their sequence numbers.
use std::collections::HashMap;
use vstd::hash_map::StringHashMap;
use vstd::prelude::*;

use crate::error::{Result, TsDbError};
use crate::text::{
    is_digit, lemma_count_concat, lemma_count_zero, lemma_decimal_digits, lemma_lines_first, lemma_parse_decimal,
    lemma_trim_fixed, lemma_trim_keeps,
    append_range, chars_of, count_char, count_of, decimal, find_char, line_bounds, lemma_next_index_of_is,
    lines, next_index_of, parse_u64, parse_u64_range, push_char, push_decimal, string_of_range, trim,
    trim_range,
};

verus! {

broadcast use {vstd::std_specs::hash::group_hash_axioms, vstd::hash_map::group_hash_map_axioms};

/// The model of a key map: both directions of the mapping, and the next sequence number to hand out.
pub struct KeyMapView {
    pub key_to_seq: Map<Seq<char>, u64>,
    pub seq_to_key: Map<u64, Seq<char>>,
    pub next_seq: u64,
}

impl KeyMapView {
    /// The map with no key, whose next sequence number is 0.
    pub open spec fn empty() -> Self {
        KeyMapView { key_to_seq: Map::empty(), seq_to_key: Map::empty(), next_seq: 0 }
    }

    /// The map after recording that `key` has sequence number `seq`.
    pub open spec fn with_entry(self, key: Seq<char>, seq: u64) -> Self {
        KeyMapView {
            key_to_seq: self.key_to_seq.insert(key, seq),
            seq_to_key: self.seq_to_key.insert(seq, key),
            next_seq: if seq >= self.next_seq { (seq + 1) as u64 } else { self.next_seq },
        }
    }

    /// The map after asking for the sequence number of `key`: a new key gets the next one.
    pub open spec fn with_key(self, key: Seq<char>) -> Self {
        if self.key_to_seq.contains_key(key) {
            self
        } else {
            self.with_entry(key, self.next_seq)
        }
    }

    /// The sequence number of `key` once it has been asked for.
    pub open spec fn seq_for(self, key: Seq<char>) -> u64 {
        if self.key_to_seq.contains_key(key) {
            self.key_to_seq[key]
        } else {
            self.next_seq
        }
    }

    /// Whether a new key can be given a sequence number, or `key` has one already.
    pub open spec fn can_take(self, key: Seq<char>) -> bool {
        self.key_to_seq.contains_key(key) || self.next_seq < u64::MAX
    }
}

/// The map after recording each entry of `entries`, in order.
pub open spec fn apply_entries(v: KeyMapView, entries: Seq<(Seq<char>, u64)>) -> KeyMapView
    decreases entries.len(),
{
    if entries.len() == 0 {
        v
    } else {
        apply_entries(v, entries.drop_last()).with_entry(entries.last().0, entries.last().1)
    }
}

/// What a line of a key map file holds.
pub enum KeyMapLine {
    /// Only whitespace.
    Blank,
    /// A key and its sequence number.
    Entry(Seq<char>, u64),
    /// Not exactly two comma-separated fields.
    BadFieldCount,
    /// A second field that is not a sequence number; the field as written.
    BadSeq(Seq<char>),
}

/// Reads a key map line: `key,seq`, each field trimmed of whitespace.
pub open spec fn parse_keymap_line(line: Seq<char>) -> KeyMapLine {
    if trim(line).len() == 0 {
        KeyMapLine::Blank
    } else if count_of(line, ',') != 1 {
        KeyMapLine::BadFieldCount
    } else {
        let c = next_index_of(line, 0, ',');
        let field = line.subrange(c + 1, line.len() as int);
        match parse_u64(trim(field)) {
            Some(n) => KeyMapLine::Entry(trim(line.subrange(0, c)), n),
            None => KeyMapLine::BadSeq(field),
        }
    }
}

/// What loading the lines of a key map file gives.
pub enum KeyMapLoad {
    /// The entries of the file, in order.
    Loaded(Seq<(Seq<char>, u64)>),
    /// The first malformed line.
    BadLine(Seq<char>),
    /// The second field of the first line whose sequence number is malformed.
    BadSeq(Seq<char>),
}

/// Loads lines in order; the first malformed one stops the load.
pub open spec fn load_keymap_lines(ls: Seq<Seq<char>>) -> KeyMapLoad
    decreases ls.len(),
{
    if ls.len() == 0 {
        KeyMapLoad::Loaded(seq![])
    } else {
        match parse_keymap_line(ls[0]) {
            KeyMapLine::Blank => load_keymap_lines(ls.drop_first()),
            KeyMapLine::BadFieldCount => KeyMapLoad::BadLine(ls[0]),
            KeyMapLine::BadSeq(f) => KeyMapLoad::BadSeq(f),
            KeyMapLine::Entry(k, n) => match load_keymap_lines(ls.drop_first()) {
                KeyMapLoad::Loaded(es) => KeyMapLoad::Loaded(seq![(k, n)] + es),
                other => other,
            },
        }
    }
}

/// Whether every entry that a load reads before it stops leaves room for a next sequence number.
pub open spec fn keymap_lines_fit(ls: Seq<Seq<char>>) -> bool
    decreases ls.len(),
{
    if ls.len() == 0 {
        true
    } else {
        match parse_keymap_line(ls[0]) {
            KeyMapLine::Blank => keymap_lines_fit(ls.drop_first()),
            KeyMapLine::Entry(_, n) => n < u64::MAX && keymap_lines_fit(ls.drop_first()),
            _ => true,
        }
    }
}

/// The text of the error that a malformed line gives.
pub open spec fn bad_line_message(line: Seq<char>) -> Seq<char> {
    "Invalid keymap line: "@ + line
}

/// The text of the error that a malformed sequence number gives.
pub open spec fn bad_seq_message(field: Seq<char>) -> Seq<char> {
    "Invalid sequence number: "@ + field
}

/// One line, read.
enum ParsedLine {
    Blank,
    Entry(String, u64),
    BadFieldCount,
    BadSeq(String),
}

spec fn parsed_is(p: ParsedLine, l: KeyMapLine) -> bool {
    match (p, l) {
        (ParsedLine::Blank, KeyMapLine::Blank) => true,
        (ParsedLine::Entry(k, n), KeyMapLine::Entry(k2, n2)) => k@ == k2 && n == n2,
        (ParsedLine::BadFieldCount, KeyMapLine::BadFieldCount) => true,
        (ParsedLine::BadSeq(f), KeyMapLine::BadSeq(f2)) => f@ == f2,
        _ => false,
    }
}

/// Reads the line `v[from..to]`.
fn parse_line_at(v: &Vec<char>, from: usize, to: usize) -> (p: ParsedLine)
    requires
        from <= to <= v@.len(),
    ensures
        parsed_is(p, parse_keymap_line(v@.subrange(from as int, to as int))),
{
    let ghost line = v@.subrange(from as int, to as int);
    let (a, b) = trim_range(v, from, to);
    if a == b {
        return ParsedLine::Blank;
    }
    let commas = count_char(v, from, to, ',');
    if commas != 1 {
        return ParsedLine::BadFieldCount;
    }
    let c = find_char(v, from, to, ',');
    proof {
        assert forall|k: int| 0 <= k < c - from implies line[k] != ',' by {
            assert(line[k] == v@[from + k]);
        }
        if c < to {
            assert(line[c - from] == v@[c as int]);
        }
        lemma_next_index_of_is(line, 0, c - from, ',');
    }
    if c == to {
        proof {
            assert(count_of(line, ',') == 0) by {
                lemma_count_absent(line, ',');
            }
        }
        return ParsedLine::BadFieldCount;
    }
    assert(line.subrange(c - from + 1, line.len() as int) =~= v@.subrange(c + 1, to as int));
    assert(line.subrange(0, c - from) =~= v@.subrange(from as int, c as int));
    let (fa, fb) = trim_range(v, c + 1, to);
    match parse_u64_range(v, fa, fb) {
        Some(n) => {
            let (ka, kb) = trim_range(v, from, c);
            ParsedLine::Entry(string_of_range(v, ka, kb), n)
        },
        None => ParsedLine::BadSeq(string_of_range(v, c + 1, to)),
    }
}

proof fn lemma_count_absent(s: Seq<char>, c: char)
    requires
        forall|k: int| 0 <= k < s.len() ==> s[k] != c,
    ensures
        count_of(s, c) == 0,
    decreases s.len(),
{
    if s.len() > 0 {
        lemma_count_absent(s.drop_last(), c);
    }
}

/// A line of a key map file for `key` and `seq`: `key,seq` and a newline.
pub open spec fn spec_keymap_line(key: Seq<char>, seq: u64) -> Seq<char> {
    key + seq![','] + decimal(seq as nat) + seq!['\n']
}

/// The line that records `key` with sequence number `seq` in a key map file.
pub fn keymap_line(key: &str, seq: u64) -> (line: String)
    ensures
        line@ == spec_keymap_line(key@, seq),
{
    let mut line = String::new();
    let cs = chars_of(key);
    append_range(&mut line, &cs, 0, cs.len());
    assert(cs@.subrange(0, cs@.len() as int) =~= key@);
    push_char(&mut line, ',');
    push_decimal(&mut line, seq);
    push_char(&mut line, '\n');
    line
}

/// Whether loading `contents` as a key map file never needs a sequence number past `u64::MAX`.
pub fn keymap_text_in_range(contents: &str) -> (fits: bool)
    ensures
        fits == keymap_lines_fit(lines(contents@)),
{
    let v = chars_of(contents);
    let bounds = line_bounds(&v);
    let ghost ls = lines(v@);
    assert(ls.skip(0) =~= ls);
    let mut i: usize = 0;
    while i < bounds.len()
        invariant
            i <= bounds@.len() == ls.len(),
            ls == lines(contents@),
            forall|k: int|
                0 <= k < bounds@.len() ==> {
                    &&& (#[trigger] bounds@[k]).0 <= bounds@[k].1 <= v@.len()
                    &&& v@.subrange(bounds@[k].0 as int, bounds@[k].1 as int) == ls[k]
                },
            keymap_lines_fit(ls) == keymap_lines_fit(ls.skip(i as int)),
        decreases bounds@.len() - i,
    {
        let (from, to) = bounds[i];
        let p = parse_line_at(&v, from, to);
        assert(ls.skip(i as int)[0] == ls[i as int]);
        assert(ls.skip(i as int).drop_first() =~= ls.skip(i + 1));
        match p {
            ParsedLine::Blank => {},
            ParsedLine::Entry(_, n) => {
                if n == u64::MAX {
                    return false;
                }
            },
            _ => {
                return true;
            },
        }
        i = i + 1;
    }
    assert(ls.skip(i as int) =~= Seq::<Seq<char>>::empty());
    true
}

} // verus!

verus! {

/// Maps string keys to sequence numbers and back.
pub struct KeyMapManager {
    key_to_seq: StringHashMap<u64>,
    seq_to_key: HashMap<u64, String>,
    keys: Vec<String>,
    next_seq: u64,
    file_path: String,
}

impl View for KeyMapManager {
    type V = KeyMapView;

    closed spec fn view(&self) -> KeyMapView {
        KeyMapView {
            key_to_seq: self.key_to_seq@,
            seq_to_key: self.seq_to_key@.map_values(|s: String| s@),
            next_seq: self.next_seq,
        }
    }
}

impl KeyMapManager {
    /// The invariant: `keys` lists each key of the map once.
    pub closed spec fn wf(&self) -> bool {
        &&& forall|i: int| 0 <= i < self.keys@.len() ==> self.key_to_seq@.contains_key(#[trigger] self.keys@[i]@)
        &&& forall|k: Seq<char>| #[trigger] self.key_to_seq@.contains_key(k)
            ==> exists|i: int| 0 <= i < self.keys@.len() && self.keys@[i]@ == k
        &&& forall|i: int, j: int| 0 <= i < j < self.keys@.len() ==> self.keys@[i]@ != self.keys@[j]@
    }

    /// The path of the file that persists the map.
    pub closed spec fn path(&self) -> Seq<char> {
        self.file_path@
    }

    /// An empty key map persisted at `file_path`. Reading an existing file is `from_contents`.
    pub fn new(file_path: String) -> (r: Result<Self>)
        ensures
            r matches Ok(m) && m.wf() && m@ == KeyMapView::empty() && m.path() == file_path@ && dense(m@),
    {
        proof {
            lemma_empty_dense();
        }
        let m = KeyMapManager {
            key_to_seq: StringHashMap::new(),
            seq_to_key: HashMap::new(),
            keys: Vec::new(),
            next_seq: 0,
            file_path,
        };
        assert(m@.seq_to_key =~= Map::<u64, Seq<char>>::empty());
        Ok(m)
    }

    /// Records that `key` has sequence number `seq`.
    fn record(&mut self, key: String, seq: u64)
        requires
            old(self).wf(),
            seq < u64::MAX,
        ensures
            final(self).wf(),
            final(self)@ == old(self)@.with_entry(key@, seq),
            final(self).path() == old(self).path(),
    {
        if !self.key_to_seq.contains_key(key.as_str()) {
            self.keys.push(key.clone());
            proof {
                assert forall|k: Seq<char>| #[trigger] self.key_to_seq@.insert(key@, seq).contains_key(k)
                    implies exists|i: int| 0 <= i < self.keys@.len() && self.keys@[i]@ == k by {
                    if k == key@ {
                        assert(self.keys@[self.keys@.len() - 1]@ == k);
                    } else {
                        let i = choose|i: int| 0 <= i < old(self).keys@.len() && old(self).keys@[i]@ == k;
                        assert(self.keys@[i]@ == k);
                    }
                }
            }
        }
        self.key_to_seq.insert(key.clone(), seq);
        self.seq_to_key.insert(seq, key);
        if seq >= self.next_seq {
            self.next_seq = seq + 1;
        }
        proof {
            assert(self@.seq_to_key =~= old(self)@.seq_to_key.insert(seq, key@));
            assert(self.key_to_seq@ == old(self).key_to_seq@.insert(key@, seq));
            if old(self).key_to_seq@.contains_key(key@) {
                assert(self.keys@ == old(self).keys@);
                assert(self.key_to_seq@.dom() =~= old(self).key_to_seq@.dom());
            } else {
                let n = old(self).keys@.len();
                assert(self.keys@ == old(self).keys@.push(key));
                assert forall|i: int| 0 <= i < self.keys@.len() implies self.key_to_seq@.contains_key(
                    #[trigger] self.keys@[i]@) by {
                    if i < n {
                        assert(self.keys@[i] == old(self).keys@[i]);
                        assert(old(self).key_to_seq@.contains_key(old(self).keys@[i]@));
                    }
                }
                assert forall|i: int, j: int| 0 <= i < j < self.keys@.len() implies self.keys@[i]@
                    != self.keys@[j]@ by {
                    assert(self.keys@[i] == old(self).keys@[i]);
                    if j < n {
                        assert(self.keys@[j] == old(self).keys@[j]);
                    } else {
                        assert(old(self).key_to_seq@.contains_key(old(self).keys@[i]@));
                    }
                }
            }
        }
    }

    /// The key map that the text of a key map file describes, persisted at `file_path`:
    /// its lines are recorded in order; the first malformed line is an error.
    pub fn from_contents(file_path: String, contents: &str) -> (r: Result<Self>)
        requires
            keymap_lines_fit(lines(contents@)),
        ensures
            match load_keymap_lines(lines(contents@)) {
                KeyMapLoad::Loaded(es) => r matches Ok(m) && m.wf() && m.path() == file_path@
                    && m@ == apply_entries(KeyMapView::empty(), es) && ((forall|i: int, j: int|
                    0 <= i < j < es.len() ==> es[i].0 != es[j].0 && es[i].1 != es[j].1) ==> consistent(m@)),
                KeyMapLoad::BadLine(l) => r matches Err(TsDbError::InvalidDataFormat(msg))
                    && msg@ == bad_line_message(l),
                KeyMapLoad::BadSeq(f) => r matches Err(TsDbError::InvalidDataFormat(msg))
                    && msg@ == bad_seq_message(f),
            },
    {
        proof {
            lemma_loaded_fit(lines(contents@));
            if let KeyMapLoad::Loaded(es) = load_keymap_lines(lines(contents@)) {
                if forall|i: int, j: int| 0 <= i < j < es.len() ==> es[i].0 != es[j].0 && es[i].1 != es[j].1 {
                    lemma_loaded_consistent(es);
                }
            }
        }
        let mut m = match KeyMapManager::new(file_path) {
            Ok(m) => m,
            Err(e) => return Err(e),
        };
        let v = chars_of(contents);
        let bounds = line_bounds(&v);
        let ghost ls = lines(v@);
        let ghost mut done: Seq<(Seq<char>, u64)> = seq![];
        assert(ls.skip(0) =~= ls);
        assert(apply_entries(KeyMapView::empty(), done) == KeyMapView::empty());
        let mut i: usize = 0;
        while i < bounds.len()
            invariant
                i <= bounds@.len() == ls.len(),
                ls == lines(contents@),
                forall|k: int|
                    0 <= k < bounds@.len() ==> {
                        &&& (#[trigger] bounds@[k]).0 <= bounds@[k].1 <= v@.len()
                        &&& v@.subrange(bounds@[k].0 as int, bounds@[k].1 as int) == ls[k]
                    },
                keymap_lines_fit(ls.skip(i as int)),
                load_keymap_lines(ls) == (match load_keymap_lines(ls.skip(i as int)) {
                    KeyMapLoad::Loaded(es) => KeyMapLoad::Loaded(done + es),
                    other => other,
                }),
                m.wf(),
                m.path() == file_path@,
                m@ == apply_entries(KeyMapView::empty(), done),
            decreases bounds@.len() - i,
        {
            let (from, to) = bounds[i];
            let p = parse_line_at(&v, from, to);
            let ghost rest = ls.skip(i as int);
            assert(rest[0] == ls[i as int]);
            assert(rest.drop_first() =~= ls.skip(i + 1));
            match p {
                ParsedLine::Blank => {},
                ParsedLine::Entry(key, n) => {
                    let ghost entry = (key@, n);
                    m.record(key, n);
                    proof {
                        let nd = done.push(entry);
                        assert(nd.drop_last() =~= done);
                        match load_keymap_lines(ls.skip(i + 1)) {
                            KeyMapLoad::Loaded(es) => {
                                assert(done + (seq![entry] + es) =~= nd + es);
                            },
                            _ => {},
                        }
                        done = nd;
                    }
                },
                ParsedLine::BadFieldCount => {
                    let mut msg = String::from_str("Invalid keymap line: ");
                    append_range(&mut msg, &v, from, to);
                    return Err(TsDbError::InvalidDataFormat(msg));
                },
                ParsedLine::BadSeq(field) => {
                    let mut msg = String::from_str("Invalid sequence number: ");
                    msg.append(field.as_str());
                    return Err(TsDbError::InvalidDataFormat(msg));
                },
            }
            i = i + 1;
        }
        assert(ls.skip(i as int) =~= Seq::<Seq<char>>::empty());
        assert(done + seq![] =~= done);
        Ok(m)
    }

    /// A key map holds finitely many keys.
    pub proof fn lemma_finite(&self)
        requires
            self.wf(),
        ensures
            self@.key_to_seq.dom().finite(),
    {
        let ks = self.keys@.map_values(|k: String| k@);
        assert forall|k: Seq<char>| #[trigger] self@.key_to_seq.dom().contains(k) implies ks.to_set().contains(k) by {
            let i = choose|i: int| 0 <= i < self.keys@.len() && self.keys@[i]@ == k;
            assert(ks[i] == k);
        }
        vstd::seq_lib::seq_to_set_is_finite(ks);
        vstd::set_lib::lemma_len_subset(self@.key_to_seq.dom(), ks.to_set());
    }

    /// The sequence number of `key`; a new key gets the next free one. Appending the new key's
    /// line (`keymap_line`) to the key map file is the caller's.
    pub fn get_or_create_seq(&mut self, key: &str) -> (r: Result<u64>)
        requires
            old(self).wf(),
            old(self)@.can_take(key@),
        ensures
            final(self).wf(),
            final(self).path() == old(self).path(),
            final(self)@ == old(self)@.with_key(key@),
            r matches Ok(seq) && seq == old(self)@.seq_for(key@),
            final(self)@.key_to_seq[key@] == old(self)@.seq_for(key@),
            consistent(old(self)@) ==> consistent(final(self)@),
            dense(old(self)@) ==> dense(final(self)@),
    {
        proof {
            if consistent(old(self)@) {
                lemma_with_key_consistent(old(self)@, key@);
            }
            if dense(old(self)@) {
                lemma_with_key_dense(old(self)@, key@);
            }
        }
        match self.key_to_seq.get(key) {
            Some(seq) => {
                return Ok(*seq);
            },
            None => {},
        }
        let seq = self.next_seq;
        self.record(String::from_str(key), seq);
        Ok(seq)
    }

    /// The sequence number of `key`.
    pub fn get_seq(&self, key: &str) -> (r: Result<u64>)
        ensures
            self@.key_to_seq.contains_key(key@) ==> r == Ok::<u64, TsDbError>(self@.key_to_seq[key@]),
            !self@.key_to_seq.contains_key(key@) ==> (r matches Err(TsDbError::KeyNotFound(k)) && k@ == key@),
    {
        match self.key_to_seq.get(key) {
            Some(seq) => Ok(*seq),
            None => Err(TsDbError::KeyNotFound(String::from_str(key))),
        }
    }

    /// The key that has sequence number `seq`.
    pub fn get_key(&self, seq: u64) -> (r: Result<&str>)
        ensures
            self@.seq_to_key.contains_key(seq) ==> (r matches Ok(k) && k@ == self@.seq_to_key[seq]),
            !self@.seq_to_key.contains_key(seq) ==> (r matches Err(TsDbError::InvalidSeq(s)) && s == seq),
    {
        match self.seq_to_key.get(&seq) {
            Some(k) => Ok(k.as_str()),
            None => Err(TsDbError::InvalidSeq(seq)),
        }
    }

    /// The number of keys.
    pub fn len(&self) -> (n: usize)
        ensures
            n == self@.key_to_seq.len(),
    {
        self.key_to_seq.len()
    }

    /// Whether the map holds no key.
    pub fn is_empty(&self) -> (b: bool)
        ensures
            b == (self@.key_to_seq.len() == 0),
    {
        self.key_to_seq.len() == 0
    }

    /// The next sequence number that a new key gets.
    pub fn next_seq(&self) -> (n: u64)
        ensures
            n == self@.next_seq,
    {
        self.next_seq
    }

    /// Every key, each once.
    pub fn get_all_keys(&self) -> (ks: Vec<String>)
        requires
            self.wf(),
        ensures
            forall|i: int| 0 <= i < ks@.len() ==> self@.key_to_seq.contains_key(#[trigger] ks@[i]@),
            forall|k: Seq<char>| #[trigger] self@.key_to_seq.contains_key(k)
                ==> exists|i: int| 0 <= i < ks@.len() && ks@[i]@ == k,
            forall|i: int, j: int| 0 <= i < j < ks@.len() ==> ks@[i]@ != ks@[j]@,
    {
        let mut ks: Vec<String> = Vec::new();
        let mut i: usize = 0;
        while i < self.keys.len()
            invariant
                i <= self.keys@.len(),
                ks@.len() == i,
                forall|j: int| 0 <= j < i ==> (#[trigger] ks@[j])@ == self.keys@[j]@,
            decreases self.keys@.len() - i,
        {
            ks.push(self.keys[i].clone());
            i = i + 1;
        }
        proof {
            assert forall|k: Seq<char>| #[trigger] self@.key_to_seq.contains_key(k)
                implies exists|i: int| 0 <= i < ks@.len() && ks@[i]@ == k by {
                let i = choose|i: int| 0 <= i < self.keys@.len() && self.keys@[i]@ == k;
                assert(ks@[i]@ == k);
            }
            assert forall|i: int| 0 <= i < ks@.len() implies self@.key_to_seq.contains_key(#[trigger] ks@[i]@) by {
                assert(ks@[i]@ == self.keys@[i]@);
            }
            assert forall|i: int, j: int| 0 <= i < j < ks@.len() implies ks@[i]@ != ks@[j]@ by {
                assert(ks@[i]@ == self.keys@[i]@);
                assert(ks@[j]@ == self.keys@[j]@);
            }
        }
        ks
    }

    /// Each new key's line is appended to the file when the key is created, so nothing is left to write.
    pub fn flush(&self) -> (r: Result<()>)
        ensures
            r is Ok,
    {
        Ok(())
    }
}

} // verus!

verus! {

/// A key that a key map line can hold and give back: no comma, no newline, nothing to trim.
pub open spec fn storable_key(key: Seq<char>) -> bool {
    &&& count_of(key, ',') == 0
    &&& count_of(key, '\n') == 0
    &&& trim(key) == key
}

/// The text of a key map file that records `entries` in order, one line each.
pub open spec fn keymap_text(entries: Seq<(Seq<char>, u64)>) -> Seq<char>
    decreases entries.len(),
{
    if entries.len() == 0 {
        seq![]
    } else {
        spec_keymap_line(entries[0].0, entries[0].1) + keymap_text(entries.drop_first())
    }
}

/// A line written for a storable key reads back as that key and sequence number.
pub proof fn lemma_keymap_line_roundtrip(key: Seq<char>, seq: u64)
    requires
        storable_key(key),
    ensures
        parse_keymap_line(key + seq![','] + decimal(seq as nat)) == KeyMapLine::Entry(key, seq),
{
    let d = decimal(seq as nat);
    lemma_decimal_digits(seq as nat);
    lemma_parse_decimal(seq);
    let line = key + seq![','] + d;
    lemma_count_zero(key, ',');
    lemma_count_zero(d, ',');
    assert forall|i: int| 0 <= i < d.len() implies d[i] != ',' by {
        assert(is_digit(d[i]));
    }
    lemma_count_concat(key, seq![','], ',');
    lemma_count_concat(key + seq![','], d, ',');
    assert(count_of(seq![','], ',') == 1) by {
        let s1: Seq<char> = seq![','];
        assert(s1.drop_last() =~= Seq::<char>::empty());
        assert(count_of(s1.drop_last(), ',') == 0);
        assert(s1.last() == ',');
    }
    assert(line[key.len() as int] == ',');
    lemma_trim_keeps(line, key.len() as int);
    assert forall|k: int| 0 <= k < key.len() implies line[k] != ',' by {
        assert(line[k] == key[k]);
    }
    lemma_next_index_of_is(line, 0, key.len() as int, ',');
    assert(line.subrange(key.len() as int + 1, line.len() as int) =~= d);
    assert(line.subrange(0, key.len() as int) =~= key);
    assert(is_digit(d[0]) && is_digit(d.last()));
    lemma_trim_fixed(d);
}

/// Loading the text written for `entries`, each with a storable key, gives the entries back.
pub proof fn lemma_keymap_text_roundtrip(entries: Seq<(Seq<char>, u64)>)
    requires
        forall|i: int| 0 <= i < entries.len() ==> storable_key(#[trigger] entries[i].0),
    ensures
        load_keymap_lines(lines(keymap_text(entries))) == KeyMapLoad::Loaded(entries),
    decreases entries.len(),
{
    if entries.len() == 0 {
        assert(lines(keymap_text(entries)) =~= Seq::<Seq<char>>::empty());
        assert(entries =~= Seq::<(Seq<char>, u64)>::empty());
    } else {
        let (key, seq) = entries[0];
        assert(storable_key(entries[0].0));
        let rest = entries.drop_first();
        assert forall|i: int| 0 <= i < rest.len() implies storable_key(#[trigger] rest[i].0) by {
            assert(rest[i] == entries[i + 1]);
            assert(storable_key(entries[i + 1].0));
        }
        lemma_keymap_text_roundtrip(rest);
        let d = decimal(seq as nat);
        lemma_decimal_digits(seq as nat);
        let body = key + seq![','] + d;
        lemma_count_zero(key, '\n');
        assert forall|i: int| 0 <= i < body.len() implies body[i] != '\n' by {
            if i < key.len() {
                assert(body[i] == key[i]);
            } else if i > key.len() {
                assert(body[i] == d[i - key.len() - 1]);
                assert(is_digit(d[i - key.len() - 1]));
            }
        }
        assert(body.last() == d.last());
        assert(is_digit(d.last()));
        assert(keymap_text(entries) == body + seq!['\n'] + keymap_text(rest)) by {
            assert(spec_keymap_line(key, seq) == body + seq!['\n']);
        }
        lemma_lines_first(body, keymap_text(rest));
        let ls = lines(keymap_text(entries));
        assert(ls[0] == body);
        assert(ls.drop_first() =~= lines(keymap_text(rest)));
        lemma_keymap_line_roundtrip(key, seq);
        assert(parse_keymap_line(ls[0]) == KeyMapLine::Entry(key, seq));
        assert(load_keymap_lines(ls.drop_first()) == KeyMapLoad::Loaded(rest));
        assert(seq![(key, seq)] + rest =~= entries);
        assert(load_keymap_lines(ls) == KeyMapLoad::Loaded(seq![(key, seq)] + rest));
    }
}

/// Two requests for the same key give the same sequence number, and the second changes nothing.
pub proof fn lemma_with_key_stable(v: KeyMapView, key: Seq<char>)
    requires
        v.can_take(key),
    ensures
        v.with_key(key).key_to_seq.contains_key(key),
        v.with_key(key).seq_for(key) == v.seq_for(key),
        v.with_key(key).with_key(key) == v.with_key(key),
{
}

/// A key map whose two directions agree and whose sequence numbers lie below the next one.
pub open spec fn consistent(v: KeyMapView) -> bool {
    &&& forall|k: Seq<char>| #[trigger] v.key_to_seq.contains_key(k) ==> v.key_to_seq[k] < v.next_seq
        && v.seq_to_key.contains_key(v.key_to_seq[k]) && v.seq_to_key[v.key_to_seq[k]] == k
    &&& forall|s: u64| #[trigger] v.seq_to_key.contains_key(s) ==> s < v.next_seq && v.key_to_seq.contains_key(
        v.seq_to_key[s]) && v.key_to_seq[v.seq_to_key[s]] == s
}

/// Asking for keys keeps a key map consistent: a new key gets a sequence number no other key has,
/// and the key and the number map to each other.
pub proof fn lemma_with_key_consistent(v: KeyMapView, key: Seq<char>)
    requires
        consistent(v),
        v.can_take(key),
    ensures
        consistent(v.with_key(key)),
        !v.key_to_seq.contains_key(key) ==> v.with_key(key).key_to_seq[key] == v.next_seq
            && !v.seq_to_key.contains_key(v.next_seq),
{
    let w = v.with_key(key);
    if !v.key_to_seq.contains_key(key) {
        assert forall|k: Seq<char>| #[trigger] w.key_to_seq.contains_key(k) implies w.key_to_seq[k] < w.next_seq
            && w.seq_to_key.contains_key(w.key_to_seq[k]) && w.seq_to_key[w.key_to_seq[k]] == k by {
            if k != key {
                assert(v.key_to_seq.contains_key(k));
            }
        }
        assert forall|s: u64| #[trigger] w.seq_to_key.contains_key(s) implies s < w.next_seq && w.key_to_seq.contains_key(
            w.seq_to_key[s]) && w.key_to_seq[w.seq_to_key[s]] == s by {
            if s != v.next_seq {
                assert(v.seq_to_key.contains_key(s));
                assert(v.seq_to_key[s] != key);
            }
        }
    }
}

/// An empty key map is consistent.
pub proof fn lemma_empty_consistent()
    ensures
        consistent(KeyMapView::empty()),
{
}

/// A key map whose sequence numbers are exactly `0 .. next_seq`, each held by one key.
pub open spec fn dense(v: KeyMapView) -> bool {
    &&& consistent(v)
    &&& v.key_to_seq.dom().finite()
    &&& v.key_to_seq.len() == v.next_seq
    &&& forall|s: u64| s < v.next_seq ==> #[trigger] v.seq_to_key.contains_key(s)
}

/// An empty key map is dense.
pub proof fn lemma_empty_dense()
    ensures
        dense(KeyMapView::empty()),
{
    assert(KeyMapView::empty().key_to_seq.dom() =~= Set::<Seq<char>>::empty());
}

/// Asking for keys keeps a key map dense: the keys hold exactly the sequence numbers from 0 up
/// to the number of keys, and keys and numbers map to each other.
pub proof fn lemma_with_key_dense(v: KeyMapView, key: Seq<char>)
    requires
        dense(v),
        v.can_take(key),
    ensures
        dense(v.with_key(key)),
{
    lemma_with_key_consistent(v, key);
    if !v.key_to_seq.contains_key(key) {
        let w = v.with_key(key);
        assert(w.key_to_seq.dom() == v.key_to_seq.dom().insert(key));
        assert forall|s: u64| s < w.next_seq implies #[trigger] w.seq_to_key.contains_key(s) by {
            if s < v.next_seq {
                assert(v.seq_to_key.contains_key(s));
            }
        }
    }
}

/// Recording a key and a sequence number that the map does not hold yet keeps it consistent.
proof fn lemma_with_entry_consistent(v: KeyMapView, key: Seq<char>, seq: u64)
    requires
        consistent(v),
        !v.key_to_seq.contains_key(key),
        !v.seq_to_key.contains_key(seq),
        seq < u64::MAX,
    ensures
        consistent(v.with_entry(key, seq)),
{
    let w = v.with_entry(key, seq);
    assert forall|k: Seq<char>| #[trigger] w.key_to_seq.contains_key(k) implies w.key_to_seq[k] < w.next_seq
        && w.seq_to_key.contains_key(w.key_to_seq[k]) && w.seq_to_key[w.key_to_seq[k]] == k by {
        if k != key {
            assert(v.key_to_seq.contains_key(k));
            assert(v.key_to_seq[k] != seq);
        }
    }
    assert forall|s: u64| #[trigger] w.seq_to_key.contains_key(s) implies s < w.next_seq && w.key_to_seq.contains_key(
        w.seq_to_key[s]) && w.key_to_seq[w.seq_to_key[s]] == s by {
        if s != seq {
            assert(v.seq_to_key.contains_key(s));
            assert(v.seq_to_key[s] != key);
        }
    }
}

/// A key map loaded from lines that give each key once and each sequence number once is
/// consistent: `get_key` gives back the key of the number that `get_seq` gives, and the other
/// way round. Its keys and numbers are those of the lines.
pub proof fn lemma_loaded_consistent(entries: Seq<(Seq<char>, u64)>)
    requires
        forall|i: int, j: int| 0 <= i < j < entries.len() ==> entries[i].0 != entries[j].0 && entries[i].1 != entries[j].1,
        forall|i: int| 0 <= i < entries.len() ==> #[trigger] entries[i].1 < u64::MAX,
    ensures
        consistent(apply_entries(KeyMapView::empty(), entries)),
        forall|k: Seq<char>| #[trigger] apply_entries(KeyMapView::empty(), entries).key_to_seq.contains_key(k)
            <==> exists|i: int| 0 <= i < entries.len() && entries[i].0 == k,
        forall|s: u64| #[trigger] apply_entries(KeyMapView::empty(), entries).seq_to_key.contains_key(s)
            <==> exists|i: int| 0 <= i < entries.len() && entries[i].1 == s,
    decreases entries.len(),
{
    if entries.len() > 0 {
        let p = entries.drop_last();
        let e = entries.last();
        assert forall|i: int, j: int| 0 <= i < j < p.len() implies p[i].0 != p[j].0 && p[i].1 != p[j].1 by {
            assert(p[i] == entries[i] && p[j] == entries[j]);
        }
        assert forall|i: int| 0 <= i < p.len() implies #[trigger] p[i].1 < u64::MAX by {
            assert(p[i] == entries[i]);
        }
        lemma_loaded_consistent(p);
        let v = apply_entries(KeyMapView::empty(), p);
        let n = entries.len() - 1;
        if v.key_to_seq.contains_key(e.0) {
            let i = choose|i: int| 0 <= i < p.len() && p[i].0 == e.0;
            assert(entries[i].0 == entries[n].0);
        }
        if v.seq_to_key.contains_key(e.1) {
            let i = choose|i: int| 0 <= i < p.len() && p[i].1 == e.1;
            assert(entries[i].1 == entries[n].1);
        }
        assert(e.1 < u64::MAX) by {
            assert(entries[n].1 < u64::MAX);
        }
        lemma_with_entry_consistent(v, e.0, e.1);
        let w = apply_entries(KeyMapView::empty(), entries);
        assert forall|k: Seq<char>| #[trigger] w.key_to_seq.contains_key(k) <==> exists|i: int| 0 <= i < entries.len() && entries[i].0 == k by {
            if w.key_to_seq.contains_key(k) && k != e.0 {
                let i = choose|i: int| 0 <= i < p.len() && p[i].0 == k;
                assert(entries[i].0 == k);
            }
            if exists|i: int| 0 <= i < entries.len() && entries[i].0 == k {
                let i = choose|i: int| 0 <= i < entries.len() && entries[i].0 == k;
                if i < n {
                    assert(p[i].0 == k);
                }
            }
        }
        assert forall|s: u64| #[trigger] w.seq_to_key.contains_key(s) <==> exists|i: int| 0 <= i < entries.len() && entries[i].1 == s by {
            if w.seq_to_key.contains_key(s) && s != e.1 {
                let i = choose|i: int| 0 <= i < p.len() && p[i].1 == s;
                assert(entries[i].1 == s);
            }
            if exists|i: int| 0 <= i < entries.len() && entries[i].1 == s {
                let i = choose|i: int| 0 <= i < entries.len() && entries[i].1 == s;
                if i < n {
                    assert(p[i].1 == s);
                }
            }
        }
    }
}

/// The key map that asking for `keys` in order builds from an empty one.
pub open spec fn built(keys: Seq<Seq<char>>) -> KeyMapView
    decreases keys.len(),
{
    if keys.len() == 0 {
        KeyMapView::empty()
    } else {
        built(keys.drop_last()).with_key(keys.last())
    }
}

/// The lines that asking for `keys` in order appends to the key map file: one for each key when
/// it is new, with the number it gets.
pub open spec fn appended(keys: Seq<Seq<char>>) -> Seq<(Seq<char>, u64)>
    decreases keys.len(),
{
    if keys.len() == 0 {
        seq![]
    } else {
        let v = built(keys.drop_last());
        if v.key_to_seq.contains_key(keys.last()) {
            appended(keys.drop_last())
        } else {
            appended(keys.drop_last()).push((keys.last(), v.next_seq))
        }
    }
}

/// A key map written and loaded again gives back the same map: the file that asking for
/// storable keys in order appends to loads as the map that those requests built.
pub proof fn lemma_built_reload(keys: Seq<Seq<char>>)
    requires
        forall|i: int| 0 <= i < keys.len() ==> storable_key(#[trigger] keys[i]),
    ensures
        load_keymap_lines(lines(keymap_text(appended(keys)))) == KeyMapLoad::Loaded(appended(keys)),
        apply_entries(KeyMapView::empty(), appended(keys)) == built(keys),
    decreases keys.len(),
{
    if keys.len() > 0 {
        let p = keys.drop_last();
        assert forall|i: int| 0 <= i < p.len() implies storable_key(#[trigger] p[i]) by {
            assert(p[i] == keys[i]);
        }
        lemma_built_reload(p);
        lemma_appended_keys(keys);
        lemma_keymap_text_roundtrip(appended(keys));
        let v = built(p);
        if !v.key_to_seq.contains_key(keys.last()) {
            assert(appended(keys).drop_last() =~= appended(p));
        }
    } else {
        lemma_keymap_text_roundtrip(appended(keys));
    }
}

/// Every line appended records one of the keys asked for.
proof fn lemma_appended_keys(keys: Seq<Seq<char>>)
    requires
        forall|i: int| 0 <= i < keys.len() ==> storable_key(#[trigger] keys[i]),
    ensures
        forall|i: int| 0 <= i < appended(keys).len() ==> storable_key(#[trigger] appended(keys)[i].0),
    decreases keys.len(),
{
    if keys.len() > 0 {
        let p = keys.drop_last();
        assert forall|i: int| 0 <= i < p.len() implies storable_key(#[trigger] p[i]) by {
            assert(p[i] == keys[i]);
        }
        lemma_appended_keys(p);
        assert(storable_key(keys[keys.len() - 1]));
        let a = appended(keys);
        let ap = appended(p);
        assert forall|i: int| 0 <= i < a.len() implies storable_key(#[trigger] a[i].0) by {
            if i < ap.len() {
                assert(a[i] == ap[i]);
                assert(storable_key(ap[i].0));
            } else {
                assert(a[i].0 == keys.last());
            }
        }
    }
}

/// Every entry that a load that fits reads has a sequence number below `u64::MAX`.
proof fn lemma_loaded_fit(ls: Seq<Seq<char>>)
    requires
        keymap_lines_fit(ls),
    ensures
        load_keymap_lines(ls) matches KeyMapLoad::Loaded(es) ==> forall|i: int| 0 <= i < es.len() ==> #[trigger] es[i].1 < u64::MAX,
    decreases ls.len(),
{
    if ls.len() > 0 {
        match parse_keymap_line(ls[0]) {
            KeyMapLine::Blank => {
                lemma_loaded_fit(ls.drop_first());
            },
            KeyMapLine::Entry(k, n) => {
                lemma_loaded_fit(ls.drop_first());
                if let KeyMapLoad::Loaded(rest) = load_keymap_lines(ls.drop_first()) {
                    let es = seq![(k, n)] + rest;
                    assert forall|i: int| 0 <= i < es.len() implies #[trigger] es[i].1 < u64::MAX by {
                        if i > 0 {
                            assert(es[i] == rest[i - 1]);
                        }
                    }
                }
            },
            _ => {},
        }
    }
}

/// Asking for one more key: the map that `get_or_create_seq` leaves is `built` of the keys asked
/// so far, and the file gains the line that `keymap_line` gives for a new key, as `appended` says.
pub proof fn lemma_built_push(keys: Seq<Seq<char>>, key: Seq<char>)
    ensures
        built(keys.push(key)) == built(keys).with_key(key),
        appended(keys.push(key)) == if built(keys).key_to_seq.contains_key(key) {
            appended(keys)
        } else {
            appended(keys).push((key, built(keys).next_seq))
        },
        keymap_text(appended(keys.push(key))) == if built(keys).key_to_seq.contains_key(key) {
            keymap_text(appended(keys))
        } else {
            keymap_text(appended(keys)) + spec_keymap_line(key, built(keys).next_seq)
        },
{
    assert(keys.push(key).drop_last() =~= keys);
    if !built(keys).key_to_seq.contains_key(key) {
        lemma_keymap_text_push(appended(keys), (key, built(keys).next_seq));
    }
}

/// The text of entries and one more is the text of the entries followed by the new entry's line.
pub proof fn lemma_keymap_text_push(entries: Seq<(Seq<char>, u64)>, e: (Seq<char>, u64))
    ensures
        keymap_text(entries.push(e)) == keymap_text(entries) + spec_keymap_line(e.0, e.1),
    decreases entries.len(),
{
    if entries.len() == 0 {
        let one = entries.push(e);
        assert(one.drop_first() =~= Seq::<(Seq<char>, u64)>::empty());
        assert(keymap_text(one.drop_first()) == Seq::<char>::empty());
        assert(one[0] == e);
        assert(keymap_text(one) == spec_keymap_line(e.0, e.1) + keymap_text(one.drop_first()));
        assert(keymap_text(one) =~= spec_keymap_line(e.0, e.1));
        assert(keymap_text(entries) =~= Seq::<char>::empty());
        assert(keymap_text(entries) + spec_keymap_line(e.0, e.1) =~= spec_keymap_line(e.0, e.1));
    } else {
        lemma_keymap_text_push(entries.drop_first(), e);
        assert(entries.push(e).drop_first() =~= entries.drop_first().push(e));
        assert(keymap_text(entries.push(e)) =~= keymap_text(entries) + spec_keymap_line(e.0, e.1));
    }
}

/// A key map file whose last line has no newline loads the same: dropping the final newline of
/// the text of storable entries keeps every entry, the last one included.
pub proof fn lemma_keymap_text_without_final_newline(entries: Seq<(Seq<char>, u64)>)
    requires
        entries.len() > 0,
        forall|i: int| 0 <= i < entries.len() ==> storable_key(#[trigger] entries[i].0),
    ensures
        load_keymap_lines(lines(keymap_text(entries).drop_last())) == KeyMapLoad::Loaded(entries),
{
    lemma_lines_drop_final_newline(entries);
    lemma_keymap_text_roundtrip(entries);
}

proof fn lemma_lines_drop_final_newline(entries: Seq<(Seq<char>, u64)>)
    requires
        entries.len() > 0,
        forall|i: int| 0 <= i < entries.len() ==> storable_key(#[trigger] entries[i].0),
    ensures
        keymap_text(entries).len() > 0,
        lines(keymap_text(entries).drop_last()) == lines(keymap_text(entries)),
    decreases entries.len(),
{
    let (key, seq) = entries[0];
    assert(storable_key(entries[0].0));
    let rest = entries.drop_first();
    let d = decimal(seq as nat);
    lemma_decimal_digits(seq as nat);
    let body = key + seq![','] + d;
    lemma_count_zero(key, '\n');
    assert forall|i: int| 0 <= i < body.len() implies body[i] != '\n' by {
        if i < key.len() {
            assert(body[i] == key[i]);
        } else if i > key.len() {
            assert(body[i] == d[i - key.len() - 1]);
            assert(is_digit(d[i - key.len() - 1]));
        }
    }
    assert(body.last() == d.last());
    assert(is_digit(d.last()));
    let r = keymap_text(rest);
    assert(keymap_text(entries) == body + seq!['\n'] + r) by {
        assert(spec_keymap_line(key, seq) == body + seq!['\n']);
    }
    lemma_lines_first(body, r);
    if rest.len() == 0 {
        assert(r =~= Seq::<char>::empty());
        assert((body + seq!['\n'] + r).drop_last() =~= body);
        crate::text::lemma_lines_last(body);
        assert(lines(r) =~= Seq::<Seq<char>>::empty());
        assert(seq![body] + lines(r) =~= seq![body]);
    } else {
        assert forall|i: int| 0 <= i < rest.len() implies storable_key(#[trigger] rest[i].0) by {
            assert(rest[i] == entries[i + 1]);
            assert(storable_key(entries[i + 1].0));
        }
        lemma_lines_drop_final_newline(rest);
        assert((body + seq!['\n'] + r).drop_last() =~= body + seq!['\n'] + r.drop_last());
        lemma_lines_first(body, r.drop_last());
    }
}

} // verus!
