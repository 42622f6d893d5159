//! The label inventory: what an operator has written down about hardware
//! addresses, one entry per line of a flat file.

use vstd::prelude::*;

use crate::address::HardwareAddress;
use crate::text::{
    append_chars,
    chars_of,
    clean_line,
    is_field,
    join_lines,
    lemma_field_ends,
    lemma_lines_of_unlines,
    lemma_scan_reaches,
    lemma_scan_stops,
    lemma_trim_end_stops,
    lines,
    scan,
    scan_from,
    split_lines,
    string_of,
    texts,
    to_uppercase,
    trim,
    trim_end,
    trimmed,
    unlines,
    uppercase_text,
    CharClass,
};

verus! {

/// One entry of the inventory.
#[derive(Clone, Debug, PartialEq, Eq)]
pub struct LabelEntry {
    /// The hardware address that the entry is about, as text.
    pub key: String,
    /// The name the operator gave.
    pub label: String,
    /// The hostname the operator gave, if the entry has the field.
    pub hostname: Option<String>,
}

/// What an entry holds, as mathematical text.
pub struct LabelRecord {
    pub key: Seq<char>,
    pub label: Seq<char>,
    pub hostname: Option<Seq<char>>,
}

impl View for LabelEntry {
    type V = LabelRecord;

    open spec fn view(&self) -> LabelRecord {
        LabelRecord {
            key: self.key@,
            label: self.label@,
            hostname: match self.hostname {
                Some(h) => Some(h@),
                None => None,
            },
        }
    }
}

/// The fields of a line `KEY=LABEL` or `KEY=LABEL=HOSTNAME`, each without
/// the white space around it. A line without `=` has none. What follows a
/// third `=` is not read.
pub open spec fn label_fields(line: Seq<char>) -> Option<LabelRecord> {
    let first = scan(line, 0, CharClass::Exactly('='));
    let second = scan(line, first + 1, CharClass::Exactly('='));
    let third = scan(line, second + 1, CharClass::Exactly('='));
    if first >= line.len() {
        None
    } else {
        Some(
            LabelRecord {
                key: trim(line.subrange(0, first)),
                label: trim(line.subrange(first + 1, second)),
                hostname: if second >= line.len() {
                    None
                } else {
                    Some(trim(line.subrange(second + 1, third)))
                },
            },
        )
    }
}

/// A record with its key in upper case.
pub open spec fn normalized(r: LabelRecord) -> LabelRecord {
    LabelRecord { key: uppercase_text(r.key), label: r.label, hostname: r.hostname }
}

/// The inventory that lines spell: every line with fields gives an entry
/// under its key in upper case, and of two lines with one key the later
/// stands.
pub open spec fn labels_of(ls: Seq<Seq<char>>) -> Map<Seq<char>, LabelRecord>
    decreases ls.len(),
{
    if ls.len() == 0 {
        Map::empty()
    } else {
        let before = labels_of(ls.drop_last());
        match label_fields(ls.last()) {
            Some(r) => before.insert(normalized(r).key, normalized(r)),
            None => before,
        }
    }
}

/// The line that spells a record.
pub open spec fn label_line(r: LabelRecord) -> Seq<char> {
    r.key + seq!['='] + r.label + match r.hostname {
        Some(h) => seq!['='] + h,
        None => Seq::empty(),
    }
}

/// The record of a key that has neither label nor hostname yet.
pub open spec fn blank_record(key: Seq<char>) -> LabelRecord {
    LabelRecord { key, label: Seq::empty(), hostname: Some(Seq::empty()) }
}

/// Whether some line is an entry for `key`.
pub open spec fn key_listed(ls: Seq<Seq<char>>, key: Seq<char>) -> bool {
    exists|i: int|
        0 <= i < ls.len() && (#[trigger] label_fields(ls[i])) is Some && normalized(
            label_fields(ls[i])->0,
        ).key == key
}

/// Whether some entry of the inventory has the hostname `h`.
pub open spec fn hostname_listed(m: Map<Seq<char>, LabelRecord>, h: Seq<char>) -> bool {
    exists|k: Seq<char>| m.contains_key(k) && (#[trigger] m[k]).hostname == Some(h)
}

/// No key occurs twice.
pub open spec fn distinct_keys(es: Seq<LabelEntry>) -> bool {
    forall|i: int, j: int|
        #![trigger es[i], es[j]]
        0 <= i < j < es.len() ==> es[i].key@ != es[j].key@
}

/// Whether some entry has the key `k`.
pub open spec fn has_key(es: Seq<LabelEntry>, k: Seq<char>) -> bool {
    exists|i: int| 0 <= i < es.len() && (#[trigger] es[i]).key@ == k
}

/// The entries as a map from key to record.
pub open spec fn records(es: Seq<LabelEntry>) -> Map<Seq<char>, LabelRecord> {
    Map::new(
        |k: Seq<char>| has_key(es, k),
        |k: Seq<char>| es[choose|i: int| 0 <= i < es.len() && (#[trigger] es[i]).key@ == k]@,
    )
}

/// With distinct keys, the map holds each entry under its key.
pub proof fn lemma_records_at(es: Seq<LabelEntry>, i: int)
    requires
        distinct_keys(es),
        0 <= i < es.len(),
    ensures
        records(es).contains_key(es[i].key@),
        records(es)[es[i].key@] == es[i]@,
{
    let k = es[i].key@;
    let j = choose|j: int| 0 <= j < es.len() && (#[trigger] es[j]).key@ == k;
    if i < j {
        assert(es[i].key@ != es[j].key@);
    }
    if j < i {
        assert(es[j].key@ != es[i].key@);
    }
}

impl LabelEntry {
    /// The line that spells the entry.
    pub fn to_line(&self) -> (s: String)
        ensures
            s@ == label_line(self@),
    {
        let mut v = chars_of(self.key.as_str());
        v.push('=');
        let label = chars_of(self.label.as_str());
        append_chars(&mut v, &label);
        match &self.hostname {
            Some(h) => {
                v.push('=');
                let hostname = chars_of(h.as_str());
                append_chars(&mut v, &hostname);
            },
            None => {},
        }
        assert(v@ =~= label_line(self@));
        let s = string_of(&v, 0, v.len());
        assert(v@.subrange(0, v.len() as int) == v@);
        s
    }
}

/// The label inventory in memory: a map from key to entry.
pub struct LabelStore {
    entries: Vec<LabelEntry>,
}

impl LabelStore {
    /// The inventory as a map from key to record.
    pub closed spec fn view(&self) -> Map<Seq<char>, LabelRecord> {
        records(self.entries@)
    }

    /// The invariant: no key is held twice.
    pub closed spec fn wf(&self) -> bool {
        distinct_keys(self.entries@)
    }

    /// The empty inventory, as of a file that is not there.
    pub fn new() -> (r: LabelStore)
        ensures
            r.wf(),
            r@ == Map::<Seq<char>, LabelRecord>::empty(),
    {
        let r = LabelStore { entries: Vec::new() };
        assert(r@ =~= Map::<Seq<char>, LabelRecord>::empty());
        r
    }

    /// The number of entries.
    pub fn len(&self) -> (n: usize)
        requires
            self.wf(),
        ensures
            n == self@.dom().len(),
            self@.dom().finite(),
    {
        proof {
            lemma_records_count(self.entries@);
        }
        self.entries.len()
    }

    /// The place of the entry under `key`.
    fn position(&self, key: &String) -> (r: Option<usize>)
        ensures
            match r {
                Some(i) => i < self.entries@.len() && self.entries@[i as int].key@ == key@,
                None => !has_key(self.entries@, key@),
            },
    {
        let mut i: usize = 0;
        while i < self.entries.len()
            invariant
                i <= self.entries.len(),
                forall|j: int| 0 <= j < i ==> (#[trigger] self.entries@[j]).key@ != key@,
            decreases self.entries.len() - i,
        {
            if self.entries[i].key == *key {
                return Some(i);
            }
            i = i + 1;
        }
        None
    }

    /// Puts `entry` under its key, in place of what stood there.
    pub fn insert(&mut self, entry: LabelEntry)
        requires
            old(self).wf(),
        ensures
            final(self).wf(),
            final(self)@ == old(self)@.insert(entry.key@, entry@),
    {
        let ghost before = self.entries@;
        match self.position(&entry.key) {
            Some(i) => {
                self.entries.set(i, entry);
                proof {
                    let after = self.entries@;
                    assert forall|a: int, b: int| 0 <= a < b < after.len() implies (
                    #[trigger] after[a]).key@ != (#[trigger] after[b]).key@ by {
                        assert(before[a].key@ != before[b].key@);
                    }
                    assert forall|k: Seq<char>| has_key(after, k) <==> has_key(before, k) || k
                        == entry.key@ by {
                        if has_key(after, k) {
                            let j = choose|j: int| 0 <= j < after.len() && (#[trigger] after[j]).key@
                                == k;
                            assert(before[j].key@ == k);
                        }
                        if has_key(before, k) {
                            let j = choose|j: int|
                                0 <= j < before.len() && (#[trigger] before[j]).key@ == k;
                            assert(after[j].key@ == k);
                        }
                        if k == entry.key@ {
                            assert(after[i as int].key@ == k);
                        }
                    }
                    assert forall|k: Seq<char>| has_key(after, k) implies #[trigger] records(
                        after,
                    )[k] == before_or(before, entry, k) by {
                        let j = choose|j: int| 0 <= j < after.len() && (#[trigger] after[j]).key@
                            == k;
                        lemma_records_at(after, j);
                        if j != i {
                            assert(after[j] == before[j]);
                            lemma_records_at(before, j);
                        }
                    }
                    assert(records(after) =~= records(before).insert(entry.key@, entry@));
                }
            },
            None => {
                self.entries.push(entry);
                proof {
                    let after = self.entries@;
                    let n = before.len() as int;
                    assert forall|a: int, b: int| 0 <= a < b < after.len() implies (
                    #[trigger] after[a]).key@ != (#[trigger] after[b]).key@ by {
                        if b < n {
                            assert(before[a].key@ != before[b].key@);
                        } else {
                            assert(before[a].key@ != entry.key@);
                        }
                    }
                    assert forall|k: Seq<char>| has_key(after, k) <==> has_key(before, k) || k
                        == entry.key@ by {
                        if has_key(after, k) {
                            let j = choose|j: int| 0 <= j < after.len() && (#[trigger] after[j]).key@
                                == k;
                            if j < n {
                                assert(before[j].key@ == k);
                            }
                        }
                        if has_key(before, k) {
                            let j = choose|j: int|
                                0 <= j < before.len() && (#[trigger] before[j]).key@ == k;
                            assert(after[j].key@ == k);
                        }
                        if k == entry.key@ {
                            assert(after[n].key@ == k);
                        }
                    }
                    assert forall|k: Seq<char>| has_key(after, k) implies #[trigger] records(
                        after,
                    )[k] == before_or(before, entry, k) by {
                        let j = choose|j: int| 0 <= j < after.len() && (#[trigger] after[j]).key@
                            == k;
                        lemma_records_at(after, j);
                        if j < n {
                            assert(after[j] == before[j]);
                            lemma_records_at(before, j);
                        }
                    }
                    assert(records(after) =~= records(before).insert(entry.key@, entry@));
                }
            },
        }
    }

    /// The entry under `key`.
    pub fn get(&self, key: &str) -> (r: Option<&LabelEntry>)
        requires
            self.wf(),
        ensures
            match r {
                Some(e) => self@.contains_key(key@) && self@[key@] == e@ && e.key@ == key@,
                None => !self@.contains_key(key@),
            },
    {
        let k: String = key.to_owned();
        match self.position(&k) {
            Some(i) => {
                proof {
                    lemma_records_at(self.entries@, i as int);
                }
                Some(&self.entries[i])
            },
            None => None,
        }
    }

    /// Whether some entry has the hostname `h`.
    pub fn has_hostname(&self, h: &str) -> (r: bool)
        requires
            self.wf(),
        ensures
            r == hostname_listed(self@, h@),
    {
        let wanted: String = h.to_owned();
        let mut i: usize = 0;
        while i < self.entries.len()
            invariant
                self.wf(),
                wanted@ == h@,
                i <= self.entries.len(),
                forall|j: int| 0 <= j < i ==> (#[trigger] self.entries@[j])@.hostname != Some(h@),
            decreases self.entries.len() - i,
        {
            let found = match &self.entries[i].hostname {
                Some(x) => *x == wanted,
                None => false,
            };
            if found {
                proof {
                    lemma_records_at(self.entries@, i as int);
                }
                return true;
            }
            i = i + 1;
        }
        proof {
            if hostname_listed(self@, h@) {
                let k = choose|k: Seq<char>|
                    self@.contains_key(k) && (#[trigger] self@[k]).hostname == Some(h@);
                let j = choose|j: int|
                    0 <= j < self.entries@.len() && (#[trigger] self.entries@[j]).key@ == k;
                lemma_records_at(self.entries@, j);
            }
        }
        false
    }

    /// Reads the inventory from the content of its file.
    pub fn load(content: &str) -> (r: LabelStore)
        ensures
            r.wf(),
            r@ == labels_of(lines(content@)),
    {
        let text = chars_of(content);
        let ls = split_lines(&text);
        let mut r = LabelStore::new();
        let mut i: usize = 0;
        while i < ls.len()
            invariant
                i <= ls.len(),
                r.wf(),
                r@ == labels_of(texts(ls@).subrange(0, i as int)),
            decreases ls.len() - i,
        {
            assert(texts(ls@).subrange(0, i + 1).drop_last() == texts(ls@).subrange(0, i as int));
            match parse_label_chars(&ls[i]) {
                Some(e) => {
                    r.insert(e);
                },
                None => {},
            }
            i = i + 1;
        }
        assert(texts(ls@).subrange(0, ls.len() as int) == texts(ls@));
        r
    }
}

/// What stands under `k` after `entry` is put into `before`.
spec fn before_or(before: Seq<LabelEntry>, entry: LabelEntry, k: Seq<char>) -> LabelRecord {
    if k == entry.key@ {
        entry@
    } else {
        records(before)[k]
    }
}

/// With distinct keys there are as many keys as entries.
pub proof fn lemma_records_count(es: Seq<LabelEntry>)
    requires
        distinct_keys(es),
    ensures
        records(es).dom().finite(),
        records(es).dom().len() == es.len(),
    decreases es.len(),
{
    if es.len() == 0 {
        assert(records(es).dom() =~= Set::<Seq<char>>::empty());
    } else {
        let t = es.drop_last();
        assert forall|i: int, j: int| 0 <= i < j < t.len() implies (#[trigger] t[i]).key@ != (
        #[trigger] t[j]).key@ by {
            assert(t[i] == es[i] && t[j] == es[j]);
        }
        lemma_records_count(t);
        let k = es.last().key@;
        assert(!has_key(t, k)) by {
            if has_key(t, k) {
                let j = choose|j: int| 0 <= j < t.len() && (#[trigger] t[j]).key@ == k;
                assert(es[j].key@ != es[es.len() - 1].key@);
            }
        }
        assert forall|x: Seq<char>| has_key(es, x) <==> has_key(t, x) || x == k by {
            if has_key(es, x) {
                let j = choose|j: int| 0 <= j < es.len() && (#[trigger] es[j]).key@ == x;
                if j < t.len() {
                    assert(t[j].key@ == x);
                }
            }
            if has_key(t, x) {
                let j = choose|j: int| 0 <= j < t.len() && (#[trigger] t[j]).key@ == x;
                assert(es[j].key@ == x);
            }
            if x == k {
                assert(es[es.len() - 1].key@ == x);
            }
        }
        assert(records(es).dom() =~= records(t).dom().insert(k));
    }
}

/// The fields of a line of the inventory, as they stand in it.
pub fn split_label_chars(line: &Vec<char>) -> (r: Option<LabelEntry>)
    ensures
        match r {
            Some(e) => label_fields(line@) == Some(e@),
            None => label_fields(line@) is None,
        },
{
    let n = line.len();
    let first = scan_from(line, 0, CharClass::Exactly('='));
    if first >= n {
        return None;
    }
    let second = scan_from(line, first + 1, CharClass::Exactly('='));
    let key = trimmed(line, 0, first);
    let label = trimmed(line, first + 1, second);
    let hostname = if second >= n {
        None
    } else {
        let third = scan_from(line, second + 1, CharClass::Exactly('='));
        let h = trimmed(line, second + 1, third);
        let hs = string_of(&h, 0, h.len());
        assert(h@.subrange(0, h.len() as int) == h@);
        Some(hs)
    };
    let ks = string_of(&key, 0, key.len());
    let bs = string_of(&label, 0, label.len());
    assert(key@.subrange(0, key.len() as int) == key@);
    assert(label@.subrange(0, label.len() as int) == label@);
    Some(LabelEntry { key: ks, label: bs, hostname })
}

/// The fields of a line of the inventory, as they stand in it.
pub fn split_label_line(line: &str) -> (r: Option<LabelEntry>)
    ensures
        match r {
            Some(e) => label_fields(line@) == Some(e@),
            None => label_fields(line@) is None,
        },
{
    let v = chars_of(line);
    split_label_chars(&v)
}

/// The entry that a line of the inventory spells, its key in upper case.
pub fn parse_label_chars(line: &Vec<char>) -> (r: Option<LabelEntry>)
    ensures
        match r {
            Some(e) => label_fields(line@) is Some && e@ == normalized(label_fields(line@)->0),
            None => label_fields(line@) is None,
        },
{
    match split_label_chars(line) {
        Some(e) => {
            let key = to_uppercase(e.key.as_str());
            Some(LabelEntry { key, label: e.label, hostname: e.hostname })
        },
        None => None,
    }
}

/// The entry that a line of the inventory spells, its key in upper case.
pub fn parse_label_line(line: &str) -> (r: Option<LabelEntry>)
    ensures
        match r {
            Some(e) => label_fields(line@) is Some && e@ == normalized(label_fields(line@)->0),
            None => label_fields(line@) is None,
        },
{
    let v = chars_of(line);
    parse_label_chars(&v)
}

/// Sees to it that the inventory lists `hardware`: where no line of
/// `content` is an entry for it, the result is the content to write, with
/// every line as it was and a blank entry for the address behind them.
pub fn ensure_entry(content: &str, hardware: HardwareAddress) -> (r: Option<String>)
    ensures
        match r {
            Some(c) => !key_listed(lines(content@), hardware.text()) && c@ == unlines(
                lines(content@).push(label_line(blank_record(hardware.text()))),
            ),
            None => key_listed(lines(content@), hardware.text()),
        },
{
    let text = chars_of(content);
    let mut ls = split_lines(&text);
    let key = hardware.to_text();
    let mut i: usize = 0;
    while i < ls.len()
        invariant
            i <= ls.len(),
            key@ == hardware.text(),
            texts(ls@) == lines(content@),
            !key_listed(texts(ls@).subrange(0, i as int), key@),
        decreases ls.len() - i,
    {
        let listed = match parse_label_chars(&ls[i]) {
            Some(e) => e.key == key,
            None => false,
        };
        if listed {
            assert(label_fields(texts(ls@)[i as int]) is Some);
            return None;
        }
        proof {
            let now = texts(ls@).subrange(0, i + 1);
            if key_listed(now, key@) {
                let j = choose|j: int|
                    0 <= j < now.len() && (#[trigger] label_fields(now[j])) is Some && normalized(
                        label_fields(now[j])->0,
                    ).key == key@;
                if j < i {
                    assert(label_fields(texts(ls@).subrange(0, i as int)[j]) is Some);
                }
            }
        }
        i = i + 1;
    }
    assert(texts(ls@).subrange(0, ls.len() as int) == texts(ls@));
    let mut line = hardware.to_chars();
    line.push('=');
    line.push('=');
    assert(line@ == label_line(blank_record(hardware.text())));
    let ghost before = texts(ls@);
    ls.push(line);
    assert(texts(ls@) == before.push(line@));
    let out = join_lines(&ls);
    let s = string_of(&out, 0, out.len());
    assert(out@.subrange(0, out.len() as int) == out@);
    Some(s)
}

/// Whether `f` can be written as a field of an entry and read back: a
/// field without `=`.
pub open spec fn plain_field(f: Seq<char>) -> bool {
    is_field(f) && forall|i: int| 0 <= i < f.len() ==> f[i] != '='
}

/// Whether a record can be written as a line and read back.
pub open spec fn plain_record(r: LabelRecord) -> bool {
    &&& plain_field(r.key)
    &&& plain_field(r.label)
    &&& r.hostname matches Some(h) ==> plain_field(h)
}

/// The lines that spell records.
pub open spec fn label_lines(rs: Seq<LabelRecord>) -> Seq<Seq<char>> {
    Seq::new(rs.len(), |i: int| label_line(rs[i]))
}

/// The inventory that holds the records, each under its key in upper case,
/// and of two with one key the later.
pub open spec fn stored(rs: Seq<LabelRecord>) -> Map<Seq<char>, LabelRecord>
    decreases rs.len(),
{
    if rs.len() == 0 {
        Map::empty()
    } else {
        stored(rs.drop_last()).insert(normalized(rs.last()).key, normalized(rs.last()))
    }
}

/// Trimming leaves nothing to trim.
pub proof fn lemma_trim_is_field(s: Seq<char>)
    requires
        forall|i: int| 0 <= i < s.len() ==> s[i] != '\n',
    ensures
        is_field(trim(s)),
{
    let a = scan(s, 0, CharClass::Solid);
    let b = trim_end(s);
    lemma_scan_stops(s, 0, CharClass::Solid);
    lemma_trim_end_stops(s);
    let t = trim(s);
    if a < b {
        assert(t[0] == s[a]);
        assert(t[t.len() - 1] == s[b - 1]);
        lemma_scan_reaches(t, 0, 0, CharClass::Solid);
        assert(trim_end(t) == t.len());
        assert(t.subrange(0, t.len() as int) == t);
        assert forall|i: int| 0 <= i < t.len() implies t[i] != '\n' by {
            assert(t[i] == s[a + i]);
        }
    } else {
        assert(trim_end(t) == 0);
        assert(scan(t, 0, CharClass::Solid) == 0);
    }
}

/// The line of a record that can be written gives the record back.
pub proof fn lemma_fields_of_label_line(r: LabelRecord)
    requires
        plain_record(r),
    ensures
        label_fields(label_line(r)) == Some(r),
        clean_line(label_line(r)),
{
    let l = label_line(r);
    let eq = CharClass::Exactly('=');
    let first = r.key.len() as int;
    let second = first + 1 + r.label.len();
    assert forall|k: int| 0 <= k < first implies !eq.has(#[trigger] l[k]) by {
        assert(l[k] == r.key[k]);
    }
    assert(l[first] == '=');
    lemma_scan_reaches(l, 0, first, eq);
    assert forall|k: int| first + 1 <= k < second implies !eq.has(#[trigger] l[k]) by {
        assert(l[k] == r.label[k - first - 1]);
    }
    assert(l.subrange(0, first) =~= r.key);
    assert(l.subrange(first + 1, second) =~= r.label);
    match r.hostname {
        Some(h) => {
            assert(l[second] == '=');
            lemma_scan_reaches(l, first + 1, second, eq);
            let third = l.len() as int;
            assert forall|k: int| second + 1 <= k < third implies !eq.has(#[trigger] l[k]) by {
                assert(l[k] == h[k - second - 1]);
            }
            lemma_scan_reaches(l, second + 1, third, eq);
            assert(l.subrange(second + 1, third) =~= h);
            if h.len() > 0 {
                lemma_field_ends(h);
                assert(l.last() == h.last());
            } else {
                assert(l.last() == '=');
            }
            assert forall|i: int| 0 <= i < l.len() implies l[i] != '\n' by {
                if i < first {
                    assert(l[i] == r.key[i]);
                } else if i == first {
                } else if i < second {
                    assert(l[i] == r.label[i - first - 1]);
                } else if i == second {
                } else {
                    assert(l[i] == h[i - second - 1]);
                }
            }
        },
        None => {
            assert(second == l.len());
            lemma_scan_reaches(l, first + 1, second, eq);
            if r.label.len() > 0 {
                lemma_field_ends(r.label);
                assert(l.last() == r.label.last());
            } else {
                assert(l.last() == '=');
            }
            assert forall|i: int| 0 <= i < l.len() implies l[i] != '\n' by {
                if i < first {
                    assert(l[i] == r.key[i]);
                } else if i == first {
                } else {
                    assert(l[i] == r.label[i - first - 1]);
                }
            }
        },
    }
}

/// The lines of records that can be written spell those records.
proof fn lemma_labels_of_label_lines(rs: Seq<LabelRecord>)
    requires
        forall|i: int| 0 <= i < rs.len() ==> plain_record(#[trigger] rs[i]),
    ensures
        labels_of(label_lines(rs)) == stored(rs),
    decreases rs.len(),
{
    if rs.len() > 0 {
        assert(label_lines(rs).drop_last() =~= label_lines(rs.drop_last()));
        assert forall|i: int| 0 <= i < rs.drop_last().len() implies plain_record(
            #[trigger] rs.drop_last()[i],
        ) by {
            assert(rs.drop_last()[i] == rs[i]);
        }
        lemma_labels_of_label_lines(rs.drop_last());
        assert(plain_record(rs[rs.len() - 1]));
        lemma_fields_of_label_line(rs.last());
    }
}

/// Entries that are written out line by line and read again are the
/// entries that were written: each is found under its key in upper case,
/// with the label and the hostname it had.
pub proof fn lemma_labels_round_trip(rs: Seq<LabelRecord>)
    requires
        forall|i: int| 0 <= i < rs.len() ==> plain_record(#[trigger] rs[i]),
    ensures
        labels_of(lines(unlines(label_lines(rs)))) == stored(rs),
{
    let ls = label_lines(rs);
    assert forall|j: int| 0 <= j < ls.len() implies clean_line(#[trigger] ls[j]) by {
        assert(plain_record(rs[j]));
        lemma_fields_of_label_line(rs[j]);
    }
    lemma_lines_of_unlines(ls);
    lemma_labels_of_label_lines(rs);
}

/// Every hostname of an inventory that was read from lines is a field.
pub proof fn lemma_loaded_hostnames(ls: Seq<Seq<char>>)
    requires
        forall|j: int, k: int| 0 <= j < ls.len() && 0 <= k < ls[j].len() ==> (#[trigger] ls[j][k]) != '\n',
    ensures
        forall|key: Seq<char>|
            labels_of(ls).contains_key(key) ==> match (#[trigger] labels_of(ls)[key]).hostname {
                Some(h) => is_field(h),
                None => true,
            },
    decreases ls.len(),
{
    if ls.len() > 0 {
        let before = ls.drop_last();
        assert forall|j: int, k: int| 0 <= j < before.len() && 0 <= k < before[j].len() implies (
        #[trigger] before[j][k]) != '\n' by {
            assert(before[j][k] == ls[j][k]);
        }
        lemma_loaded_hostnames(before);
        let line = ls.last();
        let first = scan(line, 0, CharClass::Exactly('='));
        let second = scan(line, first + 1, CharClass::Exactly('='));
        let third = scan(line, second + 1, CharClass::Exactly('='));
        if first < line.len() && second < line.len() {
            lemma_scan_stops(line, 0, CharClass::Exactly('='));
            lemma_scan_stops(line, first + 1, CharClass::Exactly('='));
            lemma_scan_stops(line, second + 1, CharClass::Exactly('='));
            let part = line.subrange(second + 1, third);
            assert forall|i: int| 0 <= i < part.len() implies part[i] != '\n' by {
                assert(part[i] == ls[ls.len() - 1][second + 1 + i]);
            }
            lemma_trim_is_field(part);
        }
    }
}

} // verus!
