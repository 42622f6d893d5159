//! Reconciliation of a static hostname-mapping file with what a scan found
//! and what the label inventory says.

use vstd::prelude::*;

use crate::address::{lemma_parse_text, lemma_text_is_word, parse_address, NetworkAddress};
use crate::labels::{hostname_listed, labels_of, lemma_loaded_hostnames, LabelRecord, LabelStore};
use crate::registry::{DiscoveredHost, HostRegistry};
use crate::text::{
    append_chars,
    chars_of,
    clean_line,
    first_word,
    has_two_words,
    is_field,
    is_space,
    join_lines,
    lemma_field_ends,
    lemma_lines_have_no_line_feed,
    lemma_lines_of_unlines,
    lemma_scan_reaches,
    lemma_word_is_first_word,
    lemma_words_are_words,
    lemma_words_of_columns,
    lines,
    lines_from,
    pad,
    pad_to,
    scan_from,
    second_word,
    slice_of,
    split_lines,
    string_of,
    strings,
    strip_cr,
    texts,
    unlines,
    word_start,
    CharClass,
};

verus! {

/// The least width of the address column.
pub const MIN_ADDRESS_WIDTH: usize = 15;

/// A mapping of the file: an address, and the hostname that is to resolve
/// to it.
#[derive(Clone, Debug, PartialEq, Eq)]
pub struct HostsEntry {
    pub address: NetworkAddress,
    pub hostname: String,
}

/// A mapping, as mathematical text.
pub struct Mapping {
    pub address: NetworkAddress,
    pub hostname: Seq<char>,
}

impl View for HostsEntry {
    type V = Mapping;

    open spec fn view(&self) -> Mapping {
        Mapping { address: self.address, hostname: self.hostname@ }
    }
}

/// The mappings that a vector of entries holds.
pub open spec fn mappings(v: Seq<HostsEntry>) -> Seq<Mapping> {
    Seq::new(v.len(), |i: int| v[i]@)
}

/// What a line of the file maps: a line maps where it has two words at
/// least and the first is an address; the second is then the hostname.
/// Every other line is passed through as it is.
pub open spec fn mapping_of(l: Seq<char>) -> Option<Mapping> {
    if has_two_words(l) && parse_address(first_word(l)) is Some {
        Some(Mapping { address: parse_address(first_word(l))->0, hostname: second_word(l) })
    } else {
        None
    }
}

/// The hostname that the inventory gives for a host, found under the
/// canonical text of its hardware address.
pub open spec fn hostname_for(labels: Map<Seq<char>, LabelRecord>, host: DiscoveredHost) -> Option<
    Seq<char>,
> {
    let key = host.hardware.text();
    if labels.contains_key(key) {
        labels[key].hostname
    } else {
        None
    }
}

/// The mappings to write: one for every discovered host whose entry in the
/// inventory has a hostname, in the order of the hosts.
pub open spec fn new_entries(labels: Map<Seq<char>, LabelRecord>, hosts: Seq<DiscoveredHost>) -> Seq<
    Mapping,
>
    decreases hosts.len(),
{
    if hosts.len() == 0 {
        Seq::empty()
    } else {
        let before = new_entries(labels, hosts.drop_last());
        match hostname_for(labels, hosts.last()) {
            Some(h) => before.push(Mapping { address: hosts.last().address, hostname: h }),
            None => before,
        }
    }
}

/// Whether `a` is an address that a new mapping is written for.
pub open spec fn address_managed(entries: Seq<Mapping>, a: NetworkAddress) -> bool {
    exists|i: int| 0 <= i < entries.len() && (#[trigger] entries[i]).address == a
}

/// Whether a line is replaced by what is written: it maps, and its address
/// is managed or its hostname is one of the inventory.
pub open spec fn superseded(
    l: Seq<char>,
    labels: Map<Seq<char>, LabelRecord>,
    entries: Seq<Mapping>,
) -> bool {
    match mapping_of(l) {
        Some(m) => address_managed(entries, m.address) || hostname_listed(labels, m.hostname),
        None => false,
    }
}

/// The lines that stay, in their order.
pub open spec fn retained(
    ls: Seq<Seq<char>>,
    labels: Map<Seq<char>, LabelRecord>,
    entries: Seq<Mapping>,
) -> Seq<Seq<char>>
    decreases ls.len(),
{
    if ls.len() == 0 {
        Seq::empty()
    } else {
        let before = retained(ls.drop_last(), labels, entries);
        if superseded(ls.last(), labels, entries) {
            before
        } else {
            before.push(ls.last())
        }
    }
}

/// The line of a mapping: the address, filled up with blanks to `width`,
/// two tabs, the hostname.
pub open spec fn entry_line(m: Mapping, width: int) -> Seq<char> {
    pad(m.address.text(), width) + seq!['\t', '\t'] + m.hostname
}

/// A line in normal form: a mapping as its entry line, any other line as it
/// is.
pub open spec fn normal_line(l: Seq<char>, width: int) -> Seq<char> {
    match mapping_of(l) {
        Some(m) => entry_line(m, width),
        None => l,
    }
}

/// The lines, each in normal form.
pub open spec fn normal_lines(ls: Seq<Seq<char>>, width: int) -> Seq<Seq<char>> {
    Seq::new(ls.len(), |i: int| normal_line(ls[i], width))
}

/// The lines of the mappings.
pub open spec fn entry_lines(entries: Seq<Mapping>, width: int) -> Seq<Seq<char>> {
    Seq::new(entries.len(), |i: int| entry_line(entries[i], width))
}

/// The length of the address of a line that maps; 0 for any other line.
pub open spec fn address_width(l: Seq<char>) -> int {
    match mapping_of(l) {
        Some(m) => m.address.text().len() as int,
        None => 0,
    }
}

/// The greatest length of an address among the lines, and 15 at least.
pub open spec fn lines_width(ls: Seq<Seq<char>>) -> int
    decreases ls.len(),
{
    if ls.len() == 0 {
        15
    } else {
        let w = lines_width(ls.drop_last());
        let x = address_width(ls.last());
        if x > w {
            x
        } else {
            w
        }
    }
}

/// The width of the address column: the greatest length of an address
/// among the lines that stay and the mappings to write, and 15 at least.
pub open spec fn column_width(kept: Seq<Seq<char>>, entries: Seq<Mapping>) -> int
    decreases entries.len(),
{
    if entries.len() == 0 {
        lines_width(kept)
    } else {
        let w = column_width(kept, entries.drop_last());
        let x = entries.last().address.text().len() as int;
        if x > w {
            x
        } else {
            w
        }
    }
}

/// The lines of the file after reconciliation: those that stay, in normal
/// form, and behind them the new mappings.
pub open spec fn reconciled_lines(
    ls: Seq<Seq<char>>,
    labels: Map<Seq<char>, LabelRecord>,
    hosts: Seq<DiscoveredHost>,
) -> Seq<Seq<char>> {
    let entries = new_entries(labels, hosts);
    let kept = retained(ls, labels, entries);
    let width = column_width(kept, entries);
    normal_lines(kept, width) + entry_lines(entries, width)
}

/// The content of the file after reconciliation. With no mapping to write
/// the file is left as it is.
pub open spec fn reconciled(
    content: Seq<char>,
    labels: Map<Seq<char>, LabelRecord>,
    hosts: Seq<DiscoveredHost>,
) -> Seq<char> {
    if new_entries(labels, hosts).len() == 0 {
        content
    } else {
        unlines(reconciled_lines(lines(content), labels, hosts))
    }
}

/// What reconciliation writes.
#[derive(Clone, Debug, PartialEq, Eq)]
pub struct HostsUpdate {
    /// The lines of the new mappings, as they are written.
    pub added: Vec<String>,
    /// The whole content of the file.
    pub content: String,
}

/// What a line of the file maps, if it maps.
pub fn read_mapping(line: &Vec<char>) -> (r: Option<HostsEntry>)
    ensures
        match r {
            Some(e) => mapping_of(line@) == Some(e@),
            None => mapping_of(line@) is None,
        },
{
    let a0 = scan_from(line, 0, CharClass::Solid);
    let b0 = scan_from(line, a0, CharClass::Space);
    let a1 = scan_from(line, b0, CharClass::Solid);
    if a1 >= line.len() {
        return None;
    }
    let b1 = scan_from(line, a1, CharClass::Space);
    let word = slice_of(line, a0, b0);
    match NetworkAddress::parse_chars(&word) {
        Some(address) => Some(HostsEntry { address, hostname: string_of(line, a1, b1) }),
        None => None,
    }
}

/// What a line of the file maps, if it maps.
pub fn parse_mapping_line(line: &str) -> (r: Option<HostsEntry>)
    ensures
        match r {
            Some(e) => mapping_of(line@) == Some(e@),
            None => mapping_of(line@) is None,
        },
{
    let v = chars_of(line);
    read_mapping(&v)
}

/// The mappings to write for the discovered hosts, ascending by address.
pub fn managed_entries(labels: &LabelStore, hosts: &HostRegistry) -> (r: Vec<HostsEntry>)
    requires
        labels.wf(),
        hosts.wf(),
    ensures
        mappings(r@) == new_entries(labels@, hosts@),
{
    let mut r: Vec<HostsEntry> = Vec::new();
    let n = hosts.len();
    let mut i: usize = 0;
    while i < n
        invariant
            labels.wf(),
            n == hosts@.len(),
            i <= n,
            mappings(r@) == new_entries(labels@, hosts@.subrange(0, i as int)),
        decreases n - i,
    {
        assert(hosts@.subrange(0, i + 1).drop_last() == hosts@.subrange(0, i as int));
        let host = hosts.get(i);
        let key = host.hardware.to_text();
        let ghost before = mappings(r@);
        match labels.get(key.as_str()) {
            Some(e) => match &e.hostname {
                Some(h) => {
                    let entry = HostsEntry { address: host.address, hostname: h.clone() };
                    r.push(entry);
                    assert(mappings(r@) == before.push(entry@));
                },
                None => {},
            },
            None => {},
        }
        i = i + 1;
    }
    assert(hosts@.subrange(0, n as int) == hosts@);
    r
}

/// Whether a new mapping is written for `a`.
fn manages_address(entries: &Vec<HostsEntry>, a: NetworkAddress) -> (r: bool)
    ensures
        r == address_managed(mappings(entries@), a),
{
    let mut i: usize = 0;
    while i < entries.len()
        invariant
            i <= entries.len(),
            forall|j: int| 0 <= j < i ==> (#[trigger] mappings(entries@)[j]).address != a,
        decreases entries.len() - i,
    {
        if entries[i].address.value == a.value {
            assert(mappings(entries@)[i as int].address == a);
            return true;
        }
        i = i + 1;
    }
    false
}

/// The line of a mapping at the given width of the address column.
pub fn write_entry_line(entry: &HostsEntry, width: usize) -> (r: Vec<char>)
    ensures
        r@ == entry_line(entry@, width as int),
{
    let mut r = entry.address.to_chars();
    pad_to(&mut r, width);
    r.push('\t');
    r.push('\t');
    let h = chars_of(entry.hostname.as_str());
    append_chars(&mut r, &h);
    assert(r@ == entry_line(entry@, width as int));
    r
}

/// Reconciles the content of the mapping file with the discovered hosts
/// and the inventory. Where there is a mapping to write, the result holds
/// the new content of the file; where there is none, nothing is to be
/// written.
pub fn reconcile(content: &str, labels: &LabelStore, hosts: &HostRegistry) -> (r: Option<
    HostsUpdate,
>)
    requires
        labels.wf(),
        hosts.wf(),
    ensures
        match r {
            Some(u) => {
                let entries = new_entries(labels@, hosts@);
                let kept = retained(lines(content@), labels@, entries);
                &&& entries.len() > 0
                &&& u.content@ == reconciled(content@, labels@, hosts@)
                &&& strings(u.added@) == entry_lines(entries, column_width(kept, entries))
            },
            None => new_entries(labels@, hosts@).len() == 0,
        },
{
    let entries = managed_entries(labels, hosts);
    if entries.len() == 0 {
        return None;
    }
    let text = chars_of(content);
    let ls = split_lines(&text);
    let ghost all = lines(content@);
    let ghost news = new_entries(labels@, hosts@);
    // The lines that stay, and what each of them maps.
    let mut kept: Vec<Vec<char>> = Vec::new();
    let mut maps: Vec<Option<HostsEntry>> = Vec::new();
    let mut width: usize = MIN_ADDRESS_WIDTH;
    let mut i: usize = 0;
    while i < ls.len()
        invariant
            labels.wf(),
            i <= ls.len(),
            texts(ls@) == all,
            mappings(entries@) == news,
            texts(kept@) == retained(all.subrange(0, i as int), labels@, news),
            maps@.len() == kept@.len(),
            forall|j: int|
                0 <= j < kept@.len() ==> match #[trigger] maps@[j] {
                    Some(e) => mapping_of(kept@[j]@) == Some(e@),
                    None => mapping_of(kept@[j]@) is None,
                },
            width == lines_width(texts(kept@)),
        decreases ls.len() - i,
    {
        assert(all.subrange(0, i + 1).drop_last() == all.subrange(0, i as int));
        assert(all.subrange(0, i + 1).last() == ls@[i as int]@);
        let m = read_mapping(&ls[i]);
        let gone = match &m {
            Some(e) => manages_address(&entries, e.address) || labels.has_hostname(
                e.hostname.as_str(),
            ),
            None => false,
        };
        if !gone {
            let ghost before = texts(kept@);
            match &m {
                Some(e) => {
                    let n = e.address.to_chars().len();
                    if n > width {
                        width = n;
                    }
                },
                None => {},
            }
            kept.push(ls[i].clone());
            maps.push(m);
            assert(texts(kept@) == before.push(ls@[i as int]@));
            assert(texts(kept@).drop_last() == before);
        }
        i = i + 1;
    }
    assert(all.subrange(0, ls.len() as int) == all);
    let mut k: usize = 0;
    while k < entries.len()
        invariant
            k <= entries.len(),
            mappings(entries@) == news,
            width == column_width(texts(kept@), news.subrange(0, k as int)),
        decreases entries.len() - k,
    {
        assert(mappings(entries@)[k as int] == entries@[k as int]@);
        assert(news.subrange(0, k + 1).drop_last() == news.subrange(0, k as int));
        let n = entries[k].address.to_chars().len();
        if n > width {
            width = n;
        }
        k = k + 1;
    }
    assert(news.subrange(0, entries.len() as int) == news);
    // Written out: what stays, in normal form, then the new mappings.
    let mut out: Vec<Vec<char>> = Vec::new();
    let mut j: usize = 0;
    while j < kept.len()
        invariant
            j <= kept.len(),
            maps@.len() == kept@.len(),
            forall|j: int|
                0 <= j < kept@.len() ==> match #[trigger] maps@[j] {
                    Some(e) => mapping_of(kept@[j]@) == Some(e@),
                    None => mapping_of(kept@[j]@) is None,
                },
            texts(out@) == normal_lines(texts(kept@), width as int).subrange(0, j as int),
        decreases kept.len() - j,
    {
        let ghost before = texts(out@);
        let line = match &maps[j] {
            Some(e) => write_entry_line(e, width),
            None => kept[j].clone(),
        };
        assert(line@ == normal_line(kept@[j as int]@, width as int));
        out.push(line);
        assert(texts(out@) == before.push(line@));
        j = j + 1;
    }
    assert(normal_lines(texts(kept@), width as int).subrange(0, kept.len() as int) == normal_lines(
        texts(kept@),
        width as int,
    ));
    let mut added: Vec<String> = Vec::new();
    let mut k: usize = 0;
    while k < entries.len()
        invariant
            k <= entries.len(),
            mappings(entries@) == news,
            texts(out@) == normal_lines(texts(kept@), width as int) + entry_lines(
                news,
                width as int,
            ).subrange(0, k as int),
            strings(added@) == entry_lines(news, width as int).subrange(0, k as int),
        decreases entries.len() - k,
    {
        let ghost before = texts(out@);
        let ghost listed = strings(added@);
        assert(mappings(entries@)[k as int] == entries@[k as int]@);
        let line = write_entry_line(&entries[k], width);
        let s = string_of(&line, 0, line.len());
        assert(line@.subrange(0, line.len() as int) == line@);
        added.push(s);
        out.push(line);
        assert(texts(out@) == before.push(line@));
        assert(strings(added@) == listed.push(line@));
        k = k + 1;
    }
    assert(entry_lines(news, width as int).subrange(0, entries.len() as int) == entry_lines(
        news,
        width as int,
    ));
    let joined = join_lines(&out);
    let content = string_of(&joined, 0, joined.len());
    assert(joined@.subrange(0, joined.len() as int) == joined@);
    Some(HostsUpdate { added, content })
}

/// No address is written in more than 15 characters, so the address
/// column is 15 wide whatever the lines and the mappings are.
pub proof fn lemma_column_width(kept: Seq<Seq<char>>, entries: Seq<Mapping>)
    ensures
        column_width(kept, entries) == 15,
    decreases entries.len(),
{
    if entries.len() == 0 {
        lemma_lines_width(kept);
    } else {
        lemma_column_width(kept, entries.drop_last());
        lemma_parse_text(entries.last().address);
    }
}

/// No line maps an address of more than 15 characters.
proof fn lemma_lines_width(ls: Seq<Seq<char>>)
    ensures
        lines_width(ls) == 15,
    decreases ls.len(),
{
    if ls.len() > 0 {
        lemma_lines_width(ls.drop_last());
        if mapping_of(ls.last()) is Some {
            lemma_parse_text(mapping_of(ls.last())->0.address);
        }
    }
}

/// The line of a mapping whose hostname has a word maps the address to the
/// first word of the hostname.
pub proof fn lemma_mapping_of_entry_line(m: Mapping, width: int)
    requires
        word_start(m.hostname, 0) < m.hostname.len(),
    ensures
        mapping_of(entry_line(m, width)) == Some(
            Mapping { address: m.address, hostname: first_word(m.hostname) },
        ),
{
    let t = m.address.text();
    let gap = pad(t, width).subrange(t.len() as int, pad(t, width).len() as int) + seq!['\t', '\t'];
    lemma_text_is_word(m.address);
    lemma_parse_text(m.address);
    assert(entry_line(m, width) =~= t + gap + m.hostname);
    assert forall|i: int| 0 <= i < gap.len() implies is_space(#[trigger] gap[i]) by {
        if i < gap.len() - 2 {
            assert(gap[i] == ' ');
        } else if i == gap.len() - 2 {
            assert(gap[i] == '\t');
        } else {
            assert(gap[i] == '\t');
        }
    }
    lemma_words_of_columns(t, gap, m.hostname);
}

/// The line of a mapping can stand as a line where its hostname holds no
/// line feed and does not end in a carriage return.
proof fn lemma_entry_line_clean(m: Mapping, width: int)
    requires
        forall|i: int| 0 <= i < m.hostname.len() ==> m.hostname[i] != '\n',
        m.hostname.len() > 0 ==> m.hostname.last() != '\r',
    ensures
        clean_line(entry_line(m, width)),
{
    let t = m.address.text();
    let l = entry_line(m, width);
    let p = pad(t, width);
    lemma_text_is_word(m.address);
    assert forall|i: int| 0 <= i < l.len() implies l[i] != '\n' by {
        if i < t.len() {
            assert(l[i] == t[i]);
        } else if i < p.len() {
            assert(l[i] == ' ');
        } else if i < p.len() + 2 {
            assert(l[i] == '\t');
        } else {
            assert(l[i] == m.hostname[i - p.len() - 2]);
        }
    }
    if m.hostname.len() > 0 {
        assert(l.last() == m.hostname.last());
    } else {
        assert(l.last() == '\t');
    }
}

/// Every line that stays is a line that was there, and is not superseded.
proof fn lemma_retained_members(
    ls: Seq<Seq<char>>,
    labels: Map<Seq<char>, LabelRecord>,
    entries: Seq<Mapping>,
    j: int,
)
    requires
        0 <= j < retained(ls, labels, entries).len(),
    ensures
        !superseded(retained(ls, labels, entries)[j], labels, entries),
        exists|i: int| 0 <= i < ls.len() && #[trigger] ls[i] == retained(ls, labels, entries)[j],
    decreases ls.len(),
{
    let before = retained(ls.drop_last(), labels, entries);
    if j < before.len() {
        lemma_retained_members(ls.drop_last(), labels, entries, j);
        let i = choose|i: int| 0 <= i < ls.drop_last().len() && #[trigger] ls.drop_last()[i] == before[j];
        assert(ls[i] == retained(ls, labels, entries)[j]);
    } else {
        assert(ls[ls.len() - 1] == retained(ls, labels, entries)[j]);
    }
}

/// What stays of two runs of lines is what stays of each.
proof fn lemma_retained_concat(
    a: Seq<Seq<char>>,
    b: Seq<Seq<char>>,
    labels: Map<Seq<char>, LabelRecord>,
    entries: Seq<Mapping>,
)
    ensures
        retained(a + b, labels, entries) == retained(a, labels, entries) + retained(
            b,
            labels,
            entries,
        ),
    decreases b.len(),
{
    if b.len() == 0 {
        assert(a + b =~= a);
        assert(retained(a, labels, entries) + retained(b, labels, entries) =~= retained(
            a,
            labels,
            entries,
        ));
    } else {
        lemma_retained_concat(a, b.drop_last(), labels, entries);
        assert((a + b).drop_last() =~= a + b.drop_last());
        assert((a + b).last() == b.last());
        assert(retained(a + b, labels, entries) =~= retained(a, labels, entries) + retained(
            b,
            labels,
            entries,
        ));
    }
}

/// Where no line is superseded, all stay.
proof fn lemma_retained_all(
    a: Seq<Seq<char>>,
    labels: Map<Seq<char>, LabelRecord>,
    entries: Seq<Mapping>,
)
    requires
        forall|i: int| 0 <= i < a.len() ==> !superseded(#[trigger] a[i], labels, entries),
    ensures
        retained(a, labels, entries) == a,
    decreases a.len(),
{
    if a.len() > 0 {
        assert forall|i: int| 0 <= i < a.drop_last().len() implies !superseded(
            #[trigger] a.drop_last()[i],
            labels,
            entries,
        ) by {
            assert(a.drop_last()[i] == a[i]);
        }
        lemma_retained_all(a.drop_last(), labels, entries);
        assert(!superseded(a[a.len() - 1], labels, entries));
        assert(a.drop_last().push(a.last()) =~= a);
    }
}

/// Where every line is superseded, none stays.
proof fn lemma_retained_none(
    a: Seq<Seq<char>>,
    labels: Map<Seq<char>, LabelRecord>,
    entries: Seq<Mapping>,
)
    requires
        forall|i: int| 0 <= i < a.len() ==> superseded(#[trigger] a[i], labels, entries),
    ensures
        retained(a, labels, entries) == Seq::<Seq<char>>::empty(),
    decreases a.len(),
{
    if a.len() > 0 {
        assert forall|i: int| 0 <= i < a.drop_last().len() implies superseded(
            #[trigger] a.drop_last()[i],
            labels,
            entries,
        ) by {
            assert(a.drop_last()[i] == a[i]);
        }
        lemma_retained_none(a.drop_last(), labels, entries);
        assert(superseded(a[a.len() - 1], labels, entries));
    }
}

/// Every hostname that is written is one that the inventory lists.
pub proof fn lemma_new_entries_listed(
    labels: Map<Seq<char>, LabelRecord>,
    hosts: Seq<DiscoveredHost>,
    k: int,
)
    requires
        0 <= k < new_entries(labels, hosts).len(),
    ensures
        hostname_listed(labels, new_entries(labels, hosts)[k].hostname),
        exists|key: Seq<char>|
            labels.contains_key(key) && (#[trigger] labels[key]).hostname == Some(
                new_entries(labels, hosts)[k].hostname,
            ),
    decreases hosts.len(),
{
    let before = new_entries(labels, hosts.drop_last());
    if k < before.len() {
        lemma_new_entries_listed(labels, hosts.drop_last(), k);
    } else {
        let key = hosts.last().hardware.text();
        assert(labels.contains_key(key) && labels[key].hostname == Some(
            new_entries(labels, hosts)[k].hostname,
        ));
    }
}

/// A line in normal form maps what the line mapped.
pub proof fn lemma_normal_line_maps_the_same(l: Seq<char>, width: int)
    ensures
        mapping_of(normal_line(l, width)) == mapping_of(l),
{
    match mapping_of(l) {
        Some(m) => {
            lemma_words_are_words(l);
            lemma_word_is_first_word(m.hostname);
            lemma_scan_reaches(m.hostname, 0, 0, CharClass::Solid);
            lemma_mapping_of_entry_line(m, width);
        },
        None => {},
    }
}

/// After reconciliation no line that has stayed maps an address or a
/// hostname that a new mapping has: of the written lines, those before the
/// new mappings share neither with them.
pub proof fn lemma_no_mapping_twice(
    ls: Seq<Seq<char>>,
    labels: Map<Seq<char>, LabelRecord>,
    hosts: Seq<DiscoveredHost>,
    j: int,
    k: int,
)
    requires
        0 <= j < retained(ls, labels, new_entries(labels, hosts)).len(),
        0 <= k < new_entries(labels, hosts).len(),
    ensures
        ({
            let entries = new_entries(labels, hosts);
            let kept = retained(ls, labels, entries);
            let written = reconciled_lines(ls, labels, hosts);
            &&& written.len() == kept.len() + entries.len()
            &&& written[kept.len() + k] == entry_line(entries[k], 15)
            &&& mapping_of(written[j]) matches Some(m) ==> m.address != entries[k].address
                && m.hostname != entries[k].hostname
        }),
{
    let entries = new_entries(labels, hosts);
    let kept = retained(ls, labels, entries);
    lemma_column_width(kept, entries);
    lemma_retained_members(ls, labels, entries, j);
    lemma_normal_line_maps_the_same(kept[j], 15);
    lemma_new_entries_listed(labels, hosts, k);
    let written = reconciled_lines(ls, labels, hosts);
    assert(written[j] == normal_line(kept[j], 15));
    if mapping_of(kept[j]) is Some {
        let m = mapping_of(kept[j])->0;
        assert(!address_managed(entries, m.address));
        assert(!hostname_listed(labels, m.hostname));
    }
}

/// Reconciling again with the same hosts and the same inventory changes
/// nothing: the second run writes, character for character, what the first
/// has written.
///
/// This holds where every hostname that is written is a field and not
/// empty, and where no line that is passed through as it is ends in a
/// carriage return. A blank hostname gives a line that does not map and so
/// stays, and is then written once more; a carriage return at the end of a
/// line is lost when the line is read again.
pub proof fn lemma_reconcile_twice(
    content: Seq<char>,
    labels: Map<Seq<char>, LabelRecord>,
    hosts: Seq<DiscoveredHost>,
)
    requires
        forall|k: int|
            0 <= k < new_entries(labels, hosts).len() ==> is_field(
                (#[trigger] new_entries(labels, hosts)[k]).hostname,
            ) && new_entries(labels, hosts)[k].hostname.len() > 0,
        forall|i: int|
            0 <= i < lines(content).len() && mapping_of(#[trigger] lines(content)[i]) is None
                ==> strip_cr(lines(content)[i]) == lines(content)[i],
    ensures
        reconciled(reconciled(content, labels, hosts), labels, hosts) == reconciled(
            content,
            labels,
            hosts,
        ),
{
    let entries = new_entries(labels, hosts);
    if entries.len() > 0 {
        let all = lines(content);
        let kept = retained(all, labels, entries);
        lemma_column_width(kept, entries);
        let n = normal_lines(kept, 15);
        let ne = entry_lines(entries, 15);
        let out = n + ne;
        assert(reconciled_lines(all, labels, hosts) == out);
        lemma_lines_have_no_line_feed(content, 0);
        assert forall|j: int| 0 <= j < n.len() implies clean_line(#[trigger] n[j]) && !superseded(
            n[j],
            labels,
            entries,
        ) && normal_line(n[j], 15) == n[j] by {
            lemma_retained_members(all, labels, entries, j);
            let i = choose|i: int| 0 <= i < all.len() && #[trigger] all[i] == kept[j];
            assert(forall|k: int| 0 <= k < all[i].len() ==> lines_from(content, 0)[i][k] != '\n');
            match mapping_of(kept[j]) {
                None => {
                    assert(n[j] == kept[j]);
                },
                Some(m) => {
                    lemma_words_are_words(kept[j]);
                    lemma_word_is_first_word(m.hostname);
                    lemma_scan_reaches(m.hostname, 0, 0, CharClass::Solid);
                    lemma_mapping_of_entry_line(m, 15);
                    assert(forall|k: int|
                        0 <= k < m.hostname.len() ==> !is_space(#[trigger] m.hostname[k]));
                    lemma_entry_line_clean(m, 15);
                    assert(mapping_of(n[j]) == Some(m));
                },
            }
        }
        assert forall|k: int| 0 <= k < ne.len() implies clean_line(#[trigger] ne[k]) && superseded(
            ne[k],
            labels,
            entries,
        ) by {
            let m = entries[k];
            lemma_field_ends(m.hostname);
            lemma_scan_reaches(m.hostname, 0, 0, CharClass::Solid);
            lemma_mapping_of_entry_line(m, 15);
            lemma_entry_line_clean(m, 15);
            assert(address_managed(entries, m.address));
        }
        assert forall|j: int| 0 <= j < out.len() implies clean_line(#[trigger] out[j]) by {
            if j < n.len() {
                assert(out[j] == n[j]);
            } else {
                assert(out[j] == ne[j - n.len()]);
            }
        }
        lemma_lines_of_unlines(out);
        lemma_retained_concat(n, ne, labels, entries);
        lemma_retained_all(n, labels, entries);
        lemma_retained_none(ne, labels, entries);
        assert(retained(out, labels, entries) =~= n);
        lemma_column_width(n, entries);
        assert(normal_lines(n, 15) =~= n);
        assert(reconciled_lines(out, labels, hosts) == out);
    }
}

/// With an inventory that was read from a file the same holds wherever no
/// hostname that is written is empty: what is read from a file is a field.
pub proof fn lemma_reconcile_twice_with_loaded_labels(
    content: Seq<char>,
    inventory: Seq<char>,
    hosts: Seq<DiscoveredHost>,
)
    requires
        forall|k: int|
            0 <= k < new_entries(labels_of(lines(inventory)), hosts).len() ==> (
            #[trigger] new_entries(labels_of(lines(inventory)), hosts)[k]).hostname.len() > 0,
        forall|i: int|
            0 <= i < lines(content).len() && mapping_of(#[trigger] lines(content)[i]) is None
                ==> strip_cr(lines(content)[i]) == lines(content)[i],
    ensures
        reconciled(
            reconciled(content, labels_of(lines(inventory)), hosts),
            labels_of(lines(inventory)),
            hosts,
        ) == reconciled(content, labels_of(lines(inventory)), hosts),
{
    let labels = labels_of(lines(inventory));
    let entries = new_entries(labels, hosts);
    lemma_lines_have_no_line_feed(inventory, 0);
    lemma_loaded_hostnames(lines(inventory));
    assert forall|k: int| 0 <= k < entries.len() implies is_field((#[trigger] entries[k]).hostname)
        && entries[k].hostname.len() > 0 by {
        lemma_new_entries_listed(labels, hosts, k);
        let key = choose|key: Seq<char>|
            labels.contains_key(key) && (#[trigger] labels[key]).hostname == Some(
                entries[k].hostname,
            );
        assert(labels[key].hostname is Some);
    }
    lemma_reconcile_twice(content, labels, hosts);
}

} // verus!
