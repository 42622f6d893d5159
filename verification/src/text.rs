//! Text as sequences of characters: scanning, trimming, padding, and the
//! division of a file's content into lines.

use vstd::prelude::*;

verus! {

/// Whether a character has the Unicode property White_Space.
pub open spec fn is_space(c: char) -> bool {
    let n = c as u32;
    ||| 0x09 <= n <= 0x0D
    ||| n == 0x20
    ||| n == 0x85
    ||| n == 0xA0
    ||| n == 0x1680
    ||| 0x2000 <= n <= 0x200A
    ||| n == 0x2028
    ||| n == 0x2029
    ||| n == 0x202F
    ||| n == 0x205F
    ||| n == 0x3000
}

/// A class of characters that a scan stops at.
#[derive(Clone, Copy, Debug)]
pub enum CharClass {
    /// White space.
    Space,
    /// Anything but white space.
    Solid,
    /// One given character.
    Exactly(char),
}

impl CharClass {
    /// Whether `c` is of the class.
    pub open spec fn has(self, c: char) -> bool {
        match self {
            CharClass::Space => is_space(c),
            CharClass::Solid => !is_space(c),
            CharClass::Exactly(x) => c == x,
        }
    }

    /// Whether `c` is of the class.
    pub fn contains(&self, c: char) -> (b: bool)
        ensures
            b == self.has(c),
    {
        match self {
            CharClass::Space => is_whitespace(c),
            CharClass::Solid => !is_whitespace(c),
            CharClass::Exactly(x) => c == *x,
        }
    }
}

/// Whether a character is white space.
pub fn is_whitespace(c: char) -> (b: bool)
    ensures
        b == is_space(c),
{
    let n: u32 = c as u32;
    (0x09 <= n && n <= 0x0D) || n == 0x20 || n == 0x85 || n == 0xA0 || n == 0x1680 || (0x2000 <= n
        && n <= 0x200A) || n == 0x2028 || n == 0x2029 || n == 0x202F || n == 0x205F || n == 0x3000
}

/// The first position at or after `i` that holds a character of `class`,
/// or the length of `s` where there is none.
pub open spec fn scan(s: Seq<char>, i: int, class: CharClass) -> int
    decreases s.len() - i,
{
    if 0 <= i < s.len() && !class.has(s[i]) {
        scan(s, i + 1, class)
    } else {
        i
    }
}

/// What a scan skips is outside the class, and where it stops short of the
/// end it has met the class.
pub proof fn lemma_scan_stops(s: Seq<char>, i: int, class: CharClass)
    requires
        0 <= i <= s.len(),
    ensures
        i <= scan(s, i, class) <= s.len(),
        forall|k: int| i <= k < scan(s, i, class) ==> !class.has(#[trigger] s[k]),
        scan(s, i, class) < s.len() ==> class.has(s[scan(s, i, class)]),
    decreases s.len() - i,
{
    if i < s.len() && !class.has(s[i]) {
        lemma_scan_stops(s, i + 1, class);
    }
}

/// A scan stops at the first position that can stop it.
pub proof fn lemma_scan_reaches(s: Seq<char>, i: int, j: int, class: CharClass)
    requires
        0 <= i <= j <= s.len(),
        forall|k: int| i <= k < j ==> !class.has(#[trigger] s[k]),
        j < s.len() ==> class.has(s[j]),
    ensures
        scan(s, i, class) == j,
    decreases j - i,
{
    if i < j {
        lemma_scan_reaches(s, i + 1, j, class);
    }
}

/// Where the first word at or after `from` begins: a word is a longest run
/// of characters that are not white space.
pub open spec fn word_start(s: Seq<char>, from: int) -> int {
    scan(s, from, CharClass::Solid)
}

/// Where the first word at or after `from` ends.
pub open spec fn word_end(s: Seq<char>, from: int) -> int {
    scan(s, word_start(s, from), CharClass::Space)
}

/// The first word of `s`; empty where `s` has none.
pub open spec fn first_word(s: Seq<char>) -> Seq<char> {
    s.subrange(word_start(s, 0), word_end(s, 0))
}

/// The second word of `s`; empty where `s` has none.
pub open spec fn second_word(s: Seq<char>) -> Seq<char> {
    s.subrange(word_start(s, word_end(s, 0)), word_end(s, word_end(s, 0)))
}

/// Whether `s` has two words at least.
pub open spec fn has_two_words(s: Seq<char>) -> bool {
    word_start(s, word_end(s, 0)) < s.len()
}

/// Whether `s` is one word: not empty, and free of white space.
pub open spec fn is_word(s: Seq<char>) -> bool {
    s.len() > 0 && forall|i: int| 0 <= i < s.len() ==> !is_space(#[trigger] s[i])
}

/// The position before which trailing white space begins.
pub open spec fn trim_end(s: Seq<char>) -> int
    decreases s.len(),
{
    if s.len() > 0 && is_space(s.last()) {
        trim_end(s.drop_last())
    } else {
        s.len() as int
    }
}

/// `s` without its leading and trailing white space.
pub open spec fn trim(s: Seq<char>) -> Seq<char> {
    let a = scan(s, 0, CharClass::Solid);
    let b = trim_end(s);
    if a < b {
        s.subrange(a, b)
    } else {
        Seq::empty()
    }
}

/// What lies behind the trimmed end is white space, and what lies directly
/// before it is not.
pub proof fn lemma_trim_end_stops(s: Seq<char>)
    ensures
        0 <= trim_end(s) <= s.len(),
        forall|k: int| trim_end(s) <= k < s.len() ==> is_space(#[trigger] s[k]),
        trim_end(s) > 0 ==> !is_space(s[trim_end(s) - 1]),
    decreases s.len(),
{
    if s.len() > 0 && is_space(s.last()) {
        lemma_trim_end_stops(s.drop_last());
        assert forall|k: int| trim_end(s) <= k < s.len() implies is_space(#[trigger] s[k]) by {
            if k < s.len() - 1 {
                assert(s[k] == s.drop_last()[k]);
            }
        }
    }
}

/// `s`, filled up with blanks on the right to `width` characters where it is
/// shorter.
pub open spec fn pad(s: Seq<char>, width: int) -> Seq<char> {
    if s.len() < width {
        s + Seq::new((width - s.len()) as nat, |i: int| ' ')
    } else {
        s
    }
}

/// A line without the carriage return that ended it, if one did.
pub open spec fn strip_cr(l: Seq<char>) -> Seq<char> {
    if l.len() > 0 && l.last() == '\r' {
        l.drop_last()
    } else {
        l
    }
}

/// The lines of `s` from position `i` on. A line ends at a line feed, or at
/// a carriage return directly before one; the last line may end with the
/// text.
pub open spec fn lines_from(s: Seq<char>, i: int) -> Seq<Seq<char>>
    decreases s.len() - i,
{
    let e = scan(s, i, CharClass::Exactly('\n'));
    if i < 0 || i >= s.len() {
        Seq::empty()
    } else if i <= e < s.len() {
        seq![strip_cr(s.subrange(i, e))] + lines_from(s, e + 1)
    } else {
        seq![s.subrange(i, s.len() as int)]
    }
}

/// The texts that a vector of strings holds.
pub open spec fn strings(v: Seq<String>) -> Seq<Seq<char>> {
    Seq::new(v.len(), |i: int| v[i]@)
}

/// The texts that a vector of lines holds.
pub open spec fn texts(v: Seq<Vec<char>>) -> Seq<Seq<char>> {
    Seq::new(v.len(), |i: int| v[i]@)
}

/// The lines of a text.
pub open spec fn lines(s: Seq<char>) -> Seq<Seq<char>> {
    lines_from(s, 0)
}

/// The text that holds the given lines, each ended by a line feed.
pub open spec fn unlines(ls: Seq<Seq<char>>) -> Seq<char>
    decreases ls.len(),
{
    if ls.len() == 0 {
        Seq::empty()
    } else {
        unlines(ls.drop_last()) + ls.last() + seq!['\n']
    }
}

/// Whether `l` can stand as a line of a text: it holds no line feed and
/// does not end in a carriage return.
pub open spec fn clean_line(l: Seq<char>) -> bool {
    strip_cr(l) == l && forall|i: int| 0 <= i < l.len() ==> l[i] != '\n'
}

/// Whether `f` can stand as a field of a line: it holds no line feed and
/// has no white space at either end.
pub open spec fn is_field(f: Seq<char>) -> bool {
    trim(f) == f && forall|i: int| 0 <= i < f.len() ==> f[i] != '\n'
}

/// Writing lines out one after the other is writing them out together.
pub proof fn lemma_unlines_concat(a: Seq<Seq<char>>, b: Seq<Seq<char>>)
    ensures
        unlines(a + b) == unlines(a) + unlines(b),
    decreases b.len(),
{
    if b.len() == 0 {
        assert(a + b =~= a);
    } else {
        lemma_unlines_concat(a, b.drop_last());
        assert((a + b).drop_last() =~= a + b.drop_last());
        assert((a + b).last() == b.last());
        assert(unlines(a + b) =~= unlines(a) + unlines(b));
    }
}

/// A scan behind a prefix goes as the scan without it.
pub proof fn lemma_scan_shift(pre: Seq<char>, s: Seq<char>, i: int, class: CharClass)
    requires
        0 <= i <= s.len(),
    ensures
        scan(pre + s, pre.len() + i, class) == pre.len() + scan(s, i, class),
{
    let j = scan(s, i, class);
    lemma_scan_stops(s, i, class);
    let t = pre + s;
    assert forall|k: int| pre.len() + i <= k < pre.len() + j implies !class.has(#[trigger] t[k]) by {
        assert(t[k] == s[k - pre.len()]);
    }
    if j < s.len() {
        assert(t[pre.len() + j] == s[j]);
    }
    lemma_scan_reaches(t, pre.len() + i, pre.len() + j, class);
}

/// No line of a text holds a line feed.
pub proof fn lemma_lines_have_no_line_feed(s: Seq<char>, i: int)
    requires
        0 <= i <= s.len(),
    ensures
        forall|j: int, k: int|
            0 <= j < lines_from(s, i).len() && 0 <= k < lines_from(s, i)[j].len() ==> (
            #[trigger] lines_from(s, i)[j][k]) != '\n',
    decreases s.len() - i,
{
    let e = scan(s, i, CharClass::Exactly('\n'));
    lemma_scan_stops(s, i, CharClass::Exactly('\n'));
    if i < s.len() {
        if e < s.len() {
            lemma_lines_have_no_line_feed(s, e + 1);
            let head = strip_cr(s.subrange(i, e));
            let rest = lines_from(s, e + 1);
            assert forall|j: int, k: int|
                0 <= j < lines_from(s, i).len() && 0 <= k < lines_from(s, i)[j].len() implies (
            #[trigger] lines_from(s, i)[j][k]) != '\n' by {
                if j == 0 {
                    assert(head[k] == s[i + k]);
                } else {
                    assert(lines_from(s, i)[j] == rest[j - 1]);
                }
            }
        } else {
            assert forall|j: int, k: int|
                0 <= j < lines_from(s, i).len() && 0 <= k < lines_from(s, i)[j].len() implies (
            #[trigger] lines_from(s, i)[j][k]) != '\n' by {
                assert(lines_from(s, i)[j][k] == s[i + k]);
            }
        }
    }
}

/// Lines that are written out are read back as they were.
pub proof fn lemma_lines_from_unlines(s: Seq<char>, i: int, ls: Seq<Seq<char>>)
    requires
        0 <= i <= s.len(),
        s.subrange(i, s.len() as int) == unlines(ls),
        forall|j: int| 0 <= j < ls.len() ==> clean_line(#[trigger] ls[j]),
    ensures
        lines_from(s, i) == ls,
    decreases ls.len(),
{
    if ls.len() == 0 {
        assert(s.subrange(i, s.len() as int).len() == 0);
        assert(lines_from(s, i) =~= ls);
    } else {
        let head = ls[0];
        let rest = ls.drop_first();
        assert(ls =~= seq![head] + rest);
        lemma_unlines_concat(seq![head], rest);
        assert(unlines(seq![head]) =~= head + seq!['\n']) by {
            reveal_with_fuel(unlines, 2);
            assert(seq![head].drop_last() =~= Seq::<Seq<char>>::empty());
        }
        let tail = s.subrange(i, s.len() as int);
        assert(tail == head + seq!['\n'] + unlines(rest));
        assert(tail.len() == head.len() + 1 + unlines(rest).len());
        let e = i + head.len();
        assert forall|k: int| i <= k < e implies !CharClass::Exactly('\n').has(#[trigger] s[k]) by {
            assert(s[k] == tail[k - i]);
            assert(tail[k - i] == head[k - i]);
        }
        assert(s[e] == tail[e - i]);
        assert(tail[e - i] == '\n');
        lemma_scan_reaches(s, i, e, CharClass::Exactly('\n'));
        assert(s.subrange(i, e) =~= head);
        assert(s.subrange(e + 1, s.len() as int) =~= unlines(rest)) by {
            assert forall|k: int| 0 <= k < unlines(rest).len() implies s[e + 1 + k] == unlines(
                rest,
            )[k] by {
                assert(s[e + 1 + k] == tail[e + 1 + k - i]);
            }
        }
        assert forall|j: int| 0 <= j < rest.len() implies clean_line(#[trigger] rest[j]) by {
            assert(rest[j] == ls[j + 1]);
        }
        lemma_lines_from_unlines(s, e + 1, rest);
    }
}

/// Lines that are written out are read back as they were.
pub proof fn lemma_lines_of_unlines(ls: Seq<Seq<char>>)
    requires
        forall|j: int| 0 <= j < ls.len() ==> clean_line(#[trigger] ls[j]),
    ensures
        lines(unlines(ls)) == ls,
{
    let s = unlines(ls);
    assert(s.subrange(0, s.len() as int) == s);
    lemma_lines_from_unlines(s, 0, ls);
}

/// A field that is not empty begins and ends with characters that are not
/// white space.
pub proof fn lemma_field_ends(f: Seq<char>)
    requires
        trim(f) == f,
        f.len() > 0,
    ensures
        !is_space(f[0]),
        !is_space(f.last()),
{
    let a = scan(f, 0, CharClass::Solid);
    let b = trim_end(f);
    assert(0 <= a <= f.len() && (a < f.len() ==> CharClass::Solid.has(f[a]))) by {
        lemma_scan_stops(f, 0, CharClass::Solid);
    }
    assert(0 <= b <= f.len() && (b > 0 ==> !is_space(f[b - 1]))) by {
        lemma_trim_end_stops(f);
    }
    assert(a < b);
    assert(f.subrange(a, b).len() == b - a);
    assert(a == 0 && b == f.len());
}

/// A word is its own first word, and has no second.
pub proof fn lemma_word_is_first_word(w: Seq<char>)
    requires
        is_word(w),
    ensures
        first_word(w) == w,
        !has_two_words(w),
{
    lemma_scan_reaches(w, 0, 0, CharClass::Solid);
    lemma_scan_reaches(w, 0, w.len() as int, CharClass::Space);
    lemma_scan_reaches(w, w.len() as int, w.len() as int, CharClass::Solid);
    assert(w.subrange(0, w.len() as int) == w);
}

/// The words of a text are words.
pub proof fn lemma_words_are_words(s: Seq<char>)
    ensures
        word_start(s, 0) < s.len() ==> is_word(first_word(s)),
        has_two_words(s) ==> is_word(second_word(s)) && is_word(first_word(s)),
{
    lemma_scan_stops(s, 0, CharClass::Solid);
    let a0 = word_start(s, 0);
    lemma_scan_stops(s, a0, CharClass::Space);
    let b0 = word_end(s, 0);
    lemma_scan_stops(s, b0, CharClass::Solid);
    let a1 = word_start(s, b0);
    lemma_scan_stops(s, a1, CharClass::Space);
    let b1 = word_end(s, b0);
    if a0 < s.len() {
        assert(b0 > a0) by {
            if b0 == a0 {
                assert(CharClass::Space.has(s[b0]));
            }
        }
        assert forall|i: int| 0 <= i < first_word(s).len() implies !is_space(
            #[trigger] first_word(s)[i],
        ) by {
            assert(!CharClass::Space.has(s[a0 + i]));
        }
    }
    if a1 < s.len() {
        assert(b1 > a1) by {
            if b1 == a1 {
                assert(CharClass::Space.has(s[b1]));
            }
        }
        assert forall|i: int| 0 <= i < second_word(s).len() implies !is_space(
            #[trigger] second_word(s)[i],
        ) by {
            assert(!CharClass::Space.has(s[a1 + i]));
        }
    }
}

/// A word, white space, and a text that has a word: the first word is the
/// word, and the second is the first word of the text.
pub proof fn lemma_words_of_columns(t: Seq<char>, gap: Seq<char>, h: Seq<char>)
    requires
        is_word(t),
        gap.len() > 0,
        forall|i: int| 0 <= i < gap.len() ==> is_space(#[trigger] gap[i]),
        word_start(h, 0) < h.len(),
    ensures
        first_word(t + gap + h) == t,
        has_two_words(t + gap + h),
        second_word(t + gap + h) == first_word(h),
{
    let l = t + gap + h;
    let n = t.len() as int;
    let g = gap.len() as int;
    let a = word_start(h, 0);
    lemma_scan_stops(h, 0, CharClass::Solid);
    lemma_scan_stops(h, a, CharClass::Space);
    assert(l[0] == t[0]);
    lemma_scan_reaches(l, 0, 0, CharClass::Solid);
    assert forall|k: int| 0 <= k < n implies !CharClass::Space.has(#[trigger] l[k]) by {
        assert(l[k] == t[k]);
    }
    assert(l[n] == gap[0]);
    lemma_scan_reaches(l, 0, n, CharClass::Space);
    assert forall|k: int| n <= k < n + g + a implies !CharClass::Solid.has(#[trigger] l[k]) by {
        if k < n + g {
            assert(l[k] == gap[k - n]);
        } else {
            assert(l[k] == h[k - n - g]);
        }
    }
    assert(l[n + g + a] == h[a]);
    lemma_scan_reaches(l, n, n + g + a, CharClass::Solid);
    lemma_scan_shift(t + gap, h, a, CharClass::Space);
    assert(l.subrange(0, n) =~= t);
    assert(l.subrange(n + g + a, n + g + word_end(h, 0)) =~= h.subrange(a, word_end(h, 0)));
}

/// `String::push` of the standard library: the string afterwards is the
/// string before with the one character behind it.
pub assume_specification[ String::push ](s: &mut String, c: char)
    ensures
        final(s)@ == old(s)@.push(c),
;

/// What `str::to_uppercase` of the standard library makes of a text: its
/// upper-case equivalent by the Unicode case mappings, which may be longer
/// than the text.
pub uninterp spec fn uppercase_text(s: Seq<char>) -> Seq<char>;

/// `str::to_uppercase` of the standard library. Believed of it: the result
/// depends on the characters of `s` alone. Nothing is claimed of what the
/// result holds.
#[verifier::external_body]
pub(crate) fn to_uppercase(s: &str) -> (r: String)
    ensures
        r@ == uppercase_text(s@),
{
    s.to_uppercase()
}

/// The characters of a string.
pub fn chars_of(s: &str) -> (v: Vec<char>)
    ensures
        v@ == s@,
{
    let mut v: Vec<char> = Vec::new();
    for c in it: s.chars()
        invariant
            it.seq() == s@,
            v@ == it.seq().subrange(0, it.index() as int),
    {
        v.push(c);
    }
    v
}

/// The string of the characters `v[from..to]`.
pub fn string_of(v: &Vec<char>, from: usize, to: usize) -> (s: String)
    requires
        from <= to <= v.len(),
    ensures
        s@ == v@.subrange(from as int, to as int),
{
    let mut s = String::new();
    let mut i: usize = from;
    while i < to
        invariant
            from <= i <= to <= v.len(),
            s@ == v@.subrange(from as int, i as int),
        decreases to - i,
    {
        s.push(v[i]);
        i = i + 1;
    }
    s
}

/// A copy of the characters `v[from..to]`.
pub fn slice_of(v: &Vec<char>, from: usize, to: usize) -> (r: Vec<char>)
    requires
        from <= to <= v.len(),
    ensures
        r@ == v@.subrange(from as int, to as int),
{
    let mut r: Vec<char> = Vec::new();
    let mut i: usize = from;
    while i < to
        invariant
            from <= i <= to <= v.len(),
            r@ == v@.subrange(from as int, i as int),
        decreases to - i,
    {
        r.push(v[i]);
        i = i + 1;
    }
    r
}

/// Appends the characters of `tail` to `v`.
pub fn append_chars(v: &mut Vec<char>, tail: &Vec<char>)
    ensures
        final(v)@ == old(v)@ + tail@,
{
    let mut i: usize = 0;
    while i < tail.len()
        invariant
            i <= tail.len(),
            v@ == old(v)@ + tail@.subrange(0, i as int),
        decreases tail.len() - i,
    {
        v.push(tail[i]);
        i = i + 1;
    }
    assert(tail@.subrange(0, tail.len() as int) == tail@);
}

/// Scans `s` from `i` for a character of `class`.
pub fn scan_from(s: &Vec<char>, i: usize, class: CharClass) -> (j: usize)
    requires
        i <= s.len(),
    ensures
        j == scan(s@, i as int, class),
        i <= j <= s.len(),
{
    let mut j: usize = i;
    while j < s.len() && !class.contains(s[j])
        invariant
            i <= j <= s.len(),
            scan(s@, i as int, class) == scan(s@, j as int, class),
        decreases s.len() - j,
    {
        j = j + 1;
    }
    j
}

/// The characters `s[from..to]` without leading and trailing white space.
pub fn trimmed(s: &Vec<char>, from: usize, to: usize) -> (r: Vec<char>)
    requires
        from <= to <= s.len(),
    ensures
        r@ == trim(s@.subrange(from as int, to as int)),
{
    let part = slice_of(s, from, to);
    let a = scan_from(&part, 0, CharClass::Solid);
    let mut b: usize = part.len();
    assert(part@.subrange(0, b as int) == part@);
    while b > 0 && is_whitespace(part[b - 1])
        invariant
            b <= part.len(),
            trim_end(part@) == trim_end(part@.subrange(0, b as int)),
        decreases b,
    {
        assert(part@.subrange(0, b as int).drop_last() == part@.subrange(0, b - 1));
        b = b - 1;
    }
    if a < b {
        slice_of(&part, a, b)
    } else {
        Vec::new()
    }
}

/// Fills `v` up with blanks to `width` characters.
pub fn pad_to(v: &mut Vec<char>, width: usize)
    ensures
        final(v)@ == pad(old(v)@, width as int),
{
    let ghost start = v@;
    while v.len() < width
        invariant
            start.len() <= v.len(),
            start.len() < width ==> v.len() <= width,
            start.len() >= width ==> v.len() == start.len(),
            v@ == start + Seq::new((v.len() - start.len()) as nat, |i: int| ' '),
        decreases width - v.len(),
    {
        v.push(' ');
    }
    assert(v@ == pad(start, width as int));
}

/// Divides a text into its lines.
pub fn split_lines(s: &Vec<char>) -> (r: Vec<Vec<char>>)
    ensures
        texts(r@) == lines(s@),
{
    let mut r: Vec<Vec<char>> = Vec::new();
    let mut i: usize = 0;
    while i < s.len()
        invariant
            i <= s.len(),
            lines(s@) == texts(r@) + lines_from(s@, i as int),
        decreases s.len() - i,
    {
        let e = scan_from(s, i, CharClass::Exactly('\n'));
        let ghost before = texts(r@);
        if e < s.len() {
            let end = if e > i && s[e - 1] == '\r' {
                e - 1
            } else {
                e
            };
            let line = slice_of(s, i, end);
            assert(line@ == strip_cr(s@.subrange(i as int, e as int)));
            r.push(line);
            assert(texts(r@) =~= before.push(line@));
            i = e + 1;
        } else {
            let line = slice_of(s, i, s.len());
            r.push(line);
            assert(texts(r@) =~= before.push(line@));
            i = s.len();
        }
    }
    r
}

/// Writes lines out as one text, each ended by a line feed.
pub fn join_lines(ls: &Vec<Vec<char>>) -> (r: Vec<char>)
    ensures
        r@ == unlines(texts(ls@)),
{
    let mut r: Vec<char> = Vec::new();
    let mut i: usize = 0;
    while i < ls.len()
        invariant
            i <= ls.len(),
            r@ == unlines(texts(ls@).subrange(0, i as int)),
        decreases ls.len() - i,
    {
        assert(texts(ls@).subrange(0, i + 1).drop_last() == texts(ls@).subrange(0, i as int));
        append_chars(&mut r, &ls[i]);
        r.push('\n');
        i = i + 1;
    }
    assert(texts(ls@).subrange(0, ls.len() as int) == texts(ls@));
    r
}

} // verus!
