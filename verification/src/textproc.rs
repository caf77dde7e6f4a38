//! Line and word processing of text files: the longest line, ROT13, the
//! expansion of abbreviations, and the entries of a hosts file.

use vstd::prelude::*;
use vstd::utf8::{encode_scalar, encode_utf8};
use crate::text::{
    chars_of, push_char, range_is, ranges_text, ranges_within, split_pieces, split_ranges,
    string_from_range, word_ranges, words, Separator, lemma_split_pieces_nonempty,
};
use vstd::string::StringExecFns;

verus! {

broadcast use vstd::string::group_string_axioms;

/// Encoding a sequence with one more character appends that character's bytes.
pub proof fn lemma_encode_utf8_push(s: Seq<char>, c: char)
    ensures
        encode_utf8(s.push(c)) == encode_utf8(s) + encode_scalar(c as u32),
    decreases s.len(),
{
    if s.len() == 0 {
        assert(s.push(c).drop_first() =~= Seq::<char>::empty());
        assert(encode_utf8(Seq::<char>::empty()) =~= Seq::<u8>::empty());
        assert(encode_utf8(s.push(c)) =~= encode_scalar(c as u32));
        assert(encode_utf8(s) + encode_scalar(c as u32) =~= encode_scalar(c as u32));
    } else {
        lemma_encode_utf8_push(s.drop_first(), c);
        assert(s.push(c).drop_first() =~= s.drop_first().push(c));
        assert(encode_utf8(s.push(c)) =~= encode_utf8(s) + encode_scalar(c as u32));
    }
}

/// The number of bytes of `c` in UTF-8.
fn utf8_width(c: char) -> (r: usize)
    ensures
        r == encode_scalar(c as u32).len(),
{
    let v: u32 = c as u32;
    if v <= 0x7f {
        1
    } else if v <= 0x7ff {
        2
    } else if v <= 0xffff {
        3
    } else {
        4
    }
}

/// The state of the longest-line search: the length kept for the line by
/// characters, the byte length of the line by bytes, and the two lines.
pub ghost struct LongestState {
    pub max_chars: u32,
    pub max_bytes: u32,
    pub by_chars: Seq<char>,
    pub by_bytes: Seq<char>,
}

/// The search over `lines`, in order. A line replaces the line by bytes when
/// its byte length (as a `u32`) exceeds the kept one, and the line by
/// characters when its character count (as a `u32`) exceeds the kept length;
/// in both cases the kept length becomes the line's byte length.
pub open spec fn longest_scan(lines: Seq<Seq<char>>) -> LongestState
    decreases lines.len(),
{
    if lines.len() == 0 {
        LongestState { max_chars: 0, max_bytes: 0, by_chars: Seq::empty(), by_bytes: Seq::empty() }
    } else {
        let st = longest_scan(lines.drop_last());
        let line = lines.last();
        let bytes = encode_utf8(line).len() as u32;
        let st2 = if bytes > st.max_bytes {
            LongestState { max_bytes: bytes, by_bytes: line, ..st }
        } else {
            st
        };
        if (line.len() as u32) > st2.max_chars {
            LongestState { max_chars: bytes, by_chars: line, ..st2 }
        } else {
            st2
        }
    }
}

/// A text takes at least as many bytes as it has characters in UTF-8.
proof fn lemma_encode_utf8_len(s: Seq<char>)
    ensures
        encode_utf8(s).len() >= s.len(),
    decreases s.len(),
{
    if s.len() > 0 {
        lemma_encode_utf8_len(s.drop_first());
        assert(encode_scalar(s[0] as u32).len() >= 1);
    }
}

/// What the line search keeps, at every step: the kept byte length is that
/// of the line by bytes, no line is longer in bytes, and the line by bytes is
/// the first line of that length; the line by characters is one of the lines
/// (or the empty text, while every line is empty).
proof fn lemma_longest_scan_keeps(lines: Seq<Seq<char>>)
    requires
        forall|k: int| 0 <= k < lines.len() ==> #[trigger] encode_utf8(lines[k]).len() <= u32::MAX,
    ensures
        ({
            let st = longest_scan(lines);
            &&& st.max_bytes as int == encode_utf8(st.by_bytes).len()
            &&& forall|k: int| 0 <= k < lines.len() ==> #[trigger] encode_utf8(lines[k]).len() <= st.max_bytes
            &&& (st.max_bytes == 0 && st.by_bytes.len() == 0) || exists|k: int|
                0 <= k < lines.len() && lines[k] == st.by_bytes && forall|j: int|
                    0 <= j < k ==> #[trigger] encode_utf8(lines[j]).len() < encode_utf8(lines[k]).len()
            &&& (st.max_chars == 0 && st.by_chars.len() == 0 && forall|k: int| 0 <= k < lines.len() ==> #[trigger] lines[k].len() == 0)
                || exists|k: int| 0 <= k < lines.len() && lines[k] == st.by_chars
        }),
    decreases lines.len(),
{
    if lines.len() == 0 {
        assert(encode_utf8(Seq::<char>::empty()) =~= Seq::<u8>::empty());
    } else {
        let init = lines.drop_last();
        assert forall|k: int| 0 <= k < init.len() implies #[trigger] encode_utf8(init[k]).len() <= u32::MAX by {
            assert(init[k] == lines[k]);
        }
        lemma_longest_scan_keeps(init);
        let st = longest_scan(init);
        let n = lines.len() - 1;
        let line = lines.last();
        assert(line == lines[n]);
        lemma_encode_utf8_len(line);
        let bytes = encode_utf8(line).len();
        assert(bytes <= u32::MAX);
        let after = longest_scan(lines);
        assert forall|k: int| 0 <= k < lines.len() implies #[trigger] encode_utf8(lines[k]).len() <= after.max_bytes by {
            if k < n {
                assert(init[k] == lines[k]);
            }
        }
        if (bytes as u32) > st.max_bytes {
            assert forall|j: int| 0 <= j < n implies #[trigger] encode_utf8(lines[j]).len() < encode_utf8(lines[n]).len() by {
                assert(init[j] == lines[j]);
            }
        } else if st.max_bytes == 0 && st.by_bytes.len() == 0 {
        } else {
            let k = choose|k: int|
                0 <= k < init.len() && init[k] == st.by_bytes && forall|j: int|
                    0 <= j < k ==> #[trigger] encode_utf8(init[j]).len() < encode_utf8(init[k]).len();
            assert(lines[k] == after.by_bytes);
            assert forall|j: int| 0 <= j < k implies #[trigger] encode_utf8(lines[j]).len() < encode_utf8(lines[k]).len() by {
                assert(init[j] == lines[j]);
                assert(encode_utf8(init[j]).len() < encode_utf8(init[k]).len());
            }
        }
        if (line.len() as u32) > longest_scan(init).max_chars {
        } else if st.max_chars == 0 && st.by_chars.len() == 0 && forall|k: int| 0 <= k < init.len() ==> #[trigger] init[k].len() == 0 {
            assert forall|k: int| 0 <= k < lines.len() implies #[trigger] lines[k].len() == 0 by {
                if k < n {
                    assert(init[k] == lines[k]);
                }
            }
        } else {
            let k = choose|k: int| 0 <= k < init.len() && init[k] == st.by_chars;
            assert(lines[k] == after.by_chars);
        }
    }
}

/// The longest line by bytes is the first line of the text whose UTF-8
/// length no line exceeds; the longest line by characters is a line of the
/// text. (Lengths are kept as `u32`, so lines are taken to fit in one.)
pub proof fn lemma_longest_lines(text: Seq<char>)
    requires
        forall|k: int| 0 <= k < lines_of(text).len() ==> #[trigger] encode_utf8(lines_of(text)[k]).len() <= u32::MAX,
    ensures
        ({
            let ls = lines_of(text);
            let st = longest_scan(ls);
            &&& exists|k: int| 0 <= k < ls.len() && ls[k] == st.by_bytes && forall|j: int|
                0 <= j < k ==> #[trigger] encode_utf8(ls[j]).len() < encode_utf8(ls[k]).len()
            &&& forall|k: int| 0 <= k < ls.len() ==> #[trigger] encode_utf8(ls[k]).len() <= encode_utf8(st.by_bytes).len()
            &&& exists|k: int| 0 <= k < ls.len() && ls[k] == st.by_chars
        }),
{
    let ls = lines_of(text);
    lemma_split_pieces_nonempty(text, Separator::Char('\n'));
    lemma_longest_scan_keeps(ls);
    let st = longest_scan(ls);
    if st.max_bytes == 0 && st.by_bytes.len() == 0 {
        lemma_encode_utf8_len(ls[0]);
        assert(encode_utf8(ls[0]).len() <= st.max_bytes);
        assert(ls[0] =~= st.by_bytes);
    }
    if st.max_chars == 0 && st.by_chars.len() == 0 && forall|k: int| 0 <= k < ls.len() ==> #[trigger] ls[k].len() == 0 {
        assert(ls[0].len() == 0);
        assert(ls[0] =~= st.by_chars);
    }
}

/// The lines of a text: its pieces between `\n` characters.
pub open spec fn lines_of(s: Seq<char>) -> Seq<Seq<char>> {
    split_pieces(s, Separator::Char('\n'))
}

/// The longest line of `text` by characters and the longest by bytes (the
/// first of equal ones), as the line search defines them.
pub fn longest_lines(text: &str) -> (r: (String, String))
    ensures
        r.0@ == longest_scan(lines_of(text@)).by_chars,
        r.1@ == longest_scan(lines_of(text@)).by_bytes,
{
    let v = chars_of(text);
    let lines = split_ranges(&v, 0, v.len(), Separator::Char('\n'));
    assert(v@.subrange(0, v@.len() as int) =~= v@);
    let ghost ls = ranges_text(v@, lines@);
    let mut max_chars: u32 = 0;
    let mut max_bytes: u32 = 0;
    let mut by_chars: (usize, usize) = (0, 0);
    let mut by_bytes: (usize, usize) = (0, 0);
    let mut k: usize = 0;
    assert(ls.take(0) =~= Seq::<Seq<char>>::empty());
    assert(v@.subrange(0, 0) =~= Seq::<char>::empty());
    while k < lines.len()
        invariant
            k <= lines@.len(),
            ls == ranges_text(v@, lines@),
            ranges_within(lines@, v@.len()),
            by_chars.0 <= by_chars.1 <= v@.len(),
            by_bytes.0 <= by_bytes.1 <= v@.len(),
            longest_scan(ls.take(k as int)) == (LongestState {
                max_chars,
                max_bytes,
                by_chars: v@.subrange(by_chars.0 as int, by_chars.1 as int),
                by_bytes: v@.subrange(by_bytes.0 as int, by_bytes.1 as int),
            }),
        decreases lines@.len() - k,
    {
        let (a, b) = lines[k];
        assert(lines@[k as int] == (a, b));
        let ghost line = v@.subrange(a as int, b as int);
        let mut bytes: u128 = 0;
        let mut p = a;
        assert(v@.subrange(a as int, a as int) =~= Seq::<char>::empty());
        while p < b
            invariant
                a <= p <= b <= v@.len(),
                bytes == encode_utf8(v@.subrange(a as int, p as int)).len(),
                bytes <= 4 * (p - a),
            decreases b - p,
        {
            proof {
                lemma_encode_utf8_push(v@.subrange(a as int, p as int), v@[p as int]);
                assert(v@.subrange(a as int, p + 1) =~= v@.subrange(a as int, p as int).push(v@[p as int]));
            }
            bytes = bytes + utf8_width(v[p]) as u128;
            p = p + 1;
        }
        let bytes32 = #[verifier::truncate] (bytes as u32);
        let count32 = #[verifier::truncate] ((b - a) as u32);
        assert(ls.take(k + 1).drop_last() =~= ls.take(k as int));
        assert(ls.take(k + 1).last() == line);
        if bytes32 > max_bytes {
            max_bytes = bytes32;
            by_bytes = (a, b);
        }
        if count32 > max_chars {
            max_chars = bytes32;
            by_chars = (a, b);
        }
        k = k + 1;
    }
    assert(ls.take(lines@.len() as int) =~= ls);
    (string_from_range(&v, by_chars.0, by_chars.1), string_from_range(&v, by_bytes.0, by_bytes.1))
}


/// ROT13: letters move 13 places along their alphabet, wrapping around;
/// every other character is unchanged.
pub open spec fn spec_rot13(c: char) -> char {
    if 'a' <= c <= 'z' {
        if c <= 'm' { ((c as u32) + 13) as char } else { ((c as u32) - 13) as char }
    } else if 'A' <= c <= 'Z' {
        if c <= 'M' { ((c as u32) + 13) as char } else { ((c as u32) - 13) as char }
    } else {
        c
    }
}

/// ROT13 of one character.
pub fn rot13_char(c: char) -> (r: char)
    ensures
        r == spec_rot13(c),
{
    if ('a' <= c && c <= 'z') || ('A' <= c && c <= 'Z') {
        let code: u8 = c as u8;
        if c <= 'm' && c >= 'a' || c <= 'M' {
            (code + 13) as char
        } else {
            (code - 13) as char
        }
    } else {
        c
    }
}

/// ROT13 undoes itself.
pub proof fn lemma_rot13_involution(c: char)
    ensures
        spec_rot13(spec_rot13(c)) == c,
{
}

/// The number of leading ASCII characters of `s`.
pub open spec fn ascii_prefix_len(s: Seq<char>) -> int
    decreases s.len(),
{
    if s.len() == 0 || (s[0] as u32) >= 128 {
        0
    } else {
        1 + ascii_prefix_len(s.drop_first())
    }
}

/// The text enciphered with ROT13 up to its first non-ASCII character, and
/// whether such a character stopped it.
pub open spec fn spec_rot13_text(s: Seq<char>) -> (Seq<char>, bool) {
    let k = ascii_prefix_len(s);
    (s.take(k).map_values(|c: char| spec_rot13(c)), k < s.len())
}

proof fn lemma_ascii_prefix_len(s: Seq<char>, k: int)
    requires
        0 <= k <= s.len(),
        forall|j: int| 0 <= j < k ==> (#[trigger] s[j] as u32) < 128,
        k == s.len() || (s[k] as u32) >= 128,
    ensures
        ascii_prefix_len(s) == k,
    decreases k,
{
    if k > 0 {
        let t = s.drop_first();
        assert forall|j: int| 0 <= j < k - 1 implies (#[trigger] t[j] as u32) < 128 by {
            assert(t[j] == s[j + 1]);
        }
        assert((s[0] as u32) < 128);
        lemma_ascii_prefix_len(t, k - 1);
    }
}

/// Enciphering a text that the first pass did not stop on, then enciphering
/// the result, gives back the text.
pub proof fn lemma_rot13_text_twice(s: Seq<char>)
    requires
        !spec_rot13_text(s).1,
    ensures
        !spec_rot13_text(spec_rot13_text(s).0).1,
        spec_rot13_text(spec_rot13_text(s).0).0 == s,
{
    let k = ascii_prefix_len(s);
    lemma_ascii_prefix_len_bound(s);
    assert(k == s.len());
    assert(s.take(k) =~= s);
    let e = s.map_values(|c: char| spec_rot13(c));
    assert forall|j: int| 0 <= j < s.len() implies (#[trigger] s[j] as u32) < 128 by {
        lemma_ascii_prefix_all(s, j);
    }
    assert forall|j: int| 0 <= j < e.len() implies (#[trigger] e[j] as u32) < 128 by {
        assert((s[j] as u32) < 128);
    }
    lemma_ascii_prefix_len(e, e.len() as int);
    assert(e.take(e.len() as int) =~= e);
    assert(e.map_values(|c: char| spec_rot13(c)) =~= s) by {
        assert forall|j: int| 0 <= j < s.len() implies e.map_values(|c: char| spec_rot13(c))[j] == s[j] by {
            lemma_rot13_involution(s[j]);
        }
    }
}

proof fn lemma_ascii_prefix_len_bound(s: Seq<char>)
    ensures
        0 <= ascii_prefix_len(s) <= s.len(),
    decreases s.len(),
{
    if s.len() > 0 && (s[0] as u32) < 128 {
        lemma_ascii_prefix_len_bound(s.drop_first());
    }
}

proof fn lemma_ascii_prefix_all(s: Seq<char>, j: int)
    requires
        0 <= j < ascii_prefix_len(s),
    ensures
        (s[j] as u32) < 128,
    decreases j,
{
    lemma_ascii_prefix_len_bound(s.drop_first());
    if j > 0 {
        lemma_ascii_prefix_all(s.drop_first(), j - 1);
    }
}

/// Enciphers `text` with ROT13, stopping at its first non-ASCII character;
/// the flag tells whether it stopped there.
pub fn rot13_text(text: &str) -> (r: (String, bool))
    ensures
        (r.0@, r.1) == spec_rot13_text(text@),
{
    let v = chars_of(text);
    let mut out = String::new();
    let mut i: usize = 0;
    let ghost target = v@.map_values(|c: char| spec_rot13(c));
    while i < v.len() && (v[i] as u32) < 128
        invariant
            v@ == text@,
            i <= v@.len(),
            forall|j: int| 0 <= j < i ==> (#[trigger] v@[j] as u32) < 128,
            target == v@.map_values(|c: char| spec_rot13(c)),
            out@ == target.take(i as int),
        decreases v@.len() - i,
    {
        let c = rot13_char(v[i]);
        push_char(&mut out, c);
        assert(target.take(i + 1) =~= target.take(i as int).push(c));
        i = i + 1;
    }
    proof {
        lemma_ascii_prefix_len(v@, i as int);
        assert(v@.take(i as int).map_values(|c: char| spec_rot13(c)) =~= target.take(i as int));
    }
    (out, i < v.len())
}

/// The expansion of an abbreviation (`pt`, `ptr`, `dl`, `dna`); any other
/// word is itself.
pub open spec fn expand_word(w: Seq<char>) -> Seq<char> {
    if w == "pt"@ || w == "ptr"@ {
        "pentru"@
    } else if w == "dl"@ {
        "domnul"@
    } else if w == "dna"@ {
        "doamna"@
    } else {
        w
    }
}

/// Each word expanded and followed by one space.
pub open spec fn expanded(ws: Seq<Seq<char>>) -> Seq<char>
    decreases ws.len(),
{
    if ws.len() == 0 {
        Seq::empty()
    } else {
        expanded(ws.drop_last()) + expand_word(ws.last()) + " "@
    }
}

/// Rewrites `text` word by word (words are separated by single spaces):
/// `pt` and `ptr` become `pentru`, `dl` becomes `domnul`, `dna` becomes
/// `doamna`, and every word is followed by a space.
pub fn expand_abbreviations(text: &str) -> (r: String)
    ensures
        r@ == expanded(split_pieces(text@, Separator::Char(' '))),
{
    let v = chars_of(text);
    let pieces = split_ranges(&v, 0, v.len(), Separator::Char(' '));
    assert(v@.subrange(0, v@.len() as int) =~= v@);
    let ghost ws = ranges_text(v@, pieces@);
    let mut out = String::new();
    let mut k: usize = 0;
    assert(ws.take(0) =~= Seq::<Seq<char>>::empty());
    while k < pieces.len()
        invariant
            k <= pieces@.len(),
            ws == ranges_text(v@, pieces@),
            ranges_within(pieces@, v@.len()),
            out@ == expanded(ws.take(k as int)),
        decreases pieces@.len() - k,
    {
        let (a, b) = pieces[k];
        assert(pieces@[k as int] == (a, b));
        let ghost w = v@.subrange(a as int, b as int);
        assert(ws.take(k + 1).drop_last() =~= ws.take(k as int));
        assert(ws.take(k + 1).last() == w);
        if range_is(&v, a, b, "pt") || range_is(&v, a, b, "ptr") {
            out.append("pentru");
        } else if range_is(&v, a, b, "dl") {
            out.append("domnul");
        } else if range_is(&v, a, b, "dna") {
            out.append("doamna");
        } else {
            let word = string_from_range(&v, a, b);
            out.append(word.as_str());
        }
        out.append(" ");
        k = k + 1;
    }
    assert(ws.take(pieces@.len() as int) =~= ws);
    out
}

/// One line of a hosts file.
#[derive(Debug)]
pub enum HostLine {
    /// A line starting with `#`.
    Comment,
    /// An empty line (which stops the listing).
    Empty,
    /// A line with fewer than two fields (which stops the listing).
    Short,
    /// An address and the name given to it.
    Entry(String, String),
}

/// A hosts line, as texts.
pub ghost enum HostLineSpec {
    Comment,
    Empty,
    Short,
    Entry(Seq<char>, Seq<char>),
}

impl View for HostLine {
    type V = HostLineSpec;

    open spec fn view(&self) -> HostLineSpec {
        match self {
            HostLine::Comment => HostLineSpec::Comment,
            HostLine::Empty => HostLineSpec::Empty,
            HostLine::Short => HostLineSpec::Short,
            HostLine::Entry(a, n) => HostLineSpec::Entry(a@, n@),
        }
    }
}

/// What a hosts line holds: its first two whitespace-separated fields,
/// unless it is empty or a comment.
pub open spec fn spec_host_line(line: Seq<char>) -> HostLineSpec {
    if line.len() == 0 {
        HostLineSpec::Empty
    } else if line[0] == '#' {
        HostLineSpec::Comment
    } else if words(line).len() < 2 {
        HostLineSpec::Short
    } else {
        HostLineSpec::Entry(words(line)[0], words(line)[1])
    }
}

/// A hosts line is read by its whitespace-separated words: a line that is
/// neither empty nor a comment and has at least two words is an entry of its
/// first word (the address) and its second (the name), whatever follows; one
/// with fewer words is short. Only the words count, not the whitespace between them.
pub proof fn lemma_host_line_words(line: Seq<char>, other: Seq<char>)
    ensures
        line.len() > 0 && line[0] != '#' && words(line).len() >= 2 ==> spec_host_line(line)
            == HostLineSpec::Entry(words(line)[0], words(line)[1]),
        line.len() > 0 && line[0] != '#' && words(line).len() < 2 ==> spec_host_line(line) == HostLineSpec::Short,
        line.len() > 0 && other.len() > 0 && line[0] != '#' && other[0] != '#' && words(line) == words(other)
            ==> spec_host_line(line) == spec_host_line(other),
{
}

/// The lines of a hosts file (its pieces between `\n`), each read.
pub fn hosts_lines(text: &str) -> (r: Vec<HostLine>)
    ensures
        r@.len() == lines_of(text@).len(),
        forall|i: int| 0 <= i < r@.len() ==> #[trigger] r@[i]@ == spec_host_line(lines_of(text@)[i]),
{
    let v = chars_of(text);
    let lines = split_ranges(&v, 0, v.len(), Separator::Char('\n'));
    assert(v@.subrange(0, v@.len() as int) =~= v@);
    let ghost ls = ranges_text(v@, lines@);
    let mut out: Vec<HostLine> = Vec::new();
    let mut k: usize = 0;
    while k < lines.len()
        invariant
            k <= lines@.len(),
            ls == ranges_text(v@, lines@),
            ls == lines_of(text@),
            ranges_within(lines@, v@.len()),
            out@.len() == k,
            forall|i: int| 0 <= i < k ==> #[trigger] out@[i]@ == spec_host_line(ls[i]),
        decreases lines@.len() - k,
    {
        let (a, b) = lines[k];
        assert(lines@[k as int] == (a, b));
        let ghost line = v@.subrange(a as int, b as int);
        assert(ls[k as int] == line);
        let entry = if a == b {
            HostLine::Empty
        } else if v[a] == '#' {
            HostLine::Comment
        } else {
            let fields = word_ranges(&v, a, b);
            if fields.len() < 2 {
                HostLine::Short
            } else {
                let (a0, b0) = fields[0];
                let (a1, b1) = fields[1];
                assert(fields@[0] == (a0, b0) && fields@[1] == (a1, b1));
                HostLine::Entry(string_from_range(&v, a0, b0), string_from_range(&v, a1, b1))
            }
        };
        out.push(entry);
        k = k + 1;
    }
    out
}

} // verus!
