//! Reading the replies of an FTP server: directory listing lines, and
//! whether a listing mentions a file name.

use vstd::prelude::*;
use crate::text::{chars_of, join, push_char, range_is, ranges_text, ranges_within, word_ranges, words};

verus! {

broadcast use vstd::string::group_string_axioms;

/// One line of a directory listing.
#[derive(Debug)]
pub enum ListingEntry {
    /// Fewer than nine whitespace-separated fields.
    Malformed,
    /// The file `desktop.ini`, which is not synchronised.
    Ignored,
    /// A file with this name.
    File(String),
}

/// A listing line, as texts.
pub ghost enum ListingEntrySpec {
    Malformed,
    Ignored,
    File(Seq<char>),
}

impl View for ListingEntry {
    type V = ListingEntrySpec;

    open spec fn view(&self) -> ListingEntrySpec {
        match self {
            ListingEntry::Malformed => ListingEntrySpec::Malformed,
            ListingEntry::Ignored => ListingEntrySpec::Ignored,
            ListingEntry::File(n) => ListingEntrySpec::File(n@),
        }
    }
}

/// A Unix-style listing line: the name is every field from the ninth on,
/// joined by single spaces.
pub open spec fn spec_listing_entry(line: Seq<char>) -> ListingEntrySpec {
    let fields = words(line);
    if fields.len() < 9 {
        ListingEntrySpec::Malformed
    } else {
        let name = join(fields.skip(8), " "@);
        if name == "desktop.ini"@ {
            ListingEntrySpec::Ignored
        } else {
            ListingEntrySpec::File(name)
        }
    }
}

/// Reads one line of a directory listing.
pub fn ftp_listing_entry(line: &str) -> (r: ListingEntry)
    ensures
        r@ == spec_listing_entry(line@),
{
    let v = chars_of(line);
    let fields = word_ranges(&v, 0, v.len());
    assert(v@.subrange(0, v@.len() as int) =~= v@);
    let ghost ws = ranges_text(v@, fields@);
    if fields.len() < 9 {
        return ListingEntry::Malformed;
    }
    let mut name = String::new();
    let mut k: usize = 8;
    assert(ws.skip(8).take(0) =~= Seq::<Seq<char>>::empty());
    while k < fields.len()
        invariant
            8 <= k <= fields@.len(),
            ws == ranges_text(v@, fields@),
            ranges_within(fields@, v@.len()),
            name@ == join(ws.skip(8).take(k - 8), " "@),
        decreases fields@.len() - k,
    {
        let (a, b) = fields[k];
        assert(fields@[k as int] == (a, b));
        assert(a <= b <= v@.len());
        let ghost before = name@;
        if k > 8 {
            push_char(&mut name, ' ');
            proof {
                reveal_strlit(" ");
            }
            assert(name@ =~= before + " "@ + v@.subrange(a as int, a as int));
        } else {
            assert(name@ =~= before + v@.subrange(a as int, a as int));
        }
        let mut p = a;
        while p < b
            invariant
                a <= p <= b <= v@.len(),
                k > 8 ==> name@ == before + " "@ + v@.subrange(a as int, p as int),
                k == 8 ==> name@ == before + v@.subrange(a as int, p as int),
            decreases b - p,
        {
            let ghost n0 = name@;
            push_char(&mut name, v[p]);
            assert(v@.subrange(a as int, p + 1) =~= v@.subrange(a as int, p as int).push(v@[p as int]));
            assert(name@ =~= n0.push(v@[p as int]));
            p = p + 1;
        }
        proof {
            let sk = ws.skip(8);
            assert(sk.take(k + 1 - 8).drop_last() =~= sk.take(k - 8));
            assert(sk.take(k + 1 - 8).last() == v@.subrange(a as int, b as int));
            if k == 8 {
                assert(before =~= Seq::<char>::empty());
                assert(name@ =~= v@.subrange(a as int, b as int));
            }
        }
        k = k + 1;
    }
    assert(ws.skip(8).take(fields@.len() - 8) =~= ws.skip(8));
    let nv = chars_of(name.as_str());
    assert(nv@.subrange(0, nv@.len() as int) =~= nv@);
    if range_is(&nv, 0, nv.len(), "desktop.ini") {
        ListingEntry::Ignored
    } else {
        ListingEntry::File(name)
    }
}

/// `needle` occurs in `hay` (an empty needle occurs everywhere).
pub open spec fn contains_text(hay: Seq<char>, needle: Seq<char>) -> bool {
    exists|p: int| 0 <= p && p + needle.len() <= hay.len() && #[trigger] hay.subrange(p, p + needle.len()) == needle
}

/// Whether `needle` occurs in `hay`.
fn occurs_in(hay: &Vec<char>, needle: &Vec<char>) -> (r: bool)
    ensures
        r == contains_text(hay@, needle@),
{
    let n = hay.len();
    let m = needle.len();
    if m > n {
        assert(!contains_text(hay@, needle@));
        return false;
    }
    let mut p: usize = 0;
    while p <= n - m
        invariant
            n == hay@.len(),
            m == needle@.len(),
            m <= n,
            p <= n - m + 1,
            forall|q: int| 0 <= q < p ==> #[trigger] hay@.subrange(q, q + m) != needle@,
        decreases n + 1 - p,
    {
        let mut j: usize = 0;
        let mut same = true;
        while j < m
            invariant
                n == hay@.len(),
                m == needle@.len(),
                p + m <= n,
                j <= m,
                same == (forall|k: int| 0 <= k < j ==> hay@[p + k] == needle@[k]),
            decreases m - j,
        {
            if hay[p + j] != needle[j] {
                same = false;
            }
            j = j + 1;
        }
        if same {
            assert(hay@.subrange(p as int, p + m) =~= needle@);
            return true;
        }
        assert(hay@.subrange(p as int, p + m) != needle@) by {
            let k = choose|k: int| 0 <= k < m && hay@[p + k] != needle@[k];
            assert(hay@.subrange(p as int, p + m)[k] == hay@[p + k]);
        }
        p = p + 1;
    }
    false
}

/// Whether some line of a listing contains `name` (the test the synchroniser
/// uses to decide that a file exists on the server).
pub fn listing_mentions(listing: &Vec<String>, name: &str) -> (r: bool)
    ensures
        r == exists|i: int| 0 <= i < listing@.len() && contains_text(#[trigger] listing@[i]@, name@),
{
    let needle = chars_of(name);
    let mut i: usize = 0;
    while i < listing.len()
        invariant
            i <= listing@.len(),
            needle@ == name@,
            forall|k: int| 0 <= k < i ==> !contains_text(#[trigger] listing@[k]@, name@),
        decreases listing@.len() - i,
    {
        let hay = chars_of(listing[i].as_str());
        if occurs_in(&hay, &needle) {
            return true;
        }
        i = i + 1;
    }
    false
}

/// An FTP path as sent to the server: every `\` becomes `/`.
pub fn ftp_remote_path(path: &str) -> (r: String)
    ensures
        r@ == path@.map_values(|c: char| if c == '\\' { '/' } else { c }),
{
    let v = chars_of(path);
    let ghost target = path@.map_values(|c: char| if c == '\\' { '/' } else { c });
    let mut r = String::new();
    let mut i: usize = 0;
    while i < v.len()
        invariant
            v@ == path@,
            i <= v@.len(),
            target == path@.map_values(|c: char| if c == '\\' { '/' } else { c }),
            r@ == target.take(i as int),
        decreases v@.len() - i,
    {
        let c = if v[i] == '\\' { '/' } else { v[i] };
        push_char(&mut r, c);
        assert(target.take(i + 1) =~= target.take(i as int).push(c));
        i = i + 1;
    }
    assert(target.take(v@.len() as int) =~= target);
    r
}

} // verus!
