//! Student records: reading them from `name,phone,age` lines, and finding
//! the oldest and the youngest.

use vstd::prelude::*;
use crate::builder::{decimal, digit_char};
use crate::text::{
    chars_of, ranges_text, ranges_within, split_pieces, split_ranges, string_from_range, trim,
    trim_bounds, Separator,
};

verus! {

broadcast use vstd::string::group_string_axioms;

/// A student.
#[derive(Debug)]
pub struct Student {
    pub name: String,
    pub phone: String,
    pub age: u32,
}

/// A student, as texts.
pub ghost struct StudentView {
    pub name: Seq<char>,
    pub phone: Seq<char>,
    pub age: u32,
}

impl View for Student {
    type V = StudentView;

    open spec fn view(&self) -> StudentView {
        StudentView { name: self.name@, phone: self.phone@, age: self.age }
    }
}

impl Student {
    /// A copy of this student.
    pub fn duplicate(&self) -> (r: Student)
        ensures
            r@ == self@,
    {
        Student { name: self.name.clone(), phone: self.phone.clone(), age: self.age }
    }
}

/// The numeric value of a sequence of decimal digits.
pub open spec fn digits_value(d: Seq<char>) -> nat
    decreases d.len(),
{
    if d.len() == 0 {
        0
    } else {
        digits_value(d.drop_last()) * 10 + ((d.last() as u32) - 48) as nat
    }
}

/// An ASCII decimal digit.
pub open spec fn is_digit(c: char) -> bool {
    '0' <= c && c <= '9'
}

/// `s` without one leading `+`, if it has one.
pub open spec fn strip_plus(s: Seq<char>) -> Seq<char> {
    if s.len() > 0 && s[0] == '+' {
        s.drop_first()
    } else {
        s
    }
}

/// The value of one or more ASCII digits, when it fits in a `u32`.
pub open spec fn parse_digits(d: Seq<char>) -> Option<u32> {
    if d.len() == 0 || exists|i: int| 0 <= i < d.len() && !is_digit(#[trigger] d[i]) {
        None
    } else if digits_value(d) > u32::MAX {
        None
    } else {
        Some(digits_value(d) as u32)
    }
}

/// `u32` parsing as `str::parse` does it: an optional `+`, then one or more
/// ASCII digits whose value fits in a `u32`.
pub open spec fn spec_parse_u32(s: Seq<char>) -> Option<u32> {
    parse_digits(strip_plus(s))
}

proof fn lemma_decimal_value(n: nat)
    ensures
        digits_value(decimal(n)) == n,
        forall|i: int| 0 <= i < decimal(n).len() ==> is_digit(#[trigger] decimal(n)[i]),
        n > 0 ==> decimal(n).len() > 0,
    decreases n,
{
    if n > 0 {
        lemma_decimal_value(n / 10);
        let d = decimal(n);
        assert(d.drop_last() == decimal(n / 10));
        assert((digit_char(n as int) as u32) - 48 == n % 10);
        assert forall|i: int| 0 <= i < d.len() implies is_digit(#[trigger] d[i]) by {
            if i < d.len() - 1 {
                assert(d[i] == decimal(n / 10)[i]);
            }
        }
    }
}

/// Reading back a positive number written in decimal (as `add_integer`
/// writes it, once the group separators are dropped) gives the number.
pub proof fn lemma_parse_decimal_round_trip(n: u32)
    requires
        n > 0,
    ensures
        spec_parse_u32(decimal(n as nat)) == Some(n),
{
    lemma_decimal_value(n as nat);
    let d = decimal(n as nat);
    assert(d[0] != '+');
    assert(strip_plus(d) == d);
}

/// Reads a `u32` from `v[lo..hi]`.
pub fn parse_u32(v: &Vec<char>, lo: usize, hi: usize) -> (r: Option<u32>)
    requires
        lo <= hi <= v@.len(),
    ensures
        r == spec_parse_u32(v@.subrange(lo as int, hi as int)),
{
    let ghost s = v@.subrange(lo as int, hi as int);
    let start = if lo < hi && v[lo] == '+' { lo + 1 } else { lo };
    let ghost d = v@.subrange(start as int, hi as int);
    assert(d =~= strip_plus(s));
    if start == hi {
        return None;
    }
    let cap: u64 = 0x1_0000_0000;
    let mut value: u64 = 0;
    let mut i = start;
    assert(v@.subrange(start as int, start as int) =~= Seq::<char>::empty());
    while i < hi
        invariant
            start <= i <= hi <= v@.len(),
            d == v@.subrange(start as int, hi as int),
            d == strip_plus(s),
            s == v@.subrange(lo as int, hi as int),
            cap == 0x1_0000_0000,
            forall|k: int| start <= k < i ==> is_digit(#[trigger] v@[k]),
            value == (if digits_value(v@.subrange(start as int, i as int)) < cap {
                digits_value(v@.subrange(start as int, i as int))
            } else {
                cap as nat
            }),
        decreases hi - i,
    {
        let c = v[i];
        if !('0' <= c && c <= '9') {
            assert(!is_digit(d[i - start]));
            return None;
        }
        let dig: u64 = (c as u32 - 48) as u64;
        let ghost prev = digits_value(v@.subrange(start as int, i as int));
        assert(v@.subrange(start as int, i + 1).drop_last() =~= v@.subrange(start as int, i as int));
        assert(v@.subrange(start as int, i + 1).last() == c);
        let ghost next = digits_value(v@.subrange(start as int, i + 1));
        assert(next == prev * 10 + dig);
        if value < cap {
            let n = value * 10 + dig;
            value = if n < cap { n } else { cap };
        } else {
            assert(next >= prev) by (nonlinear_arith)
                requires next == prev * 10 + dig;
        }
        i = i + 1;
    }
    assert(forall|k: int| 0 <= k < d.len() ==> is_digit(#[trigger] d[k])) by {
        assert forall|k: int| 0 <= k < d.len() implies is_digit(#[trigger] d[k]) by {
            assert(d[k] == v@[start + k]);
        }
    }
    if value < cap {
        Some(value as u32)
    } else {
        None
    }
}

/// A `name,phone,age` line. Fields are the pieces between commas; the age is
/// the third field, trimmed of whitespace and read as a `u32` (0 when it does
/// not read). `None` when the line has fewer than three fields.
pub open spec fn spec_student_line(line: Seq<char>) -> Option<(StudentView, bool)> {
    let fields = split_pieces(line, Separator::Char(','));
    if fields.len() < 3 {
        None
    } else {
        let age = spec_parse_u32(trim(fields[2]));
        Some(
            (
                StudentView {
                    name: fields[0],
                    phone: fields[1],
                    age: match age {
                        Some(a) => a,
                        None => 0,
                    },
                },
                age is Some,
            ),
        )
    }
}

/// Reads a `name,phone,age` line: the student, and whether the age read
/// (an age that does not read counts as 0).
pub fn parse_student_line(line: &str) -> (r: Option<(Student, bool)>)
    ensures
        match r {
            Some((st, ok)) => spec_student_line(line@) == Some((st@, ok)),
            None => spec_student_line(line@) is None,
        },
{
    let v = chars_of(line);
    let fields = split_ranges(&v, 0, v.len(), Separator::Char(','));
    assert(v@.subrange(0, v@.len() as int) =~= v@);
    let ghost fs = ranges_text(v@, fields@);
    if fields.len() < 3 {
        return None;
    }
    let (a0, b0) = fields[0];
    let (a1, b1) = fields[1];
    let (a2, b2) = fields[2];
    assert(fields@[0] == (a0, b0) && fields@[1] == (a1, b1) && fields@[2] == (a2, b2));
    let (ta, tb) = trim_bounds(&v, a2, b2);
    let age = parse_u32(&v, ta, tb);
    let ok = age.is_some();
    let age_value = match age {
        Some(x) => x,
        None => 0,
    };
    let st = Student {
        name: string_from_range(&v, a0, b0),
        phone: string_from_range(&v, a1, b1),
        age: age_value,
    };
    Some((st, ok))
}

/// The oldest and the youngest student, searched in order from the
/// placeholders aged 0 and 1000 (empty name and phone): a student replaces
/// the oldest when strictly older, and the youngest when strictly younger.
pub open spec fn extremes(s: Seq<StudentView>) -> (StudentView, StudentView)
    decreases s.len(),
{
    if s.len() == 0 {
        (
            StudentView { name: Seq::empty(), phone: Seq::empty(), age: 0 },
            StudentView { name: Seq::empty(), phone: Seq::empty(), age: 1000 },
        )
    } else {
        let (old_, young) = extremes(s.drop_last());
        let st = s.last();
        (if st.age > old_.age { st } else { old_ }, if st.age < young.age { st } else { young })
    }
}

/// The oldest found is at least as old as every student and the youngest at
/// most as old as every student (and at most 1000); each is one of the
/// students or the placeholder it started from.
pub proof fn lemma_extremes_bound(s: Seq<StudentView>)
    ensures
        ({
            let (o, y) = extremes(s);
            &&& forall|i: int| 0 <= i < s.len() ==> (#[trigger] s[i]).age <= o.age && y.age <= s[i].age
            &&& y.age <= 1000
            &&& (exists|i: int| 0 <= i < s.len() && s[i] == o) || o == StudentView {
                name: Seq::empty(),
                phone: Seq::empty(),
                age: 0,
            }
            &&& (exists|i: int| 0 <= i < s.len() && s[i] == y) || y == StudentView {
                name: Seq::empty(),
                phone: Seq::empty(),
                age: 1000,
            }
        }),
    decreases s.len(),
{
    if s.len() > 0 {
        let t = s.drop_last();
        lemma_extremes_bound(t);
        let (o, y) = extremes(s);
        let (o0, y0) = extremes(t);
        assert forall|i: int| 0 <= i < s.len() implies (#[trigger] s[i]).age <= o.age && y.age <= s[i].age by {
            if i < s.len() - 1 {
                assert(s[i] == t[i]);
            }
        }
        if o != s.last() {
            assert(o == o0);
            if exists|i: int| 0 <= i < t.len() && t[i] == o0 {
                let i = choose|i: int| 0 <= i < t.len() && t[i] == o0;
                assert(s[i] == o);
            }
        } else {
            assert(s[s.len() - 1] == o);
        }
        if y != s.last() {
            assert(y == y0);
            if exists|i: int| 0 <= i < t.len() && t[i] == y0 {
                let i = choose|i: int| 0 <= i < t.len() && t[i] == y0;
                assert(s[i] == y);
            }
        } else {
            assert(s[s.len() - 1] == y);
        }
    }
}

/// The views of a list of students.
pub open spec fn student_views(s: Seq<Student>) -> Seq<StudentView> {
    s.map_values(|st: Student| st@)
}

/// The oldest and the youngest of `students` (see `extremes`).
pub fn oldest_and_youngest(students: &Vec<Student>) -> (r: (Student, Student))
    ensures
        (r.0@, r.1@) == extremes(student_views(students@)),
{
    let ghost sv = student_views(students@);
    let mut oldest = Student { name: String::new(), phone: String::new(), age: 0 };
    let mut youngest = Student { name: String::new(), phone: String::new(), age: 1000 };
    let mut i: usize = 0;
    assert(sv.take(0) =~= Seq::<StudentView>::empty());
    while i < students.len()
        invariant
            i <= students@.len(),
            sv == student_views(students@),
            (oldest@, youngest@) == extremes(sv.take(i as int)),
        decreases students@.len() - i,
    {
        assert(sv.take(i + 1).drop_last() =~= sv.take(i as int));
        assert(sv.take(i + 1).last() == students@[i as int]@);
        if students[i].age > oldest.age {
            oldest = students[i].duplicate();
        }
        if students[i].age < youngest.age {
            youngest = students[i].duplicate();
        }
        i = i + 1;
    }
    assert(sv.take(students@.len() as int) =~= sv);
    (oldest, youngest)
}

} // verus!
