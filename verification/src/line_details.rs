//! The parsed attribution record and the executable line parser.
//!
//! [`parse_line`] turns one raw attribution line into a [`LineDetails`],
//! exactly as [`crate::grammar::parse_spec`] says: it returns a record
//! precisely when the line matches the grammar and carries a real calendar
//! timestamp, and every field of the record is the one the grammar reads.

use vstd::prelude::*;
use vstd::string::StrSliceExecFns;
use vstd::string::StringExecFns;
use crate::grammar::RecordModel;
use crate::grammar::anchor_at;
use crate::grammar::delim_at;
use crate::grammar::digit2_at;
use crate::grammar::digit4_at;
use crate::grammar::has_anchor;
use crate::grammar::has_delim_upto;
use crate::grammar::is_digit;
use crate::grammar::is_space_char;
use crate::grammar::is_top_anchor;
use crate::grammar::is_top_delim;
use crate::grammar::lemma_anchor_bounds;
use crate::grammar::lemma_top_anchor_unique;
use crate::grammar::lemma_top_delim_unique;
use crate::grammar::offset_has_colon;
use crate::grammar::parse_spec;
use crate::grammar::sign_pos;
use crate::grammar::trim_back;
use crate::grammar::trim_front;
use crate::grammar::trim_spec;
use crate::grammar::ts_end;
use crate::grammar::ts_shape_at;
use crate::grammar::ts_value_at;
use crate::grammar::val2;
use crate::grammar::val4;
use crate::timestamp::Timestamp;

verus! {

/// The structured result of parsing one raw attribution line.
#[derive(Debug)]
pub struct LineDetails {
    /// The path as seen by the enumerator.
    pub file_name: String,
    /// The path the attribution query reports for this line.
    pub original_filename: String,
    /// Identifier of the change that introduced the line.
    pub commit_hash: String,
    /// The author, trimmed of surrounding whitespace.
    pub author: String,
    /// The instant the line was authored.
    pub datetime: Timestamp,
    /// The line's literal content.
    pub code: String,
}

impl View for LineDetails {
    type V = RecordModel;

    open spec fn view(&self) -> RecordModel {
        RecordModel {
            file_path: self.file_name@,
            original_file_path: self.original_filename@,
            revision_id: self.commit_hash@,
            author: self.author@,
            timestamp: self.datetime,
            code_text: self.code@,
        }
    }
}

impl Clone for LineDetails {
    fn clone(&self) -> (r: Self)
        ensures
            r@ == self@,
    {
        LineDetails {
            file_name: self.file_name.clone(),
            original_filename: self.original_filename.clone(),
            commit_hash: self.commit_hash.clone(),
            author: self.author.clone(),
            datetime: self.datetime,
            code: self.code.clone(),
        }
    }
}

impl Default for LineDetails {
    /// The undefined record: empty fields under the latest timestamp the
    /// model reaches, so that any real record reads as older.
    fn default() -> (r: Self)
        ensures
            r@ == RecordModel::undefined(),
    {
        LineDetails {
            file_name: String::new(),
            original_filename: String::new(),
            commit_hash: String::new(),
            author: String::new(),
            datetime: Timestamp::latest(),
            code: String::new(),
        }
    }
}

/// Whether `c` is an ASCII decimal digit.
fn digit(c: char) -> (r: bool)
    ensures
        r == is_digit(c),
{
    let u = c as u32;
    48 <= u && u <= 57
}

/// Two decimal digits at `i`, `i + 1`.
fn digit2(line: &str, i: usize) -> (r: bool)
    requires
        i + 2 <= line@.len(),
        i + 2 <= usize::MAX,
    ensures
        r == digit2_at(line@, i as int),
{
    digit(line.get_char(i)) && digit(line.get_char(i + 1))
}

/// Value of the two-digit number at `i`.
fn read2(line: &str, i: usize) -> (r: u32)
    requires
        digit2_at(line@, i as int),
        i + 2 <= usize::MAX,
    ensures
        r as int == val2(line@, i as int),
        r <= 99,
{
    let a = line.get_char(i) as u32 - 48;
    let b = line.get_char(i + 1) as u32 - 48;
    a * 10 + b
}

/// Value of the four-digit number at `i`.
fn read4(line: &str, i: usize) -> (r: u32)
    requires
        digit4_at(line@, i as int),
        i + 4 <= usize::MAX,
    ensures
        r as int == val4(line@, i as int),
        r <= 9999,
{
    let a = line.get_char(i) as u32 - 48;
    let b = line.get_char(i + 1) as u32 - 48;
    let c = line.get_char(i + 2) as u32 - 48;
    let d = line.get_char(i + 3) as u32 - 48;
    a * 1000 + b * 100 + c * 10 + d
}

/// Whether a timestamp anchor starts at `q`.
fn check_anchor(line: &str, q: usize, n: usize) -> (r: bool)
    requires
        n == line@.len(),
        q + 28 <= n,
    ensures
        r == anchor_at(line@, q as int),
{
    if !(digit2(line, q) && digit2(line, q + 2) && line.get_char(q + 4) == '-' && digit2(
        line,
        q + 5,
    ) && line.get_char(q + 7) == '-' && digit2(line, q + 8)) {
        return false;
    }
    let sep = line.get_char(q + 10);
    if !(sep == 'T' || sep == ' ') {
        return false;
    }
    if !(digit2(line, q + 11) && line.get_char(q + 13) == ':' && digit2(line, q + 14)
        && line.get_char(q + 16) == ':' && digit2(line, q + 17)) {
        return false;
    }
    let s: usize = if line.get_char(q + 19) == ' ' {
        q + 20
    } else {
        q + 19
    };
    assert(s == sign_pos(line@, q as int));
    let sign = line.get_char(s);
    if !(sign == '+' || sign == '-') {
        return false;
    }
    if !digit2(line, s + 1) {
        return false;
    }
    let colon = line.get_char(s + 3) == ':';
    assert(colon == offset_has_colon(line@, q as int));
    let e: usize = if colon {
        if !digit2(line, s + 4) {
            return false;
        }
        s + 6
    } else {
        if !digit2(line, s + 3) {
            return false;
        }
        s + 5
    };
    assert(e == ts_end(line@, q as int));
    assert(ts_shape_at(line@, q as int));
    if e > n - 4 {
        return false;
    }
    digit(line.get_char(e + 1)) && line.get_char(e) == ' ' && line.get_char(e + 2) == ')'
}

/// The timestamp value at an anchor, and the position one past it.
fn read_timestamp(line: &str, q: usize) -> (r: (Timestamp, usize))
    requires
        anchor_at(line@, q as int),
        q + 28 <= usize::MAX,
    ensures
        r.0 == ts_value_at(line@, q as int),
        r.1 as int == ts_end(line@, q as int),
        q + 24 <= r.1 <= q + 26,
{
    proof {
        lemma_anchor_bounds(line@, q as int);
    }
    let year = read4(line, q);
    let month = read2(line, q + 5);
    let day = read2(line, q + 8);
    let hour = read2(line, q + 11);
    let minute = read2(line, q + 14);
    let second = read2(line, q + 17);
    let s: usize = if line.get_char(q + 19) == ' ' {
        q + 20
    } else {
        q + 19
    };
    assert(s == sign_pos(line@, q as int));
    let colon = line.get_char(s + 3) == ':';
    let oh = read2(line, s + 1);
    let om = if colon {
        read2(line, s + 4)
    } else {
        read2(line, s + 3)
    };
    let mag: i32 = (oh * 60 + om) as i32;
    let offset_minutes: i32 = if line.get_char(s) == '-' {
        -mag
    } else {
        mag
    };
    let e: usize = if colon {
        s + 6
    } else {
        s + 5
    };
    let ts = Timestamp { year, month, day, hour, minute, second, offset_minutes };
    (ts, e)
}

/// The last anchor position, scanning from the top of the line.
fn find_top_anchor(line: &str, n: usize) -> (r: Option<usize>)
    requires
        n == line@.len(),
        n >= 73,
    ensures
        match r {
            Some(q) => is_top_anchor(line@, q as int) && 45 <= q && q + 28 <= n,
            None => !has_anchor(line@),
        },
{
    let mut q: usize = n - 28;
    assert forall|q2: int| n - 28 < q2 implies !anchor_at(line@, q2) by {
        if anchor_at(line@, q2) {
            lemma_anchor_bounds(line@, q2);
        }
    }
    loop
        invariant
            45 <= q <= n - 28,
            n == line@.len(),
            n >= 73,
            forall|q2: int| q < q2 ==> !anchor_at(line@, q2),
        decreases q,
    {
        if check_anchor(line, q, n) {
            return Some(q);
        }
        if q == 45 {
            return None;
        }
        q = q - 1;
    }
}

/// The last ` (` delimiter at or below `b`, scanning downward.
fn find_top_delim(line: &str, b: usize) -> (r: Option<usize>)
    requires
        42 <= b,
        b + 2 <= line@.len(),
        b + 2 <= usize::MAX,
    ensures
        match r {
            Some(p) => is_top_delim(line@, b as int, p as int),
            None => !has_delim_upto(line@, b as int),
        },
{
    let mut p: usize = b;
    loop
        invariant
            42 <= p <= b,
            b + 2 <= line@.len(),
            b + 2 <= usize::MAX,
            forall|p2: int| p < p2 <= b ==> !delim_at(line@, p2),
        decreases p,
    {
        if line.get_char(p) == ' ' && line.get_char(p + 1) == '(' {
            return Some(p);
        }
        if p == 42 {
            return None;
        }
        p = p - 1;
    }
}

/// Whether the character at `i` is whitespace that trimming removes.
fn space_at(s: &str, i: usize) -> (r: bool)
    requires
        i < s@.len(),
    ensures
        r == is_space_char(s@[i as int]),
{
    let c = s.get_char(i);
    c == ' ' || c == '\t' || c == '\r' || c == '\n'
}

/// Copy of `s` with surrounding whitespace removed.
fn trim(s: &str) -> (r: String)
    ensures
        r@ == trim_spec(s@),
{
    let n = s.unicode_len();
    let mut a: usize = 0;
    while a < n && space_at(s, a)
        invariant
            0 <= a <= n,
            n == s@.len(),
            forall|i: int| 0 <= i < a ==> is_space_char(s@[i]),
        decreases n - a,
    {
        a = a + 1;
    }
    let mut b: usize = n;
    while b > a && space_at(s, b - 1)
        invariant
            a <= b <= n,
            n == s@.len(),
            forall|i: int| 0 <= i < a ==> is_space_char(s@[i]),
            forall|i: int| b <= i < n ==> is_space_char(s@[i]),
        decreases b,
    {
        b = b - 1;
    }
    proof {
        lemma_trim_bounds(s@, a as int, b as int);
    }
    String::from_str(s.substring_char(a, b))
}

/// Trimming removes exactly the whitespace span at each end.
proof fn lemma_trim_front_skip(s: Seq<char>, a: int)
    requires
        0 <= a <= s.len(),
        forall|i: int| 0 <= i < a ==> is_space_char(s[i]),
        a < s.len() ==> !is_space_char(s[a]),
    ensures
        trim_front(s) == s.subrange(a, s.len() as int),
    decreases a,
{
    if a == 0 {
        if s.len() > 0 && is_space_char(s[0]) {
            assert(false);
        }
        assert(s.subrange(0, s.len() as int) =~= s);
    } else {
        let t = s.subrange(1, s.len() as int);
        lemma_trim_front_skip(t, a - 1);
        assert(t.subrange(a - 1, t.len() as int) =~= s.subrange(a, s.len() as int));
    }
}

/// Trimming the back removes exactly the whitespace span there.
proof fn lemma_trim_back_take(s: Seq<char>, b: int)
    requires
        0 <= b <= s.len(),
        forall|i: int| b <= i < s.len() ==> is_space_char(s[i]),
        b > 0 ==> !is_space_char(s[b - 1]),
    ensures
        trim_back(s) == s.subrange(0, b),
    decreases s.len() - b,
{
    if b == s.len() {
        if s.len() > 0 && is_space_char(s.last()) {
            assert(false);
        }
        assert(s.subrange(0, s.len() as int) =~= s);
    } else {
        lemma_trim_back_take(s.drop_last(), b);
        assert(s.drop_last().subrange(0, b) =~= s.subrange(0, b));
    }
}

/// With only whitespace before `a` and from `b` on, and none at the two
/// boundaries, the trimmed string is the span between them.
proof fn lemma_trim_bounds(s: Seq<char>, a: int, b: int)
    requires
        0 <= a <= b <= s.len(),
        forall|i: int| 0 <= i < a ==> is_space_char(s[i]),
        forall|i: int| b <= i < s.len() ==> is_space_char(s[i]),
        a < s.len() && a < b ==> !is_space_char(s[a]),
        b > a ==> !is_space_char(s[b - 1]),
    ensures
        trim_spec(s) == s.subrange(a, b),
{
    if a == b {
        // the whole string is whitespace
        lemma_trim_front_skip(s, s.len() as int);
        lemma_trim_back_take(s.subrange(s.len() as int, s.len() as int), 0);
        assert(s.subrange(a, b) =~= s.subrange(s.len() as int, s.len() as int));
    } else {
        lemma_trim_front_skip(s, a);
        let t = s.subrange(a, s.len() as int);
        lemma_trim_back_take(t, b - a);
        assert(t.subrange(0, b - a) =~= s.subrange(a, b));
    }
}

/// Parses one raw attribution line, seen under the path `file_name`.
///
/// Returns a record exactly when the line matches the attribution grammar
/// and its timestamp names a real calendar date; every field of the record
/// is the one [`parse_spec`] reads out of the line.
pub fn parse_line(line: &str, file_name: &str) -> (r: Option<LineDetails>)
    ensures
        r is Some <==> parse_spec(line@, file_name@) is Some,
        r is Some ==> r.unwrap()@ == parse_spec(line@, file_name@).unwrap(),
        r is Some ==> r.unwrap().datetime.wf(),
{
    let n = line.unicode_len();
    if n < 73 {
        proof {
            assert forall|q: int| !(45 <= q && anchor_at(line@, q)) by {
                if anchor_at(line@, q) {
                    lemma_anchor_bounds(line@, q);
                }
            }
        }
        return None;
    }
    if line.get_char(40) != ' ' {
        return None;
    }
    let q = match find_top_anchor(line, n) {
        None => {
            return None;
        },
        Some(q) => q,
    };
    proof {
        lemma_top_anchor_unique(line@, q as int);
    }
    let (ts, e) = read_timestamp(line, q);
    let p = match find_top_delim(line, q - 3) {
        None => {
            return None;
        },
        Some(p) => p,
    };
    proof {
        lemma_top_delim_unique(line@, q as int - 3, p as int);
    }
    if !ts.check_wf() {
        return None;
    }
    let commit_hash = String::from_str(line.substring_char(0, 40));
    let original_filename = String::from_str(line.substring_char(41, p));
    let author = trim(line.substring_char(p + 2, q));
    let code = String::from_str(line.substring_char(e + 3, n));
    Some(
        LineDetails {
            file_name: String::from_str(file_name),
            original_filename,
            commit_hash,
            author,
            datetime: ts,
            code,
        },
    )
}

} // verus!
