//! The attribution-line grammar, as specification functions.
//!
//! A raw attribution line reads, in one line:
//!
//! ```text
//! <revision_id: 40 chars> <original_file_path> (<author><timestamp> <one digit>)<code_text>
//! ```
//!
//! where `<timestamp>` matches `YYYY-MM-DD[T| ]HH:MM:SS[ ]±HH[:]MM` (the
//! date/time separator is `T` or a space, the space before the sign and the
//! colon inside the offset are optional). The fields around it are free
//! text, so the grammar is disambiguated the way a greedy left-to-right
//! match does it: the timestamp starts at the last position where one can
//! start, and the ` (` that ends the file path is the last one that still
//! leaves a non-empty author before the timestamp.
//!
//! [`parse_spec`] is the parser's exact specification; the executable
//! parser lives in [`crate::line_details`].

use vstd::prelude::*;
use crate::timestamp::Timestamp;

verus! {

/// An ASCII decimal digit.
pub open spec fn is_digit(c: char) -> bool {
    48 <= c as int <= 57
}

/// Numeric value of an ASCII decimal digit.
pub open spec fn digit_val(c: char) -> int {
    c as int - 48
}

/// Two decimal digits at positions `i`, `i + 1`.
pub open spec fn digit2_at(l: Seq<char>, i: int) -> bool {
    0 <= i && i + 2 <= l.len() && is_digit(l[i]) && is_digit(l[i + 1])
}

/// Value of the two-digit number at position `i`.
pub open spec fn val2(l: Seq<char>, i: int) -> int {
    digit_val(l[i]) * 10 + digit_val(l[i + 1])
}

/// Four decimal digits at positions `i` .. `i + 4`.
pub open spec fn digit4_at(l: Seq<char>, i: int) -> bool {
    0 <= i && i + 4 <= l.len() && is_digit(l[i]) && is_digit(l[i + 1]) && is_digit(l[i + 2])
        && is_digit(l[i + 3])
}

/// Value of the four-digit number at position `i`.
pub open spec fn val4(l: Seq<char>, i: int) -> int {
    digit_val(l[i]) * 1000 + digit_val(l[i + 1]) * 100 + digit_val(l[i + 2]) * 10 + digit_val(
        l[i + 3],
    )
}

/// Position of the offset's sign for a timestamp starting at `q`: directly
/// after the seconds, or one later when the optional space is present.
pub open spec fn sign_pos(l: Seq<char>, q: int) -> int {
    if q + 19 < l.len() && l[q + 19] == ' ' {
        q + 20
    } else {
        q + 19
    }
}

/// Whether the offset at `q`'s timestamp is written with a colon.
pub open spec fn offset_has_colon(l: Seq<char>, q: int) -> bool {
    sign_pos(l, q) + 3 < l.len() && l[sign_pos(l, q) + 3] == ':'
}

/// One past the last character of the timestamp starting at `q`.
pub open spec fn ts_end(l: Seq<char>, q: int) -> int {
    if offset_has_colon(l, q) {
        sign_pos(l, q) + 6
    } else {
        sign_pos(l, q) + 5
    }
}

/// Whether a timestamp (shape only, not calendar validity) starts at `q`:
/// `YYYY-MM-DD`, then `T` or a space, then `HH:MM:SS`, then the offset.
pub open spec fn ts_shape_at(l: Seq<char>, q: int) -> bool {
    &&& 0 <= q
    &&& ts_end(l, q) <= l.len()
    &&& digit4_at(l, q)
    &&& l[q + 4] == '-'
    &&& digit2_at(l, q + 5)
    &&& l[q + 7] == '-'
    &&& digit2_at(l, q + 8)
    &&& (l[q + 10] == 'T' || l[q + 10] == ' ')
    &&& digit2_at(l, q + 11)
    &&& l[q + 13] == ':'
    &&& digit2_at(l, q + 14)
    &&& l[q + 16] == ':'
    &&& digit2_at(l, q + 17)
    &&& (l[sign_pos(l, q)] == '+' || l[sign_pos(l, q)] == '-')
    &&& digit2_at(l, sign_pos(l, q) + 1)
    &&& (offset_has_colon(l, q) ==> digit2_at(l, sign_pos(l, q) + 4))
    &&& (!offset_has_colon(l, q) ==> digit2_at(l, sign_pos(l, q) + 3))
}

/// The timestamp value written at `q` (meaningful under [`ts_shape_at`]).
pub open spec fn ts_value_at(l: Seq<char>, q: int) -> Timestamp {
    let s = sign_pos(l, q);
    let off_mag = val2(l, s + 1) * 60 + (
        if offset_has_colon(l, q) {
            val2(l, s + 4)
        } else {
            val2(l, s + 3)
        }
    );
    Timestamp {
        year: val4(l, q) as u32,
        month: val2(l, q + 5) as u32,
        day: val2(l, q + 8) as u32,
        hour: val2(l, q + 11) as u32,
        minute: val2(l, q + 14) as u32,
        second: val2(l, q + 17) as u32,
        offset_minutes: (if l[s] == '-' {
            -off_mag
        } else {
            off_mag
        }) as i32,
    }
}

/// A timestamp shape at `q` followed by its tail: a space, the one-digit
/// line counter, the closing parenthesis, and at least one code character.
pub open spec fn anchor_at(l: Seq<char>, q: int) -> bool {
    &&& ts_shape_at(l, q)
    &&& ts_end(l, q) + 4 <= l.len()
    &&& l[ts_end(l, q)] == ' '
    &&& is_digit(l[ts_end(l, q) + 1])
    &&& l[ts_end(l, q) + 2] == ')'
}

/// The ` (` that separates the original file path from the author.
pub open spec fn delim_at(l: Seq<char>, p: int) -> bool {
    0 <= p && p + 2 <= l.len() && l[p] == ' ' && l[p + 1] == '('
}

/// Whether any anchor leaves room for the prefix: 40 revision characters,
/// a space, a non-empty path, ` (`, and a non-empty author need 45
/// characters before the timestamp can start.
pub open spec fn has_anchor(l: Seq<char>) -> bool {
    exists|q: int| 45 <= q && anchor_at(l, q)
}

/// `q` is the last position where an anchor starts.
pub open spec fn is_top_anchor(l: Seq<char>, q: int) -> bool {
    &&& 45 <= q
    &&& anchor_at(l, q)
    &&& forall|q2: int| q < q2 ==> !anchor_at(l, q2)
}

/// The position where the line's timestamp starts: the greedy match takes
/// the last anchor.
pub open spec fn anchor_pos(l: Seq<char>) -> int {
    choose|q: int| is_top_anchor(l, q)
}

/// Whether some ` (` delimiter stands between position 42 and `b`.
pub open spec fn has_delim_upto(l: Seq<char>, b: int) -> bool {
    exists|p: int| 42 <= p <= b && delim_at(l, p)
}

/// `p` is the last delimiter position not above `b`.
pub open spec fn is_top_delim(l: Seq<char>, b: int, p: int) -> bool {
    &&& 42 <= p <= b
    &&& delim_at(l, p)
    &&& forall|p2: int| p < p2 <= b ==> !delim_at(l, p2)
}

/// The position of the ` (` that ends the original file path: the greedy
/// match takes the last delimiter that still leaves a non-empty author.
pub open spec fn delim_pos(l: Seq<char>) -> int {
    choose|p: int| #[trigger] is_top_delim(l, anchor_pos(l) - 3, p)
}

/// Whether the line matches the grammar's shape: a space after the 40
/// revision characters, a timestamp anchor, and a path delimiter below it.
pub open spec fn grammar_match(l: Seq<char>) -> bool {
    &&& 41 <= l.len()
    &&& l[40] == ' '
    &&& has_anchor(l)
    &&& has_delim_upto(l, anchor_pos(l) - 3)
}

/// Whether the line parses: it matches the grammar and the timestamp it
/// carries names a real calendar date and time.
pub open spec fn line_parses(l: Seq<char>) -> bool {
    grammar_match(l) && ts_value_at(l, anchor_pos(l)).wf()
}

/// Whitespace removed by trimming the author field.
pub open spec fn is_space_char(c: char) -> bool {
    c == ' ' || c == '\t' || c == '\r' || c == '\n'
}

/// `s` without its leading whitespace.
pub open spec fn trim_front(s: Seq<char>) -> Seq<char>
    decreases s.len(),
{
    if s.len() > 0 && is_space_char(s[0]) {
        trim_front(s.subrange(1, s.len() as int))
    } else {
        s
    }
}

/// `s` without its trailing whitespace.
pub open spec fn trim_back(s: Seq<char>) -> Seq<char>
    decreases s.len(),
{
    if s.len() > 0 && is_space_char(s.last()) {
        trim_back(s.drop_last())
    } else {
        s
    }
}

/// `s` without surrounding whitespace.
pub open spec fn trim_spec(s: Seq<char>) -> Seq<char> {
    trim_back(trim_front(s))
}

/// The structured content of one attribution line: the mathematical model
/// of a parsed record.
#[verifier::ext_equal]
pub struct RecordModel {
    /// The path the enumerator handed to the query.
    pub file_path: Seq<char>,
    /// The path the query reports for the line itself.
    pub original_file_path: Seq<char>,
    /// The 40-character identifier of the change that introduced the line.
    pub revision_id: Seq<char>,
    /// The author, trimmed of surrounding whitespace.
    pub author: Seq<char>,
    /// The instant the line was authored.
    pub timestamp: Timestamp,
    /// The line's literal content after the closing parenthesis.
    pub code_text: Seq<char>,
}

impl RecordModel {
    /// The undefined record: the running minimum before any real record
    /// arrived. Its timestamp is the latest the model reaches.
    pub open spec fn undefined() -> RecordModel {
        RecordModel {
            file_path: Seq::empty(),
            original_file_path: Seq::empty(),
            revision_id: Seq::empty(),
            author: Seq::empty(),
            timestamp: Timestamp::latest_spec(),
            code_text: Seq::empty(),
        }
    }
}

/// What parsing the raw line `l`, seen under the path `file`, returns.
pub open spec fn parse_spec(l: Seq<char>, file: Seq<char>) -> Option<RecordModel> {
    if line_parses(l) {
        let q = anchor_pos(l);
        let p = delim_pos(l);
        Some(
            RecordModel {
                file_path: file,
                original_file_path: l.subrange(41, p),
                revision_id: l.subrange(0, 40),
                author: trim_spec(l.subrange(p + 2, q)),
                timestamp: ts_value_at(l, q),
                code_text: l.subrange(ts_end(l, q) + 3, l.len() as int),
            },
        )
    } else {
        None
    }
}

/// An anchor at `q` needs 24 timestamp characters and 4 more behind them.
pub proof fn lemma_anchor_bounds(l: Seq<char>, q: int)
    requires
        anchor_at(l, q),
    ensures
        q + 28 <= l.len(),
{
}

/// The last anchor position is unique, so `anchor_pos` returns it.
pub proof fn lemma_top_anchor_unique(l: Seq<char>, q: int)
    requires
        is_top_anchor(l, q),
    ensures
        has_anchor(l),
        anchor_pos(l) == q,
{
    assert(is_top_anchor(l, anchor_pos(l)));
    let q2 = anchor_pos(l);
    if q2 < q {
        assert(!anchor_at(l, q));
    } else if q < q2 {
        assert(!anchor_at(l, q2));
    }
}

/// The last delimiter position below a bound is unique.
pub proof fn lemma_top_delim_unique(l: Seq<char>, b: int, p: int)
    requires
        is_top_delim(l, b, p),
    ensures
        has_delim_upto(l, b),
        (choose|p2: int| is_top_delim(l, b, p2)) == p,
{
    assert(is_top_delim(l, b, choose|p2: int| is_top_delim(l, b, p2)));
    let p2 = choose|p2: int| is_top_delim(l, b, p2);
    if p2 < p {
        assert(!delim_at(l, p));
    } else if p < p2 {
        assert(!delim_at(l, p2));
    }
}

/// A raw line assembled from its fields: the synthetic construction that
/// [`lemma_parse_round_trip`] feeds back through the parser.
pub open spec fn encode_line(
    revision_id: Seq<char>,
    original_file_path: Seq<char>,
    author: Seq<char>,
    ts_text: Seq<char>,
    counter: char,
    code_text: Seq<char>,
) -> Seq<char> {
    revision_id + seq![' '] + original_file_path + seq![' ', '('] + author + ts_text + seq![
        ' ',
        counter,
        ')',
    ] + code_text
}

/// Parse round-trip: a line assembled from valid fields parses back to
/// exactly those fields, the author trimmed.
///
/// The two quantified premises name the inputs on which the grammar is
/// genuinely ambiguous and the round trip cannot hold: an author whose
/// text contains the ` (` delimiter would move the path boundary, and a
/// tail that itself contains a later timestamp anchor (for instance a
/// code text of the form `" 2020-01-01T00:00:00+00:00 1)x"`) would move
/// the timestamp, since the greedy match takes the last anchor.
#[verifier::rlimit(60)]
pub proof fn lemma_parse_round_trip(
    file: Seq<char>,
    revision_id: Seq<char>,
    original_file_path: Seq<char>,
    author: Seq<char>,
    ts_text: Seq<char>,
    counter: char,
    code_text: Seq<char>,
)
    requires
        revision_id.len() == 40,
        original_file_path.len() >= 1,
        author.len() >= 1,
        code_text.len() >= 1,
        is_digit(counter),
        ts_shape_at(ts_text, 0),
        ts_end(ts_text, 0) == ts_text.len(),
        ts_value_at(ts_text, 0).wf(),
        forall|i: int|
            0 <= i < author.len() - 1 ==> !((#[trigger] author[i]) == ' ' && author[i + 1] == '('),
        forall|q2: int|
            q2 > 43 + original_file_path.len() + author.len() ==> !anchor_at(
                encode_line(revision_id, original_file_path, author, ts_text, counter, code_text),
                q2,
            ),
    ensures
        parse_spec(
            encode_line(revision_id, original_file_path, author, ts_text, counter, code_text),
            file,
        ) == Some(
            RecordModel {
                file_path: file,
                original_file_path: original_file_path,
                revision_id: revision_id,
                author: trim_spec(author),
                timestamp: ts_value_at(ts_text, 0),
                code_text: code_text,
            },
        ),
{
    let l = encode_line(revision_id, original_file_path, author, ts_text, counter, code_text);
    let p = 41 + original_file_path.len() as int;
    let q = p + 2 + author.len() as int;
    let t = ts_text.len() as int;
    let e = q + t;

    // the layout of the assembled line
    assert(l.len() == e + 3 + code_text.len());
    assert(forall|i: int| 0 <= i < 40 ==> l[i] == revision_id[i]);
    assert(l[40] == ' ');
    assert(forall|i: int| 41 <= i < p ==> l[i] == original_file_path[i - 41]);
    assert(l[p] == ' ');
    assert(l[p + 1] == '(');
    assert(forall|i: int| p + 2 <= i < q ==> l[i] == author[i - p - 2]);
    assert(forall|i: int| q <= i < e ==> l[i] == ts_text[i - q]);
    assert(l[e] == ' ');
    assert(l[e + 1] == counter);
    assert(l[e + 2] == ')');
    assert(forall|i: int| e + 3 <= i < l.len() ==> l[i] == code_text[i - e - 3]);

    // the timestamp shape carries over to its position in the line
    assert(t >= 24);
    assert(sign_pos(ts_text, 0) + 5 <= t);
    assert(sign_pos(l, q) == q + sign_pos(ts_text, 0));
    assert(offset_has_colon(l, q) == offset_has_colon(ts_text, 0));
    assert(ts_end(l, q) == e);
    assert(ts_shape_at(l, q));
    assert(ts_value_at(l, q) == ts_value_at(ts_text, 0));
    assert(anchor_at(l, q));
    assert(is_top_anchor(l, q));
    lemma_top_anchor_unique(l, q);

    // the delimiter before the author is the last one below the anchor
    assert(delim_at(l, p));
    assert forall|p2: int| p < p2 <= q - 3 implies !delim_at(l, p2) by {
        if p2 == p + 1 {
            assert(l[p2] == '(');
        } else {
            assert(l[p2] == author[p2 - p - 2]);
            assert(l[p2 + 1] == author[p2 - p - 1]);
        }
    }
    assert(is_top_delim(l, q - 3, p));
    lemma_top_delim_unique(l, q - 3, p);
    assert(line_parses(l));

    // every field reads back as what was assembled
    assert(l.subrange(0, 40) =~= revision_id);
    assert(l.subrange(41, p) =~= original_file_path);
    assert(l.subrange(p + 2, q) =~= author);
    assert(l.subrange(e + 3, l.len() as int) =~= code_text);
}

/// Parse round-trip from plain field conditions: when the author holds no
/// ` (` and the code text holds no decimal digit, the assembled line has
/// no anchor after the real timestamp, so the round trip holds outright.
#[verifier::rlimit(80)]
pub proof fn lemma_parse_round_trip_plain(
    file: Seq<char>,
    revision_id: Seq<char>,
    original_file_path: Seq<char>,
    author: Seq<char>,
    ts_text: Seq<char>,
    counter: char,
    code_text: Seq<char>,
)
    requires
        revision_id.len() == 40,
        original_file_path.len() >= 1,
        author.len() >= 1,
        code_text.len() >= 1,
        is_digit(counter),
        ts_shape_at(ts_text, 0),
        ts_end(ts_text, 0) == ts_text.len(),
        ts_value_at(ts_text, 0).wf(),
        forall|i: int|
            0 <= i < author.len() - 1 ==> !((#[trigger] author[i]) == ' ' && author[i + 1] == '('),
        forall|i: int| 0 <= i < code_text.len() ==> !is_digit(#[trigger] code_text[i]),
    ensures
        parse_spec(
            encode_line(revision_id, original_file_path, author, ts_text, counter, code_text),
            file,
        ) == Some(
            RecordModel {
                file_path: file,
                original_file_path: original_file_path,
                revision_id: revision_id,
                author: trim_spec(author),
                timestamp: ts_value_at(ts_text, 0),
                code_text: code_text,
            },
        ),
{
    let l = encode_line(revision_id, original_file_path, author, ts_text, counter, code_text);
    let q = 43 + original_file_path.len() as int + author.len() as int;
    let t = ts_text.len() as int;
    let e = q + t;
    let s = sign_pos(ts_text, 0);

    assert(l.len() == e + 3 + code_text.len());
    assert(forall|j: int| 0 <= j < t ==> l[q + j] == ts_text[j]);
    assert(l[e] == ' ');
    assert(l[e + 1] == counter);
    assert(l[e + 2] == ')');
    assert(forall|j: int| e + 3 <= j < l.len() ==> l[j] == code_text[j - e - 3]);

    // the non-digit characters inside the timestamp text
    assert(!is_digit('-') && !is_digit(':') && !is_digit('T') && !is_digit(' ') && !is_digit('+')
        && !is_digit(')'));
    assert(!is_digit(ts_text[4]));
    assert(!is_digit(ts_text[7]));
    assert(!is_digit(ts_text[10]));
    assert(!is_digit(ts_text[13]));
    assert(!is_digit(ts_text[16]));
    assert(!is_digit(ts_text[s]));
    assert(s == 20 ==> !is_digit(ts_text[19]));
    assert(offset_has_colon(ts_text, 0) ==> !is_digit(ts_text[s + 3]) && t == s + 6);
    assert(!offset_has_colon(ts_text, 0) ==> t == s + 5);

    assert forall|q2: int| q2 > q implies !anchor_at(l, q2) by {
        if anchor_at(l, q2) {
            lemma_anchor_bounds(l, q2);
            // four digits at q2 and a dash after them
            assert(is_digit(l[q2]) && is_digit(l[q2 + 1]) && is_digit(l[q2 + 2]) && is_digit(
                l[q2 + 3],
            ));
            assert(l[q2 + 4] == '-');
            let o = q2 - q;
            // walk the window across the regions after the real timestamp
            if o + 3 < t {
                // all four digits inside the timestamp text: the window has
                // to dodge every separator, which only the offset digits of
                // the colon-free form manage, and then the dash lands on
                // the closing space
                assert(o >= 1);
                if o <= 4 {
                    assert(!is_digit(l[q + 4]));
                } else if o <= 7 {
                    assert(!is_digit(l[q + 7]));
                } else if o <= 10 {
                    assert(!is_digit(l[q + 10]));
                } else if o <= 13 {
                    assert(!is_digit(l[q + 13]));
                } else if o <= 16 {
                    assert(!is_digit(l[q + 16]));
                } else if o <= s {
                    assert(s <= 20);
                    if o <= s - 4 {
                        assert(o <= 16);
                    } else {
                        assert(o + 3 >= s);
                        assert(!is_digit(l[q + s]));
                    }
                } else {
                    // o == s + 1 at most leaves four digits before t
                    if offset_has_colon(ts_text, 0) {
                        assert(o <= s + 2);
                        assert(!is_digit(l[q + s + 3]));
                    } else {
                        assert(o == s + 1);
                        assert(o + 4 == t);
                        assert(l[q2 + 4] == ' ');
                    }
                }
            } else {
                // the window leaves the timestamp: it must cross the
                // closing space, the parenthesis, or digit-free code
                if o < t {
                    assert(o + 3 >= t);
                    if o <= t {
                        assert(!is_digit(l[e]));
                    } else {
                        assert(false);
                    }
                } else if o <= t + 2 {
                    assert(!is_digit(l[e]) && !is_digit(l[e + 2]));
                } else {
                    assert(!is_digit(l[q2]));
                }
            }
        }
    }
    lemma_parse_round_trip(
        file,
        revision_id,
        original_file_path,
        author,
        ts_text,
        counter,
        code_text,
    );
}

} // verus!
