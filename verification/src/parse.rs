//! CIDR notation as a grammar, and the scanner that reads it.
//!
//! A block is written as four groups of one to three digits separated by
//! dots, a slash, and a group of one or two digits. Nothing may stand before
//! or after. The first four groups are the octets and may not exceed 255;
//! the last is the prefix length and may not exceed 32.

use vstd::prelude::*;
use vstd::string::*;
use crate::address::{lemma_octet_bound, lemma_octets_pack, lemma_pack_octets, octet_at};
use crate::cidr::{CidrView, CIDR};
use crate::decimal::{
    all_digits, decimal_text, decimal_value, is_digit, lemma_decimal_text_len,
    lemma_decimal_text_value,
};
use crate::mask::{lemma_netmask_of_prefix, lemma_prefix_of_netmask};

verus! {

/// Why a text is not a CIDR block.
#[derive(Clone, Copy, Debug, PartialEq, Eq, Structural)]
pub enum CidrError {
    /// The text does not have the shape `d.d.d.d/d`.
    InvalidFormat,
    /// The text has the shape, but an octet exceeds 255 or the prefix length 32.
    InvalidRange,
}

/// Whether `s` is a group of at least one and at most `max_len` digits.
pub open spec fn is_digit_group(s: Seq<char>, max_len: nat) -> bool {
    1 <= s.len() <= max_len && all_digits(s)
}

/// The five digit groups of a text in CIDR notation.
pub struct Groups {
    pub a: Seq<char>,
    pub b: Seq<char>,
    pub c: Seq<char>,
    pub d: Seq<char>,
    pub prefix: Seq<char>,
}

impl Groups {
    /// The groups joined by their separators.
    pub open spec fn text(self) -> Seq<char> {
        self.a + seq!['.'] + self.b + seq!['.'] + self.c + seq!['.'] + self.d + seq!['/']
            + self.prefix
    }

    /// Whether each group has a length that the grammar admits.
    pub open spec fn well_formed(self) -> bool {
        &&& is_digit_group(self.a, 3)
        &&& is_digit_group(self.b, 3)
        &&& is_digit_group(self.c, 3)
        &&& is_digit_group(self.d, 3)
        &&& is_digit_group(self.prefix, 2)
    }

    /// Whether `s` is these groups written out, and they are well-formed.
    pub open spec fn is_notation_of(self, s: Seq<char>) -> bool {
        self.well_formed() && s =~= self.text()
    }

    /// Whether every group denotes a number within its bound.
    pub open spec fn in_range(self) -> bool {
        &&& decimal_value(self.a) <= 255
        &&& decimal_value(self.b) <= 255
        &&& decimal_value(self.c) <= 255
        &&& decimal_value(self.d) <= 255
        &&& decimal_value(self.prefix) <= 32
    }

    /// What reading these groups gives: the block, or a range error.
    pub open spec fn outcome(self) -> Result<CidrView, CidrError> {
        if self.in_range() {
            Ok(
                CidrView::from_octets(
                    decimal_value(self.a) as u32,
                    decimal_value(self.b) as u32,
                    decimal_value(self.c) as u32,
                    decimal_value(self.d) as u32,
                    decimal_value(self.prefix) as u32,
                ),
            )
        } else {
            Err(CidrError::InvalidRange)
        }
    }
}

/// Whether `s` has the shape of CIDR notation.
pub open spec fn matches_grammar(s: Seq<char>) -> bool {
    exists|g: Groups| #[trigger] g.is_notation_of(s)
}

/// What parsing `s` gives: a format error if `s` has not the shape of CIDR
/// notation, and else what reading its groups gives. A text has at most one
/// set of groups (`lemma_groups_unique`), so `lemma_parse_outcome` tells the
/// outcome from any groups that are known.
pub open spec fn parse_outcome(s: Seq<char>) -> Result<CidrView, CidrError> {
    if matches_grammar(s) {
        (choose|g: Groups| #[trigger] g.is_notation_of(s)).outcome()
    } else {
        Err(CidrError::InvalidFormat)
    }
}

/// Whether a group of between 1 and `max_len` digits stands in `s` from
/// `start` to `end`, followed by something other than a digit.
#[verifier::opaque]
spec fn group_at(s: Seq<char>, start: int, end: int, max_len: int) -> bool {
    &&& 0 <= start < end <= s.len()
    &&& end - start <= max_len
    &&& forall|i: int| start <= i < end ==> is_digit(#[trigger] s[i])
    &&& end < s.len() ==> !is_digit(s[end])
}

/// Whether a group stands in `s` from `start` to `end`, followed by `sep`.
spec fn field_at(s: Seq<char>, start: int, end: int, max_len: int, sep: char) -> bool {
    group_at(s, start, end, max_len) && end < s.len() && s[end] == sep
}

/// Whether a scan for digits from `start`, which takes at most `max_len` of
/// them, stops at `end`.
#[verifier::opaque]
spec fn scan_stops_at(s: Seq<char>, start: int, end: int, max_len: int) -> bool {
    &&& 0 <= start <= end <= s.len()
    &&& end - start <= max_len
    &&& forall|i: int| start <= i < end ==> is_digit(#[trigger] s[i])
    &&& end - start < max_len && end < s.len() ==> !is_digit(s[end])
}

/// A scan stops where the group ends, if there is a group.
proof fn lemma_scan_finds_group(s: Seq<char>, start: int, scan_end: int, end: int, max_len: int)
    requires
        scan_stops_at(s, start, scan_end, max_len),
        group_at(s, start, end, max_len),
    ensures
        scan_end == end,
{
    reveal(scan_stops_at);
    reveal(group_at);
    if scan_end < end {
        assert(is_digit(s[scan_end]));
    } else if end < scan_end {
        assert(is_digit(s[end]));
    }
}

/// A scan that took a digit and stopped before the end or before something
/// other than a digit has found a group.
proof fn lemma_scan_is_group(s: Seq<char>, start: int, end: int, max_len: int)
    requires
        scan_stops_at(s, start, end, max_len),
        start < end,
        end < s.len() ==> !is_digit(s[end]),
    ensures
        group_at(s, start, end, max_len),
{
    reveal(scan_stops_at);
    reveal(group_at);
}

/// From one position at most one group starts.
proof fn lemma_group_end_unique(s: Seq<char>, start: int, end: int, other: int, max_len: int)
    requires
        group_at(s, start, end, max_len),
        group_at(s, start, other, max_len),
    ensures
        end == other,
{
    reveal(scan_stops_at);
    reveal(group_at);
    lemma_scan_finds_group(s, start, other, end, max_len);
}

/// Where the groups and separators of a text in CIDR notation stand.
proof fn lemma_notation_positions(s: Seq<char>, g: Groups)
    requires
        g.is_notation_of(s),
    ensures
        ({
            let e1 = g.a.len() as int;
            let e2 = e1 + 1 + g.b.len();
            let e3 = e2 + 1 + g.c.len();
            let e4 = e3 + 1 + g.d.len();
            &&& s.len() == e4 + 1 + g.prefix.len()
            &&& field_at(s, 0, e1, 3, '.')
            &&& field_at(s, e1 + 1, e2, 3, '.')
            &&& field_at(s, e2 + 1, e3, 3, '.')
            &&& field_at(s, e3 + 1, e4, 3, '/')
            &&& group_at(s, e4 + 1, s.len() as int, 2)
            &&& g.a == s.subrange(0, e1)
            &&& g.b == s.subrange(e1 + 1, e2)
            &&& g.c == s.subrange(e2 + 1, e3)
            &&& g.d == s.subrange(e3 + 1, e4)
            &&& g.prefix == s.subrange(e4 + 1, s.len() as int)
        }),
{
    reveal(group_at);
    let e1 = g.a.len() as int;
    let e2 = e1 + 1 + g.b.len();
    let e3 = e2 + 1 + g.c.len();
    let e4 = e3 + 1 + g.d.len();
    assert(s.len() == e4 + 1 + g.prefix.len());
    assert forall|i: int| 0 <= i < e1 implies s[i] == g.a[i] by {}
    assert forall|i: int| e1 + 1 <= i < e2 implies s[i] == g.b[i - e1 - 1] by {}
    assert forall|i: int| e2 + 1 <= i < e3 implies s[i] == g.c[i - e2 - 1] by {}
    assert forall|i: int| e3 + 1 <= i < e4 implies s[i] == g.d[i - e3 - 1] by {}
    assert forall|i: int| e4 + 1 <= i < s.len() implies s[i] == g.prefix[i - e4 - 1] by {}
    assert(g.a =~= s.subrange(0, e1));
    assert(g.b =~= s.subrange(e1 + 1, e2));
    assert(g.c =~= s.subrange(e2 + 1, e3));
    assert(g.d =~= s.subrange(e3 + 1, e4));
    assert(g.prefix =~= s.subrange(e4 + 1, s.len() as int));
}

/// Groups and separators that stand one after the other through the whole of
/// a text make it a text in CIDR notation.
proof fn lemma_positions_notation(s: Seq<char>, e1: int, e2: int, e3: int, e4: int) -> (g: Groups)
    requires
        field_at(s, 0, e1, 3, '.'),
        field_at(s, e1 + 1, e2, 3, '.'),
        field_at(s, e2 + 1, e3, 3, '.'),
        field_at(s, e3 + 1, e4, 3, '/'),
        group_at(s, e4 + 1, s.len() as int, 2),
    ensures
        g.is_notation_of(s),
        g.a == s.subrange(0, e1),
        g.b == s.subrange(e1 + 1, e2),
        g.c == s.subrange(e2 + 1, e3),
        g.d == s.subrange(e3 + 1, e4),
        g.prefix == s.subrange(e4 + 1, s.len() as int),
{
    reveal(group_at);
    let g = Groups {
        a: s.subrange(0, e1),
        b: s.subrange(e1 + 1, e2),
        c: s.subrange(e2 + 1, e3),
        d: s.subrange(e3 + 1, e4),
        prefix: s.subrange(e4 + 1, s.len() as int),
    };
    assert(s =~= g.text());
    g
}

/// How far the groups of a text agree with fields found in it one after the
/// other, and which field or group stands behind the last of them.
proof fn lemma_fields_found(s: Seq<char>, g: Groups, found: int, e1: int, e2: int, e3: int, e4: int)
    requires
        g.is_notation_of(s),
        0 <= found <= 4,
        found >= 1 ==> field_at(s, 0, e1, 3, '.'),
        found >= 2 ==> field_at(s, e1 + 1, e2, 3, '.'),
        found >= 3 ==> field_at(s, e2 + 1, e3, 3, '.'),
        found >= 4 ==> field_at(s, e3 + 1, e4, 3, '/'),
    ensures
        found >= 1 ==> e1 == g.a.len(),
        found >= 2 ==> e2 == e1 + 1 + g.b.len(),
        found >= 3 ==> e3 == e2 + 1 + g.c.len(),
        found >= 4 ==> e4 == e3 + 1 + g.d.len(),
        found == 0 ==> field_at(s, 0, g.a.len() as int, 3, '.'),
        found == 1 ==> field_at(s, e1 + 1, e1 + 1 + g.b.len(), 3, '.'),
        found == 2 ==> field_at(s, e2 + 1, e2 + 1 + g.c.len(), 3, '.'),
        found == 3 ==> field_at(s, e3 + 1, e3 + 1 + g.d.len(), 3, '/'),
        found == 4 ==> group_at(s, e4 + 1, s.len() as int, 2),
{
    lemma_notation_positions(s, g);
    if found >= 1 {
        lemma_group_end_unique(s, 0, e1, g.a.len() as int, 3);
    }
    if found >= 2 {
        lemma_group_end_unique(s, e1 + 1, e2, e1 + 1 + g.b.len(), 3);
    }
    if found >= 3 {
        lemma_group_end_unique(s, e2 + 1, e3, e2 + 1 + g.c.len(), 3);
    }
    if found >= 4 {
        lemma_group_end_unique(s, e3 + 1, e4, e3 + 1 + g.d.len(), 3);
    }
}

/// A text is the notation of at most one set of groups.
pub proof fn lemma_groups_unique(s: Seq<char>, g: Groups, h: Groups)
    requires
        g.is_notation_of(s),
        h.is_notation_of(s),
    ensures
        g == h,
{
    lemma_notation_positions(s, h);
    let e1 = h.a.len() as int;
    let e2 = e1 + 1 + h.b.len();
    let e3 = e2 + 1 + h.c.len();
    let e4 = e3 + 1 + h.d.len();
    lemma_fields_found(s, g, 4, e1, e2, e3, e4);
    lemma_notation_positions(s, g);
}

/// The outcome of parsing a text, from any groups that it is the notation of.
pub proof fn lemma_parse_outcome(s: Seq<char>, g: Groups)
    requires
        g.is_notation_of(s),
    ensures
        matches_grammar(s),
        parse_outcome(s) == g.outcome(),
{
    let h = choose|h: Groups| #[trigger] h.is_notation_of(s);
    lemma_groups_unique(s, g, h);
}

/// The groups of the notation of four octets and a prefix length.
pub open spec fn groups_of(a0: u32, a1: u32, a2: u32, a3: u32, prefix: u32) -> Groups {
    Groups {
        a: decimal_text(a0 as nat),
        b: decimal_text(a1 as nat),
        c: decimal_text(a2 as nat),
        d: decimal_text(a3 as nat),
        prefix: decimal_text(prefix as nat),
    }
}

/// Four octets and a prefix length, written in decimal with dots and a
/// slash, are a text in CIDR notation, and reading it gives the block that
/// is built from them: parsing undoes formatting.
pub proof fn lemma_build_round_trip(a0: u32, a1: u32, a2: u32, a3: u32, prefix: u32)
    requires
        a0 <= 255,
        a1 <= 255,
        a2 <= 255,
        a3 <= 255,
        prefix <= 32,
    ensures
        CidrView::from_octets(a0, a1, a2, a3, prefix).cidr_text() == groups_of(
            a0,
            a1,
            a2,
            a3,
            prefix,
        ).text(),
        matches_grammar(CidrView::from_octets(a0, a1, a2, a3, prefix).cidr_text()),
        parse_outcome(CidrView::from_octets(a0, a1, a2, a3, prefix).cidr_text()) == Ok::<
            CidrView,
            CidrError,
        >(CidrView::from_octets(a0, a1, a2, a3, prefix)),
{
    let block = CidrView::from_octets(a0, a1, a2, a3, prefix);
    let g = groups_of(a0, a1, a2, a3, prefix);
    lemma_pack_octets(a0, a1, a2, a3);
    lemma_prefix_of_netmask(prefix);
    lemma_decimal_text_value(a0 as nat);
    lemma_decimal_text_value(a1 as nat);
    lemma_decimal_text_value(a2 as nat);
    lemma_decimal_text_value(a3 as nat);
    lemma_decimal_text_value(prefix as nat);
    lemma_decimal_text_len(a0 as nat);
    lemma_decimal_text_len(a1 as nat);
    lemma_decimal_text_len(a2 as nat);
    lemma_decimal_text_len(a3 as nat);
    lemma_decimal_text_len(prefix as nat);
    assert(block.cidr_text() =~= g.text());
    lemma_parse_outcome(block.cidr_text(), g);
}

/// The CIDR notation of any block with a proper netmask reads back as that
/// block.
pub proof fn lemma_round_trip(block: CidrView)
    requires
        block.wf(),
    ensures
        parse_outcome(block.cidr_text()) == Ok::<CidrView, CidrError>(block),
{
    lemma_octet_bound(block.address, 0);
    lemma_octet_bound(block.address, 1);
    lemma_octet_bound(block.address, 2);
    lemma_octet_bound(block.address, 3);
    lemma_octets_pack(block.address);
    lemma_netmask_of_prefix(block.netmask);
    lemma_build_round_trip(
        octet_at(block.address, 0),
        octet_at(block.address, 1),
        octet_at(block.address, 2),
        octet_at(block.address, 3),
        block.prefix_len(),
    );
}

/// Which texts are rejected, and how: a text is read as a block only if it
/// is the notation of groups that are all within their bounds; it is out of
/// range only if it is the notation of groups of which one is not; and it is
/// malformed if it is the notation of no groups at all.
pub proof fn lemma_rejection(s: Seq<char>)
    ensures
        parse_outcome(s) is Ok <==> exists|g: Groups| #[trigger] g.is_notation_of(s) && g.in_range(),
        parse_outcome(s) == Err::<CidrView, CidrError>(CidrError::InvalidRange) <==> exists|
            g: Groups,
        | #[trigger] g.is_notation_of(s) && !g.in_range(),
        parse_outcome(s) == Err::<CidrView, CidrError>(CidrError::InvalidFormat) <==> forall|
            g: Groups,
        | !#[trigger] g.is_notation_of(s),
{
    if matches_grammar(s) {
        let g = choose|g: Groups| #[trigger] g.is_notation_of(s);
        assert forall|h: Groups| #[trigger] h.is_notation_of(s) implies h == g by {
            lemma_groups_unique(s, h, g);
        }
    }
}

/// What every text in CIDR notation looks like: it has between 9 and 18
/// characters, each of them a digit, a dot or a slash, and it begins and ends
/// with a digit. A text with any other character, a shorter or a longer one
/// is malformed.
pub proof fn lemma_grammar_shape(s: Seq<char>)
    requires
        matches_grammar(s),
    ensures
        9 <= s.len() <= 18,
        forall|i: int| 0 <= i < s.len() ==> is_digit(#[trigger] s[i]) || s[i] == '.' || s[i] == '/',
        is_digit(s.first()),
        is_digit(s.last()),
{
    let g = choose|g: Groups| #[trigger] g.is_notation_of(s);
    lemma_notation_positions(s, g);
    reveal(group_at);
}

impl CidrError {
    /// The message that goes with the error. Both kinds share it.
    pub open spec fn message_text(self) -> Seq<char> {
        "invalid cidr"@
    }

    /// The message that goes with the error.
    pub fn message(&self) -> (m: &'static str)
        ensures
            m@ == self.message_text(),
    {
        "invalid cidr"
    }
}

/// Reads digits of `text` from `start`, at most `max_len` of them, and
/// returns the number that they denote and the position after them.
fn scan_digits(text: &str, len: usize, start: usize, max_len: usize) -> (r: (u32, usize))
    requires
        len == text@.len(),
        start <= len,
        max_len <= 3,
    ensures
        scan_stops_at(text@, start as int, r.1 as int, max_len as int),
        start <= r.1 <= len,
        r.0 == decimal_value(text@.subrange(start as int, r.1 as int)),
{
    let mut value: u32 = 0;
    let mut pos: usize = start;
    let mut count: usize = 0;
    proof {
        assert(text@.subrange(start as int, start as int) =~= Seq::<char>::empty());
    }
    while count < max_len && pos < len
        invariant
            len == text@.len(),
            start <= pos <= len,
            max_len <= 3,
            count <= max_len,
            pos == start + count,
            forall|i: int| start <= i < pos ==> is_digit(#[trigger] text@[i]),
            value == decimal_value(text@.subrange(start as int, pos as int)),
            count == 0 ==> value == 0,
            count == 1 ==> value <= 9,
            count == 2 ==> value <= 99,
        ensures
            count < max_len && pos < len ==> !is_digit(text@[pos as int]),
        decreases max_len - count,
    {
        let c = text.get_char(pos);
        if !('0' <= c && c <= '9') {
            break;
        }
        proof {
            let run = text@.subrange(start as int, pos + 1);
            assert(run.drop_last() =~= text@.subrange(start as int, pos as int));
            assert(run.last() == c);
        }
        value = value * 10 + (c as u32 - '0' as u32);
        pos = pos + 1;
        count = count + 1;
    }
    proof {
        reveal(scan_stops_at);
    }
    (value, pos)
}

/// Reads a group of digits from `start` and the separator behind it.
/// Returns the number that the group denotes and the separator's position.
fn scan_field(text: &str, len: usize, start: usize, sep: char) -> (r: Option<(u32, usize)>)
    requires
        len == text@.len(),
        start <= len,
        !is_digit(sep),
    ensures
        match r {
            Some((value, end)) => {
                &&& field_at(text@, start as int, end as int, 3, sep)
                &&& value == decimal_value(text@.subrange(start as int, end as int))
            },
            None => forall|end: int| !#[trigger] field_at(text@, start as int, end, 3, sep),
        },
{
    let (value, end) = scan_digits(text, len, start, 3);
    if end == start || end >= len || text.get_char(end) != sep {
        proof {
            assert forall|e: int| !#[trigger] field_at(text@, start as int, e, 3, sep) by {
                if field_at(text@, start as int, e, 3, sep) {
                    lemma_scan_finds_group(text@, start as int, end as int, e, 3);
                    reveal(group_at);
                }
            }
        }
        return None;
    }
    proof {
        lemma_scan_is_group(text@, start as int, end as int, 3);
    }
    Some((value, end))
}

/// Reads the group of digits that stands from `start` to the end of the
/// text, and returns the number that it denotes.
fn scan_last_group(text: &str, len: usize, start: usize) -> (r: Option<u32>)
    requires
        len == text@.len(),
        start <= len,
    ensures
        match r {
            Some(value) => {
                &&& group_at(text@, start as int, len as int, 2)
                &&& value == decimal_value(text@.subrange(start as int, len as int))
            },
            None => !group_at(text@, start as int, len as int, 2),
        },
{
    let (value, end) = scan_digits(text, len, start, 2);
    if end == start || end != len {
        proof {
            if group_at(text@, start as int, len as int, 2) {
                lemma_scan_finds_group(text@, start as int, end as int, len as int, 2);
                reveal(group_at);
            }
        }
        return None;
    }
    proof {
        lemma_scan_is_group(text@, start as int, end as int, 2);
    }
    Some(value)
}

impl CIDR {
    /// Reads a block in CIDR notation, such as `192.168.1.0/24`.
    ///
    /// The result is `InvalidFormat` exactly for the texts that the grammar
    /// does not admit, `InvalidRange` exactly for those that it admits with
    /// an octet above 255 or a prefix length above 32, and otherwise the
    /// block of the four octets and the prefix length.
    pub fn from_string(s: String) -> (r: Result<CIDR, CidrError>)
        ensures
            match r {
                Ok(cidr) => parse_outcome(s@) == Ok::<CidrView, CidrError>(cidr@),
                Err(e) => parse_outcome(s@) == Err::<CidrView, CidrError>(e),
            },
    {
        let text = s.as_str();
        let len = text.unicode_len();
        let ghost t = text@;

        let (a, e1) = match scan_field(text, len, 0, '.') {
            Some(found) => found,
            None => {
                proof {
                    assert forall|g: Groups| !#[trigger] g.is_notation_of(t) by {
                        if g.is_notation_of(t) {
                            lemma_fields_found(t, g, 0, 0, 0, 0, 0);
                        }
                    }
                }
                return Err(CidrError::InvalidFormat);
            },
        };
        let (b, e2) = match scan_field(text, len, e1 + 1, '.') {
            Some(found) => found,
            None => {
                proof {
                    assert forall|g: Groups| !#[trigger] g.is_notation_of(t) by {
                        if g.is_notation_of(t) {
                            lemma_fields_found(t, g, 1, e1 as int, 0, 0, 0);
                        }
                    }
                }
                return Err(CidrError::InvalidFormat);
            },
        };
        let (c, e3) = match scan_field(text, len, e2 + 1, '.') {
            Some(found) => found,
            None => {
                proof {
                    assert forall|g: Groups| !#[trigger] g.is_notation_of(t) by {
                        if g.is_notation_of(t) {
                            lemma_fields_found(t, g, 2, e1 as int, e2 as int, 0, 0);
                        }
                    }
                }
                return Err(CidrError::InvalidFormat);
            },
        };
        let (d, e4) = match scan_field(text, len, e3 + 1, '/') {
            Some(found) => found,
            None => {
                proof {
                    assert forall|g: Groups| !#[trigger] g.is_notation_of(t) by {
                        if g.is_notation_of(t) {
                            lemma_fields_found(t, g, 3, e1 as int, e2 as int, e3 as int, 0);
                        }
                    }
                }
                return Err(CidrError::InvalidFormat);
            },
        };
        let prefix = match scan_last_group(text, len, e4 + 1) {
            Some(found) => found,
            None => {
                proof {
                    assert forall|g: Groups| !#[trigger] g.is_notation_of(t) by {
                        if g.is_notation_of(t) {
                            lemma_fields_found(t, g, 4, e1 as int, e2 as int, e3 as int, e4 as int);
                        }
                    }
                }
                return Err(CidrError::InvalidFormat);
            },
        };
        proof {
            let g = lemma_positions_notation(t, e1 as int, e2 as int, e3 as int, e4 as int);
            lemma_parse_outcome(t, g);
        }
        if a > 255 || b > 255 || c > 255 || d > 255 || prefix > 32 {
            return Err(CidrError::InvalidRange);
        }
        Ok(CIDR::from_octets(a, b, c, d, prefix))
    }
}

} // verus!
