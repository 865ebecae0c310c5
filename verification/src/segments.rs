//! Seven-segment display deduction: from ten scrambled activation patterns,
//! recover which wire drives which segment, then decode held-out readings.

use vstd::prelude::*;
use crate::text::chars_of;

verus! {

/// Typed failures of the readout pipeline: malformed input text, a catalog
/// that does not pin the wiring down, or a resolved wiring that matches no
/// digit (an internal consistency failure).
#[derive(Clone, Copy, Debug, PartialEq, Eq, Structural)]
pub enum SignalError {
    MalformedReadout,
    UnresolvableWiring,
    NoMatchingDigit,
}

/// The seven canonical positions of a seven-segment display.
#[derive(Clone, Copy, Debug, PartialEq, Eq, Structural)]
pub enum Segment {
    Top,
    TopLeft,
    TopRight,
    Middle,
    BottomLeft,
    BottomRight,
    Bottom,
}

/// Fixed index of each segment position, in display order.
pub open spec fn seg_index(s: Segment) -> int {
    match s {
        Segment::Top => 0,
        Segment::TopLeft => 1,
        Segment::TopRight => 2,
        Segment::Middle => 3,
        Segment::BottomLeft => 4,
        Segment::BottomRight => 5,
        Segment::Bottom => 6,
    }
}

impl Segment {
    /// Index of this segment position.
    pub fn index(self) -> (r: usize)
        ensures
            r == seg_index(self),
    {
        match self {
            Segment::Top => 0,
            Segment::TopLeft => 1,
            Segment::TopRight => 2,
            Segment::Middle => 3,
            Segment::BottomLeft => 4,
            Segment::BottomRight => 5,
            Segment::Bottom => 6,
        }
    }

    /// The segment position with the given index.
    pub fn from_index(i: usize) -> (r: Segment)
        requires
            i < 7,
        ensures
            seg_index(r) == i,
    {
        match i {
            0 => Segment::Top,
            1 => Segment::TopLeft,
            2 => Segment::TopRight,
            3 => Segment::Middle,
            4 => Segment::BottomLeft,
            5 => Segment::BottomRight,
            _ => Segment::Bottom,
        }
    }
}

/// The digit catalog: whether digit `d` lights the segment with index `s` on
/// a correctly wired display.
pub open spec fn digit_has(d: int, s: int) -> bool {
    0 <= s < 7 && if d == 0 {
        s != 3
    } else if d == 1 {
        s == 2 || s == 5
    } else if d == 2 {
        s == 0 || s == 2 || s == 3 || s == 4 || s == 6
    } else if d == 3 {
        s == 0 || s == 2 || s == 3 || s == 5 || s == 6
    } else if d == 4 {
        s == 1 || s == 2 || s == 3 || s == 5
    } else if d == 5 {
        s == 0 || s == 1 || s == 3 || s == 5 || s == 6
    } else if d == 6 {
        s != 2
    } else if d == 7 {
        s == 0 || s == 2 || s == 5
    } else if d == 8 {
        true
    } else if d == 9 {
        s != 4
    } else {
        false
    }
}

/// How many segments digit `d` lights.
pub open spec fn segment_count(d: int) -> int {
    if d == 0 {
        6
    } else if d == 1 {
        2
    } else if d == 2 {
        5
    } else if d == 3 {
        5
    } else if d == 4 {
        4
    } else if d == 5 {
        5
    } else if d == 6 {
        6
    } else if d == 7 {
        3
    } else if d == 8 {
        7
    } else if d == 9 {
        6
    } else {
        0
    }
}

/// In how many of the ten catalog digits the segment with index `s` appears;
/// this is independent of the wiring.
pub open spec fn expected_frequency(s: int) -> int {
    if s == 0 {
        8
    } else if s == 1 {
        6
    } else if s == 2 {
        8
    } else if s == 3 {
        7
    } else if s == 4 {
        4
    } else if s == 5 {
        9
    } else if s == 6 {
        7
    } else {
        0
    }
}

/// In how many of the digits `0..d` the segment with index `s` appears.
pub open spec fn catalog_frequency(s: int, d: int) -> int
    decreases d,
{
    if d <= 0 {
        0
    } else {
        catalog_frequency(s, d - 1) + if digit_has(d - 1, s) {
            1int
        } else {
            0int
        }
    }
}

/// The expected-frequency table is exactly what counting the catalog gives:
/// the two heuristics cannot drift apart.
pub proof fn lemma_expected_frequency_from_catalog(s: int)
    requires
        0 <= s < 7,
    ensures
        expected_frequency(s) == catalog_frequency(s, 10),
{
    reveal_with_fuel(catalog_frequency, 11);
}

/// Executable mirror of the digit catalog.
pub fn digit_has_segment(d: u8, s: usize) -> (r: bool)
    ensures
        r == digit_has(d as int, s as int),
{
    if s >= 7 {
        return false;
    }
    match d {
        0 => s != 3,
        1 => s == 2 || s == 5,
        2 => s == 0 || s == 2 || s == 3 || s == 4 || s == 6,
        3 => s == 0 || s == 2 || s == 3 || s == 5 || s == 6,
        4 => s == 1 || s == 2 || s == 3 || s == 5,
        5 => s == 0 || s == 1 || s == 3 || s == 5 || s == 6,
        6 => s != 2,
        7 => s == 0 || s == 2 || s == 5,
        8 => true,
        9 => s != 4,
        _ => false,
    }
}

/// Executable mirror of `segment_count`.
pub fn digit_segment_count(d: u8) -> (r: usize)
    ensures
        r == segment_count(d as int),
{
    match d {
        0 => 6,
        1 => 2,
        2 => 5,
        3 => 5,
        4 => 4,
        5 => 5,
        6 => 6,
        7 => 3,
        8 => 7,
        9 => 6,
        _ => 0,
    }
}

/// One observed activation pattern: the set of wire labels seen lit.
#[derive(Clone, Debug)]
pub struct Digit {
    wires: Vec<char>,
}

impl View for Digit {
    type V = Seq<char>;

    closed spec fn view(&self) -> Seq<char> {
        self.wires@
    }
}

/// Whether digit `d` could still produce pattern `p` under the (possibly
/// partial) wiring `w`, judged by the pattern's length and the segments
/// already pinned; unresolved entries of `w` hold a placeholder that occurs
/// in no pattern.
pub open spec fn possible_digit(p: Seq<char>, w: Seq<char>, d: int) -> bool {
    if p.len() == 2 {
        d == 1
    } else if p.len() == 3 {
        d == 7
    } else if p.len() == 4 {
        d == 4
    } else if p.len() == 7 {
        d == 8
    } else if p.len() == 5 {
        (d == 2 && !p.contains(w[1]) && !p.contains(w[5])) || (d == 3 && !p.contains(w[1])
            && !p.contains(w[4])) || (d == 5 && !p.contains(w[2]) && !p.contains(w[4]))
    } else if p.len() == 6 {
        (d == 0 && !p.contains(w[3])) || (d == 6 && !p.contains(w[2])) || (d == 9 && !p.contains(
            w[4],
        ))
    } else {
        false
    }
}

/// Whether some digit still possible for pattern `p` lights the segment with
/// index `s`.
pub open spec fn may_activate(p: Seq<char>, w: Seq<char>, s: int) -> bool {
    exists|d: int| 0 <= d <= 9 && #[trigger] possible_digit(p, w, d) && digit_has(d, s)
}

/// Whether digit `d`'s catalog segments, mapped through the resolved wiring
/// `w`, all appear in pattern `p` and the lengths agree.
pub open spec fn matches_digit(p: Seq<char>, w: Seq<char>, d: int) -> bool {
    segment_count(d) == p.len() && forall|s: int| digit_has(d, s) ==> p.contains(#[trigger] w[s])
}

/// The smallest digit at or above `d` that matches pattern `p` under `w`.
pub open spec fn first_match_from(p: Seq<char>, w: Seq<char>, d: int) -> Option<u8>
    decreases 10 - d,
{
    if d > 9 || d < 0 {
        None
    } else if matches_digit(p, w, d) {
        Some(d as u8)
    } else {
        first_match_from(p, w, d + 1)
    }
}

/// The digit a pattern decodes to under a wiring: the smallest catalog digit
/// whose mapped segment set lies in the pattern with matching length.
pub open spec fn decode_spec(p: Seq<char>, w: Seq<char>) -> Option<u8> {
    first_match_from(p, w, 0)
}

impl Digit {
    /// Builds a pattern from its observed text.
    pub fn new(s: &str) -> (d: Digit)
        ensures
            d@ == s@,
    {
        Digit { wires: chars_of(s) }
    }

    /// Builds a pattern from a vector of wire labels.
    pub fn from_wires(wires: Vec<char>) -> (d: Digit)
        ensures
            d@ == wires@,
    {
        Digit { wires }
    }

    /// Number of wires lit in this pattern.
    pub fn size(&self) -> (r: usize)
        ensures
            r == self@.len(),
    {
        self.wires.len()
    }

    /// Whether the pattern holds wire label `c`.
    pub fn has_wire(&self, c: char) -> (r: bool)
        ensures
            r == self@.contains(c),
    {
        crate::text::contains_char(&self.wires, c)
    }

    /// Executable mirror of `possible_digit`.
    pub fn is_possible(&self, wiring: &Vec<char>, d: u8) -> (r: bool)
        requires
            wiring@.len() == 7,
        ensures
            r == possible_digit(self@, wiring@, d as int),
    {
        let len = self.size();
        if len == 2 {
            d == 1
        } else if len == 3 {
            d == 7
        } else if len == 4 {
            d == 4
        } else if len == 7 {
            d == 8
        } else if len == 5 {
            (d == 2 && !self.has_wire(wiring[1]) && !self.has_wire(wiring[5])) || (d == 3
                && !self.has_wire(wiring[1]) && !self.has_wire(wiring[4])) || (d == 5
                && !self.has_wire(wiring[2]) && !self.has_wire(wiring[4]))
        } else if len == 6 {
            (d == 0 && !self.has_wire(wiring[3])) || (d == 6 && !self.has_wire(wiring[2])) || (d
                == 9 && !self.has_wire(wiring[4]))
        } else {
            false
        }
    }

    /// The catalog digits this pattern could still represent under the given
    /// partial wiring, in ascending order.
    pub fn get_possible_numbers(&self, wiring: &Vec<char>) -> (r: Vec<u8>)
        requires
            wiring@.len() == 7,
            2 <= self@.len() <= 7,
        ensures
            forall|d: u8| r@.contains(d) <==> possible_digit(self@, wiring@, d as int),
            forall|i: int, j: int| 0 <= i < j < r@.len() ==> r@[i] < r@[j],
    {
        let mut r: Vec<u8> = Vec::new();
        let mut d: u8 = 0;
        while d <= 9
            invariant
                d <= 10,
                wiring@.len() == 7,
                forall|x: u8|
                    r@.contains(x) ==> x < d && possible_digit(self@, wiring@, x as int),
                forall|x: u8|
                    x < d && possible_digit(self@, wiring@, x as int) ==> r@.contains(x),
                forall|i: int, j: int| 0 <= i < j < r@.len() ==> r@[i] < r@[j],
                forall|i: int| 0 <= i < r@.len() ==> r@[i] < d,
            decreases 10 - d,
        {
            if self.is_possible(wiring, d) {
                let ghost oldr = r@;
                r.push(d);
                proof {
                    assert forall|x: u8| r@.contains(x) implies x < d + 1 && possible_digit(
                        self@,
                        wiring@,
                        x as int,
                    ) by {
                        let i = choose|i: int| 0 <= i < r@.len() && r@[i] == x;
                        if i < oldr.len() {
                            assert(oldr.contains(x));
                        } else {
                            assert(x == d);
                        }
                    }
                    assert forall|x: u8|
                        x < d + 1 && possible_digit(self@, wiring@, x as int) implies r@.contains(
                        x,
                    ) by {
                        if x < d {
                            assert(oldr.contains(x));
                            let i = choose|i: int| 0 <= i < oldr.len() && oldr[i] == x;
                            assert(r@[i] == x);
                        } else {
                            assert(r@[r@.len() - 1] == x);
                        }
                    }
                }
            }
            d = d + 1;
        }
        r
    }

    /// Whether this pattern may activate the given segment: some digit still
    /// possible for it lights that segment.
    pub fn may_activate_segment(&self, segment: Segment, wiring: &Vec<char>) -> (r: bool)
        requires
            wiring@.len() == 7,
        ensures
            r == may_activate(self@, wiring@, seg_index(segment)),
    {
        let s = segment.index();
        let mut d: u8 = 0;
        while d <= 9
            invariant
                d <= 10,
                wiring@.len() == 7,
                s == seg_index(segment),
                forall|x: int|
                    0 <= x < d ==> !(#[trigger] possible_digit(self@, wiring@, x) && digit_has(
                        x,
                        s as int,
                    )),
            decreases 10 - d,
        {
            if self.is_possible(wiring, d) && digit_has_segment(d, s) {
                return true;
            }
            d = d + 1;
        }
        false
    }

    /// The segments digit `number` lights, in display order.
    pub fn get_segments(&self, number: u8) -> (r: Vec<Segment>)
        requires
            number <= 9,
        ensures
            r@.len() == segment_count(number as int),
            forall|i: int| 0 <= i < r@.len() ==> digit_has(number as int, seg_index(#[trigger] r@[i])),
            forall|s: int|
                digit_has(number as int, s) ==> exists|i: int|
                    0 <= i < r@.len() && seg_index(#[trigger] r@[i]) == s,
            forall|i: int, j: int| 0 <= i < j < r@.len() ==> seg_index(r@[i]) < seg_index(r@[j]),
    {
        let mut r: Vec<Segment> = Vec::new();
        let mut count: usize = 0;
        let mut s: usize = 0;
        while s < 7
            invariant
                s <= 7,
                number <= 9,
                forall|i: int|
                    0 <= i < r@.len() ==> digit_has(number as int, seg_index(#[trigger] r@[i]))
                        && seg_index(r@[i]) < s,
                forall|x: int|
                    0 <= x < s && digit_has(number as int, x) ==> exists|i: int|
                        0 <= i < r@.len() && seg_index(#[trigger] r@[i]) == x,
                forall|i: int, j: int| 0 <= i < j < r@.len() ==> seg_index(r@[i]) < seg_index(
                    r@[j],
                ),
                count == r@.len(),
                count <= s,
                count == count_segments_below(number as int, s as int),
            decreases 7 - s,
        {
            if digit_has_segment(number, s) {
                let seg = Segment::from_index(s);
                let ghost oldr = r@;
                r.push(seg);
                count = count + 1;
                proof {
                    assert forall|x: int|
                        0 <= x < s + 1 && digit_has(number as int, x) implies exists|i: int|
                        0 <= i < r@.len() && seg_index(#[trigger] r@[i]) == x by {
                        if x < s {
                            let i = choose|i: int|
                                0 <= i < oldr.len() && seg_index(oldr[i]) == x;
                            assert(seg_index(r@[i]) == x);
                        } else {
                            assert(seg_index(r@[r@.len() - 1]) == x);
                        }
                    }
                }
            }
            s = s + 1;
        }
        proof {
            lemma_count_segments_total(number as int);
        }
        r
    }

    /// Decodes this pattern under a fully resolved wiring: the unique catalog
    /// digit whose mapped segments equal the pattern.
    pub fn get_value(&self, wiring: &Vec<char>) -> (r: Result<u8, SignalError>)
        requires
            wiring@.len() == 7,
        ensures
            r == match decode_spec(self@, wiring@) {
                Some(d) => Result::<u8, SignalError>::Ok(d),
                None => Result::<u8, SignalError>::Err(SignalError::NoMatchingDigit),
            },
    {
        let mut d: u8 = 0;
        while d <= 9
            invariant
                d <= 10,
                wiring@.len() == 7,
                first_match_from(self@, wiring@, 0) == first_match_from(self@, wiring@, d as int),
                forall|x: int| 0 <= x < d ==> !matches_digit(self@, wiring@, x),
            decreases 10 - d,
        {
            if self.matches_number(wiring, d) {
                return Ok(d);
            }
            proof {
                lemma_first_match_step(self@, wiring@, d as int);
            }
            d = d + 1;
        }
        Err(SignalError::NoMatchingDigit)
    }

    /// Whether digit `d`'s mapped catalog segments all lie in this pattern
    /// with matching length.
    pub fn matches_number(&self, wiring: &Vec<char>, d: u8) -> (r: bool)
        requires
            wiring@.len() == 7,
        ensures
            r == matches_digit(self@, wiring@, d as int),
    {
        if self.size() != digit_segment_count(d) {
            return false;
        }
        let mut s: usize = 0;
        while s < 7
            invariant
                s <= 7,
                wiring@.len() == 7,
                segment_count(d as int) == self@.len(),
                forall|x: int|
                    0 <= x < s && digit_has(d as int, x) ==> self@.contains(#[trigger] wiring@[x]),
            decreases 7 - s,
        {
            if digit_has_segment(d, s) && !self.has_wire(wiring[s]) {
                return false;
            }
            s = s + 1;
        }
        true
    }
}

/// How many segments with index below `s` digit `d` lights.
pub open spec fn count_segments_below(d: int, s: int) -> int
    decreases s,
{
    if s <= 0 {
        0
    } else {
        count_segments_below(d, s - 1) + if digit_has(d, s - 1) {
            1int
        } else {
            0int
        }
    }
}

proof fn lemma_count_segments_total(d: int)
    requires
        0 <= d <= 9,
    ensures
        count_segments_below(d, 7) == segment_count(d),
{
    assert(count_segments_below(d, 1) == count_segments_below(d, 0) + if digit_has(d, 0) {
        1int
    } else {
        0int
    });
    assert(count_segments_below(d, 2) == count_segments_below(d, 1) + if digit_has(d, 1) {
        1int
    } else {
        0int
    });
    assert(count_segments_below(d, 3) == count_segments_below(d, 2) + if digit_has(d, 2) {
        1int
    } else {
        0int
    });
    assert(count_segments_below(d, 4) == count_segments_below(d, 3) + if digit_has(d, 3) {
        1int
    } else {
        0int
    });
    assert(count_segments_below(d, 5) == count_segments_below(d, 4) + if digit_has(d, 4) {
        1int
    } else {
        0int
    });
    assert(count_segments_below(d, 6) == count_segments_below(d, 5) + if digit_has(d, 5) {
        1int
    } else {
        0int
    });
    assert(count_segments_below(d, 7) == count_segments_below(d, 6) + if digit_has(d, 6) {
        1int
    } else {
        0int
    });
}

proof fn lemma_first_match_step(p: Seq<char>, w: Seq<char>, d: int)
    requires
        0 <= d <= 9,
        !matches_digit(p, w, d),
    ensures
        first_match_from(p, w, d) == first_match_from(p, w, d + 1),
{
}

/// Views of a sequence of patterns.
pub open spec fn digit_views(v: Seq<Digit>) -> Seq<Seq<char>> {
    Seq::new(v.len(), |i: int| v[i]@)
}

/// In how many patterns wire label `c` occurs.
pub open spec fn wire_frequency(pats: Seq<Seq<char>>, c: char) -> int
    decreases pats.len(),
{
    if pats.len() == 0 {
        0
    } else {
        wire_frequency(pats.drop_last(), c) + if pats.last().contains(c) {
            1int
        } else {
            0int
        }
    }
}

/// Whether a pattern's length alone identifies its digit (digits 1, 7, 4, 8).
pub open spec fn known_length(p: Seq<char>) -> bool {
    p.len() == 2 || p.len() == 3 || p.len() == 4 || p.len() == 7
}

/// How many of the given patterns have a length that identifies the digit.
pub open spec fn known_count(outs: Seq<Seq<char>>) -> int
    decreases outs.len(),
{
    if outs.len() == 0 {
        0
    } else {
        known_count(outs.drop_last()) + if known_length(outs.last()) {
            1int
        } else {
            0int
        }
    }
}

/// How many of the given patterns have length `l`.
pub open spec fn length_count(pats: Seq<Seq<char>>, l: int) -> int
    decreases pats.len(),
{
    if pats.len() == 0 {
        0
    } else {
        length_count(pats.drop_last(), l) + if pats.last().len() == l {
            1int
        } else {
            0int
        }
    }
}

/// The length distribution a true catalog sample must show: one pattern each
/// of lengths 2, 3, 4 and 7, and three each of lengths 5 and 6.
pub open spec fn distribution_ok(pats: Seq<Seq<char>>) -> bool {
    length_count(pats, 2) == 1 && length_count(pats, 3) == 1 && length_count(pats, 4) == 1
        && length_count(pats, 5) == 3 && length_count(pats, 6) == 3 && length_count(pats, 7) == 1
}

/// Candidate-by-frequency: wire `c` is a candidate for segment `s` when its
/// observed frequency over the ten patterns equals the segment's expected one.
pub open spec fn freq_candidate(pats: Seq<Seq<char>>, s: int, c: char) -> bool {
    'a' <= c && c <= 'g' && wire_frequency(pats, c) == expected_frequency(s)
}

/// Candidate-by-digit: wire `c` lies in every pattern that may activate
/// segment `s` under the current partial wiring.
pub open spec fn digit_candidate(pats: Seq<Seq<char>>, w: Seq<char>, s: int, c: char) -> bool {
    'a' <= c && c <= 'g' && forall|k: int|
        0 <= k < pats.len() && may_activate(#[trigger] pats[k], w, s) ==> pats[k].contains(c)
}

/// Candidate from the union of both heuristics, excluding wires already
/// assigned to some segment.
pub open spec fn union_candidate(pats: Seq<Seq<char>>, w: Seq<char>, s: int, c: char) -> bool {
    (digit_candidate(pats, w, s, c) || freq_candidate(pats, s, c)) && !w.contains(c)
}

/// Whether `c` is the one and only character satisfying `pred`.
pub open spec fn unique_choice(pred: spec_fn(char) -> bool, c: char) -> bool {
    pred(c) && forall|c2: char| #[trigger] pred(c2) ==> c2 == c
}

pub open spec fn has_unique(pred: spec_fn(char) -> bool) -> bool {
    exists|c: char| unique_choice(pred, c)
}

pub open spec fn the_unique(pred: spec_fn(char) -> bool) -> char {
    choose|c: char| unique_choice(pred, c)
}

/// What one solver pass assigns to segment `s`: an already resolved segment
/// is kept; otherwise a lone by-digit candidate wins, then a lone
/// by-frequency candidate, then a lone survivor of the filtered union;
/// anything else stays unresolved.
pub open spec fn next_segment(pats: Seq<Seq<char>>, w: Seq<char>, s: int) -> char {
    if w[s] != 'x' {
        w[s]
    } else if has_unique(|c: char| digit_candidate(pats, w, s, c)) {
        the_unique(|c: char| digit_candidate(pats, w, s, c))
    } else if has_unique(|c: char| freq_candidate(pats, s, c)) {
        the_unique(|c: char| freq_candidate(pats, s, c))
    } else if has_unique(|c: char| union_candidate(pats, w, s, c)) {
        the_unique(|c: char| union_candidate(pats, w, s, c))
    } else {
        'x'
    }
}

/// The wiring after one full solver pass.
pub open spec fn next_wiring(pats: Seq<Seq<char>>, w: Seq<char>) -> Seq<char> {
    Seq::new(7, |s: int| next_segment(pats, w, s))
}

/// The all-unresolved wiring the solver starts from.
pub open spec fn blank_wiring() -> Seq<char> {
    Seq::new(7, |s: int| 'x')
}

pub open spec fn has_unresolved(w: Seq<char>) -> bool {
    exists|s: int| 0 <= s < w.len() && w[s] == 'x'
}

/// Number of unresolved entries.
pub open spec fn unresolved_count(w: Seq<char>) -> int
    decreases w.len(),
{
    if w.len() == 0 {
        0
    } else {
        unresolved_count(w.drop_last()) + if w.last() == 'x' {
            1int
        } else {
            0int
        }
    }
}

/// The wiring reached by running solver passes to a fixed point, stalling, or
/// exhausting `fuel` passes.
pub open spec fn iterate_passes(pats: Seq<Seq<char>>, w: Seq<char>, fuel: int) -> Seq<char>
    decreases fuel,
{
    if fuel <= 0 || !has_unresolved(w) {
        w
    } else {
        let n = next_wiring(pats, w);
        if n == w {
            w
        } else {
            iterate_passes(pats, n, fuel - 1)
        }
    }
}

/// A wiring in which every segment is resolved.
pub open spec fn fully_resolved(w: Seq<char>) -> bool {
    w.len() == 7 && forall|s: int| 0 <= s < 7 ==> w[s] != 'x'
}

/// No wire drives two segments.
pub open spec fn injective_wiring(w: Seq<char>) -> bool {
    forall|i: int, j: int| 0 <= i < j < w.len() ==> w[i] != w[j]
}

pub open spec fn wires_in_range(w: Seq<char>) -> bool {
    forall|s: int| 0 <= s < w.len() ==> 'a' <= #[trigger] w[s] && w[s] <= 'g'
}

/// A fully resolved bijection between the seven segments and wires a-g.
pub open spec fn valid_wiring(w: Seq<char>) -> bool {
    w.len() == 7 && wires_in_range(w) && injective_wiring(w)
}

/// What deducing the wiring from ten catalog patterns yields: a malformed
/// length distribution is rejected; otherwise the pass iteration must reach a
/// resolved bijection, and stalling or an inconsistent result is reported.
pub open spec fn solve_result(pats: Seq<Seq<char>>) -> Result<Seq<char>, SignalError> {
    if !distribution_ok(pats) {
        Result::Err(SignalError::MalformedReadout)
    } else {
        let fin = iterate_passes(pats, blank_wiring(), 8);
        if fully_resolved(fin) && injective_wiring(fin) {
            Result::Ok(fin)
        } else {
            Result::Err(SignalError::UnresolvableWiring)
        }
    }
}

/// The four-digit value of a readout: decode each output pattern under the
/// deduced wiring, most significant first.
pub open spec fn output_value(pats: Seq<Seq<char>>, outs: Seq<Seq<char>>) -> Result<
    u32,
    SignalError,
> {
    match solve_result(pats) {
        Result::Err(e) => Result::Err(e),
        Result::Ok(w) => {
            if decode_spec(outs[0], w) is Some && decode_spec(outs[1], w) is Some && decode_spec(
                outs[2],
                w,
            ) is Some && decode_spec(outs[3], w) is Some {
                Result::Ok(
                    (((decode_spec(outs[0], w)->0 as int) * 1000 + (decode_spec(outs[1], w)->0
                        as int) * 100 + (decode_spec(outs[2], w)->0 as int) * 10 + (decode_spec(
                        outs[3],
                        w,
                    )->0 as int)) as u32),
                )
            } else {
                Result::Err(SignalError::NoMatchingDigit)
            }
        },
    }
}

/// One puzzle line: ten catalog patterns and four output patterns.
#[derive(Debug)]
pub struct Signal {
    pattern: Vec<Digit>,
    output: Vec<Digit>,
}

/// The separator between the catalog group and the output group.
pub open spec fn group_separator() -> Seq<char> {
    seq![' ', '|', ' ']
}

pub open spec fn space_separator() -> Seq<char> {
    seq![' ']
}

/// Whether a line splits into a catalog group of ten space-separated patterns
/// and an output group of four.
pub open spec fn line_shape_ok(line: Seq<char>) -> bool {
    let groups = crate::text::split_by(line, group_separator());
    groups.len() == 2 && crate::text::split_by(groups[0], space_separator()).len() == 10
        && crate::text::split_by(groups[1], space_separator()).len() == 4
}

impl Signal {
    /// The ten catalog patterns, as character sequences.
    pub closed spec fn patterns(&self) -> Seq<Seq<char>> {
        digit_views(self.pattern@)
    }

    /// The four output patterns, as character sequences.
    pub closed spec fn outputs(&self) -> Seq<Seq<char>> {
        digit_views(self.output@)
    }

    /// The group sizes a readout must have.
    pub open spec fn wf(&self) -> bool {
        self.patterns().len() == 10 && self.outputs().len() == 4
    }

    /// Builds a readout from already-split patterns.
    pub fn new(pattern: Vec<Digit>, output: Vec<Digit>) -> (r: Signal)
        ensures
            r.patterns() == digit_views(pattern@),
            r.outputs() == digit_views(output@),
    {
        Signal { pattern, output }
    }

    /// Parses one puzzle line `p1 .. p10 | q1 .. q4`, failing on any other
    /// group or pattern count.
    pub fn parse(line: &str) -> (r: Result<Signal, SignalError>)
        ensures
            match r {
                Result::Ok(sig) => line_shape_ok(line@) && sig.wf() && sig.patterns()
                    == crate::text::split_by(
                    crate::text::split_by(line@, group_separator())[0],
                    space_separator(),
                ) && sig.outputs() == crate::text::split_by(
                    crate::text::split_by(line@, group_separator())[1],
                    space_separator(),
                ),
                Result::Err(e) => !line_shape_ok(line@) && e == SignalError::MalformedReadout,
            },
    {
        let chars = chars_of(line);
        let mut gsep: Vec<char> = Vec::new();
        gsep.push(' ');
        gsep.push('|');
        gsep.push(' ');
        let mut ssep: Vec<char> = Vec::new();
        ssep.push(' ');
        proof {
            assert(gsep@ =~= group_separator());
            assert(ssep@ =~= space_separator());
        }
        let groups = crate::text::split_on(&chars, &gsep);
        if groups.len() != 2 {
            proof {
                assert(crate::text::split_by(line@, group_separator()).len()
                    == groups.deep_view().len());
            }
            return Err(SignalError::MalformedReadout);
        }
        let words0 = crate::text::split_on(&groups[0], &ssep);
        let words1 = crate::text::split_on(&groups[1], &ssep);
        proof {
            assert(groups.deep_view()[0] == groups@[0]@);
            assert(groups.deep_view()[1] == groups@[1]@);
        }
        if words0.len() != 10 || words1.len() != 4 {
            return Err(SignalError::MalformedReadout);
        }
        let pattern = digits_of_words(&words0);
        let output = digits_of_words(&words1);
        proof {
            assert(digit_views(pattern@) =~~= words0.deep_view());
            assert(digit_views(output@) =~~= words1.deep_view());
        }
        Ok(Signal { pattern, output })
    }

    /// Counts the output patterns whose length alone identifies their digit.
    pub fn known_output_digits(&self) -> (r: u32)
        requires
            self.wf(),
        ensures
            r == known_count(self.outputs()),
    {
        let mut count: u32 = 0;
        let mut i: usize = 0;
        while i < self.output.len()
            invariant
                self.wf(),
                i <= self.output@.len(),
                self.output@.len() == 4,
                count == known_count(self.outputs().take(i as int)),
                count <= i,
            decreases self.output@.len() - i,
        {
            proof {
                assert(self.outputs().take(i + 1).drop_last() =~= self.outputs().take(i as int));
                assert(self.outputs().take(i + 1).last() == self.outputs()[i as int]);
            }
            let len = self.output[i].size();
            if len == 2 || len == 3 || len == 4 || len == 7 {
                count = count + 1;
            }
            i = i + 1;
        }
        proof {
            assert(self.outputs().take(4) =~= self.outputs());
        }
        count
    }

    /// In how many of the ten catalog patterns wire `c` occurs.
    pub fn get_wire_frequency(&self, c: char) -> (r: usize)
        requires
            self.wf(),
        ensures
            r == wire_frequency(self.patterns(), c),
    {
        let mut count: usize = 0;
        let mut i: usize = 0;
        while i < self.pattern.len()
            invariant
                self.wf(),
                i <= self.pattern@.len(),
                self.pattern@.len() == 10,
                count == wire_frequency(self.patterns().take(i as int), c),
                count <= i,
            decreases self.pattern@.len() - i,
        {
            proof {
                assert(self.patterns().take(i + 1).drop_last() =~= self.patterns().take(i as int));
                assert(self.patterns().take(i + 1).last() == self.patterns()[i as int]);
            }
            if self.pattern[i].has_wire(c) {
                count = count + 1;
            }
            i = i + 1;
        }
        proof {
            assert(self.patterns().take(10) =~= self.patterns());
        }
        count
    }
}

/// Wire label with the given index, `a` through `g`.
pub open spec fn wire_char(i: int) -> char {
    if i == 0 {
        'a'
    } else if i == 1 {
        'b'
    } else if i == 2 {
        'c'
    } else if i == 3 {
        'd'
    } else if i == 4 {
        'e'
    } else if i == 5 {
        'f'
    } else {
        'g'
    }
}

/// Executable mirror of `wire_char`.
pub fn wire_at(i: usize) -> (r: char)
    requires
        i < 7,
    ensures
        r == wire_char(i as int),
{
    match i {
        0 => 'a',
        1 => 'b',
        2 => 'c',
        3 => 'd',
        4 => 'e',
        5 => 'f',
        _ => 'g',
    }
}

/// Turns split words into patterns, preserving each word's characters.
fn digits_of_words(words: &Vec<Vec<char>>) -> (r: Vec<Digit>)
    ensures
        r@.len() == words@.len(),
        forall|i: int| 0 <= i < r@.len() ==> (#[trigger] r@[i])@ == words@[i]@,
{
    let mut r: Vec<Digit> = Vec::new();
    let mut i: usize = 0;
    while i < words.len()
        invariant
            i <= words@.len(),
            r@.len() == i,
            forall|k: int| 0 <= k < i ==> (#[trigger] r@[k])@ == words@[k]@,
        decreases words@.len() - i,
    {
        let word = crate::text::copy_range(&words[i], 0, words[i].len());
        proof {
            assert(word@ =~= words@[i as int]@);
        }
        r.push(Digit::from_wires(word));
        i = i + 1;
    }
    r
}

/// A vector of distinct characters whose members are exactly those
/// satisfying `pred` has length one just when `pred` picks a unique wire.
proof fn lemma_vec_unique(v: Seq<char>, pred: spec_fn(char) -> bool)
    requires
        forall|c: char| v.contains(c) <==> #[trigger] pred(c),
        forall|i: int, j: int| 0 <= i < j < v.len() ==> v[i] != v[j],
    ensures
        v.len() == 1 ==> has_unique(pred) && the_unique(pred) == v[0],
        v.len() != 1 ==> !has_unique(pred),
{
    if v.len() == 1 {
        assert(v.contains(v[0]));
        assert forall|c2: char| #[trigger] pred(c2) implies c2 == v[0] by {
            assert(v.contains(c2));
            let i = choose|i: int| 0 <= i < v.len() && v[i] == c2;
            assert(i == 0);
        }
        assert(unique_choice(pred, v[0]));
        let c = the_unique(pred);
        assert(unique_choice(pred, c));
    } else if v.len() == 0 {
        if has_unique(pred) {
            let c = choose|c: char| unique_choice(pred, c);
            assert(pred(c));
            assert(v.contains(c));
        }
    } else {
        if has_unique(pred) {
            let c = choose|c: char| unique_choice(pred, c);
            assert(v.contains(v[0]) && v.contains(v[1]));
            assert(pred(v[0]) && pred(v[1]));
            assert(v[0] == c && v[1] == c);
        }
    }
}

/// Every wire label a-g is `wire_char` of some index.
proof fn lemma_wire_char_covers(c: char)
    requires
        'a' <= c && c <= 'g',
    ensures
        exists|k: int| 0 <= k < 7 && #[trigger] wire_char(k) == c,
{
    if c == 'a' {
        assert(wire_char(0) == c);
    } else if c == 'b' {
        assert(wire_char(1) == c);
    } else if c == 'c' {
        assert(wire_char(2) == c);
    } else if c == 'd' {
        assert(wire_char(3) == c);
    } else if c == 'e' {
        assert(wire_char(4) == c);
    } else if c == 'f' {
        assert(wire_char(5) == c);
    } else {
        assert(c == 'g');
        assert(wire_char(6) == c);
    }
}

impl Signal {
    /// Mirror of `digit_candidate` for one wire.
    fn is_digit_candidate(&self, s: usize, wiring: &Vec<char>, c: char) -> (r: bool)
        requires
            self.wf(),
            s < 7,
            wiring@.len() == 7,
            'a' <= c && c <= 'g',
        ensures
            r == digit_candidate(self.patterns(), wiring@, s as int, c),
    {
        let seg = Segment::from_index(s);
        let mut k: usize = 0;
        while k < self.pattern.len()
            invariant
                self.wf(),
                self.pattern@.len() == 10,
                k <= 10,
                s < 7,
                seg_index(seg) == s,
                wiring@.len() == 7,
                'a' <= c && c <= 'g',
                forall|x: int|
                    0 <= x < k && may_activate(#[trigger] self.patterns()[x], wiring@, s as int)
                        ==> self.patterns()[x].contains(c),
            decreases self.pattern@.len() - k,
        {
            proof {
                assert(self.patterns()[k as int] == self.pattern@[k as int]@);
            }
            if self.pattern[k].may_activate_segment(seg, wiring) && !self.pattern[k].has_wire(c) {
                return false;
            }
            k = k + 1;
        }
        true
    }

    /// Candidate wires for a segment by observed frequency alone, in wire
    /// order; static over the partial wiring, but possibly ambiguous.
    pub fn get_possible_wires_by_frequency(&self, segment: Segment) -> (r: Vec<char>)
        requires
            self.wf(),
        ensures
            forall|c: char|
                r@.contains(c) <==> freq_candidate(self.patterns(), seg_index(segment), c),
            forall|i: int, j: int| 0 <= i < j < r@.len() ==> r@[i] != r@[j],
    {
        let s = segment.index();
        let expected: usize = match s {
            0 => 8,
            1 => 6,
            2 => 8,
            3 => 7,
            4 => 4,
            5 => 9,
            _ => 7,
        };
        proof {
            assert(expected == expected_frequency(s as int));
        }
        let mut r: Vec<char> = Vec::new();
        let mut i: usize = 0;
        while i < 7
            invariant
                self.wf(),
                i <= 7,
                s == seg_index(segment),
                expected == expected_frequency(s as int),
                forall|c: char|
                    r@.contains(c) ==> (freq_candidate(self.patterns(), s as int, c) && exists|k: int|
                        0 <= k < i && #[trigger] wire_char(k) == c),
                forall|k: int|
                    0 <= k < i && freq_candidate(self.patterns(), s as int, wire_char(k))
                        ==> r@.contains(#[trigger] wire_char(k)),
                forall|x: int, y: int| 0 <= x < y < r@.len() ==> r@[x] != r@[y],
            decreases 7 - i,
        {
            let c = wire_at(i);
            if self.get_wire_frequency(c) == expected {
                let ghost oldr = r@;
                r.push(c);
                proof {
                    assert forall|cc: char| r@.contains(cc) implies (freq_candidate(
                        self.patterns(),
                        s as int,
                        cc,
                    ) && exists|k: int| 0 <= k < i + 1 && #[trigger] wire_char(k) == cc) by {
                        let ix = choose|ix: int| 0 <= ix < r@.len() && r@[ix] == cc;
                        if ix < oldr.len() {
                            assert(oldr.contains(cc));
                        } else {
                            assert(cc == c);
                            assert(wire_char(i as int) == cc);
                        }
                    }
                    assert forall|x: int, y: int| 0 <= x < y < r@.len() implies r@[x] != r@[y] by {
                        if y < oldr.len() {
                        } else {
                            assert(oldr.contains(oldr[x]));
                            let kx = choose|k: int| 0 <= k < i && #[trigger] wire_char(k) == oldr[x];
                            assert(r@[y] == wire_char(i as int));
                            assert(forall|k1: int, k2: int|
                                0 <= k1 < k2 < 7 ==> wire_char(k1) != wire_char(k2));
                        }
                    }
                    assert forall|k: int| 0 <= k < i + 1 && oldr.contains(
                        #[trigger] wire_char(k),
                    ) || (0 <= k < i + 1 && wire_char(k) == c) implies r@.contains(wire_char(k)) by {
                        if wire_char(k) == c {
                            assert(r@[r@.len() - 1] == wire_char(k));
                        } else {
                            let ix = choose|ix: int|
                                0 <= ix < oldr.len() && oldr[ix] == wire_char(k);
                            assert(r@[ix] == wire_char(k));
                        }
                    }
                }
            }
            i = i + 1;
        }
        proof {
            assert forall|c: char|
                freq_candidate(self.patterns(), s as int, c) implies r@.contains(c) by {
                lemma_wire_char_covers(c);
                let k = choose|k: int| 0 <= k < 7 && #[trigger] wire_char(k) == c;
            }
        }
        r
    }

    /// Candidate wires for a segment by the digits each pattern may still be:
    /// the intersection, over patterns that may activate the segment, of
    /// their wire labels.
    pub fn get_possible_wires_by_digit(&self, segment: Segment, wiring: &Vec<char>) -> (r: Vec<
        char,
    >)
        requires
            self.wf(),
            wiring@.len() == 7,
        ensures
            forall|c: char|
                r@.contains(c) <==> digit_candidate(
                    self.patterns(),
                    wiring@,
                    seg_index(segment),
                    c,
                ),
            forall|i: int, j: int| 0 <= i < j < r@.len() ==> r@[i] != r@[j],
    {
        let s = segment.index();
        let mut r: Vec<char> = Vec::new();
        let mut i: usize = 0;
        while i < 7
            invariant
                self.wf(),
                i <= 7,
                s == seg_index(segment),
                wiring@.len() == 7,
                forall|c: char|
                    r@.contains(c) ==> (digit_candidate(self.patterns(), wiring@, s as int, c)
                        && exists|k: int| 0 <= k < i && #[trigger] wire_char(k) == c),
                forall|k: int|
                    0 <= k < i && digit_candidate(self.patterns(), wiring@, s as int, wire_char(k))
                        ==> r@.contains(#[trigger] wire_char(k)),
                forall|x: int, y: int| 0 <= x < y < r@.len() ==> r@[x] != r@[y],
            decreases 7 - i,
        {
            let c = wire_at(i);
            if self.is_digit_candidate(s, wiring, c) {
                let ghost oldr = r@;
                r.push(c);
                proof {
                    assert forall|cc: char| r@.contains(cc) implies (digit_candidate(
                        self.patterns(),
                        wiring@,
                        s as int,
                        cc,
                    ) && exists|k: int| 0 <= k < i + 1 && #[trigger] wire_char(k) == cc) by {
                        let ix = choose|ix: int| 0 <= ix < r@.len() && r@[ix] == cc;
                        if ix < oldr.len() {
                            assert(oldr.contains(cc));
                        } else {
                            assert(cc == c);
                            assert(wire_char(i as int) == cc);
                        }
                    }
                    assert forall|x: int, y: int| 0 <= x < y < r@.len() implies r@[x] != r@[y] by {
                        if y < oldr.len() {
                        } else {
                            assert(oldr.contains(oldr[x]));
                            let kx = choose|k: int| 0 <= k < i && #[trigger] wire_char(k) == oldr[x];
                            assert(r@[y] == wire_char(i as int));
                            assert(forall|k1: int, k2: int|
                                0 <= k1 < k2 < 7 ==> wire_char(k1) != wire_char(k2));
                        }
                    }
                    assert forall|k: int| 0 <= k < i + 1 && oldr.contains(
                        #[trigger] wire_char(k),
                    ) || (0 <= k < i + 1 && wire_char(k) == c) implies r@.contains(wire_char(k)) by {
                        if wire_char(k) == c {
                            assert(r@[r@.len() - 1] == wire_char(k));
                        } else {
                            let ix = choose|ix: int|
                                0 <= ix < oldr.len() && oldr[ix] == wire_char(k);
                            assert(r@[ix] == wire_char(k));
                        }
                    }
                }
            }
            i = i + 1;
        }
        proof {
            assert forall|c: char|
                digit_candidate(self.patterns(), wiring@, s as int, c) implies r@.contains(c) by {
                lemma_wire_char_covers(c);
                let k = choose|k: int| 0 <= k < 7 && #[trigger] wire_char(k) == c;
            }
        }
        r
    }

    /// Survivors of the union of both candidate sets after removing wires
    /// already assigned elsewhere.
    fn union_candidates(
        &self,
        s: usize,
        wiring: &Vec<char>,
        by_digit: &Vec<char>,
        by_frequency: &Vec<char>,
    ) -> (r: Vec<char>)
        requires
            self.wf(),
            s < 7,
            wiring@.len() == 7,
            forall|c: char|
                by_digit@.contains(c) <==> digit_candidate(self.patterns(), wiring@, s as int, c),
            forall|c: char|
                by_frequency@.contains(c) <==> freq_candidate(self.patterns(), s as int, c),
        ensures
            forall|c: char|
                r@.contains(c) <==> union_candidate(self.patterns(), wiring@, s as int, c),
            forall|i: int, j: int| 0 <= i < j < r@.len() ==> r@[i] != r@[j],
    {
        let mut r: Vec<char> = Vec::new();
        let mut i: usize = 0;
        while i < 7
            invariant
                self.wf(),
                i <= 7,
                s < 7,
                wiring@.len() == 7,
                forall|c: char|
                    by_digit@.contains(c) <==> digit_candidate(
                        self.patterns(),
                        wiring@,
                        s as int,
                        c,
                    ),
                forall|c: char|
                    by_frequency@.contains(c) <==> freq_candidate(self.patterns(), s as int, c),
                forall|c: char|
                    r@.contains(c) ==> (union_candidate(self.patterns(), wiring@, s as int, c)
                        && exists|k: int| 0 <= k < i && #[trigger] wire_char(k) == c),
                forall|k: int|
                    0 <= k < i && union_candidate(self.patterns(), wiring@, s as int, wire_char(k))
                        ==> r@.contains(#[trigger] wire_char(k)),
                forall|x: int, y: int| 0 <= x < y < r@.len() ==> r@[x] != r@[y],
            decreases 7 - i,
        {
            let c = wire_at(i);
            let in_union = crate::text::contains_char(by_digit, c) || crate::text::contains_char(
                by_frequency,
                c,
            );
            if in_union && !crate::text::contains_char(wiring, c) {
                let ghost oldr = r@;
                r.push(c);
                proof {
                    assert forall|cc: char| r@.contains(cc) implies (union_candidate(
                        self.patterns(),
                        wiring@,
                        s as int,
                        cc,
                    ) && exists|k: int| 0 <= k < i + 1 && #[trigger] wire_char(k) == cc) by {
                        let ix = choose|ix: int| 0 <= ix < r@.len() && r@[ix] == cc;
                        if ix < oldr.len() {
                            assert(oldr.contains(cc));
                        } else {
                            assert(cc == c);
                            assert(wire_char(i as int) == cc);
                        }
                    }
                    assert forall|x: int, y: int| 0 <= x < y < r@.len() implies r@[x] != r@[y] by {
                        if y < oldr.len() {
                        } else {
                            assert(oldr.contains(oldr[x]));
                            let kx = choose|k: int| 0 <= k < i && #[trigger] wire_char(k) == oldr[x];
                            assert(r@[y] == wire_char(i as int));
                            assert(forall|k1: int, k2: int|
                                0 <= k1 < k2 < 7 ==> wire_char(k1) != wire_char(k2));
                        }
                    }
                    assert forall|k: int| 0 <= k < i + 1 && oldr.contains(
                        #[trigger] wire_char(k),
                    ) || (0 <= k < i + 1 && wire_char(k) == c) implies r@.contains(wire_char(k)) by {
                        if wire_char(k) == c {
                            assert(r@[r@.len() - 1] == wire_char(k));
                        } else {
                            let ix = choose|ix: int|
                                0 <= ix < oldr.len() && oldr[ix] == wire_char(k);
                            assert(r@[ix] == wire_char(k));
                        }
                    }
                }
            }
            i = i + 1;
        }
        proof {
            assert forall|c: char|
                union_candidate(self.patterns(), wiring@, s as int, c) implies r@.contains(c) by {
                assert('a' <= c && c <= 'g');
                lemma_wire_char_covers(c);
                let k = choose|k: int| 0 <= k < 7 && #[trigger] wire_char(k) == c;
            }
        }
        r
    }

    /// One pass of the solver over all seven segments against the current
    /// partial wiring.
    fn solver_pass(&self, wiring: &Vec<char>) -> (r: Vec<char>)
        requires
            self.wf(),
            wiring@.len() == 7,
        ensures
            r@.len() == 7,
            forall|s: int| 0 <= s < 7 ==> r@[s] == next_segment(self.patterns(), wiring@, s),
    {
        let ghost pats = self.patterns();
        let mut r: Vec<char> = Vec::new();
        let mut s: usize = 0;
        while s < 7
            invariant
                self.wf(),
                pats == self.patterns(),
                s <= 7,
                wiring@.len() == 7,
                r@.len() == s,
                forall|x: int| 0 <= x < s ==> r@[x] == next_segment(pats, wiring@, x),
            decreases 7 - s,
        {
            let seg = Segment::from_index(s);
            let resolved = wiring[s];
            if resolved != 'x' {
                r.push(resolved);
            } else {
                let by_digit = self.get_possible_wires_by_digit(seg, wiring);
                let by_frequency = self.get_possible_wires_by_frequency(seg);
                proof {
                    lemma_vec_unique(by_digit@, |c: char| digit_candidate(pats, wiring@, s as int, c));
                    lemma_vec_unique(by_frequency@, |c: char| freq_candidate(pats, s as int, c));
                }
                if by_digit.len() == 1 {
                    r.push(by_digit[0]);
                } else if by_frequency.len() == 1 {
                    r.push(by_frequency[0]);
                } else {
                    let survivors = self.union_candidates(s, wiring, &by_digit, &by_frequency);
                    proof {
                        lemma_vec_unique(
                            survivors@,
                            |c: char| union_candidate(pats, wiring@, s as int, c),
                        );
                    }
                    if survivors.len() == 1 {
                        r.push(survivors[0]);
                    } else {
                        r.push('x');
                    }
                }
            }
            s = s + 1;
        }
        r
    }
}

proof fn lemma_unresolved_bounds(w: Seq<char>)
    ensures
        0 <= unresolved_count(w) <= w.len(),
    decreases w.len(),
{
    if w.len() > 0 {
        lemma_unresolved_bounds(w.drop_last());
    }
}

/// A pass never unresolves a segment, so the unresolved count cannot grow.
proof fn lemma_unresolved_mono(w: Seq<char>, n: Seq<char>)
    requires
        w.len() == n.len(),
        forall|s: int| 0 <= s < w.len() ==> n[s] == w[s] || (#[trigger] w[s] == 'x' && n[s] != 'x'),
    ensures
        unresolved_count(n) <= unresolved_count(w),
    decreases w.len(),
{
    if w.len() > 0 {
        lemma_unresolved_mono(w.drop_last(), n.drop_last());
    }
}

/// A pass that changes anything strictly lowers the unresolved count.
proof fn lemma_unresolved_strict(w: Seq<char>, n: Seq<char>, idx: int)
    requires
        w.len() == n.len(),
        forall|s: int| 0 <= s < w.len() ==> n[s] == w[s] || (#[trigger] w[s] == 'x' && n[s] != 'x'),
        0 <= idx < w.len(),
        n[idx] != w[idx],
    ensures
        unresolved_count(n) < unresolved_count(w),
    decreases w.len(),
{
    if idx == w.len() - 1 {
        lemma_unresolved_mono(w.drop_last(), n.drop_last());
    } else {
        lemma_unresolved_strict(w.drop_last(), n.drop_last(), idx);
    }
}

/// Each pass keeps resolved segments and only fills unresolved ones with
/// wire labels.
proof fn lemma_next_pointwise(pats: Seq<Seq<char>>, w: Seq<char>)
    requires
        w.len() == 7,
    ensures
        next_wiring(pats, w).len() == 7,
        forall|s: int|
            0 <= s < 7 ==> next_wiring(pats, w)[s] == w[s] || (#[trigger] w[s] == 'x'
                && next_wiring(pats, w)[s] != 'x'),
        forall|s: int|
            0 <= s < 7 ==> next_wiring(pats, w)[s] == w[s] || ('a' <= #[trigger] next_wiring(
                pats,
                w,
            )[s] && next_wiring(pats, w)[s] <= 'g'),
{
    assert forall|s: int|
        0 <= s < 7 implies (next_wiring(pats, w)[s] == w[s] || (w[s] == 'x' && next_wiring(
        pats,
        w,
    )[s] != 'x' && 'a' <= next_wiring(pats, w)[s] && next_wiring(pats, w)[s] <= 'g')) by {
        let v = next_segment(pats, w, s);
        if w[s] != 'x' {
        } else if has_unique(|c: char| digit_candidate(pats, w, s, c)) {
            let c = the_unique(|c: char| digit_candidate(pats, w, s, c));
            assert(unique_choice(|c: char| digit_candidate(pats, w, s, c), c));
            assert(digit_candidate(pats, w, s, c));
        } else if has_unique(|c: char| freq_candidate(pats, s, c)) {
            let c = the_unique(|c: char| freq_candidate(pats, s, c));
            assert(unique_choice(|c: char| freq_candidate(pats, s, c), c));
            assert(freq_candidate(pats, s, c));
        } else if has_unique(|c: char| union_candidate(pats, w, s, c)) {
            let c = the_unique(|c: char| union_candidate(pats, w, s, c));
            assert(unique_choice(|c: char| union_candidate(pats, w, s, c), c));
            assert(union_candidate(pats, w, s, c));
        } else {
        }
    }
}

/// Whether no wire is assigned to two segments.
fn wiring_injective(w: &Vec<char>) -> (r: bool)
    ensures
        r == injective_wiring(w@),
{
    let mut i: usize = 0;
    while i < w.len()
        invariant
            i <= w@.len(),
            forall|x: int, y: int| 0 <= x < y < w@.len() && x < i ==> w@[x] != w@[y],
        decreases w@.len() - i,
    {
        let mut j = i + 1;
        while j < w.len()
            invariant
                i < j || i + 1 == j,
                i < w@.len() || i + 1 == j,
                i + 1 <= j <= w@.len() || j == i + 1,
                i < w@.len(),
                forall|y: int| i < y < j ==> w@[i as int] != w@[y],
            decreases w@.len() - j,
        {
            if w[i] == w[j] {
                return false;
            }
            j = j + 1;
        }
        i = i + 1;
    }
    true
}

impl Signal {
    /// How many catalog patterns have length `l`.
    fn count_of_length(&self, l: usize) -> (r: usize)
        requires
            self.wf(),
        ensures
            r == length_count(self.patterns(), l as int),
    {
        let mut count: usize = 0;
        let mut i: usize = 0;
        while i < self.pattern.len()
            invariant
                self.wf(),
                i <= self.pattern@.len(),
                self.pattern@.len() == 10,
                count == length_count(self.patterns().take(i as int), l as int),
                count <= i,
            decreases self.pattern@.len() - i,
        {
            proof {
                assert(self.patterns().take(i + 1).drop_last() =~= self.patterns().take(i as int));
                assert(self.patterns().take(i + 1).last() == self.patterns()[i as int]);
            }
            if self.pattern[i].size() == l {
                count = count + 1;
            }
            i = i + 1;
        }
        proof {
            assert(self.patterns().take(10) =~= self.patterns());
        }
        count
    }

    /// Deduces the full segment-to-wire assignment from the ten catalog
    /// patterns.
    ///
    /// The pass loop resolves at least one further segment per continuing
    /// pass, so at most seven passes run before it either finishes or stalls;
    /// a stall, and any resolution that is not a bijection, is reported as
    /// `UnresolvableWiring`, and a catalog sample without the required length
    /// distribution as `MalformedReadout`.
    pub fn deduce_wiring(&self) -> (r: Result<Vec<char>, SignalError>)
        requires
            self.wf(),
        ensures
            match r {
                Result::Ok(w) => solve_result(self.patterns()) == Result::<
                    Seq<char>,
                    SignalError,
                >::Ok(w@) && valid_wiring(w@),
                Result::Err(e) => solve_result(self.patterns()) == Result::<
                    Seq<char>,
                    SignalError,
                >::Err(e),
            },
    {
        let ghost pats = self.patterns();
        if !(self.count_of_length(2) == 1 && self.count_of_length(3) == 1 && self.count_of_length(
            4,
        ) == 1 && self.count_of_length(5) == 3 && self.count_of_length(6) == 3
            && self.count_of_length(7) == 1) {
            return Err(SignalError::MalformedReadout);
        }
        let mut w: Vec<char> = Vec::new();
        let mut k: usize = 0;
        while k < 7
            invariant
                k <= 7,
                w@.len() == k,
                forall|s: int| 0 <= s < k ==> w@[s] == 'x',
            decreases 7 - k,
        {
            w.push('x');
            k = k + 1;
        }
        proof {
            assert(w@ =~= blank_wiring());
        }
        let ghost mut fuel: int = 8;
        proof {
            lemma_unresolved_bounds(w@);
        }
        loop
            invariant
                self.wf(),
                pats == self.patterns(),
                distribution_ok(pats),
                w@.len() == 7,
                fuel >= 1 + unresolved_count(w@),
                iterate_passes(pats, blank_wiring(), 8) == iterate_passes(pats, w@, fuel),
                forall|s: int|
                    0 <= s < 7 ==> #[trigger] w@[s] == 'x' || ('a' <= w@[s] && w@[s] <= 'g'),
            ensures
                w@.len() == 7,
                iterate_passes(pats, blank_wiring(), 8) == w@,
                forall|s: int|
                    0 <= s < 7 ==> #[trigger] w@[s] == 'x' || ('a' <= w@[s] && w@[s] <= 'g'),
            decreases unresolved_count(w@),
        {
            if !crate::text::contains_char(&w, 'x') {
                proof {
                    assert(!has_unresolved(w@));
                }
                break ;
            }
            proof {
                assert(w@.contains('x'));
                assert(has_unresolved(w@));
            }
            let n = self.solver_pass(&w);
            if crate::text::chars_eq(&n, &w) {
                proof {
                    assert(n@ =~= next_wiring(pats, w@));
                    assert(next_wiring(pats, w@) == w@);
                    assert(iterate_passes(pats, w@, fuel) == w@);
                }
                break ;
            }
            proof {
                assert(n@ =~= next_wiring(pats, w@));
                lemma_next_pointwise(pats, w@);
                if forall|s: int| 0 <= s < 7 ==> n@[s] == w@[s] {
                    assert(n@ =~= w@);
                }
                let idx = choose|s: int| 0 <= s < 7 && n@[s] != w@[s];
                lemma_unresolved_strict(w@, n@, idx);
                lemma_unresolved_bounds(n@);
                assert(iterate_passes(pats, w@, fuel) == iterate_passes(pats, n@, fuel - 1));
                fuel = fuel - 1;
            }
            w = n;
        }
        if crate::text::contains_char(&w, 'x') {
            proof {
                assert(has_unresolved(w@));
                assert(!fully_resolved(iterate_passes(pats, blank_wiring(), 8)));
            }
            return Err(SignalError::UnresolvableWiring);
        }
        proof {
            assert(!w@.contains('x'));
            assert forall|s: int| 0 <= s < 7 implies w@[s] != 'x' by {
                if w@[s] == 'x' {
                    assert(w@.contains('x'));
                }
            }
            assert(fully_resolved(w@));
            assert(iterate_passes(pats, blank_wiring(), 8) == w@);
        }
        if wiring_injective(&w) {
            proof {
                assert forall|s: int| 0 <= s < 7 implies 'a' <= #[trigger] w@[s] && w@[s]
                    <= 'g' by {
                    assert(w@[s] != 'x');
                }
            }
            Ok(w)
        } else {
            Err(SignalError::UnresolvableWiring)
        }
    }

    /// Decodes the four output patterns under the deduced wiring into one
    /// four-digit value, most significant digit first.
    pub fn get_output(&self) -> (r: Result<u32, SignalError>)
        requires
            self.wf(),
        ensures
            r == output_value(self.patterns(), self.outputs()),
    {
        let wiring = match self.deduce_wiring() {
            Ok(w) => w,
            Err(e) => {
                return Err(e);
            },
        };
        let mut value: u32 = 0;
        let mut i: usize = 0;
        proof {
            assert(self.outputs()[0] == self.output@[0]@);
            assert(self.outputs()[1] == self.output@[1]@);
            assert(self.outputs()[2] == self.output@[2]@);
            assert(self.outputs()[3] == self.output@[3]@);
        }
        let d0 = match self.output[0].get_value(&wiring) {
            Ok(d) => d,
            Err(e) => {
                return Err(e);
            },
        };
        let d1 = match self.output[1].get_value(&wiring) {
            Ok(d) => d,
            Err(e) => {
                return Err(e);
            },
        };
        let d2 = match self.output[2].get_value(&wiring) {
            Ok(d) => d,
            Err(e) => {
                return Err(e);
            },
        };
        let d3 = match self.output[3].get_value(&wiring) {
            Ok(d) => d,
            Err(e) => {
                return Err(e);
            },
        };
        proof {
            lemma_first_match_range(self.outputs()[0], wiring@, 0);
            lemma_first_match_range(self.outputs()[1], wiring@, 0);
            lemma_first_match_range(self.outputs()[2], wiring@, 0);
            lemma_first_match_range(self.outputs()[3], wiring@, 0);
        }
        Ok((d0 as u32) * 1000 + (d1 as u32) * 100 + (d2 as u32) * 10 + (d3 as u32))
    }
}

/// A matched digit is always between 0 and 9.
proof fn lemma_first_match_range(p: Seq<char>, w: Seq<char>, d: int)
    requires
        0 <= d,
    ensures
        first_match_from(p, w, d) is Some ==> 0 <= first_match_from(p, w, d)->0 <= 9,
    decreases 10 - d,
{
    if d <= 9 && !matches_digit(p, w, d) {
        lemma_first_match_range(p, w, d + 1);
    }
}

/// Two catalog digits with the same segment count never have nested segment
/// sets: each lights some segment the other does not.
proof fn lemma_catalog_separating(d1: int, d2: int)
    requires
        0 <= d1 <= 9,
        0 <= d2 <= 9,
        d1 != d2,
        segment_count(d1) == segment_count(d2),
    ensures
        exists|s: int| #[trigger] digit_has(d1, s) && !digit_has(d2, s),
{
    if d1 == 0 && d2 == 6 {
        assert(digit_has(0, 2) && !digit_has(6, 2));
    } else if d1 == 0 && d2 == 9 {
        assert(digit_has(0, 4) && !digit_has(9, 4));
    } else if d1 == 6 && d2 == 0 {
        assert(digit_has(6, 3) && !digit_has(0, 3));
    } else if d1 == 6 && d2 == 9 {
        assert(digit_has(6, 4) && !digit_has(9, 4));
    } else if d1 == 9 && d2 == 0 {
        assert(digit_has(9, 3) && !digit_has(0, 3));
    } else if d1 == 9 && d2 == 6 {
        assert(digit_has(9, 2) && !digit_has(6, 2));
    } else if d1 == 2 && d2 == 3 {
        assert(digit_has(2, 4) && !digit_has(3, 4));
    } else if d1 == 2 && d2 == 5 {
        assert(digit_has(2, 2) && !digit_has(5, 2));
    } else if d1 == 3 && d2 == 2 {
        assert(digit_has(3, 5) && !digit_has(2, 5));
    } else if d1 == 3 && d2 == 5 {
        assert(digit_has(3, 2) && !digit_has(5, 2));
    } else if d1 == 5 && d2 == 2 {
        assert(digit_has(5, 1) && !digit_has(2, 1));
    } else {
        assert(d1 == 5 && d2 == 3);
        assert(digit_has(5, 1) && !digit_has(3, 1));
    }
}

proof fn lemma_first_match_skip(p: Seq<char>, w: Seq<char>, lo: int, hi: int)
    requires
        0 <= lo <= hi,
        forall|x: int| lo <= x < hi ==> !matches_digit(p, w, x),
    ensures
        first_match_from(p, w, lo) == first_match_from(p, w, hi),
    decreases hi - lo,
{
    if lo < hi {
        lemma_first_match_skip(p, w, lo + 1, hi);
    }
}

/// Decoding is a function of the pattern and the wiring alone: any two
/// results that satisfy `get_value`'s contract for the same inputs are equal.
pub proof fn lemma_decode_deterministic(
    p: Seq<char>,
    w: Seq<char>,
    r1: Option<u8>,
    r2: Option<u8>,
)
    requires
        r1 == decode_spec(p, w),
        r2 == decode_spec(p, w),
    ensures
        r1 == r2,
{
}

/// Round trip: mapping a digit's catalog segments through any valid wiring
/// and decoding the resulting wire set under that same wiring returns the
/// original digit.  `p` is the mapped wire set: one label per catalog
/// segment of `d`.
pub proof fn lemma_round_trip(d: int, w: Seq<char>, p: Seq<char>)
    requires
        0 <= d <= 9,
        valid_wiring(w),
        p.len() == segment_count(d),
        forall|c: char|
            #[trigger] p.contains(c) <==> exists|s: int| #[trigger] digit_has(d, s) && w[s] == c,
    ensures
        decode_spec(p, w) == Some(d as u8),
{
    assert forall|s: int| digit_has(d, s) implies p.contains(#[trigger] w[s]) by {
        assert(digit_has(d, s) && w[s] == w[s]);
    }
    assert(matches_digit(p, w, d));
    assert forall|d2: int| 0 <= d2 <= 9 && d2 != d implies !matches_digit(p, w, d2) by {
        if segment_count(d2) == segment_count(d) {
            lemma_catalog_separating(d2, d);
            let s2 = choose|s: int| #[trigger] digit_has(d2, s) && !digit_has(d, s);
            if p.contains(w[s2]) {
                let s = choose|s: int| #[trigger] digit_has(d, s) && w[s] == w[s2];
                assert(0 <= s < 7 && 0 <= s2 < 7);
                if s != s2 {
                    assert(w[s] != w[s2]);
                }
                assert(digit_has(d, s2));
            }
            assert(!p.contains(w[s2]));
        }
    }
    lemma_first_match_skip(p, w, 0, d);
    assert(first_match_from(p, w, d) == Some(d as u8));
}

/// Maps a digit's catalog segments through a wiring: the wire labels the
/// digit would light, one per catalog segment, in display order.
pub fn map_digit_through(d: u8, wiring: &Vec<char>) -> (r: Vec<char>)
    requires
        d <= 9,
        wiring@.len() == 7,
    ensures
        r@.len() == segment_count(d as int),
        forall|c: char|
            #[trigger] r@.contains(c) <==> exists|s: int|
                #[trigger] digit_has(d as int, s) && wiring@[s] == c,
{
    let mut r: Vec<char> = Vec::new();
    let mut count: usize = 0;
    let mut s: usize = 0;
    while s < 7
        invariant
            s <= 7,
            d <= 9,
            wiring@.len() == 7,
            count == r@.len(),
            count <= s,
            count == count_segments_below(d as int, s as int),
            forall|c: char|
                #[trigger] r@.contains(c) ==> exists|x: int|
                    0 <= x < s && #[trigger] digit_has(d as int, x) && wiring@[x] == c,
            forall|x: int|
                0 <= x < s && digit_has(d as int, x) ==> r@.contains(#[trigger] wiring@[x]),
        decreases 7 - s,
    {
        if digit_has_segment(d, s) {
            let ghost oldr = r@;
            r.push(wiring[s]);
            count = count + 1;
            proof {
                assert forall|c: char| #[trigger] r@.contains(c) implies exists|x: int|
                    0 <= x < s + 1 && #[trigger] digit_has(d as int, x) && wiring@[x] == c by {
                    let ix = choose|ix: int| 0 <= ix < r@.len() && r@[ix] == c;
                    if ix < oldr.len() {
                        assert(oldr.contains(c));
                    } else {
                        assert(digit_has(d as int, s as int) && wiring@[s as int] == c);
                    }
                }
                assert forall|x: int|
                    0 <= x < s + 1 && digit_has(d as int, x) implies r@.contains(
                    #[trigger] wiring@[x],
                ) by {
                    if x < s {
                        assert(oldr.contains(wiring@[x]));
                        let ix = choose|ix: int| 0 <= ix < oldr.len() && oldr[ix] == wiring@[x];
                        assert(r@[ix] == wiring@[x]);
                    } else {
                        assert(r@[r@.len() - 1] == wiring@[x]);
                    }
                }
            }
        }
        s = s + 1;
    }
    proof {
        lemma_count_segments_total(d as int);
    }
    r
}

} // verus!
