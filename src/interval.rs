//! Intervals over `i64` timestamps with open, closed and unbounded ends.
//!
//! Every bound is modelled by an integer position ("key") on a line where a
//! value `v` sits at `2 * v`: a closed start at `v` is `2v`, an open start is
//! `2v + 1`, a closed end is `2v`, an open end is `2v - 1`. An interval is the
//! set of keys between its start key and its end key (inclusive); two bounds
//! touch when the end key is exactly one below the start key.
use vstd::prelude::*;

verus! {

/// Key of an unbounded start: below every bounded start key.
pub open spec fn unbounded_start_key() -> int {
    2 * (i64::MIN as int) - 2
}

/// Key of an unbounded end: above every bounded end key.
pub open spec fn unbounded_end_key() -> int {
    2 * (i64::MAX as int) + 2
}

/// Key of a value, seen as a point.
pub open spec fn point_key(v: i64) -> int {
    2 * (v as int)
}

#[derive(Clone, Copy, Debug, PartialEq, Eq, Structural)]
pub enum Bound {
    Open(i64),
    Closed(i64),
    Unbounded(),
}

/// Position of a bound used as the start of an interval.
pub open spec fn start_key(b: Bound) -> int {
    match b {
        Bound::Open(v) => 2 * (v as int) + 1,
        Bound::Closed(v) => 2 * (v as int),
        Bound::Unbounded() => unbounded_start_key(),
    }
}

/// Position of a bound used as the end of an interval.
pub open spec fn end_key(b: Bound) -> int {
    match b {
        Bound::Open(v) => 2 * (v as int) - 1,
        Bound::Closed(v) => 2 * (v as int),
        Bound::Unbounded() => unbounded_end_key(),
    }
}

/// The same bound with an open end made closed.
pub open spec fn closed_bound(b: Bound) -> Bound {
    match b {
        Bound::Open(v) => Bound::Closed(v),
        _ => b,
    }
}

pub open spec fn bound_value(b: Bound) -> Option<i64> {
    match b {
        Bound::Open(v) => Some(v),
        Bound::Closed(v) => Some(v),
        Bound::Unbounded() => None,
    }
}

/// The bound whose start key is `k` (inverse of `start_key`).
pub open spec fn start_bound_of(k: int) -> Bound {
    if k == unbounded_start_key() {
        Bound::Unbounded()
    } else if k % 2 == 0 {
        Bound::Closed((k / 2) as i64)
    } else {
        Bound::Open((k / 2) as i64)
    }
}

/// The bound whose end key is `k` (inverse of `end_key`).
pub open spec fn end_bound_of(k: int) -> Bound {
    if k == unbounded_end_key() {
        Bound::Unbounded()
    } else if k % 2 == 0 {
        Bound::Closed((k / 2) as i64)
    } else {
        Bound::Open(((k + 1) / 2) as i64)
    }
}

/// Keys that some start bound has.
pub open spec fn valid_start_key(k: int) -> bool {
    k == unbounded_start_key() || (2 * (i64::MIN as int) <= k <= 2 * (i64::MAX as int) + 1)
}

/// Keys that some end bound has.
pub open spec fn valid_end_key(k: int) -> bool {
    k == unbounded_end_key() || (2 * (i64::MIN as int) - 1 <= k <= 2 * (i64::MAX as int))
}

pub proof fn lemma_start_key_inverse(b: Bound)
    ensures
        start_bound_of(start_key(b)) == b,
        valid_start_key(start_key(b)),
{
}

pub proof fn lemma_end_key_inverse(b: Bound)
    ensures
        end_bound_of(end_key(b)) == b,
        valid_end_key(end_key(b)),
{
}

impl Bound {
    pub fn value(&self) -> (r: Option<i64>)
        ensures
            r == bound_value(*self),
    {
        match self {
            Bound::Open(v) => Some(*v),
            Bound::Closed(v) => Some(*v),
            Bound::Unbounded() => None,
        }
    }

    pub fn is_unbounded(&self) -> (r: bool)
        ensures
            r == (*self is Unbounded),
    {
        match self {
            Bound::Unbounded() => true,
            _ => false,
        }
    }

    /// The same bound with an open end made closed.
    pub fn closed(&self) -> (r: Bound)
        ensures
            r == closed_bound(*self),
    {
        match self {
            Bound::Open(v) => Bound::Closed(*v),
            v => *v,
        }
    }

    pub fn is_closed(&self) -> (r: bool)
        ensures
            r == (*self is Closed),
    {
        match self {
            Bound::Closed(_) => true,
            _ => false,
        }
    }

    /// Swaps open and closed; an unbounded bound stays unbounded.
    pub fn switch(&self) -> (r: Bound)
        ensures
            r == match *self {
                Bound::Open(v) => Bound::Closed(v),
                Bound::Closed(v) => Bound::Open(v),
                Bound::Unbounded() => Bound::Unbounded(),
            },
    {
        match self {
            Bound::Open(v) => Bound::Closed(*v),
            Bound::Closed(v) => Bound::Open(*v),
            v => *v,
        }
    }
}

/// A bound used as the start of an interval.
#[derive(Clone, Copy, Debug, PartialEq, Eq, Structural)]
pub struct StartBound(pub Bound);

/// A bound used as the end of an interval.
#[derive(Clone, Copy, Debug, PartialEq, Eq, Structural)]
pub struct EndBound(pub Bound);

impl View for StartBound {
    type V = int;

    open spec fn view(&self) -> int {
        start_key(self.0)
    }
}

impl View for EndBound {
    type V = int;

    open spec fn view(&self) -> int {
        end_key(self.0)
    }
}

/// How key `a` compares with key `b`.
pub open spec fn compare_keys(a: int, b: int) -> core::cmp::Ordering {
    if a < b {
        core::cmp::Ordering::Less
    } else if a == b {
        core::cmp::Ordering::Equal
    } else {
        core::cmp::Ordering::Greater
    }
}

fn compare(a: i128, b: i128) -> (r: core::cmp::Ordering)
    ensures
        r == compare_keys(a as int, b as int),
{
    if a < b {
        core::cmp::Ordering::Less
    } else if a == b {
        core::cmp::Ordering::Equal
    } else {
        core::cmp::Ordering::Greater
    }
}

/// Starts order by value, a closed start before an open one at the same value;
/// an unbounded start comes first.
impl PartialOrd for StartBound {
    fn partial_cmp(&self, other: &StartBound) -> (r: Option<core::cmp::Ordering>)
        ensures
            r == Some(compare_keys(self@, other@)),
    {
        Some(compare(self.key(), other.key()))
    }
}

impl vstd::std_specs::cmp::PartialOrdSpecImpl for StartBound {
    open spec fn obeys_partial_cmp_spec() -> bool {
        true
    }

    open spec fn partial_cmp_spec(&self, other: &StartBound) -> Option<core::cmp::Ordering> {
        Some(compare_keys(self@, other@))
    }
}

/// Ends order by value, an open end before a closed one at the same value; an
/// unbounded end comes last.
impl PartialOrd for EndBound {
    fn partial_cmp(&self, other: &EndBound) -> (r: Option<core::cmp::Ordering>)
        ensures
            r == Some(compare_keys(self@, other@)),
    {
        Some(compare(self.key(), other.key()))
    }
}

impl vstd::std_specs::cmp::PartialOrdSpecImpl for EndBound {
    open spec fn obeys_partial_cmp_spec() -> bool {
        true
    }

    open spec fn partial_cmp_spec(&self, other: &EndBound) -> Option<core::cmp::Ordering> {
        Some(compare_keys(self@, other@))
    }
}

impl StartBound {
    pub(crate) fn key(&self) -> (r: i128)
        ensures
            r == self@,
    {
        match self.0 {
            Bound::Open(v) => 2 * (v as i128) + 1,
            Bound::Closed(v) => 2 * (v as i128),
            Bound::Unbounded() => 2 * (i64::MIN as i128) - 2,
        }
    }

    /// The end bound that touches this start: the same value, the other openness.
    pub fn touching_end(&self) -> (r: EndBound)
        requires
            !(self.0 is Unbounded),
        ensures
            r@ == self@ - 1,
            bound_value(r.0) == bound_value(self.0),
    {
        EndBound(self.0.switch())
    }

    pub fn value(&self) -> (r: Option<i64>)
        ensures
            r == bound_value(self.0),
    {
        self.0.value()
    }

    pub fn closed(&self) -> (r: StartBound)
        ensures
            r.0 == closed_bound(self.0),
    {
        StartBound(self.0.closed())
    }

    pub fn touches(&self, other: &EndBound) -> (r: bool)
        ensures
            r == (other@ + 1 == self@),
    {
        other.touches(self)
    }
}

impl EndBound {
    pub(crate) fn key(&self) -> (r: i128)
        ensures
            r == self@,
    {
        match self.0 {
            Bound::Open(v) => 2 * (v as i128) - 1,
            Bound::Closed(v) => 2 * (v as i128),
            Bound::Unbounded() => 2 * (i64::MAX as i128) + 2,
        }
    }

    /// The start bound that touches this end: the same value, the other openness.
    pub fn touching_start(&self) -> (r: StartBound)
        requires
            !(self.0 is Unbounded),
        ensures
            r@ == self@ + 1,
            bound_value(r.0) == bound_value(self.0),
    {
        StartBound(self.0.switch())
    }

    pub fn value(&self) -> (r: Option<i64>)
        ensures
            r == bound_value(self.0),
    {
        self.0.value()
    }

    pub fn closed(&self) -> (r: EndBound)
        ensures
            r.0 == closed_bound(self.0),
    {
        EndBound(self.0.closed())
    }

    /// Whether this end and `other` leave neither a gap nor an overlap.
    pub fn touches(&self, other: &StartBound) -> (r: bool)
        ensures
            r == (self@ + 1 == other@),
    {
        if self.0.is_unbounded() || other.0.is_unbounded() {
            false
        } else {
            self.key() == other.touching_end().key()
        }
    }
}


/// The keys of an interval: start key and end key.
pub type Span = (int, int);

pub open spec fn span_in(p: Span, k: int) -> bool {
    p.0 <= k <= p.1
}

pub open spec fn span_disjoint(a: Span, b: Span) -> bool {
    a.1 < b.0 || b.1 < a.0
}

/// Disjoint and not touching: a key lies strictly between the two.
pub open spec fn span_separate(a: Span, b: Span) -> bool {
    a.1 + 1 < b.0 || b.1 + 1 < a.0
}

pub open spec fn span_bounded(p: Span) -> bool {
    p.0 != unbounded_start_key() && p.1 != unbounded_end_key()
}

/// Length in values (end value minus start value) of a bounded span.
pub open spec fn span_length(p: Span) -> int {
    (p.1 + 1) / 2 - p.0 / 2
}

/// The keys of the interval with both ends made closed.
pub open spec fn span_closed(p: Span) -> Span {
    (2 * (p.0 / 2), 2 * ((p.1 + 1) / 2))
}

pub open spec fn span_intersection(a: Span, b: Span) -> Option<Span> {
    let lo = if a.0 < b.0 { b.0 } else { a.0 };
    let hi = if a.1 < b.1 { a.1 } else { b.1 };
    if lo <= hi { Some((lo, hi)) } else { None }
}

pub open spec fn span_hull(a: Span, b: Span) -> Span {
    (if a.0 < b.0 { a.0 } else { b.0 }, if a.1 < b.1 { b.1 } else { a.1 })
}

pub open spec fn span_union(a: Span, b: Span) -> Option<Span> {
    if span_separate(a, b) { None } else { Some(span_hull(a, b)) }
}

/// The parts of `a` outside `b`, left part first.
pub open spec fn span_difference(a: Span, b: Span) -> Seq<Span> {
    if span_disjoint(a, b) {
        seq![a]
    } else {
        let left: Seq<Span> = if a.0 < b.0 {
            seq![(a.0, if a.1 < b.0 - 1 { a.1 } else { b.0 - 1 })]
        } else {
            seq![]
        };
        let right: Seq<Span> = if a.1 > b.1 {
            seq![(if a.0 > b.1 + 1 { a.0 } else { b.1 + 1 }, a.1)]
        } else {
            seq![]
        };
        left + right
    }
}

pub open spec fn opt_span(o: Option<Interval>) -> Option<Span> {
    match o {
        Some(iv) => Some(iv@),
        None => None,
    }
}

pub open spec fn spans_of(s: Seq<Interval>) -> Seq<Span> {
    s.map_values(|iv: Interval| iv@)
}

/// An interval; `start@ <= end@` when well formed.
#[derive(Clone, Copy, Debug, PartialEq, Eq, Structural)]
pub struct Interval {
    start: StartBound,
    end: EndBound,
}

impl View for Interval {
    type V = Span;

    closed spec fn view(&self) -> Span {
        (self.start@, self.end@)
    }
}

impl Interval {
    pub open spec fn wf(&self) -> bool {
        &&& self@.0 <= self@.1
        &&& valid_start_key(self@.0)
        &&& valid_end_key(self@.1)
    }

    pub proof fn lemma_wf_keys(&self)
        ensures
            valid_start_key(self@.0),
            valid_end_key(self@.1),
    {
        lemma_start_key_inverse(self.start.0);
        lemma_end_key_inverse(self.end.0);
    }

    pub(crate) fn from_bounds(start: StartBound, end: EndBound) -> (r: Interval)
        requires
            start@ <= end@,
        ensures
            r@ == (start@, end@),
            r.wf(),
            r.start() == start.0,
            r.end() == end.0,
    {
        proof {
            lemma_start_key_inverse(start.0);
            lemma_end_key_inverse(end.0);
        }
        Interval { start, end }
    }

    /// The interval from `start` to `end`; it must not be empty (`start < end`).
    pub fn new(start: Bound, end: Bound) -> (r: Interval)
        requires
            start_key(start) < end_key(end),
        ensures
            r.wf(),
            r@ == (start_key(start), end_key(end)),
            r.start() == start,
            r.end() == end,
    {
        Self::from_bounds(StartBound(start), EndBound(end))
    }

    pub closed spec fn start_spec(&self) -> Bound {
        self.start.0
    }

    pub closed spec fn end_spec(&self) -> Bound {
        self.end.0
    }

    pub proof fn lemma_bounds(&self)
        ensures
            start_key(self.start_spec()) == self@.0,
            end_key(self.end_spec()) == self@.1,
    {
    }

    #[verifier::when_used_as_spec(start_spec)]
    pub fn start(&self) -> (r: Bound)
        ensures
            r == self.start_spec(),
            start_key(r) == self@.0,
    {
        self.start.0
    }

    #[verifier::when_used_as_spec(end_spec)]
    pub fn end(&self) -> (r: Bound)
        ensures
            r == self.end_spec(),
            end_key(r) == self@.1,
    {
        self.end.0
    }

    /// `[start, end]`
    pub fn new_closed(start: i64, end: i64) -> (r: Interval)
        requires
            start < end,
        ensures
            r.wf(),
            r@ == (2 * start, 2 * end),
            r.start() == Bound::Closed(start),
            r.end() == Bound::Closed(end),
    {
        Self::new(Bound::Closed(start), Bound::Closed(end))
    }

    /// `(start, end)`
    pub fn new_open(start: i64, end: i64) -> (r: Interval)
        requires
            start + 1 < end,
        ensures
            r.wf(),
            r@ == (2 * start + 1, 2 * end - 1),
            r.start() == Bound::Open(start),
            r.end() == Bound::Open(end),
    {
        Self::new(Bound::Open(start), Bound::Open(end))
    }

    /// `(start, end]`: left open, right closed.
    pub fn new_lorc(start: i64, end: i64) -> (r: Interval)
        requires
            start < end,
        ensures
            r.wf(),
            r@ == (2 * start + 1, 2 * end),
            r.start() == Bound::Open(start),
            r.end() == Bound::Closed(end),
    {
        Self::new(Bound::Open(start), Bound::Closed(end))
    }

    /// `[start, end)`: left closed, right open.
    pub fn new_lcro(start: i64, end: i64) -> (r: Interval)
        requires
            start < end,
        ensures
            r.wf(),
            r@ == (2 * start, 2 * end - 1),
            r.start() == Bound::Closed(start),
            r.end() == Bound::Open(end),
    {
        Self::new(Bound::Closed(start), Bound::Open(end))
    }

    /// The same interval with both ends made closed.
    pub fn closed(&self) -> (r: Interval)
        requires
            self.wf(),
        ensures
            r.wf(),
            r.start() == closed_bound(self.start()),
            r.end() == closed_bound(self.end()),
            r@ == span_closed(self@),
    {
        Interval { start: self.start.closed(), end: self.end.closed() }
    }

    pub fn contains(&self, value: &i64) -> (r: bool)
        ensures
            r == span_in(self@, point_key(*value)),
    {
        let k = 2 * (*value as i128);
        self.start.key() <= k && k <= self.end.key()
    }

    /// No key in common.
    pub fn is_disjoint(&self, other: &Interval) -> (r: bool)
        ensures
            r == span_disjoint(self@, other@),
    {
        self.end.key() < other.start.key() || other.end.key() < self.start.key()
    }

    /// Disjoint and not touching.
    pub fn is_separate(&self, other: &Interval) -> (r: bool)
        ensures
            r == span_separate(self@, other@),
    {
        (self.end.key() < other.start.key() && !self.end.touches(&other.start)) || (
        other.end.key() < self.start.key() && !other.end.touches(&self.start))
    }

    pub fn intersection(&self, other: &Interval) -> (r: Option<Interval>)
        requires
            self.wf(),
            other.wf(),
        ensures
            opt_span(r) == span_intersection(self@, other@),
            r matches Some(iv) ==> iv.wf(),
    {
        let start = if self.start.key() < other.start.key() {
            other.start
        } else {
            self.start
        };
        let end = if self.end.key() < other.end.key() {
            self.end
        } else {
            other.end
        };
        if start.key() <= end.key() {
            Some(Self::from_bounds(start, end))
        } else {
            None
        }
    }

    /// The single interval covering both, unless they are separate.
    pub fn union(&self, other: &Interval) -> (r: Option<Interval>)
        requires
            self.wf(),
            other.wf(),
        ensures
            opt_span(r) == span_union(self@, other@),
            r matches Some(iv) ==> iv.wf(),
    {
        if self.is_separate(other) {
            None
        } else {
            let start = if self.start.key() < other.start.key() {
                self.start
            } else {
                other.start
            };
            let end = if self.end.key() < other.end.key() {
                other.end
            } else {
                self.end
            };
            Some(Self::from_bounds(start, end))
        }
    }

    /// The parts of `self` not covered by `other`: none, one or two intervals.
    pub fn difference(&self, other: &Interval) -> (r: Vec<Interval>)
        requires
            self.wf(),
            other.wf(),
        ensures
            spans_of(r@) == span_difference(self@, other@),
            forall|i: int| 0 <= i < r@.len() ==> (#[trigger] r@[i]).wf(),
    {
        if self.is_disjoint(other) {
            let r = vec![*self];
            assert(spans_of(r@) =~= span_difference(self@, other@));
            return r;
        }
        let mut result: Vec<Interval> = Vec::new();
        if self.start.key() < other.start.key() {
            let te = other.start.touching_end();
            let end = if self.end.key() < te.key() {
                self.end
            } else {
                te
            };
            result.push(Self::from_bounds(self.start, end));
        }
        if self.end.key() > other.end.key() {
            let ts = other.end.touching_start();
            let start = if self.start.key() > ts.key() {
                self.start
            } else {
                ts
            };
            result.push(Self::from_bounds(start, self.end));
        }
        assert(spans_of(result@) =~= span_difference(self@, other@));
        result
    }

    /// `end - start` in values; `None` when either end is unbounded.
    pub fn length(&self) -> (r: Option<u64>)
        requires
            self.wf(),
        ensures
            r is None <==> !span_bounded(self@),
            r matches Some(l) ==> l as int == span_length(self@),
    {
        match (self.start.0.value(), self.end.0.value()) {
            (Some(s), Some(e)) => {
                assert(span_length(self@) == e - s) by {
                    let a = self.start.0;
                    let b = self.end.0;
                    assert(a matches Bound::Closed(_) || a matches Bound::Open(_));
                }
                Some((e as i128 - s as i128) as u64)
            }
            _ => None,
        }
    }
}


/// Well formed: every span non-empty, spans in ascending order and pairwise separate.
pub open spec fn spans_wf(s: Seq<Span>) -> bool {
    &&& forall|i: int|
        0 <= i < s.len() ==> #[trigger] s[i].0 <= s[i].1 && valid_start_key(s[i].0)
            && valid_end_key(s[i].1)
    &&& forall|i: int, j: int| 0 <= i < j < s.len() ==> #[trigger] s[i].1 + 1 < #[trigger] s[j].0
}

/// Some span among `s[lo..hi]` holds key `k`.
pub open spec fn covers_range(s: Seq<Span>, lo: int, hi: int, k: int) -> bool {
    exists|j: int| lo <= j < hi && 0 <= j < s.len() && span_in(#[trigger] s[j], k)
}

/// Some span of `s` holds key `k`.
pub open spec fn covers(s: Seq<Span>, k: int) -> bool {
    covers_range(s, 0, s.len() as int, k)
}

/// Every span of `a` is disjoint from every span of `b`.
pub open spec fn all_disjoint(a: Seq<Span>, b: Seq<Span>) -> bool {
    forall|i: int, j: int|
        0 <= i < a.len() && 0 <= j < b.len() ==> span_disjoint(#[trigger] a[i], #[trigger] b[j])
}

/// Every span of `a` is separate from every span of `b`.
pub open spec fn all_separate(a: Seq<Span>, b: Seq<Span>) -> bool {
    forall|i: int, j: int|
        0 <= i < a.len() && 0 <= j < b.len() ==> span_separate(#[trigger] a[i], #[trigger] b[j])
}

/// Sum of the lengths of the spans.
pub open spec fn total_length(s: Seq<Span>) -> int
    decreases s.len(),
{
    if s.len() == 0 {
        0
    } else {
        total_length(s.drop_last()) + span_length(s.last())
    }
}

pub proof fn lemma_covers_push(s: Seq<Span>, x: Span, k: int)
    ensures
        covers(s.push(x), k) <==> covers(s, k) || span_in(x, k),
{
    let t = s.push(x);
    if covers(s, k) {
        let j = choose|j: int| 0 <= j < s.len() && span_in(s[j], k);
        assert(t[j] == s[j]);
    }
    if span_in(x, k) {
        assert(t[s.len() as int] == x);
    }
    if covers(t, k) {
        let j = choose|j: int| 0 <= j < t.len() && span_in(t[j], k);
        if j < s.len() {
            assert(t[j] == s[j]);
        }
    }
}

pub proof fn lemma_hull_keys(a: Span, b: Span)
    requires
        !span_separate(a, b),
        a.0 <= a.1,
        b.0 <= b.1,
    ensures
        forall|k: int| span_in(span_hull(a, b), k) <==> span_in(a, k) || span_in(b, k),
{
}

proof fn lemma_wf_ordered(s: Seq<Span>, i: int, j: int)
    requires
        spans_wf(s),
        0 <= i <= j < s.len(),
    ensures
        s[i].0 <= s[j].0,
        s[i].1 <= s[j].1,
{
    if i < j {
        assert(s[i].1 + 1 < s[j].0);
        assert(s[i].0 <= s[i].1);
        assert(s[j].0 <= s[j].1);
    }
}

/// A sorted collection of pairwise separate intervals.
#[derive(Clone, Debug)]
pub struct Intervals {
    intervals: Vec<Interval>,
}

impl View for Intervals {
    type V = Seq<Span>;

    closed spec fn view(&self) -> Seq<Span> {
        spans_of(self.intervals@)
    }
}

impl Intervals {
    pub open spec fn wf(&self) -> bool {
        spans_wf(self@)
    }

    pub fn new() -> (r: Intervals)
        ensures
            r.wf(),
            r@ == Seq::<Span>::empty(),
    {
        let r = Intervals { intervals: Vec::new() };
        assert(r@ =~= Seq::<Span>::empty());
        r
    }

    /// Number of intervals.
    pub fn len(&self) -> (r: usize)
        ensures
            r == self@.len(),
    {
        self.intervals.len()
    }

    pub fn is_empty(&self) -> (r: bool)
        ensures
            r == (self@.len() == 0),
    {
        self.intervals.len() == 0
    }

    /// The interval at position `i`, in ascending order.
    pub fn get(&self, i: usize) -> (r: &Interval)
        requires
            i < self@.len(),
        ensures
            r@ == self@[i as int],
    {
        &self.intervals[i]
    }

    pub(crate) fn copy(&self) -> (r: Intervals)
        ensures
            r@ == self@,
    {
        let mut v: Vec<Interval> = Vec::new();
        let mut i: usize = 0;
        while i < self.intervals.len()
            invariant
                i <= self.intervals.len(),
                v@ =~= self.intervals@.subrange(0, i as int),
            decreases self.intervals.len() - i,
        {
            v.push(self.intervals[i]);
            i += 1;
        }
        assert(v@ =~= self.intervals@);
        Intervals { intervals: v }
    }

    /// Binary search: `Ok(i)` for the interval holding `value`, else `Err` with the
    /// position where an interval holding it would go.
    pub fn find_index(&self, value: &i64) -> (r: Result<usize, usize>)
        requires
            self.wf(),
        ensures
            forall|i: int|
                0 <= i < self@.len() ==> (r == Ok::<usize, usize>(i as usize) <==> span_in(
                    #[trigger] self@[i],
                    point_key(*value),
                )),
            match r {
                Ok(i) => i < self@.len() && span_in(self@[i as int], point_key(*value)),
                Err(i) => {
                    &&& i <= self@.len()
                    &&& !covers(self@, point_key(*value))
                    &&& forall|j: int| 0 <= j < i ==> #[trigger] self@[j].1 < point_key(*value)
                    &&& forall|j: int|
                        i <= j < self@.len() ==> #[trigger] self@[j].0 > point_key(*value)
                },
            },
    {
        let k = 2 * (*value as i128);
        let mut lo: usize = 0;
        let mut hi: usize = self.intervals.len();
        while lo < hi
            invariant
                lo <= hi <= self@.len(),
                self@.len() == self.intervals.len(),
                k == point_key(*value),
                spans_wf(self@),
                forall|j: int| 0 <= j < lo ==> #[trigger] self@[j].1 < k,
                forall|j: int| hi <= j < self@.len() ==> #[trigger] self@[j].0 > k,
            decreases hi - lo,
        {
            let mid = lo + (hi - lo) / 2;
            let iv = &self.intervals[mid];
            assert(iv@ == self@[mid as int]);
            if iv.start.key() > k {
                assert forall|j: int| mid <= j < self@.len() implies #[trigger] self@[j].0 > k by {
                    lemma_wf_ordered(self@, mid as int, j);
                }
                hi = mid;
            } else if iv.end.key() < k {
                assert forall|j: int| 0 <= j < mid + 1 implies #[trigger] self@[j].1 < k by {
                    lemma_wf_ordered(self@, j, mid as int);
                }
                lo = mid + 1;
            } else {
                assert forall|i: int| 0 <= i < self@.len() && span_in(#[trigger] self@[i], k as int)
                    implies i == mid by {
                    if i < mid {
                        assert(self@[i].1 + 1 < self@[mid as int].0);
                    } else if i > mid {
                        assert(self@[mid as int].1 + 1 < self@[i].0);
                    }
                }
                return Ok(mid);
            }
        }
        proof {
            if covers(self@, k as int) {
                let j = choose|j: int| 0 <= j < self@.len() && span_in(self@[j], k as int);
                if j < lo {
                } else {
                }
            }
        }
        Err(lo)
    }

    /// Whether some interval holds `value`.
    pub fn contains(&self, value: &i64) -> (r: bool)
        requires
            self.wf(),
        ensures
            r == covers(self@, point_key(*value)),
    {
        match self.find_index(value) {
            Ok(i) => {
                assert(span_in(self@[i as int], point_key(*value)));
                true
            },
            Err(_) => false,
        }
    }

    /// The interval holding `value`, if any.
    pub fn find(&self, value: &i64) -> (r: Option<&Interval>)
        requires
            self.wf(),
        ensures
            r is Some <==> covers(self@, point_key(*value)),
            r matches Some(iv) ==> span_in(iv@, point_key(*value)) && exists|i: int|
                0 <= i < self@.len() && self@[i] == iv@,
    {
        match self.find_index(value) {
            Ok(i) => {
                assert(span_in(self@[i as int], point_key(*value)));
                Some(&self.intervals[i])
            },
            Err(_) => None,
        }
    }

    /// Binary search on the intervals with both ends closed: `Ok(i)` for an interval
    /// that holds or touches `value`, else `Err` with the position where it would go.
    pub fn find_index_touching(&self, value: &i64) -> (r: Result<usize, usize>)
        requires
            self.wf(),
        ensures
            match r {
                Ok(i) => i < self@.len() && span_in(span_closed(self@[i as int]), point_key(*value)),
                Err(i) => {
                    &&& i <= self@.len()
                    &&& forall|j: int|
                        0 <= j < self@.len() ==> !span_in(
                            span_closed(#[trigger] self@[j]),
                            point_key(*value),
                        )
                    &&& forall|j: int| 0 <= j < i ==> span_closed(#[trigger] self@[j]).1 < point_key(*value)
                    &&& forall|j: int|
                        i <= j < self@.len() ==> span_closed(#[trigger] self@[j]).0 > point_key(*value)
                },
            },
    {
        let k = 2 * (*value as i128);
        let mut lo: usize = 0;
        let mut hi: usize = self.intervals.len();
        while lo < hi
            invariant
                lo <= hi <= self@.len(),
                self@.len() == self.intervals.len(),
                k == point_key(*value),
                spans_wf(self@),
                forall|j: int| 0 <= j < lo ==> span_closed(#[trigger] self@[j]).1 < k,
                forall|j: int| hi <= j < self@.len() ==> span_closed(#[trigger] self@[j]).0 > k,
            decreases hi - lo,
        {
            let mid = lo + (hi - lo) / 2;
            assert(self.intervals[mid as int]@ == self@[mid as int]);
            let iv = self.intervals[mid].closed();
            if iv.start.key() > k {
                assert forall|j: int| mid <= j < self@.len() implies span_closed(
                    #[trigger] self@[j],
                ).0 > k by {
                    lemma_wf_ordered(self@, mid as int, j);
                }
                hi = mid;
            } else if iv.end.key() < k {
                assert forall|j: int| 0 <= j < mid + 1 implies span_closed(
                    #[trigger] self@[j],
                ).1 < k by {
                    lemma_wf_ordered(self@, j, mid as int);
                }
                lo = mid + 1;
            } else {
                return Ok(mid);
            }
        }
        Err(lo)
    }

    /// Whether some interval holds or touches `value`.
    pub fn touches(&self, value: &i64) -> (r: bool)
        requires
            self.wf(),
        ensures
            r == exists|i: int|
                0 <= i < self@.len() && span_in(span_closed(#[trigger] self@[i]), point_key(*value)),
    {
        match self.find_index_touching(value) {
            Ok(i) => {
                assert(span_in(span_closed(self@[i as int]), point_key(*value)));
                true
            },
            Err(_) => false,
        }
    }

    /// An interval that holds or touches `value`, if any.
    pub fn find_touching(&self, value: &i64) -> (r: Option<&Interval>)
        requires
            self.wf(),
        ensures
            r is Some <==> exists|i: int|
                0 <= i < self@.len() && span_in(span_closed(#[trigger] self@[i]), point_key(*value)),
            r matches Some(iv) ==> span_in(span_closed(iv@), point_key(*value)) && exists|i: int|
                0 <= i < self@.len() && self@[i] == iv@,
    {
        match self.find_index_touching(value) {
            Ok(i) => {
                assert(span_in(span_closed(self@[i as int]), point_key(*value)));
                Some(&self.intervals[i])
            },
            Err(_) => None,
        }
    }

    /// The tightest interval covering all members; `None` when empty.
    pub fn hull(&self) -> (r: Option<Interval>)
        requires
            self.wf(),
        ensures
            r is None <==> self@.len() == 0,
            r matches Some(iv) ==> iv.wf() && iv@ == (self@[0].0, self@.last().1),
    {
        let n = self.intervals.len();
        if n == 0 {
            None
        } else {
            let first = &self.intervals[0];
            let last = &self.intervals[n - 1];
            assert(first@ == self@[0] && last@ == self@.last());
            proof {
                lemma_wf_ordered(self@, 0, n - 1);
            }
            Some(Interval::from_bounds(first.start, last.end))
        }
    }

    /// Adds `new_iv`, merging it with every member that overlaps or touches it.
    pub fn insert(&mut self, new_iv: Interval)
        requires
            old(self).wf(),
            new_iv.wf(),
        ensures
            final(self).wf(),
            forall|k: int|
                #[trigger] covers(final(self)@, k) <==> covers(old(self)@, k) || span_in(new_iv@, k),
    {
        let ghost s = self@;
        let n = self.intervals.len();
        let mut res: Vec<Interval> = Vec::new();
        let mut i: usize = 0;
        while i < n && self.intervals[i].end.key() + 1 < new_iv.start.key()
            invariant
                i <= n,
                n == self.intervals.len(),
                s == self@,
                spans_wf(s),
                new_iv.wf(),
                spans_of(res@) =~= s.subrange(0, i as int),
                forall|j: int| 0 <= j < i ==> #[trigger] s[j].1 + 1 < new_iv@.0,
            decreases n - i,
        {
            assert(self.intervals[i as int]@ == s[i as int]);
            let ghost before = spans_of(res@);
            res.push(self.intervals[i]);
            assert(spans_of(res@) =~= before.push(s[i as int]));
            assert(s.subrange(0, i + 1) =~= s.subrange(0, i as int).push(s[i as int]));
            i += 1;
        }
        let p = i;
        let mut cur = new_iv;
        while i < n && !(cur.end.key() + 1 < self.intervals[i].start.key())
            invariant
                p <= i <= n,
                n == self.intervals.len(),
                s == self@,
                spans_wf(s),
                new_iv.wf(),
                cur.wf(),
                p < n ==> s[p as int].1 + 1 >= new_iv@.0,
                cur@.0 <= new_iv@.0,
                cur@.0 == new_iv@.0 || (p < i && cur@.0 == s[p as int].0),
                p < i ==> cur@.0 <= s[p as int].0,
                cur@.1 >= new_iv@.1,
                forall|k: int|
                    span_in(cur@, k) <==> span_in(new_iv@, k) || covers_range(s, p as int, i as int, k),
            decreases n - i,
        {
            let x = self.intervals[i];
            assert(x@ == s[i as int]);
            proof {
                lemma_wf_ordered(s, p as int, i as int);
                lemma_hull_keys(cur@, x@);
                assert forall|k: int|
                    span_in(span_hull(cur@, x@), k) <==> span_in(new_iv@, k) || covers_range(
                        s,
                        p as int,
                        i + 1,
                        k,
                    ) by {
                    if span_in(x@, k) {
                        assert(span_in(s[i as int], k));
                    }
                    if covers_range(s, p as int, i + 1, k) && !covers_range(s, p as int, i as int, k) {
                        let j = choose|j: int| p <= j < i + 1 && 0 <= j < s.len() && span_in(s[j], k);
                        assert(j == i);
                    }
                }
            }
            let start = if cur.start.key() < x.start.key() {
                cur.start
            } else {
                x.start
            };
            let end = if cur.end.key() < x.end.key() {
                x.end
            } else {
                cur.end
            };
            cur = Interval::from_bounds(start, end);
            i += 1;
        }
        let q = i;
        proof {
            assert forall|j: int| 0 <= j < p implies #[trigger] s[j].1 + 1 < cur@.0 by {
                if p < q {
                    assert(s[j].1 + 1 < s[p as int].0);
                }
            }
        }
        res.push(cur);
        assert(spans_of(res@) =~= s.subrange(0, p as int).push(cur@));
        while i < n
            invariant
                p <= q <= i <= n,
                n == self.intervals.len(),
                n == s.len(),
                s == self@,
                spans_of(res@) =~= s.subrange(0, p as int).push(cur@) + s.subrange(q as int, i as int),
            decreases n - i,
        {
            assert(self.intervals[i as int]@ == s[i as int]);
            let ghost before = spans_of(res@);
            res.push(self.intervals[i]);
            assert(spans_of(res@) =~= before.push(s[i as int]));
            assert(s.subrange(q as int, i + 1) =~= s.subrange(q as int, i as int).push(s[i as int]));
            i += 1;
        }
        proof {
            let t = spans_of(res@);
            let pre = s.subrange(0, p as int);
            let suf = s.subrange(q as int, n as int);
            assert(t =~= pre.push(cur@) + suf);
            assert forall|a: int, b: int| 0 <= a < b < t.len() implies #[trigger] t[a].1 + 1
                < #[trigger] t[b].0 by {
                if b < p {
                } else if b == p {
                } else if a < p {
                    let jb = q + (b - p - 1);
                    assert(t[b] == s[jb]);
                } else if a == p {
                    let jb = q + (b - p - 1);
                    assert(t[b] == s[jb]);
                    lemma_wf_ordered(s, q as int, jb);
                } else {
                    let ja = q + (a - p - 1);
                    let jb = q + (b - p - 1);
                    assert(t[a] == s[ja]);
                    assert(t[b] == s[jb]);
                }
            }
            assert forall|a: int| 0 <= a < t.len() implies #[trigger] t[a].0 <= t[a].1
                && valid_start_key(t[a].0) && valid_end_key(t[a].1) by {
                if a < p {
                } else if a == p {
                } else {
                    assert(t[a] == s[q + (a - p - 1)]);
                }
            }
            assert forall|k: int| covers(t, k) <==> covers(s, k) || span_in(new_iv@, k) by {
                if covers(t, k) {
                    let a = choose|a: int| 0 <= a < t.len() && span_in(t[a], k);
                    if a < p {
                        assert(span_in(s[a], k));
                    } else if a == p {
                        if !span_in(new_iv@, k) {
                            let j = choose|j: int| p <= j < q && 0 <= j < s.len() && span_in(s[j], k);
                            assert(span_in(s[j], k));
                        }
                    } else {
                        assert(t[a] == s[q + (a - p - 1)]);
                        assert(span_in(s[q + (a - p - 1)], k));
                    }
                }
                if covers(s, k) {
                    let j = choose|j: int| 0 <= j < s.len() && span_in(s[j], k);
                    if j < p {
                        assert(t[j] == s[j]);
                    } else if j < q {
                        assert(covers_range(s, p as int, q as int, k));
                        assert(t[p as int] == cur@);
                    } else {
                        assert(t[p + 1 + (j - q)] == s[j]);
                    }
                }
                if span_in(new_iv@, k) {
                    assert(t[p as int] == cur@);
                }
            }
        }
        self.intervals = res;
    }

    /// Removes the keys of `interval` from every member.
    pub fn remove(&mut self, interval: Interval)
        requires
            old(self).wf(),
            interval.wf(),
        ensures
            final(self).wf(),
            forall|k: int|
                #[trigger] covers(final(self)@, k) <==> covers(old(self)@, k) && !span_in(
                    interval@,
                    k,
                ),
    {
        let ghost s = self@;
        let n = self.intervals.len();
        let mut res: Vec<Interval> = Vec::new();
        let mut i: usize = 0;
        while i < n
            invariant
                i <= n,
                n == self.intervals.len(),
                s == self@,
                spans_wf(s),
                interval.wf(),
                spans_wf(spans_of(res@)),
                n == s.len(),
                i == 0 ==> res@.len() == 0,
                i > 0 ==> forall|m: int|
                    0 <= m < res@.len() ==> #[trigger] spans_of(res@)[m].1 <= s[i - 1].1,
                forall|k: int|
                    #[trigger] covers(spans_of(res@), k) <==> covers_range(s, 0, i as int, k) && !span_in(
                        interval@,
                        k,
                    ),
            decreases n - i,
        {
            let x = self.intervals[i];
            assert(x@ == s[i as int]);
            let d = x.difference(&interval);
            let ghost r0 = spans_of(res@);
            let ghost dd = spans_of(d@);
            proof {
                if i > 0 {
                    assert(s[i - 1].1 + 1 < s[i as int].0);
                }
                assert(dd.len() == d@.len());
                assert(forall|m: int| 0 <= m < r0.len() ==> #[trigger] r0[m].1 + 1 < s[i as int].0);
            }
            if d.len() > 0 {
                res.push(d[0]);
            }
            if d.len() > 1 {
                res.push(d[1]);
            }
            proof {
                let rs = spans_of(res@);
                assert(rs =~= r0 + dd);
                assert forall|a: int, b: int| 0 <= a < b < rs.len() implies #[trigger] rs[a].1 + 1
                    < #[trigger] rs[b].0 by {
                    if b < r0.len() {
                        assert(rs[a] == r0[a] && rs[b] == r0[b]);
                    } else if a < r0.len() {
                        assert(rs[a] == r0[a] && rs[b] == dd[b - r0.len()]);
                    } else {
                        assert(rs[a] == dd[0] && rs[b] == dd[1]);
                    }
                }
                assert forall|a: int| 0 <= a < rs.len() implies #[trigger] rs[a].0 <= rs[a].1
                    && valid_start_key(rs[a].0) && valid_end_key(rs[a].1) by {
                    if a < r0.len() {
                        assert(rs[a] == r0[a]);
                    } else {
                        assert(rs[a] == dd[a - r0.len()]);
                        assert(d@[a - r0.len()].wf());
                    }
                }
            }
            proof {
                let rs = spans_of(res@);
                assert(rs =~= r0 + spans_of(d@));
                assert forall|m: int| 0 <= m < rs.len() implies #[trigger] rs[m].1 <= s[i as int].1 by {
                    if m < r0.len() {
                        assert(rs[m] == r0[m]);
                    } else {
                        assert(rs[m] == spans_of(d@)[m - r0.len()]);
                    }
                }
                assert forall|k: int|
                    covers(rs, k) <==> covers_range(s, 0, i + 1, k) && !span_in(interval@, k) by {
                    if covers(rs, k) {
                        let m = choose|m: int| 0 <= m < rs.len() && span_in(rs[m], k);
                        if m < r0.len() {
                            assert(rs[m] == r0[m]);
                            assert(covers(r0, k));
                            let j = choose|j: int| 0 <= j < i && 0 <= j < s.len() && span_in(s[j], k);
                            assert(covers_range(s, 0, i + 1, k));
                        } else {
                            let dd = spans_of(d@);
                            assert(rs[m] == dd[m - r0.len()]);
                            assert(span_in(dd[m - r0.len()], k));
                            assert(span_in(s[i as int], k));
                            assert(covers_range(s, 0, i + 1, k));
                        }
                    }
                    if covers_range(s, 0, i + 1, k) && !span_in(interval@, k) {
                        if covers_range(s, 0, i as int, k) {
                            assert(covers(r0, k));
                            let m = choose|m: int| 0 <= m < r0.len() && span_in(r0[m], k);
                            assert(rs[m] == r0[m]);
                        } else {
                            let j = choose|j: int| 0 <= j < i + 1 && 0 <= j < s.len() && span_in(s[j], k);
                            assert(j == i);
                            let dd = spans_of(d@);
                            if span_disjoint(x@, interval@) {
                                assert(rs[r0.len() as int] == dd[0]);
                            } else if k < interval@.0 {
                                assert(rs[r0.len() as int] == dd[0]);
                            } else {
                                assert(rs[rs.len() - 1] == dd[dd.len() - 1]);
                            }
                        }
                    }
                }
            }
            i += 1;
        }
        self.intervals = res;
    }

    /// Whether no interval of `self` shares a key with an interval of `other`.
    pub fn is_disjoint(&self, other: &Intervals) -> (r: bool)
        ensures
            r == all_disjoint(self@, other@),
    {
        let mut i: usize = 0;
        while i < self.intervals.len()
            invariant
                i <= self@.len(),
                self@.len() == self.intervals.len(),
                other@.len() == other.intervals.len(),
                forall|a: int, b: int|
                    0 <= a < i && 0 <= b < other@.len() ==> span_disjoint(
                        #[trigger] self@[a],
                        #[trigger] other@[b],
                    ),
            decreases self.intervals.len() - i,
        {
            let mut j: usize = 0;
            while j < other.intervals.len()
                invariant
                    i < self@.len(),
                    j <= other@.len(),
                    self@.len() == self.intervals.len(),
                    other@.len() == other.intervals.len(),
                    forall|a: int, b: int|
                        0 <= a < i && 0 <= b < other@.len() ==> span_disjoint(
                            #[trigger] self@[a],
                            #[trigger] other@[b],
                        ),
                    forall|b: int| 0 <= b < j ==> span_disjoint(self@[i as int], #[trigger] other@[b]),
                decreases other.intervals.len() - j,
            {
                assert(self.intervals[i as int]@ == self@[i as int]);
                assert(other.intervals[j as int]@ == other@[j as int]);
                if !self.intervals[i].is_disjoint(&other.intervals[j]) {
                    return false;
                }
                j += 1;
            }
            i += 1;
        }
        true
    }

    /// Whether every interval of `self` is separate from every interval of `other`.
    pub fn is_separate(&self, other: &Intervals) -> (r: bool)
        ensures
            r == all_separate(self@, other@),
    {
        let mut i: usize = 0;
        while i < self.intervals.len()
            invariant
                i <= self@.len(),
                self@.len() == self.intervals.len(),
                other@.len() == other.intervals.len(),
                forall|a: int, b: int|
                    0 <= a < i && 0 <= b < other@.len() ==> span_separate(
                        #[trigger] self@[a],
                        #[trigger] other@[b],
                    ),
            decreases self.intervals.len() - i,
        {
            let mut j: usize = 0;
            while j < other.intervals.len()
                invariant
                    i < self@.len(),
                    j <= other@.len(),
                    self@.len() == self.intervals.len(),
                    other@.len() == other.intervals.len(),
                    forall|a: int, b: int|
                        0 <= a < i && 0 <= b < other@.len() ==> span_separate(
                            #[trigger] self@[a],
                            #[trigger] other@[b],
                        ),
                    forall|b: int| 0 <= b < j ==> span_separate(self@[i as int], #[trigger] other@[b]),
                decreases other.intervals.len() - j,
            {
                assert(self.intervals[i as int]@ == self@[i as int]);
                assert(other.intervals[j as int]@ == other@[j as int]);
                if !self.intervals[i].is_separate(&other.intervals[j]) {
                    return false;
                }
                j += 1;
            }
            i += 1;
        }
        true
    }

    /// The keys of either collection.
    pub fn union(&self, other: &Intervals) -> (r: Intervals)
        requires
            self.wf(),
            other.wf(),
        ensures
            r.wf(),
            forall|k: int| #[trigger] covers(r@, k) <==> covers(self@, k) || covers(other@, k),
    {
        let mut result = self.copy();
        let mut j: usize = 0;
        while j < other.intervals.len()
            invariant
                j <= other@.len(),
                other@.len() == other.intervals.len(),
                spans_wf(other@),
                result.wf(),
                forall|k: int|
                    #[trigger] covers(result@, k) <==> covers(self@, k) || covers_range(
                        other@,
                        0,
                        j as int,
                        k,
                    ),
            decreases other.intervals.len() - j,
        {
            let b = other.intervals[j];
            assert(b@ == other@[j as int]);
            let ghost before = result@;
            result.insert(b);
            assert forall|k: int|
                #[trigger] covers(result@, k) <==> covers(self@, k) || covers_range(
                    other@,
                    0,
                    j + 1,
                    k,
                ) by {
                assert(covers(before, k) <==> covers(self@, k) || covers_range(other@, 0, j as int, k));
                if covers_range(other@, 0, j + 1, k) && !covers_range(other@, 0, j as int, k) {
                    let m = choose|m: int| 0 <= m < j + 1 && 0 <= m < other@.len() && span_in(other@[m], k);
                    assert(m == j);
                }
            }
            j += 1;
        }
        result
    }

    /// The keys of `self` that `other` does not hold.
    pub fn difference(&self, other: &Intervals) -> (r: Intervals)
        requires
            self.wf(),
            other.wf(),
        ensures
            r.wf(),
            forall|k: int| #[trigger] covers(r@, k) <==> covers(self@, k) && !covers(other@, k),
    {
        let mut result = self.copy();
        let mut j: usize = 0;
        while j < other.intervals.len()
            invariant
                j <= other@.len(),
                other@.len() == other.intervals.len(),
                spans_wf(other@),
                result.wf(),
                forall|k: int|
                    #[trigger] covers(result@, k) <==> covers(self@, k) && !covers_range(
                        other@,
                        0,
                        j as int,
                        k,
                    ),
            decreases other.intervals.len() - j,
        {
            let b = other.intervals[j];
            assert(b@ == other@[j as int]);
            let ghost before = result@;
            result.remove(b);
            assert forall|k: int|
                #[trigger] covers(result@, k) <==> covers(self@, k) && !covers_range(
                    other@,
                    0,
                    j + 1,
                    k,
                ) by {
                assert(covers(before, k) <==> covers(self@, k) && !covers_range(other@, 0, j as int, k));
                if covers_range(other@, 0, j + 1, k) && !covers_range(other@, 0, j as int, k) {
                    let m = choose|m: int| 0 <= m < j + 1 && 0 <= m < other@.len() && span_in(other@[m], k);
                    assert(m == j);
                }
            }
            j += 1;
        }
        result
    }

    /// The keys that both collections hold.
    pub fn intersection(&self, other: &Intervals) -> (r: Intervals)
        requires
            self.wf(),
            other.wf(),
        ensures
            r.wf(),
            forall|k: int| #[trigger] covers(r@, k) <==> covers(self@, k) && covers(other@, k),
    {
        let outside = self.difference(other);
        let r = self.difference(&outside);
        assert forall|k: int| #[trigger] covers(r@, k) <==> covers(self@, k) && covers(other@, k) by {
            assert(covers(outside@, k) <==> covers(self@, k) && !covers(other@, k));
        }
        r
    }

    /// Splits into the parts strictly before and strictly after `interval`.
    pub fn split_remove(&self, interval: Interval) -> (r: (Intervals, Intervals))
        requires
            self.wf(),
            interval.wf(),
        ensures
            r.0.wf(),
            r.1.wf(),
            forall|k: int| #[trigger] covers(r.0@, k) <==> covers(self@, k) && k < interval@.0,
            forall|k: int| #[trigger] covers(r.1@, k) <==> covers(self@, k) && k > interval@.1,
    {
        proof {
            interval.lemma_wf_keys();
        }
        let mut lhs = self.copy();
        let after = Interval::from_bounds(interval.start, EndBound(Bound::Unbounded()));
        lhs.remove(after);
        let mut rhs = self.copy();
        let before = Interval::from_bounds(StartBound(Bound::Unbounded()), interval.end);
        rhs.remove(before);
        assert forall|k: int| covers(self@, k) implies unbounded_start_key() <= k
            <= unbounded_end_key() by {
            let j = choose|j: int| 0 <= j < self@.len() && span_in(self@[j], k);
            assert(valid_start_key(self@[j].0) && valid_end_key(self@[j].1));
        }
        assert forall|k: int| #[trigger] covers(lhs@, k) <==> covers(self@, k) && k < interval@.0 by {
            assert(covers(lhs@, k) <==> covers(self@, k) && !span_in(after@, k));
        }
        assert forall|k: int| #[trigger] covers(rhs@, k) <==> covers(self@, k) && k > interval@.1 by {
            assert(covers(rhs@, k) <==> covers(self@, k) && !span_in(before@, k));
        }
        (lhs, rhs)
    }

    /// Sum of the lengths of the members; `None` when one is unbounded.
    pub fn length(&self) -> (r: Option<u64>)
        requires
            self.wf(),
        ensures
            r is None <==> exists|i: int| 0 <= i < self@.len() && !span_bounded(#[trigger] self@[i]),
            r matches Some(l) ==> l as int == total_length(self@),
    {
        let ghost s = self@;
        let n = self.intervals.len();
        let mut acc: u64 = 0;
        let mut i: usize = 0;
        while i < n
            invariant
                i <= n,
                n == s.len(),
                s == self@,
                n == self.intervals.len(),
                spans_wf(s),
                acc as int == total_length(s.subrange(0, i as int)),
                forall|j: int| 0 <= j < i ==> span_bounded(#[trigger] s[j]),
                i > 0 ==> acc as int <= (s[i - 1].1 + 1) / 2 - s[0].0 / 2,
            decreases n - i,
        {
            let x = &self.intervals[i];
            assert(x@ == s[i as int]);
            match x.length() {
                None => {
                    return None;
                },
                Some(l) => {
                    proof {
                        assert(s.subrange(0, i + 1).drop_last() =~= s.subrange(0, i as int));
                        assert(s.subrange(0, i + 1).last() == s[i as int]);
                        if i > 0 {
                            assert(s[i - 1].1 + 1 < s[i as int].0);
                            assert((s[i - 1].1 + 1) / 2 <= s[i as int].0 / 2);
                            lemma_wf_ordered(s, 0, i as int);
                        }
                        assert(s[0].0 >= 2 * (i64::MIN as int));
                        assert(s[i as int].1 <= 2 * (i64::MAX as int));
                    }
                    acc = acc + l;
                },
            }
            i += 1;
        }
        assert(s.subrange(0, n as int) =~= s);
        Some(acc)
    }
}

/// Length of an optional span, zero when absent.
pub open spec fn opt_length(o: Option<Span>) -> int {
    match o {
        Some(p) => span_length(p),
        None => 0,
    }
}

/// For bounded intervals `a` and `b`: the length of `a ∩ b` plus the lengths of
/// `a \ b` and `b \ a`, plus the length of `a ∩ b` once more, is the length of `a`
/// plus the length of `b`.
pub proof fn lemma_length_partition(a: Interval, b: Interval)
    requires
        a.wf(),
        b.wf(),
        span_bounded(a@),
        span_bounded(b@),
    ensures
        opt_length(span_intersection(a@, b@)) + total_length(span_difference(a@, b@))
            + total_length(span_difference(b@, a@)) + opt_length(span_intersection(a@, b@))
            == span_length(a@) + span_length(b@),
{
    let x = a@;
    let y = b@;
    lemma_difference_length(x, y);
    lemma_difference_length(y, x);
}

proof fn lemma_total_length_small(s: Seq<Span>)
    requires
        s.len() <= 2,
    ensures
        s.len() == 0 ==> total_length(s) == 0,
        s.len() == 1 ==> total_length(s) == span_length(s[0]),
        s.len() == 2 ==> total_length(s) == span_length(s[0]) + span_length(s[1]),
{
    if s.len() >= 1 {
        let d1 = s.drop_last();
        assert(total_length(s) == total_length(d1) + span_length(s.last()));
        if s.len() == 1 {
            assert(total_length(d1) == 0);
        } else {
            let d2 = d1.drop_last();
            assert(total_length(d1) == total_length(d2) + span_length(d1.last()));
            assert(total_length(d2) == 0);
            assert(d1.last() == s[0]);
        }
    }
}

/// The part of `x` outside `y` is as long as `x` minus its overlap with `y`.
proof fn lemma_difference_length(x: Span, y: Span)
    requires
        x.0 <= x.1,
        y.0 <= y.1,
    ensures
        total_length(span_difference(x, y)) + opt_length(span_intersection(x, y)) == span_length(x),
{
    let d = span_difference(x, y);
    lemma_total_length_small(d);
}

/// Two well-formed sequences of spans that hold the same keys are equal: the
/// representation of a key set is unique.
pub proof fn lemma_spans_unique(s: Seq<Span>, t: Seq<Span>)
    requires
        spans_wf(s),
        spans_wf(t),
        forall|k: int| covers(s, k) <==> covers(t, k),
    ensures
        s == t,
    decreases s.len() + t.len(),
{
    if s.len() == 0 || t.len() == 0 {
        if s.len() > 0 {
            assert(span_in(s[0], s[0].0));
            assert(covers(s, s[0].0));
        }
        if t.len() > 0 {
            assert(span_in(t[0], t[0].0));
            assert(covers(t, t[0].0));
        }
        assert(s =~= t);
        return;
    }
    lemma_first_span(s, t);
    lemma_first_span(t, s);
    let s1 = s.subrange(1, s.len() as int);
    let t1 = t.subrange(1, t.len() as int);
    assert forall|k: int| covers(s1, k) <==> covers(t1, k) by {
        lemma_covers_tail(s, k);
        lemma_covers_tail(t, k);
        assert(covers(s, k) <==> covers(t, k));
    }
    assert forall|i: int, j: int| 0 <= i < j < s1.len() implies #[trigger] s1[i].1 + 1
        < #[trigger] s1[j].0 by {
        assert(s1[i] == s[i + 1] && s1[j] == s[j + 1]);
    }
    assert forall|i: int, j: int| 0 <= i < j < t1.len() implies #[trigger] t1[i].1 + 1
        < #[trigger] t1[j].0 by {
        assert(t1[i] == t[i + 1] && t1[j] == t[j + 1]);
    }
    assert forall|i: int| 0 <= i < s1.len() implies #[trigger] s1[i].0 <= s1[i].1 && valid_start_key(
        s1[i].0,
    ) && valid_end_key(s1[i].1) by {
        assert(s1[i] == s[i + 1]);
    }
    assert forall|i: int| 0 <= i < t1.len() implies #[trigger] t1[i].0 <= t1[i].1 && valid_start_key(
        t1[i].0,
    ) && valid_end_key(t1[i].1) by {
        assert(t1[i] == t[i + 1]);
    }
    lemma_spans_unique(s1, t1);
    assert(s =~= seq![s[0]] + s1);
    assert(t =~= seq![t[0]] + t1);
}

/// After the first span, the keys of a well-formed sequence are those of its tail.
proof fn lemma_covers_tail(s: Seq<Span>, k: int)
    requires
        spans_wf(s),
        s.len() > 0,
    ensures
        covers(s.subrange(1, s.len() as int), k) <==> covers(s, k) && k > s[0].1 + 1,
{
    let s1 = s.subrange(1, s.len() as int);
    if covers(s1, k) {
        let j = choose|j: int| 0 <= j < s1.len() && span_in(s1[j], k);
        assert(s1[j] == s[j + 1]);
        assert(s[0].1 + 1 < s[j + 1].0);
    }
    if covers(s, k) && k > s[0].1 + 1 {
        let j = choose|j: int| 0 <= j < s.len() && span_in(s[j], k);
        assert(j != 0);
        assert(s1[j - 1] == s[j]);
    }
}

/// Two well-formed sequences with the same keys start with the same span.
proof fn lemma_first_span(s: Seq<Span>, t: Seq<Span>)
    requires
        spans_wf(s),
        spans_wf(t),
        s.len() > 0,
        t.len() > 0,
        forall|k: int| covers(s, k) <==> covers(t, k),
    ensures
        s[0] == t[0],
{
    // the first start is the least key held
    assert(span_in(s[0], s[0].0));
    assert(covers(s, s[0].0));
    assert(covers(t, s[0].0));
    let j = choose|j: int| 0 <= j < t.len() && span_in(t[j], s[0].0);
    lemma_wf_ordered(t, 0, j);
    assert(span_in(t[0], t[0].0));
    assert(covers(t, t[0].0));
    assert(covers(s, t[0].0));
    let i = choose|i: int| 0 <= i < s.len() && span_in(s[i], t[0].0);
    lemma_wf_ordered(s, 0, i);
    assert(s[0].0 == t[0].0);
    // the first end is followed by a key that is not held
    if s[0].1 < t[0].1 {
        let k = s[0].1 + 1;
        assert(span_in(t[0], k));
        assert(covers(t, k));
        let m = choose|m: int| 0 <= m < s.len() && span_in(s[m], k);
        if m > 0 {
            assert(s[0].1 + 1 < s[m].0);
        }
    }
    if t[0].1 < s[0].1 {
        let k = t[0].1 + 1;
        assert(span_in(s[0], k));
        assert(covers(s, k));
        let m = choose|m: int| 0 <= m < t.len() && span_in(t[m], k);
        if m > 0 {
            assert(t[0].1 + 1 < t[m].0);
        }
    }
}

/// Inserting an interval whose keys are all held already leaves the collection
/// unchanged.
pub proof fn lemma_insert_idempotent(before: Seq<Span>, iv: Span, after: Seq<Span>)
    requires
        spans_wf(before),
        spans_wf(after),
        forall|k: int| span_in(iv, k) ==> covers(before, k),
        forall|k: int| #[trigger] covers(after, k) <==> covers(before, k) || span_in(iv, k),
    ensures
        after == before,
{
    lemma_spans_unique(after, before);
}

/// Union distributes over intersection: `(A ∪ B) ∩ C == (A ∩ C) ∪ (B ∩ C)` as
/// collections, for the results of `union` and `intersection`.
pub proof fn lemma_union_distributes(
    a: Seq<Span>,
    b: Seq<Span>,
    c: Seq<Span>,
    left: Seq<Span>,
    right: Seq<Span>,
)
    requires
        spans_wf(left),
        spans_wf(right),
        forall|k: int|
            #[trigger] covers(left, k) <==> (covers(a, k) || covers(b, k)) && covers(c, k),
        forall|k: int|
            #[trigger] covers(right, k) <==> (covers(a, k) && covers(c, k)) || (covers(b, k)
                && covers(c, k)),
    ensures
        left == right,
{
    assert forall|k: int| covers(left, k) <==> covers(right, k) by {
        assert(covers(left, k) <==> (covers(a, k) || covers(b, k)) && covers(c, k));
        assert(covers(right, k) <==> (covers(a, k) && covers(c, k)) || (covers(b, k) && covers(c, k)));
    }
    lemma_spans_unique(left, right);
}

/// Over a universe `u` that holds every key of `a`, `a \ b == a ∩ (u \ b)` as
/// collections, for the results of `difference` and `intersection`.
pub proof fn lemma_difference_is_complement(
    a: Seq<Span>,
    b: Seq<Span>,
    u: Seq<Span>,
    left: Seq<Span>,
    right: Seq<Span>,
)
    requires
        forall|k: int| covers(a, k) ==> covers(u, k),
        spans_wf(left),
        spans_wf(right),
        forall|k: int| #[trigger] covers(left, k) <==> covers(a, k) && !covers(b, k),
        forall|k: int|
            #[trigger] covers(right, k) <==> covers(a, k) && (covers(u, k) && !covers(b, k)),
    ensures
        left == right,
{
    assert forall|k: int| covers(left, k) <==> covers(right, k) by {
        assert(covers(left, k) <==> covers(a, k) && !covers(b, k));
        assert(covers(right, k) <==> covers(a, k) && (covers(u, k) && !covers(b, k)));
    }
    lemma_spans_unique(left, right);
}

} // verus!
