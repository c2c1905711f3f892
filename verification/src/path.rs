//! Reference paths: dot-separated keys, each with any number of bracketed
//! indices, as in `subnets[0].id`.

use crate::error::StackError;
use vstd::prelude::*;
use vstd::string::StrSliceExecFns;

verus! {

/// One step of a path.
#[derive(Debug, PartialEq)]
pub enum PathSegment {
    Key(String),
    Index(usize),
}

pub enum SegmentModel {
    Key(Seq<char>),
    Index(nat),
}

impl DeepView for PathSegment {
    type V = SegmentModel;

    open spec fn deep_view(&self) -> SegmentModel {
        match self {
            PathSegment::Key(k) => SegmentModel::Key(k@),
            PathSegment::Index(i) => SegmentModel::Index(*i as nat),
        }
    }
}

/// Where `x` first occurs in `s`.
pub open spec fn first_position<A>(s: Seq<A>, x: A) -> Option<int>
    decreases s.len(),
{
    if s.len() == 0 {
        None
    } else {
        match first_position(s.drop_last(), x) {
            Some(i) => Some(i),
            None => if s.last() == x {
                Some(s.len() - 1)
            } else {
                None
            },
        }
    }
}

/// `first_position` finds the first occurrence, and nothing where there is
/// none.
pub proof fn lemma_first_position<A>(s: Seq<A>, x: A)
    ensures
        match first_position(s, x) {
            Some(i) => 0 <= i < s.len() && s[i] == x && forall|j: int| 0 <= j < i ==> s[j] != x,
            None => forall|j: int| 0 <= j < s.len() ==> s[j] != x,
        },
    decreases s.len(),
{
    if s.len() > 0 {
        lemma_first_position(s.drop_last(), x);
        let front = s.drop_last();
        match first_position(front, x) {
            Some(i) => {
                assert(front[i] == s[i]);
                assert forall|j: int| 0 <= j < i implies s[j] != x by {
                    assert(front[j] == s[j]);
                }
            },
            None => {
                assert forall|j: int| 0 <= j < s.len() - 1 implies s[j] != x by {
                    assert(front[j] == s[j]);
                }
            },
        }
    }
}

/// The value of a decimal digit.
pub open spec fn digit_value(c: char) -> Option<nat> {
    if 48 <= c as int <= 57 {
        Some((c as int - 48) as nat)
    } else {
        None
    }
}

/// The number that a run of decimal digits denotes; the empty run denotes
/// zero.
pub open spec fn decimal_value(s: Seq<char>) -> Option<nat>
    decreases s.len(),
{
    if s.len() == 0 {
        Some(0)
    } else {
        match (decimal_value(s.drop_last()), digit_value(s.last())) {
            (Some(a), Some(d)) => Some(a * 10 + d),
            _ => None,
        }
    }
}

/// The index that the text between two brackets denotes: decimal digits,
/// at least one, after an optional `+`, with a value that fits a `usize`.
pub open spec fn parse_index(s: Seq<char>) -> Option<nat> {
    let digits = if s.len() > 0 && s[0] == '+' {
        s.drop_first()
    } else {
        s
    };
    if digits.len() == 0 {
        None
    } else {
        match decimal_value(digits) {
            Some(v) => if v <= usize::MAX {
                Some(v)
            } else {
                None
            },
            None => None,
        }
    }
}

/// `acc` followed by `rest`, where there is a `rest`.
pub open spec fn followed_by(acc: Seq<SegmentModel>, rest: Option<Seq<SegmentModel>>) -> Option<
    Seq<SegmentModel>,
> {
    match rest {
        Some(r) => Some(acc + r),
        None => None,
    }
}

/// The key that a stretch of text gives: none where it is empty.
pub open spec fn key_segment(text: Seq<char>) -> Seq<SegmentModel> {
    if text.len() == 0 {
        Seq::empty()
    } else {
        seq![SegmentModel::Key(text)]
    }
}

/// The segments of one dot-free part: a key, where text stands before the
/// first bracket; an index for the bracket; then the segments of what
/// follows it. Text without a bracket is a key. `None` stands for a
/// bracket without its closing or an index that is no number.
pub open spec fn parse_part(part: Seq<char>) -> Option<Seq<SegmentModel>>
    decreases part.len(),
{
    match first_position(part, '[') {
        None => Some(key_segment(part)),
        Some(i) => {
            if 0 <= i < part.len() {
                let after = part.subrange(i + 1, part.len() as int);
                match first_position(after, ']') {
                    None => None,
                    Some(j) => {
                        if 0 <= j < after.len() {
                            match parse_index(after.subrange(0, j)) {
                                None => None,
                                Some(idx) => followed_by(
                                    key_segment(part.subrange(0, i)).push(SegmentModel::Index(idx)),
                                    parse_part(after.subrange(j + 1, after.len() as int)),
                                ),
                            }
                        } else {
                            None
                        }
                    },
                }
            } else {
                None
            }
        },
    }
}

/// The segments of a path: those of its dot-separated parts, in order.
pub open spec fn parse_path_spec(path: Seq<char>) -> Option<Seq<SegmentModel>>
    decreases path.len(),
{
    match first_position(path, '.') {
        None => parse_part(path),
        Some(i) => {
            if 0 <= i < path.len() {
                match parse_part(path.subrange(0, i)) {
                    None => None,
                    Some(head) => followed_by(
                        head,
                        parse_path_spec(path.subrange(i + 1, path.len() as int)),
                    ),
                }
            } else {
                None
            }
        },
    }
}

/// The characters of a string.
pub fn to_chars(s: &str) -> (res: Vec<char>)
    ensures
        res@ == s@,
{
    let mut out: Vec<char> = Vec::new();
    for c in it: s.chars()
        invariant
            out@ == it.seq().take(it.index()),
            it.seq() == s@,
    {
        out.push(c);
    }
    out
}

/// Where `c` first occurs in `chars[lo..hi]`, as a position in `chars`.
pub fn find_in_range(chars: &Vec<char>, lo: usize, hi: usize, c: char) -> (res: Option<usize>)
    requires
        lo <= hi <= chars@.len(),
    ensures
        match res {
            Some(p) => lo <= p < hi && first_position(chars@.subrange(lo as int, hi as int), c)
                == Some(p - lo),
            None => first_position(chars@.subrange(lo as int, hi as int), c) is None,
        },
{
    let ghost part = chars@.subrange(lo as int, hi as int);
    let mut p: usize = lo;
    while p < hi
        invariant
            lo <= p <= hi <= chars@.len(),
            part == chars@.subrange(lo as int, hi as int),
            forall|j: int| 0 <= j < p - lo ==> part[j] != c,
        decreases hi - p,
    {
        if chars[p] == c {
            proof {
                lemma_first_position(part, c);
                assert(part[p - lo] == c);
            }
            return Some(p);
        }
        p += 1;
    }
    proof {
        lemma_first_position(part, c);
    }
    None
}

/// A run of digits denotes at least what any of its prefixes denotes.
proof fn lemma_decimal_grows(s: Seq<char>, k: int)
    requires
        0 <= k <= s.len(),
        decimal_value(s) is Some,
    ensures
        decimal_value(s.take(k)) is Some,
        decimal_value(s.take(k))->0 <= decimal_value(s)->0,
    decreases s.len(),
{
    if k == s.len() {
        assert(s.take(k) =~= s);
    } else {
        lemma_decimal_grows(s.drop_last(), k);
        assert(s.drop_last().take(k) =~= s.take(k));
    }
}

/// A run with something other than a digit in it denotes nothing.
proof fn lemma_decimal_needs_digits(s: Seq<char>, k: int)
    requires
        0 <= k < s.len(),
        digit_value(s[k]) is None,
    ensures
        decimal_value(s) is None,
    decreases s.len(),
{
    if k < s.len() - 1 {
        lemma_decimal_needs_digits(s.drop_last(), k);
    }
}

/// The value of `c` as a decimal digit.
pub fn digit_of(c: char) -> (res: Option<usize>)
    ensures
        match res {
            Some(d) => digit_value(c) == Some(d as nat),
            None => digit_value(c) is None,
        },
{
    if c == '0' {
        Some(0)
    } else if c == '1' {
        Some(1)
    } else if c == '2' {
        Some(2)
    } else if c == '3' {
        Some(3)
    } else if c == '4' {
        Some(4)
    } else if c == '5' {
        Some(5)
    } else if c == '6' {
        Some(6)
    } else if c == '7' {
        Some(7)
    } else if c == '8' {
        Some(8)
    } else if c == '9' {
        Some(9)
    } else {
        None
    }
}

/// The index written in `chars[lo..hi]`.
#[verifier::loop_isolation(false)]
pub fn parse_index_range(chars: &Vec<char>, lo: usize, hi: usize) -> (res: Option<usize>)
    requires
        lo <= hi <= chars@.len(),
    ensures
        match res {
            Some(v) => parse_index(chars@.subrange(lo as int, hi as int)) == Some(v as nat),
            None => parse_index(chars@.subrange(lo as int, hi as int)) is None,
        },
{
    let ghost text = chars@.subrange(lo as int, hi as int);
    let start: usize = if lo < hi && chars[lo] == '+' {
        lo + 1
    } else {
        lo
    };
    let ghost digits = chars@.subrange(start as int, hi as int);
    proof {
        if lo < hi {
            assert(text[0] == chars@[lo as int]);
        }
        if start > lo {
            assert(text.drop_first() =~= digits);
        } else {
            assert(text =~= digits);
        }
    }
    if start == hi {
        return None;
    }
    let mut acc: usize = 0;
    let mut p: usize = start;
    assert(digits.take(0) =~= Seq::<char>::empty());
    while p < hi
        invariant
            start <= p <= hi <= chars@.len(),
            digits == chars@.subrange(start as int, hi as int),
            decimal_value(digits.take(p - start)) == Some(acc as nat),
        decreases hi - p,
    {
        let c = chars[p];
        proof {
            assert(digits[p - start] == c);
            assert(digits.take(p - start + 1).drop_last() =~= digits.take(p - start));
            assert(digits.take(p - start + 1).last() == c);
        }
        let d: usize = match digit_of(c) {
            Some(d) => d,
            None => {
                proof {
                    lemma_decimal_needs_digits(digits, p - start);
                }
                return None;
            },
        };
        let next = match acc.checked_mul(10) {
            Some(m) => m.checked_add(d),
            None => None,
        };
        match next {
            Some(v) => {
                acc = v;
            },
            None => {
                proof {
                    if decimal_value(digits) is Some {
                        lemma_decimal_grows(digits, p - start + 1);
                    }
                }
                return None;
            },
        }
        p += 1;
    }
    assert(digits.take(hi - start) =~= digits);
    Some(acc)
}

/// Adds the key that `path[lo..hi]` gives, if any, to `segs`.
fn push_key(path: &str, lo: usize, hi: usize, segs: &mut Vec<PathSegment>)
    requires
        lo <= hi <= path@.len(),
    ensures
        final(segs).deep_view() == old(segs).deep_view() + key_segment(
            path@.subrange(lo as int, hi as int),
        ),
{
    let ghost before = segs.deep_view();
    if lo < hi {
        let key = path.substring_char(lo, hi).to_owned();
        segs.push(PathSegment::Key(key));
        assert(segs.deep_view() =~= before + key_segment(path@.subrange(lo as int, hi as int)));
    } else {
        assert(segs.deep_view() =~= before + key_segment(path@.subrange(lo as int, hi as int)));
    }
}

/// Adds the segments of the part `path[lo..hi]` to `segs`; `false` where
/// the part is malformed.
#[verifier::loop_isolation(false)]
fn parse_part_range(
    path: &str,
    chars: &Vec<char>,
    lo: usize,
    hi: usize,
    segs: &mut Vec<PathSegment>,
) -> (ok: bool)
    requires
        chars@ == path@,
        lo <= hi <= chars@.len(),
    ensures
        match parse_part(path@.subrange(lo as int, hi as int)) {
            Some(found) => ok && final(segs).deep_view() == old(segs).deep_view() + found,
            None => !ok,
        },
{
    let ghost base = segs.deep_view();
    let ghost whole = parse_part(path@.subrange(lo as int, hi as int));
    let mut pos: usize = lo;
    assert(base + Seq::<SegmentModel>::empty() =~= base);
    loop
        invariant
            chars@ == path@,
            lo <= pos <= hi <= chars@.len(),
            whole == parse_part(path@.subrange(lo as int, hi as int)),
            followed_by(base, whole) == followed_by(
                segs.deep_view(),
                parse_part(path@.subrange(pos as int, hi as int)),
            ),
        decreases hi - pos,
    {
        let ghost part = path@.subrange(pos as int, hi as int);
        let ghost acc = segs.deep_view();
        match find_in_range(chars, pos, hi, '[') {
            None => {
                push_key(path, pos, hi, segs);
                proof {
                    assert(parse_part(part) == Some(key_segment(part)));
                    lemma_follow(base, whole, acc, key_segment(part));
                }
                return true;
            },
            Some(open) => {
                let ghost after = part.subrange(open - pos + 1, part.len() as int);
                assert(after =~= path@.subrange(open + 1, hi as int));
                match find_in_range(chars, open + 1, hi, ']') {
                    None => {
                        assert(parse_part(part) is None);
                        return false;
                    },
                    Some(close) => {
                        assert(after.subrange(0, close - open - 1) =~= path@.subrange(
                            open + 1,
                            close as int,
                        ));
                        assert(after.subrange(close - open, after.len() as int) =~= path@.subrange(
                            close + 1,
                            hi as int,
                        ));
                        assert(part.subrange(0, open - pos) =~= path@.subrange(
                            pos as int,
                            open as int,
                        ));
                        match parse_index_range(chars, open + 1, close) {
                            None => {
                                assert(parse_part(part) is None);
                                return false;
                            },
                            Some(idx) => {
                                push_key(path, pos, open, segs);
                                let ghost mid = segs.deep_view();
                                segs.push(PathSegment::Index(idx));
                                proof {
                                    let key = key_segment(part.subrange(0, open - pos));
                                    let step = key.push(SegmentModel::Index(idx as nat));
                                    assert(mid == acc + key);
                                    assert(segs.deep_view() =~= mid.push(
                                        SegmentModel::Index(idx as nat),
                                    ));
                                    assert(segs.deep_view() =~= acc + step);
                                    let rest = parse_part(path@.subrange(close + 1, hi as int));
                                    assert(parse_part(part) == followed_by(step, rest));
                                    if rest is Some {
                                        assert(acc + (step + rest->0) =~= (acc + step) + rest->0);
                                    }
                                }
                                pos = close + 1;
                            },
                        }
                    },
                }
            },
        }
    }
}

/// If `base` followed by `whole` is `acc` followed by exactly `last`, then
/// `whole` ends the way `acc + last` does.
proof fn lemma_follow(
    base: Seq<SegmentModel>,
    whole: Option<Seq<SegmentModel>>,
    acc: Seq<SegmentModel>,
    last: Seq<SegmentModel>,
)
    requires
        followed_by(base, whole) == followed_by(acc, Some(last)),
    ensures
        whole is Some,
        base + whole->0 == acc + last,
{
}

/// Parses a reference path into its segments. A bracket without its
/// closing, or an index that is no number, is a syntax error.
#[verifier::loop_isolation(false)]
pub fn parse_path(path: &str) -> (res: Result<Vec<PathSegment>, StackError>)
    ensures
        match res {
            Ok(segs) => parse_path_spec(path@) == Some(segs.deep_view()),
            Err(e) => {
                &&& parse_path_spec(path@) is None
                &&& e matches StackError::ReferenceSyntaxError(p)
                &&& p@ == path@
            },
        },
{
    let chars = to_chars(path);
    let n = chars.len();
    let mut segs: Vec<PathSegment> = Vec::new();
    let mut start: usize = 0;
    assert(segs.deep_view() =~= Seq::<SegmentModel>::empty());
    assert(path@.subrange(0, n as int) =~= path@);
    assert(Seq::<SegmentModel>::empty() + Seq::<SegmentModel>::empty() =~= Seq::<
        SegmentModel,
    >::empty());
    loop
        invariant
            chars@ == path@,
            n == chars@.len(),
            start <= n,
            followed_by(Seq::empty(), parse_path_spec(path@)) == followed_by(
                segs.deep_view(),
                parse_path_spec(path@.subrange(start as int, n as int)),
            ),
        decreases n - start,
    {
        let ghost tail = path@.subrange(start as int, n as int);
        let ghost acc = segs.deep_view();
        let end = match find_in_range(&chars, start, n, '.') {
            Some(dot) => dot,
            None => n,
        };
        let ok = parse_part_range(path, &chars, start, end, &mut segs);
        proof {
            assert(tail.subrange(0, end - start) =~= path@.subrange(start as int, end as int));
            if end < n {
                assert(tail.subrange(end - start + 1, tail.len() as int) =~= path@.subrange(
                    end + 1,
                    n as int,
                ));
            } else {
                assert(tail =~= path@.subrange(start as int, end as int));
            }
        }
        if !ok {
            return Err(StackError::ReferenceSyntaxError(path.to_owned()));
        }
        if end == n {
            proof {
                let found = parse_part(tail)->0;
                assert(Seq::<SegmentModel>::empty() + parse_path_spec(path@)->0 =~= parse_path_spec(
                    path@,
                )->0);
            }
            return Ok(segs);
        }
        proof {
            let head = parse_part(path@.subrange(start as int, end as int))->0;
            let rest = parse_path_spec(path@.subrange(end + 1, n as int));
            assert(parse_path_spec(tail) == followed_by(head, rest));
            if rest is Some {
                assert(acc + (head + rest->0) =~= (acc + head) + rest->0);
            }
        }
        start = end + 1;
    }
}

} // verus!
