use vstd::prelude::*;
use vstd::std_specs::iter::IteratorSpec;

verus! {

/// The text of the four numbers of one coordinate pair, as they stand in
/// the document.
pub struct PairFields {
    pub x0: String,
    pub y0: String,
    pub x1: String,
    pub y1: String,
}

/// Where the text of each number of a pair lies in the document: start and
/// end of `x0`, `y0`, `x1` and `y1`.
pub type FieldSpans = (int, int, int, int, int, int, int, int);

/// What the document may hold before its array, whitespace aside.
pub open spec fn header() -> Seq<char> {
    seq!['{', '"', 'p', 'a', 'i', 'r', 's', '"', ':']
}

/// Whether `c` has Unicode's `White_Space` property: tab, line feed, line
/// and form feed, carriage return, space, next line, no-break space, ogham
/// space mark, the spaces from en quad to hair space, line and paragraph
/// separators, narrow no-break space, medium mathematical space and
/// ideographic space.
pub open spec fn white_space(c: char) -> bool {
    let u = c as u32;
    ||| 0x09 <= u <= 0x0D
    ||| u == 0x20
    ||| u == 0x85
    ||| u == 0xA0
    ||| u == 0x1680
    ||| 0x2000 <= u <= 0x200A
    ||| u == 0x2028
    ||| u == 0x2029
    ||| u == 0x202F
    ||| u == 0x205F
    ||| u == 0x3000
}

/// Whether `c` has Unicode's `White_Space` property.
fn is_white_space(c: char) -> (r: bool)
    ensures
        r == white_space(c),
{
    let u = c as u32;
    (0x09 <= u && u <= 0x0D) || u == 0x20 || u == 0x85 || u == 0xA0 || u == 0x1680 || (0x2000
        <= u && u <= 0x200A) || u == 0x2028 || u == 0x2029 || u == 0x202F || u == 0x205F || u
        == 0x3000
}

/// The characters of `s` in order.
fn chars_of(s: &str) -> (r: Vec<char>)
    ensures
        r@ == s@,
{
    let mut it = s.chars();
    proof {
        vstd::string::axiom_spec_iter(s);
    }
    let mut v: Vec<char> = Vec::new();
    loop
        invariant
            it.obeys_prophetic_iter_laws(),
            v@ + it.remaining() == s@,
            it.decrease() is Some,
        decreases it.decrease()->0,
    {
        let ghost before = it;
        let next = it.next();
        proof {
            vstd::string::next_postcondition(&before, &it, next);
        }
        match next {
            Some(c) => {
                v.push(c);
                assert(v@ + it.remaining() =~= s@);
            },
            None => {
                assert(v@ + Seq::<char>::empty() =~= v@);
                return v;
            },
        }
    }
}

/// Relies on `String`'s `FromIterator<char>`: the string of the characters
/// `c` in order.
#[verifier::external_body]
fn string_of(c: &[char]) -> (r: String)
    ensures
        r@ == c@,
{
    c.iter().collect()
}

/// The first position at or after `i` where the non-empty pattern `pat`
/// occurs in `d` and ends by `hi`.
pub open spec fn find(d: Seq<char>, hi: int, pat: Seq<char>, i: int) -> Option<int>
    decreases d.len() - i,
{
    if i < 0 || i + pat.len() > hi || hi > d.len() || pat.len() == 0 {
        None
    } else if d.subrange(i, i + pat.len()) == pat {
        Some(i)
    } else {
        find(d, hi, pat, i + 1)
    }
}

/// Whether the characters of `d` from `i` up to `end` that are not white
/// space, followed by `header()` from `j` on, begin with the rest of the
/// header: that is, the non-space text is a prefix of what is left of it.
pub open spec fn header_ok(d: Seq<char>, i: int, end: int, j: int) -> bool
    decreases end - i,
{
    if i >= end {
        true
    } else if white_space(d[i]) {
        header_ok(d, i + 1, end, j)
    } else {
        j < header().len() && d[i] == header()[j] && header_ok(d, i + 1, end, j + 1)
    }
}

/// The value of the field named `key` (quotes included) after position `i`
/// and before `hi`, ended by a comma: the span of the value and the position
/// after the comma.
pub open spec fn field(d: Seq<char>, hi: int, i: int, key: Seq<char>) -> Option<(int, int, int)> {
    match find(d, hi, key, i) {
        None => None,
        Some(k) => match find(d, hi, seq![':'], k + 1) {
            None => None,
            Some(c) => match find(d, hi, seq![','], c + 1) {
                None => None,
                Some(m) => Some((c + 1, m, m + 1)),
            },
        },
    }
}

/// The value of the last field, named `key`, after position `i`: all that
/// follows its colon up to `hi`.
pub open spec fn last_field(d: Seq<char>, hi: int, i: int, key: Seq<char>) -> Option<(int, int)> {
    match find(d, hi, key, i) {
        None => None,
        Some(k) => match find(d, hi, seq![':'], k + 1) {
            None => None,
            Some(c) => Some((c + 1, hi)),
        },
    }
}

/// The four number spans of the object between `lo` and `hi`.
pub open spec fn item_fields(d: Seq<char>, lo: int, hi: int) -> Option<FieldSpans> {
    match find(d, hi, seq!['{'], lo) {
        None => None,
        Some(o) => match field(d, hi, o + 1, seq!['"', 'x', '0', '"']) {
            None => None,
            Some((a0, a1, r1)) => match field(d, hi, r1, seq!['"', 'y', '0', '"']) {
                None => None,
                Some((b0, b1, r2)) => match field(d, hi, r2, seq!['"', 'x', '1', '"']) {
                    None => None,
                    Some((c0, c1, r3)) => match last_field(d, hi, r3, seq!['"', 'y', '1', '"']) {
                        None => None,
                        Some((e0, e1)) => Some((a0, a1, b0, b1, c0, c1, e0, e1)),
                    },
                },
            },
        },
    }
}

/// The end of the piece that starts at `lo`: the next `}` or the end of the
/// document.
pub open spec fn piece_end(d: Seq<char>, lo: int) -> int {
    match find(d, d.len() as int, seq!['}'], lo) {
        Some(k) => k,
        None => d.len() as int,
    }
}

/// The pairs of the array from position `lo` on. The text is cut at each
/// `}`; the first piece that holds a `]` ends the array, and every piece
/// before it must hold one pair.
pub open spec fn pairs_from(d: Seq<char>, lo: int) -> Option<Seq<FieldSpans>>
    decreases d.len() - lo,
{
    let hi = piece_end(d, lo);
    if lo < 0 || lo > d.len() {
        None
    } else if find(d, hi, seq![']'], lo) is Some {
        Some(Seq::empty())
    } else {
        match item_fields(d, lo, hi) {
            None => None,
            Some(f) => if hi >= d.len() {
                Some(seq![f])
            } else {
                match pairs_from(d, hi + 1) {
                    None => None,
                    Some(rest) => Some(seq![f] + rest),
                }
            },
        }
    }
}

/// The pairs of document `d`: its text before the first `[` must be, white
/// space aside, a prefix of `{"pairs":`, and the array follows it.
pub open spec fn pairs_of(d: Seq<char>) -> Option<Seq<FieldSpans>> {
    match find(d, d.len() as int, seq!['['], 0) {
        None => None,
        Some(b) => if header_ok(d, 0, b, 0) {
            pairs_from(d, b + 1)
        } else {
            None
        },
    }
}

/// Whether `f` holds the texts of `d` that the spans `s` mark.
pub open spec fn fields_match(d: Seq<char>, s: FieldSpans, f: PairFields) -> bool {
    &&& f.x0@ == d.subrange(s.0, s.1)
    &&& f.y0@ == d.subrange(s.2, s.3)
    &&& f.x1@ == d.subrange(s.4, s.5)
    &&& f.y1@ == d.subrange(s.6, s.7)
}

/// Whether `pat` occurs in `d` at `i`.
fn occurs_at(d: &Vec<char>, i: usize, pat: &Vec<char>) -> (r: bool)
    requires
        i + pat@.len() <= d@.len(),
    ensures
        r == (d@.subrange(i as int, i + pat@.len()) == pat@),
{
    let n: usize = d.len();
    let mut j: usize = 0;
    while j < pat.len()
        invariant
            n == d@.len(),
            j <= pat@.len(),
            i + pat@.len() <= d@.len(),
            forall|k: int| 0 <= k < j ==> d@[i + k] == pat@[k],
        decreases pat@.len() - j,
    {
        assert(i + j < d@.len());
        if d[i + j] != pat[j] {
            assert(d@.subrange(i as int, i + pat@.len())[j as int] != pat@[j as int]);
            return false;
        }
        j = j + 1;
    }
    assert(d@.subrange(i as int, i + pat@.len()) =~= pat@);
    true
}

/// The first position at or after `from` where `pat` occurs and ends by
/// `hi`.
fn find_from(d: &Vec<char>, hi: usize, pat: &Vec<char>, from: usize) -> (r: Option<usize>)
    requires
        hi <= d@.len(),
        pat@.len() > 0,
    ensures
        match r {
            Some(k) => {
                &&& find(d@, hi as int, pat@, from as int) == Some(k as int)
                &&& from <= k
                &&& k + pat@.len() <= hi
            },
            None => find(d@, hi as int, pat@, from as int) is None,
        },
{
    let mut i = from;
    while i <= hi && pat.len() <= hi - i
        invariant
            hi <= d@.len(),
            pat@.len() > 0,
            from <= i,
            find(d@, hi as int, pat@, from as int) == find(d@, hi as int, pat@, i as int),
        decreases hi + 1 - i,
    {
        if occurs_at(d, i, pat) {
            return Some(i);
        }
        i = i + 1;
    }
    None
}

/// Whether the text before `end` is, white space aside, a prefix of the
/// header.
fn header_matches(d: &Vec<char>, end: usize) -> (r: bool)
    requires
        end <= d@.len(),
    ensures
        r == header_ok(d@, 0, end as int, 0),
{
    let h: Vec<char> = vec!['{', '"', 'p', 'a', 'i', 'r', 's', '"', ':'];
    assert(h@ =~= header());
    let mut i: usize = 0;
    let mut j: usize = 0;
    while i < end
        invariant
            i <= end <= d@.len(),
            j <= i,
            h@ == header(),
            header_ok(d@, 0, end as int, 0) == header_ok(d@, i as int, end as int, j as int),
        decreases end - i,
    {
        if !is_white_space(d[i]) {
            if j >= h.len() || d[i] != h[j] {
                return false;
            }
            j = j + 1;
        }
        i = i + 1;
    }
    true
}

/// The field named `key` after `i`; see `field`.
fn take_field(d: &Vec<char>, hi: usize, i: usize, key: &Vec<char>) -> (r: Option<(usize, usize, usize)>)
    requires
        hi <= d@.len(),
        key@.len() > 0,
    ensures
        match r {
            Some((a, b, c)) => {
                &&& field(d@, hi as int, i as int, key@) == Some((a as int, b as int, c as int))
                &&& a <= b < c <= hi
            },
            None => field(d@, hi as int, i as int, key@) is None,
        },
{
    let colon: Vec<char> = vec![':'];
    let comma: Vec<char> = vec![','];
    assert(colon@ =~= seq![':']);
    assert(comma@ =~= seq![',']);
    let k = match find_from(d, hi, key, i) {
        Some(k) => k,
        None => return None,
    };
    let c = match find_from(d, hi, &colon, k + 1) {
        Some(c) => c,
        None => return None,
    };
    let m = match find_from(d, hi, &comma, c + 1) {
        Some(m) => m,
        None => return None,
    };
    Some((c + 1, m, m + 1))
}

/// The last field, named `key`, after `i`; see `last_field`.
fn take_last_field(d: &Vec<char>, hi: usize, i: usize, key: &Vec<char>) -> (r: Option<(usize, usize)>)
    requires
        hi <= d@.len(),
        key@.len() > 0,
    ensures
        match r {
            Some((a, b)) => {
                &&& last_field(d@, hi as int, i as int, key@) == Some((a as int, b as int))
                &&& a <= b == hi
            },
            None => last_field(d@, hi as int, i as int, key@) is None,
        },
{
    let colon: Vec<char> = vec![':'];
    assert(colon@ =~= seq![':']);
    let k = match find_from(d, hi, key, i) {
        Some(k) => k,
        None => return None,
    };
    let c = match find_from(d, hi, &colon, k + 1) {
        Some(c) => c,
        None => return None,
    };
    Some((c + 1, hi))
}

/// The characters of `d` from `lo` up to `hi`, as a string.
fn text(d: &Vec<char>, lo: usize, hi: usize) -> (r: String)
    requires
        lo <= hi <= d@.len(),
    ensures
        r@ == d@.subrange(lo as int, hi as int),
{
    let mut v: Vec<char> = Vec::new();
    let mut i = lo;
    while i < hi
        invariant
            lo <= i <= hi <= d@.len(),
            v@ == d@.subrange(lo as int, i as int),
        decreases hi - i,
    {
        v.push(d[i]);
        i = i + 1;
        assert(v@ =~= d@.subrange(lo as int, i as int));
    }
    string_of(v.as_slice())
}

/// The texts of the pair in the object between `lo` and `hi`.
fn item(d: &Vec<char>, lo: usize, hi: usize) -> (r: Option<PairFields>)
    requires
        hi <= d@.len(),
    ensures
        match r {
            Some(f) => item_fields(d@, lo as int, hi as int) matches Some(s) && fields_match(d@, s, f),
            None => item_fields(d@, lo as int, hi as int) is None,
        },
{
    let open: Vec<char> = vec!['{'];
    let kx0: Vec<char> = vec!['"', 'x', '0', '"'];
    let ky0: Vec<char> = vec!['"', 'y', '0', '"'];
    let kx1: Vec<char> = vec!['"', 'x', '1', '"'];
    let ky1: Vec<char> = vec!['"', 'y', '1', '"'];
    assert(open@ =~= seq!['{']);
    assert(kx0@ =~= seq!['"', 'x', '0', '"']);
    assert(ky0@ =~= seq!['"', 'y', '0', '"']);
    assert(kx1@ =~= seq!['"', 'x', '1', '"']);
    assert(ky1@ =~= seq!['"', 'y', '1', '"']);
    let o = match find_from(d, hi, &open, lo) {
        Some(o) => o,
        None => return None,
    };
    let (a0, a1, r1) = match take_field(d, hi, o + 1, &kx0) {
        Some(f) => f,
        None => return None,
    };
    let (b0, b1, r2) = match take_field(d, hi, r1, &ky0) {
        Some(f) => f,
        None => return None,
    };
    let (c0, c1, r3) = match take_field(d, hi, r2, &kx1) {
        Some(f) => f,
        None => return None,
    };
    let (e0, e1) = match take_last_field(d, hi, r3, &ky1) {
        Some(f) => f,
        None => return None,
    };
    Some(
        PairFields {
            x0: text(d, a0, a1),
            y0: text(d, b0, b1),
            x1: text(d, c0, c1),
            y1: text(d, e0, e1),
        },
    )
}

/// `prefix` followed by the pairs of `rest`, if `rest` has any.
pub open spec fn then_pairs(prefix: Seq<FieldSpans>, rest: Option<Seq<FieldSpans>>) -> Option<Seq<FieldSpans>> {
    match rest {
        None => None,
        Some(r) => Some(prefix + r),
    }
}

/// Reads the coordinate pairs of a document of the form
/// `{"pairs": [{"x0": .., "y0": .., "x1": .., "y1": ..}, ..]}` and returns
/// the text of each number; `None` where the document does not have that
/// form.
pub fn pair_fields(json: &str) -> (r: Option<Vec<PairFields>>)
    ensures
        match r {
            Some(v) => pairs_of(json@) matches Some(s) && v@.len() == s.len() && forall|i: int|
                0 <= i < s.len() ==> fields_match(json@, s[i], #[trigger] v@[i]),
            None => pairs_of(json@) is None,
        },
{
    let d = chars_of(json);
    let n: usize = d.len();
    let open: Vec<char> = vec!['['];
    let close: Vec<char> = vec!['}'];
    let end: Vec<char> = vec![']'];
    assert(open@ =~= seq!['[']);
    assert(close@ =~= seq!['}']);
    assert(end@ =~= seq![']']);
    let b = match find_from(&d, n, &open, 0) {
        Some(b) => b,
        None => return None,
    };
    if !header_matches(&d, b) {
        return None;
    }
    let mut out: Vec<PairFields> = Vec::new();
    let ghost mut spans: Seq<FieldSpans> = Seq::empty();
    let mut lo: usize = b + 1;
    loop
        invariant
            n == d@.len(),
            d@ == json@,
            lo <= n,
            open@ == seq!['['],
            close@ == seq!['}'],
            end@ == seq![']'],
            pairs_of(d@) == then_pairs(spans, pairs_from(d@, lo as int)),
            out@.len() == spans.len(),
            forall|i: int| 0 <= i < spans.len() ==> fields_match(d@, spans[i], #[trigger] out@[i]),
        decreases n - lo,
    {
        let hi = match find_from(&d, n, &close, lo) {
            Some(k) => k,
            None => n,
        };
        assert(hi == piece_end(d@, lo as int));
        if find_from(&d, hi, &end, lo).is_some() {
            assert(spans + Seq::<FieldSpans>::empty() =~= spans);
            return Some(out);
        }
        let f = match item(&d, lo, hi) {
            Some(f) => f,
            None => return None,
        };
        let ghost s = item_fields(d@, lo as int, hi as int)->Some_0;
        out.push(f);
        proof {
            assert(then_pairs(spans, pairs_from(d@, lo as int)) == then_pairs(
                spans.push(s),
                if hi >= n { Some(Seq::<FieldSpans>::empty()) } else { pairs_from(d@, hi + 1) },
            )) by {
                assert(spans + seq![s] =~= spans.push(s));
                assert(spans.push(s) + Seq::<FieldSpans>::empty() =~= spans.push(s));
                match pairs_from(d@, hi + 1) {
                    Some(rest) => {
                        assert(spans + (seq![s] + rest) =~= spans.push(s) + rest);
                    },
                    None => {},
                }
            }
            spans = spans.push(s);
        }
        if hi >= n {
            assert(spans + Seq::<FieldSpans>::empty() =~= spans);
            return Some(out);
        }
        lo = hi + 1;
    }
}

} // verus!
