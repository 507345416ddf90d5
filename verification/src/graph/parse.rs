use vstd::prelude::*;

use crate::error::{EdgeErrorKind, GraphError};

verus! {

broadcast use vstd::string::axiom_spec_iter;

/// Unicode white space, as `char::is_whitespace` decides it.
pub open spec fn is_ws(c: char) -> bool {
    let u = c as u32;
    ||| 0x09 <= u <= 0x0D
    ||| u == 0x20
    ||| u == 0x85
    ||| u == 0xA0
    ||| u == 0x1680
    ||| 0x2000 <= u <= 0x200A
    ||| u == 0x2028
    ||| u == 0x2029
    ||| u == 0x202F
    ||| u == 0x205F
    ||| u == 0x3000
}

/// The maximal runs of non-white-space characters of `s`, in order.
pub open spec fn words(s: Seq<char>) -> Seq<Seq<char>>
    decreases s.len(),
{
    if s.len() == 0 {
        Seq::empty()
    } else {
        let w = words(s.drop_last());
        let c = s.last();
        if is_ws(c) {
            w
        } else if s.len() >= 2 && !is_ws(s[s.len() - 2]) {
            w.update(w.len() - 1, w.last().push(c))
        } else {
            w.push(seq![c])
        }
    }
}

/// An ASCII decimal digit.
pub open spec fn is_digit(c: char) -> bool {
    0x30 <= (c as u32) <= 0x39
}

/// The value of a string of decimal digits.
pub open spec fn digits_value(d: Seq<char>) -> int
    decreases d.len(),
{
    if d.len() == 0 {
        0
    } else {
        digits_value(d.drop_last()) * 10 + ((d.last() as u32) - 0x30)
    }
}

/// The digits of a number: `t` without one leading `+`.
pub open spec fn unsigned_digits(t: Seq<char>) -> Seq<char> {
    if t.len() > 0 && t[0] == '+' {
        t.drop_first()
    } else {
        t
    }
}

/// Every character of `d` is an ASCII digit.
pub open spec fn all_digits(d: Seq<char>) -> bool {
    forall|i: int| 0 <= i < d.len() ==> #[trigger] is_digit(d[i])
}

/// What `u64::from_str` accepts: an optional `+` followed by at least one
/// ASCII digit, with a value that fits in 64 bits.
pub open spec fn parse_u64_spec(t: Seq<char>) -> Option<u64> {
    let d = unsigned_digits(t);
    if d.len() > 0 && all_digits(d) && digits_value(d) <= u64::MAX {
        Some(digits_value(d) as u64)
    } else {
        None
    }
}

/// The edge on one line of an edge list: its first two fields, read as
/// decimal `u64`; further fields are ignored. A line with no field at all
/// yields `MissingSrc`.
pub open spec fn parse_edge_spec(line: Seq<char>) -> Result<(u64, u64), EdgeErrorKind> {
    let w = words(line);
    if w.len() == 0 {
        Err(EdgeErrorKind::MissingSrc)
    } else if parse_u64_spec(w[0]) is None {
        Err(EdgeErrorKind::InvalidSrc)
    } else if w.len() < 2 {
        Err(EdgeErrorKind::MissingDst)
    } else if parse_u64_spec(w[1]) is None {
        Err(EdgeErrorKind::InvalidDst)
    } else {
        Ok((parse_u64_spec(w[0]).unwrap(), parse_u64_spec(w[1]).unwrap()))
    }
}

/// The edges of an edge list given as its lines, in order. Blank lines are
/// skipped; the first line that is not an edge, or, when `limit_u32` holds,
/// whose ids exceed `u32::MAX`, decides the error.
pub open spec fn parse_edge_lines(lines: Seq<Seq<char>>, limit_u32: bool) -> Result<Seq<(u64, u64)>, GraphError>
    decreases lines.len(),
{
    if lines.len() == 0 {
        Ok(Seq::empty())
    } else {
        match parse_edge_lines(lines.drop_last(), limit_u32) {
            Err(e) => Err(e),
            Ok(es) => match parse_edge_spec(lines.last()) {
                Err(EdgeErrorKind::MissingSrc) => Ok(es),
                Err(k) => Err(GraphError::InvalidEdge { line: lines.len() as usize, kind: k }),
                Ok(e) => if limit_u32 && (e.0 > u32::MAX || e.1 > u32::MAX) {
                    Err(GraphError::VertexIdTooLarge)
                } else {
                    Ok(es.push(e))
                },
            },
        }
    }
}

/// The character view of each line.
pub open spec fn lines_view(lines: Seq<&str>) -> Seq<Seq<char>> {
    lines.map_values(|l: &str| l@)
}

/// The characters of `s`, in order.
fn chars_of(s: &str) -> (res: Vec<char>)
    ensures
        res@ == s@,
{
    let mut res: Vec<char> = Vec::new();
    for c in it: s.chars()
        invariant
            res@ == it.seq().take(it.index()),
            it.seq() == s@,
    {
        res.push(c);
        assert(res@ =~= it.seq().take(it.index() + 1));
    }
    assert(res@ =~= s@);
    res
}

/// Decides `is_ws`.
fn is_ws_char(c: char) -> (res: bool)
    ensures
        res == is_ws(c),
{
    let u = c as u32;
    (0x09 <= u && u <= 0x0D) || u == 0x20 || u == 0x85 || u == 0xA0 || u == 0x1680 || (0x2000 <= u
        && u <= 0x200A) || u == 0x2028 || u == 0x2029 || u == 0x202F || u == 0x205F || u == 0x3000
}

/// The number of words of `cs` and the bounds of its first two words.
fn first_two_words(cs: &Vec<char>) -> (res: (usize, usize, usize, usize, usize))
    ensures
        res.0 == words(cs@).len(),
        res.0 >= 1 ==> res.1 <= res.2 <= cs@.len() && words(cs@)[0] == cs@.subrange(res.1 as int, res.2 as int),
        res.0 >= 2 ==> res.3 <= res.4 <= cs@.len() && words(cs@)[1] == cs@.subrange(res.3 as int, res.4 as int),
{
    let mut count: usize = 0;
    let mut s0: usize = 0;
    let mut e0: usize = 0;
    let mut s1: usize = 0;
    let mut e1: usize = 0;
    let mut i: usize = 0;
    assert(cs@.take(0) =~= Seq::<char>::empty());
    while i < cs.len()
        invariant
            0 <= i <= cs@.len(),
            count == words(cs@.take(i as int)).len(),
            count <= i,
            count >= 1 ==> s0 <= e0 <= i && words(cs@.take(i as int))[0] == cs@.subrange(s0 as int, e0 as int),
            count >= 2 ==> s1 <= e1 <= i && words(cs@.take(i as int))[1] == cs@.subrange(s1 as int, e1 as int),
            count == 1 && i > 0 && !is_ws(cs@[i - 1]) ==> e0 == i,
            count == 2 && i > 0 && !is_ws(cs@[i - 1]) ==> e1 == i,
            i > 0 && !is_ws(cs@[i - 1]) ==> count >= 1,
        decreases cs@.len() - i,
    {
        let c = cs[i];
        let ghost pre = cs@.take(i as int);
        let ghost cur = cs@.take(i + 1);
        assert(cur.drop_last() =~= pre);
        assert(cur.last() == c);
        let ws = is_ws_char(c);
        if ws {
        } else if i >= 1 && !is_ws_char(cs[i - 1]) {
            assert(cur[cur.len() - 2] == cs@[i - 1]);
            if count == 1 {
                assert(cs@.subrange(s0 as int, i + 1) =~= cs@.subrange(s0 as int, i as int).push(c));
                e0 = i + 1;
            } else if count == 2 {
                assert(cs@.subrange(s1 as int, i + 1) =~= cs@.subrange(s1 as int, i as int).push(c));
                e1 = i + 1;
            }
        } else {
            if i >= 1 {
                assert(cur[cur.len() - 2] == cs@[i - 1]);
            }
            count = count + 1;
            if count == 1 {
                s0 = i;
                e0 = i + 1;
                assert(cs@.subrange(i as int, i + 1) =~= seq![c]);
            } else if count == 2 {
                s1 = i;
                e1 = i + 1;
                assert(cs@.subrange(i as int, i + 1) =~= seq![c]);
            }
        }
        i = i + 1;
    }
    assert(cs@.take(cs@.len() as int) =~= cs@);
    (count, s0, e0, s1, e1)
}

/// The value of a digit string never falls below that of its prefixes.
proof fn lemma_digits_value_prefix(d: Seq<char>, k: int)
    requires
        0 <= k <= d.len(),
        forall|i: int| 0 <= i < d.len() ==> #[trigger] is_digit(d[i]),
    ensures
        0 <= digits_value(d.take(k)) <= digits_value(d),
    decreases d.len(),
{
    if d.len() > 0 {
        if k == d.len() {
            assert(d.take(k) =~= d);
            lemma_digits_value_prefix(d.drop_last(), k - 1);
            assert(is_digit(d[d.len() - 1]));
        } else {
            lemma_digits_value_prefix(d.drop_last(), k);
            assert(d.drop_last().take(k) =~= d.take(k));
            lemma_digits_value_prefix(d.drop_last(), d.len() - 1);
            assert(d.drop_last().take(d.len() - 1) =~= d.drop_last());
            assert(is_digit(d[d.len() - 1]));
        }
    }
}

/// Reads `cs[lo..hi]` as `u64::from_str` would.
fn parse_u64(cs: &Vec<char>, lo: usize, hi: usize) -> (res: Option<u64>)
    requires
        lo <= hi <= cs@.len(),
    ensures
        res == parse_u64_spec(cs@.subrange(lo as int, hi as int)),
{
    let ghost t = cs@.subrange(lo as int, hi as int);
    let mut start = lo;
    if start < hi && cs[start] == '+' {
        start = start + 1;
    }
    let ghost d = cs@.subrange(start as int, hi as int);
    assert(d =~= unsigned_digits(t));
    if start == hi {
        return None;
    }
    let mut acc: u64 = 0;
    let mut j: usize = start;
    assert(d.take(0) =~= Seq::<char>::empty());
    while j < hi
        invariant
            lo <= start <= j <= hi <= cs@.len(),
            d == cs@.subrange(start as int, hi as int),
            d == unsigned_digits(t),
            t == cs@.subrange(lo as int, hi as int),
            d.len() > 0,
            forall|i: int| start <= i < j ==> #[trigger] is_digit(cs@[i]),
            acc == digits_value(d.take(j - start)),
        decreases hi - j,
    {
        let c = cs[j];
        let u = c as u32;
        assert(d[j - start] == c);
        if u < 0x30 || u > 0x39 {
            assert(d[j - start] == c);
            assert(!is_digit(d[j - start]));
            assert(!all_digits(d));
            return None;
        }
        assert(d.take(j - start + 1).drop_last() =~= d.take(j - start));
        assert(d.take(j - start + 1).last() == c);
        let digit = (u - 0x30) as u64;
        match acc.checked_mul(10) {
            Some(m) => match m.checked_add(digit) {
                Some(a) => {
                    acc = a;
                },
                None => {
                    proof {
                        if all_digits(d) {
                            lemma_digits_value_prefix(d, j - start + 1);
                            assert(digits_value(d.take(j - start + 1)) == acc * 10 + digit);
                            assert(digits_value(d) > u64::MAX);
                        }
                        assert(parse_u64_spec(t) is None);
                    }
                    return None;
                },
            },
            None => {
                proof {
                    if all_digits(d) {
                        lemma_digits_value_prefix(d, j - start + 1);
                        lemma_digits_value_prefix(d.take(j - start + 1), j - start);
                    }
                }
                return None;
            },
        }
        j = j + 1;
    }
    assert(d.take(hi - start) =~= d);
    assert forall|i: int| 0 <= i < d.len() implies #[trigger] is_digit(d[i]) by {
        assert(d[i] == cs@[start + i]);
    }
    Some(acc)
}

/// Reads the edge on one line of an edge list: its first two fields as
/// decimal `u64`; further fields are ignored.
pub fn parse_edge(line: &str) -> (res: Result<(u64, u64), EdgeErrorKind>)
    ensures
        res == parse_edge_spec(line@),
{
    let cs = chars_of(line);
    let (count, s0, e0, s1, e1) = first_two_words(&cs);
    if count == 0 {
        return Err(EdgeErrorKind::MissingSrc);
    }
    let src = match parse_u64(&cs, s0, e0) {
        Some(v) => v,
        None => {
            return Err(EdgeErrorKind::InvalidSrc);
        },
    };
    if count < 2 {
        return Err(EdgeErrorKind::MissingDst);
    }
    let dst = match parse_u64(&cs, s1, e1) {
        Some(v) => v,
        None => {
            return Err(EdgeErrorKind::InvalidDst);
        },
    };
    Ok((src, dst))
}

/// Reads the edges of an edge list given as its lines, skipping blank lines.
/// With `limit_u32`, an id above `u32::MAX` is an error.
pub fn parse_edge_lines_exec(lines: &[&str], limit_u32: bool) -> (res: Result<Vec<(u64, u64)>, GraphError>)
    ensures
        match res {
            Ok(es) => parse_edge_lines(lines_view(lines@), limit_u32) == Ok::<Seq<(u64, u64)>, GraphError>(es@),
            Err(e) => parse_edge_lines(lines_view(lines@), limit_u32) == Err::<Seq<(u64, u64)>, GraphError>(e),
        },
{
    let mut es: Vec<(u64, u64)> = Vec::new();
    let mut i: usize = 0;
    let ghost lv = lines_view(lines@);
    assert(lv.take(0) =~= Seq::<Seq<char>>::empty());
    while i < lines.len()
        invariant
            0 <= i <= lines@.len(),
            lv == lines_view(lines@),
            lv.len() == lines@.len(),
            parse_edge_lines(lv.take(i as int), limit_u32) == Ok::<Seq<(u64, u64)>, GraphError>(es@),
        decreases lines@.len() - i,
    {
        let ghost pre = lv.take(i as int);
        let ghost cur = lv.take(i + 1);
        assert(cur.drop_last() =~= pre);
        assert(cur.last() == lines@[i as int]@);
        assert(cur.len() == i + 1);
        match parse_edge(lines[i]) {
            Err(EdgeErrorKind::MissingSrc) => {},
            Err(k) => {
                proof {
                    lemma_parse_error_persists(lv, limit_u32, i + 1);
                }
                return Err(GraphError::InvalidEdge { line: i + 1, kind: k });
            },
            Ok(e) => {
                if limit_u32 && (e.0 > 0xFFFF_FFFF || e.1 > 0xFFFF_FFFF) {
                    proof {
                        lemma_parse_error_persists(lv, limit_u32, i + 1);
                    }
                    return Err(GraphError::VertexIdTooLarge);
                }
                es.push(e);
            },
        }
        i = i + 1;
    }
    assert(lv.take(lines@.len() as int) =~= lv);
    Ok(es)
}

/// Once a prefix of the lines fails, the whole list fails with the same error.
proof fn lemma_parse_error_persists(lines: Seq<Seq<char>>, limit_u32: bool, k: int)
    requires
        0 <= k <= lines.len(),
        parse_edge_lines(lines.take(k), limit_u32) is Err,
    ensures
        parse_edge_lines(lines, limit_u32) == parse_edge_lines(lines.take(k), limit_u32),
    decreases lines.len(),
{
    if k == lines.len() {
        assert(lines.take(k) =~= lines);
    } else {
        assert(lines.drop_last().take(k) =~= lines.take(k));
        lemma_parse_error_persists(lines.drop_last(), limit_u32, k);
    }
}

} // verus!

verus! {

/// With the `u32` limit, every id of a parsed edge list fits in `u32`.
pub proof fn lemma_parsed_ids_fit(lines: Seq<Seq<char>>)
    requires
        parse_edge_lines(lines, true) is Ok,
    ensures
        forall|i: int|
            0 <= i < parse_edge_lines(lines, true).unwrap().len() ==> (#[trigger] parse_edge_lines(
                lines,
                true,
            ).unwrap()[i]).0 <= u32::MAX && parse_edge_lines(lines, true).unwrap()[i].1 <= u32::MAX,
    decreases lines.len(),
{
    if lines.len() > 0 {
        lemma_parsed_ids_fit(lines.drop_last());
    }
}

} // verus!

verus! {

/// Every character of `s` is white space.
pub open spec fn all_ws(s: Seq<char>) -> bool {
    forall|i: int| 0 <= i < s.len() ==> #[trigger] is_ws(s[i])
}

/// No character of `s` is white space.
pub open spec fn no_ws(s: Seq<char>) -> bool {
    forall|i: int| 0 <= i < s.len() ==> !#[trigger] is_ws(s[i])
}

/// A string that ends in a non-white-space character has a field.
proof fn lemma_words_nonempty(s: Seq<char>)
    requires
        s.len() > 0,
        !is_ws(s.last()),
    ensures
        words(s).len() > 0,
    decreases s.len(),
{
    if s.len() >= 2 && !is_ws(s[s.len() - 2]) {
        assert(s.drop_last().last() == s[s.len() - 2]);
        lemma_words_nonempty(s.drop_last());
    }
}

/// A string made of white space alone has no field.
pub proof fn lemma_words_of_blank(s: Seq<char>)
    requires
        all_ws(s),
    ensures
        words(s) == Seq::<Seq<char>>::empty(),
    decreases s.len(),
{
    if s.len() > 0 {
        assert(is_ws(s[s.len() - 1]));
        lemma_words_of_blank(s.drop_last());
    }
}

/// A non-empty string without white space is a single field: itself.
pub proof fn lemma_words_of_field(s: Seq<char>)
    requires
        s.len() > 0,
        no_ws(s),
    ensures
        words(s) == seq![s],
    decreases s.len(),
{
    assert(!is_ws(s[s.len() - 1]));
    if s.len() == 1 {
        assert(s.drop_last() =~= Seq::<char>::empty());
        assert(words(s.drop_last()) == Seq::<Seq<char>>::empty());
        assert(s =~= seq![s.last()]);
        assert(words(s) == Seq::<Seq<char>>::empty().push(seq![s.last()]));
        assert(Seq::<Seq<char>>::empty().push(seq![s.last()]) =~= seq![s]);
    } else {
        let t = s.drop_last();
        assert(!is_ws(s[s.len() - 2]));
        lemma_words_of_field(t);
        let w = words(t);
        assert(w.len() == 1 && w.last() == t);
        assert(t.push(s.last()) =~= s);
        assert(words(s) == w.update(0, t.push(s.last())));
        assert(w.update(0, t.push(s.last())) =~= seq![s]);
    }
}

/// The fields of a string are non-empty and hold no white space.
pub proof fn lemma_words_are_fields(s: Seq<char>)
    ensures
        forall|k: int|
            0 <= k < words(s).len() ==> (#[trigger] words(s)[k]).len() > 0 && no_ws(words(s)[k]),
    decreases s.len(),
{
    if s.len() > 0 {
        lemma_words_are_fields(s.drop_last());
        let w = words(s.drop_last());
        let c = s.last();
        if !is_ws(c) && s.len() >= 2 && !is_ws(s[s.len() - 2]) {
            assert(s.drop_last().last() == s[s.len() - 2]);
            lemma_words_nonempty(s.drop_last());
            assert forall|k: int| 0 <= k < words(s).len() implies (#[trigger] words(s)[k]).len() > 0 && no_ws(
                words(s)[k],
            ) by {
                if k == w.len() - 1 {
                    assert(words(s)[k] == w.last().push(c));
                    assert forall|i: int| 0 <= i < words(s)[k].len() implies !#[trigger] is_ws(words(s)[k][i]) by {
                        if i < w.last().len() {
                            assert(words(s)[k][i] == w[k][i]);
                        }
                    }
                } else {
                    assert(words(s)[k] == w[k]);
                }
            }
        } else if !is_ws(c) {
            assert forall|k: int| 0 <= k < words(s).len() implies (#[trigger] words(s)[k]).len() > 0 && no_ws(
                words(s)[k],
            ) by {
                if k == w.len() {
                    assert(words(s)[k] == seq![c]);
                } else {
                    assert(words(s)[k] == w[k]);
                }
            }
        }
    }
}

/// White space splits fields: the fields of `a`, a white-space character and
/// `b` are the fields of `a` followed by those of `b`.
pub proof fn lemma_words_split(a: Seq<char>, c: char, b: Seq<char>)
    requires
        is_ws(c),
    ensures
        words(a + seq![c] + b) == words(a) + words(b),
    decreases b.len(),
{
    let s = a + seq![c] + b;
    if b.len() == 0 {
        assert(s.drop_last() =~= a);
        assert(s.last() == c);
        assert(words(a) + words(b) =~= words(a));
    } else {
        let b0 = b.drop_last();
        let x = b.last();
        lemma_words_split(a, c, b0);
        let s0 = a + seq![c] + b0;
        assert(s.drop_last() =~= s0);
        assert(s.last() == x);
        let wa = words(a);
        let wb0 = words(b0);
        if is_ws(x) {
        } else if b0.len() == 0 {
            assert(s[s.len() - 2] == c);
            assert(wb0 =~= Seq::<Seq<char>>::empty());
            assert(words(b) == wb0.push(seq![x]));
            assert(words(s) == words(s0).push(seq![x]));
            assert(wa + wb0 =~= wa);
            assert(wa.push(seq![x]) =~= wa + wb0.push(seq![x]));
        } else {
            assert(s[s.len() - 2] == b0.last());
            assert(b[b.len() - 2] == b0.last());
            if is_ws(b0.last()) {
                assert((wa + wb0).push(seq![x]) =~= wa + wb0.push(seq![x]));
            } else {
                lemma_words_nonempty(b0);
                let w = wa + wb0;
                assert(w.last() == wb0.last());
                assert(w.update(w.len() - 1, w.last().push(x)) =~= wa + wb0.update(
                    wb0.len() - 1,
                    wb0.last().push(x),
                ));
            }
        }
    }
}

/// Trailing white space adds no field.
proof fn lemma_words_trailing_blank(a: Seq<char>, q: Seq<char>)
    requires
        all_ws(q),
    ensures
        words(a + q) == words(a),
    decreases q.len(),
{
    if q.len() > 0 {
        assert(is_ws(q[q.len() - 1]));
        assert((a + q).drop_last() =~= a + q.drop_last());
        lemma_words_trailing_blank(a, q.drop_last());
    }
}

/// Any non-empty run of white space separates fields in the same way: the
/// fields of `a`, the run `q` and `b` are the fields of `a` followed by those
/// of `b`, however long the run is.
pub proof fn lemma_words_split_at_blank(a: Seq<char>, q: Seq<char>, b: Seq<char>)
    requires
        q.len() > 0,
        all_ws(q),
    ensures
        words(a + q + b) == words(a) + words(b),
{
    let q0 = q.drop_last();
    let c = q.last();
    assert(is_ws(q[q.len() - 1]));
    assert(a + q + b =~= (a + q0) + seq![c] + b);
    lemma_words_split(a + q0, c, b);
    lemma_words_trailing_blank(a, q0);
}

/// Digits are not white space.
proof fn lemma_digits_no_ws(d: Seq<char>)
    requires
        all_digits(d),
    ensures
        no_ws(d),
{
    assert forall|i: int| 0 <= i < d.len() implies !#[trigger] is_ws(d[i]) by {
        assert(is_digit(d[i]));
    }
}

/// A line made of two decimal numbers separated by white space, with any
/// white space before and after, is the edge between those numbers.
pub proof fn lemma_parse_edge_of_numbers(p: Seq<char>, d1: Seq<char>, q: Seq<char>, d2: Seq<char>, r: Seq<char>)
    requires
        all_ws(p),
        q.len() > 0,
        all_ws(q),
        all_ws(r),
        d1.len() > 0,
        all_digits(d1),
        digits_value(d1) <= u64::MAX,
        d2.len() > 0,
        all_digits(d2),
        digits_value(d2) <= u64::MAX,
    ensures
        parse_edge_spec(p + d1 + q + d2 + r) == Ok::<(u64, u64), EdgeErrorKind>(
            (digits_value(d1) as u64, digits_value(d2) as u64),
        ),
{
    let line = p + d1 + q + d2 + r;
    lemma_digits_no_ws(d1);
    lemma_digits_no_ws(d2);
    lemma_words_trailing_blank(p + d1 + q + d2, r);
    lemma_words_split_at_blank(p + d1, q, d2);
    lemma_words_of_field(d1);
    lemma_words_of_field(d2);
    if p.len() > 0 {
        lemma_words_split_at_blank(Seq::<char>::empty(), p, d1);
        assert(Seq::<char>::empty() + p + d1 =~= p + d1);
        assert(words(Seq::<char>::empty()) + words(d1) =~= words(d1));
    } else {
        assert(p + d1 =~= d1);
    }
    assert(words(line) =~= seq![d1, d2]);
    assert(is_digit(d1[0]) && is_digit(d2[0]));
    assert(unsigned_digits(d1) == d1);
    assert(unsigned_digits(d2) == d2);
}

/// Widening or narrowing the white space between two parts of a line does
/// not change what the line parses to.
pub proof fn lemma_parse_edge_blank_width(a: Seq<char>, q1: Seq<char>, q2: Seq<char>, b: Seq<char>)
    requires
        q1.len() > 0,
        all_ws(q1),
        q2.len() > 0,
        all_ws(q2),
    ensures
        parse_edge_spec(a + q1 + b) == parse_edge_spec(a + q2 + b),
{
    lemma_words_split_at_blank(a, q1, b);
    lemma_words_split_at_blank(a, q2, b);
}

} // verus!
