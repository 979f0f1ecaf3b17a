//! The text of one chunk: trimmed, split into fields on single spaces, each
//! field an integer; and the way a sequence of integers is written back.

use vstd::prelude::*;
use crate::numbers::{
    field_value, is_digit, lemma_render_parses, parse_field, parses_as_i64, push_int, render_int,
};

verus! {

/// ASCII whitespace: space, tab, line feed, vertical tab, form feed, carriage
/// return.
pub open spec fn is_space(b: u8) -> bool {
    b == 32 || (9 <= b <= 13)
}

/// The UTF-8 encoding of a two-byte whitespace character: U+0085 (next line)
/// or U+00A0 (no-break space).
pub open spec fn is_narrow_space(a: u8, b: u8) -> bool {
    a == 0xC2 && (b == 0x85 || b == 0xA0)
}

/// The UTF-8 encoding of a three-byte whitespace character: U+1680, U+2000
/// to U+200A, U+2028, U+2029, U+202F, U+205F or U+3000.
pub open spec fn is_wide_space(a: u8, b: u8, c: u8) -> bool {
    ||| a == 0xE1 && b == 0x9A && c == 0x80
    ||| a == 0xE2 && b == 0x80 && ((0x80 <= c <= 0x8A) || c == 0xA8 || c == 0xA9 || c == 0xAF)
    ||| a == 0xE2 && b == 0x81 && c == 0x9F
    ||| a == 0xE3 && b == 0x80 && c == 0x80
}

/// The length in bytes of the whitespace character that `s` starts with, or
/// 0 where it starts with none.
pub open spec fn leading_space_len(s: Seq<u8>) -> nat {
    if s.len() >= 1 && is_space(s[0]) {
        1
    } else if s.len() >= 2 && is_narrow_space(s[0], s[1]) {
        2
    } else if s.len() >= 3 && is_wide_space(s[0], s[1], s[2]) {
        3
    } else {
        0
    }
}

/// The length in bytes of the whitespace character that `s` ends with, or 0
/// where it ends with none.
pub open spec fn trailing_space_len(s: Seq<u8>) -> nat {
    let n = s.len();
    if n >= 1 && is_space(s[n - 1]) {
        1
    } else if n >= 2 && is_narrow_space(s[n - 2], s[n - 1]) {
        2
    } else if n >= 3 && is_wide_space(s[n - 3], s[n - 2], s[n - 1]) {
        3
    } else {
        0
    }
}

/// `s` without its leading whitespace.
pub open spec fn trim_start(s: Seq<u8>) -> Seq<u8>
    decreases s.len(),
{
    if leading_space_len(s) > 0 {
        trim_start(s.skip(leading_space_len(s) as int))
    } else {
        s
    }
}

/// `s` without its trailing whitespace.
pub open spec fn trim_end(s: Seq<u8>) -> Seq<u8>
    decreases s.len(),
{
    if trailing_space_len(s) > 0 {
        trim_end(s.take(s.len() - trailing_space_len(s)))
    } else {
        s
    }
}

/// `s` without leading and trailing whitespace.
pub open spec fn trim(s: Seq<u8>) -> Seq<u8> {
    trim_end(trim_start(s))
}

/// The pieces of `s` between single spaces, in order; an empty `s` is one
/// empty piece, and two spaces in a row leave an empty piece between them.
pub open spec fn split_spaces(s: Seq<u8>) -> Seq<Seq<u8>>
    decreases s.len(),
{
    if s.len() == 0 {
        seq![Seq::empty()]
    } else {
        let prev = split_spaces(s.drop_last());
        if s.last() == 32 {
            prev.push(Seq::empty())
        } else {
            prev.update(prev.len() - 1, prev.last().push(s.last()))
        }
    }
}

/// The fields of a chunk's content.
pub open spec fn chunk_fields(content: Seq<u8>) -> Seq<Seq<u8>> {
    split_spaces(trim(content))
}

/// Every field of the chunk is an `i64`.
pub open spec fn all_fields_parse(content: Seq<u8>) -> bool {
    forall|k: int| 0 <= k < chunk_fields(content).len() ==> parses_as_i64(#[trigger] chunk_fields(content)[k])
}

/// The integers of a chunk's fields, in order.
pub open spec fn chunk_values(content: Seq<u8>) -> Seq<i64> {
    chunk_fields(content).map_values(|f: Seq<u8>| field_value(f) as i64)
}

/// The pieces joined by single spaces.
pub open spec fn join_spaces(fs: Seq<Seq<u8>>) -> Seq<u8>
    decreases fs.len(),
{
    if fs.len() == 0 {
        Seq::empty()
    } else if fs.len() == 1 {
        fs[0]
    } else {
        join_spaces(fs.drop_last()) + seq![32u8] + fs.last()
    }
}

/// The text of a sequence of integers: each one's decimal text, separated by
/// single spaces, with nothing before the first or after the last.
pub open spec fn render_values(xs: Seq<i64>) -> Seq<u8> {
    join_spaces(xs.map_values(|x: i64| render_int(x as int)))
}

/// No byte of `s` is a space.
pub open spec fn has_no_space(s: Seq<u8>) -> bool {
    forall|i: int| 0 <= i < s.len() ==> #[trigger] s[i] != 32
}

proof fn lemma_split_append(x: Seq<u8>, b: Seq<u8>)
    requires
        has_no_space(b),
    ensures
        split_spaces(x + b) == split_spaces(x).update(
            split_spaces(x).len() - 1,
            split_spaces(x).last() + b,
        ),
        split_spaces(x).len() > 0,
    decreases b.len(),
{
    lemma_split_nonempty(x);
    if b.len() == 0 {
        assert(x + b =~= x);
        assert(split_spaces(x).last() + b =~= split_spaces(x).last());
        assert(split_spaces(x).update(split_spaces(x).len() - 1, split_spaces(x).last())
            =~= split_spaces(x));
    } else {
        let b0 = b.drop_last();
        lemma_split_append(x, b0);
        assert((x + b).drop_last() =~= x + b0);
        assert((x + b).last() == b.last());
        assert(b[b.len() - 1] != 32);
        let p = split_spaces(x + b0);
        let q = split_spaces(x);
        assert(p.len() == q.len());
        assert(p.last() == q.last() + b0);
        assert(split_spaces(x + b) == p.update(p.len() - 1, p.last().push(b.last())));
        assert(q.last() + b0 + seq![b.last()] =~= q.last() + b);
        assert(p.last().push(b.last()) =~= q.last() + b);
        assert(split_spaces(x + b) =~= split_spaces(x).update(
            split_spaces(x).len() - 1,
            split_spaces(x).last() + b,
        ));
    }
}

pub(crate) proof fn lemma_split_nonempty(s: Seq<u8>)
    ensures
        split_spaces(s).len() > 0,
    decreases s.len(),
{
    if s.len() > 0 {
        lemma_split_nonempty(s.drop_last());
    }
}

/// Splitting pieces joined by single spaces gives the pieces back.
proof fn lemma_split_join(fs: Seq<Seq<u8>>)
    requires
        fs.len() > 0,
        forall|k: int| 0 <= k < fs.len() ==> has_no_space(#[trigger] fs[k]),
    ensures
        split_spaces(join_spaces(fs)) == fs,
    decreases fs.len(),
{
    if fs.len() == 1 {
        lemma_split_append(Seq::empty(), fs[0]);
        assert(Seq::<u8>::empty() + fs[0] =~= fs[0]);
        assert(split_spaces(fs[0]) =~= fs);
    } else {
        let f0 = fs.drop_last();
        lemma_split_join(f0);
        let j = join_spaces(f0) + seq![32u8];
        assert(j.drop_last() =~= join_spaces(f0));
        assert(split_spaces(j) == f0.push(Seq::empty()));
        lemma_split_append(j, fs.last());
        assert(Seq::<u8>::empty() + fs.last() =~= fs.last());
        assert(split_spaces(j + fs.last()) =~= fs);
    }
}

proof fn lemma_join_ends(fs: Seq<Seq<u8>>)
    requires
        fs.len() > 0,
        forall|k: int| 0 <= k < fs.len() ==> (#[trigger] fs[k]).len() > 0,
    ensures
        join_spaces(fs).len() > 0,
        join_spaces(fs)[0] == fs[0][0],
        join_spaces(fs).last() == fs.last().last(),
    decreases fs.len(),
{
    if fs.len() > 1 {
        lemma_join_ends(fs.drop_last());
    }
}

/// The text of integers is its own trimmed form, and its fields are the
/// integers' texts: reading it gives the integers back.
pub proof fn lemma_render_reads_back(xs: Seq<i64>)
    requires
        xs.len() > 0,
    ensures
        all_fields_parse(render_values(xs)),
        chunk_values(render_values(xs)) == xs,
{
    let rs = xs.map_values(|x: i64| render_int(x as int));
    let out = render_values(xs);
    assert forall|k: int| 0 <= k < rs.len() implies has_no_space(#[trigger] rs[k]) && rs[k].len() > 0 by {
        lemma_render_parses(xs[k]);
        assert forall|i: int| 0 <= i < rs[k].len() implies #[trigger] rs[k][i] != 32 by {
            assert(rs[k][i] == 45 || is_digit(rs[k][i]));
        }
    }
    lemma_join_ends(rs);
    lemma_render_parses(xs[0]);
    lemma_render_parses(xs.last());
    assert(rs[0] == render_int(xs[0] as int));
    assert(rs.last() == render_int(xs.last() as int));
    assert(leading_space_len(out) == 0) by {
        assert(out[0] == 45 || is_digit(out[0]));
    }
    assert(trailing_space_len(out) == 0);
    assert(trim_start(out) == out);
    assert(trim_end(out) == out);
    lemma_split_join(rs);
    assert(chunk_fields(out) == rs);
    assert forall|k: int| 0 <= k < chunk_fields(out).len() implies parses_as_i64(
        #[trigger] chunk_fields(out)[k],
    ) by {
        lemma_render_parses(xs[k]);
    }
    assert forall|k: int| 0 <= k < xs.len() implies chunk_values(out)[k] == xs[k] by {
        lemma_render_parses(xs[k]);
    }
    assert(chunk_values(out) =~= xs);
}

/// A field that is not an integer.
#[derive(Clone, Copy, Debug, PartialEq, Eq, Structural)]
pub struct ParseError {
    /// The position of the offending field among the chunk's fields.
    pub field_index: usize,
}

fn byte_is_space(b: u8) -> (r: bool)
    ensures
        r == is_space(b),
{
    b == 32 || (9 <= b && b <= 13)
}

fn bytes_are_wide_space(a: u8, b: u8, c: u8) -> (r: bool)
    ensures
        r == is_wide_space(a, b, c),
{
    (a == 0xE1 && b == 0x9A && c == 0x80) || (a == 0xE2 && b == 0x80 && ((0x80 <= c && c <= 0x8A)
        || c == 0xA8 || c == 0xA9 || c == 0xAF)) || (a == 0xE2 && b == 0x81 && c == 0x9F) || (a
        == 0xE3 && b == 0x80 && c == 0x80)
}

/// The length of the whitespace character that `s[lo..hi]` starts with.
fn leading_space_at(s: &[u8], lo: usize, hi: usize) -> (r: usize)
    requires
        lo <= hi <= s@.len(),
    ensures
        r == leading_space_len(s@.subrange(lo as int, hi as int)),
{
    let n = hi - lo;
    if n >= 1 && byte_is_space(s[lo]) {
        1
    } else if n >= 2 && s[lo] == 0xC2 && (s[lo + 1] == 0x85 || s[lo + 1] == 0xA0) {
        2
    } else if n >= 3 && bytes_are_wide_space(s[lo], s[lo + 1], s[lo + 2]) {
        3
    } else {
        0
    }
}

/// The length of the whitespace character that `s[lo..hi]` ends with.
fn trailing_space_at(s: &[u8], lo: usize, hi: usize) -> (r: usize)
    requires
        lo <= hi <= s@.len(),
    ensures
        r == trailing_space_len(s@.subrange(lo as int, hi as int)),
{
    let n = hi - lo;
    if n >= 1 && byte_is_space(s[hi - 1]) {
        1
    } else if n >= 2 && s[hi - 2] == 0xC2 && (s[hi - 1] == 0x85 || s[hi - 1] == 0xA0) {
        2
    } else if n >= 3 && bytes_are_wide_space(s[hi - 3], s[hi - 2], s[hi - 1]) {
        3
    } else {
        0
    }
}

/// The bounds of `trim(s)` within `s`.
fn trim_bounds(s: &[u8]) -> (r: (usize, usize))
    ensures
        r.0 <= r.1 <= s@.len(),
        trim(s@) == s@.subrange(r.0 as int, r.1 as int),
{
    let len = s.len();
    let mut lo: usize = 0;
    assert(s@.subrange(0, len as int) =~= s@);
    loop
        invariant
            lo <= len == s@.len(),
            trim_start(s@) == trim_start(s@.subrange(lo as int, len as int)),
        ensures
            lo <= len == s@.len(),
            trim_start(s@) == s@.subrange(lo as int, len as int),
        decreases len - lo,
    {
        let k = leading_space_at(s, lo, len);
        if k == 0 {
            break;
        }
        assert(s@.subrange(lo as int, len as int).skip(k as int) =~= s@.subrange(
            lo + k,
            len as int,
        ));
        lo = lo + k;
    }
    let mut hi: usize = len;
    loop
        invariant
            lo <= hi <= len == s@.len(),
            trim(s@) == trim_end(s@.subrange(lo as int, hi as int)),
        ensures
            lo <= hi <= len == s@.len(),
            trim(s@) == s@.subrange(lo as int, hi as int),
        decreases hi - lo,
    {
        let k = trailing_space_at(s, lo, hi);
        if k == 0 {
            break;
        }
        assert(s@.subrange(lo as int, hi as int).take(hi - lo - k) =~= s@.subrange(
            lo as int,
            hi - k,
        ));
        hi = hi - k;
    }
    (lo, hi)
}

/// The bounds of each field of the chunk within `s`.
fn field_bounds(s: &[u8]) -> (r: Vec<(usize, usize)>)
    ensures
        r@.len() == chunk_fields(s@).len(),
        forall|k: int|
            0 <= k < r@.len() ==> {
                &&& (#[trigger] r@[k]).0 <= r@[k].1 <= s@.len()
                &&& chunk_fields(s@)[k] == s@.subrange(r@[k].0 as int, r@[k].1 as int)
            },
{
    let (lo, hi) = trim_bounds(s);
    let mut bounds: Vec<(usize, usize)> = Vec::new();
    let mut start: usize = lo;
    let mut i: usize = lo;
    assert(s@.subrange(lo as int, lo as int).len() == 0);
    while i < hi
        invariant
            lo <= start <= i <= hi <= s@.len(),
            trim(s@) == s@.subrange(lo as int, hi as int),
            split_spaces(s@.subrange(lo as int, i as int)).len() == bounds@.len() + 1,
            split_spaces(s@.subrange(lo as int, i as int)).last() == s@.subrange(start as int, i as int),
            forall|k: int|
                0 <= k < bounds@.len() ==> {
                    &&& (#[trigger] bounds@[k]).0 <= bounds@[k].1 <= s@.len()
                    &&& split_spaces(s@.subrange(lo as int, i as int))[k] == s@.subrange(
                        bounds@[k].0 as int,
                        bounds@[k].1 as int,
                    )
                },
        decreases hi - i,
    {
        let ghost prev = s@.subrange(lo as int, i as int);
        let ghost next = s@.subrange(lo as int, i + 1);
        assert(next.drop_last() =~= prev);
        if s[i] == 32 {
            bounds.push((start, i));
            start = i + 1;
        } else {
            assert(s@.subrange(start as int, i as int).push(s[i as int]) =~= s@.subrange(start as int, i + 1));
        }
        i = i + 1;
    }
    bounds.push((start, hi));
    bounds
}

/// Reads the integers of a chunk: its content trimmed of whitespace and split
/// on single spaces, each field an `i64`. Fails at the first field that is
/// not one.
pub fn parse_chunk(content: &[u8]) -> (r: Result<Vec<i64>, ParseError>)
    ensures
        r is Ok <==> all_fields_parse(content@),
        r matches Ok(v) ==> v@ == chunk_values(content@),
        r matches Err(e) ==> {
            &&& e.field_index < chunk_fields(content@).len()
            &&& !parses_as_i64(chunk_fields(content@)[e.field_index as int])
            &&& forall|k: int| 0 <= k < e.field_index ==> parses_as_i64(#[trigger] chunk_fields(content@)[k])
        },
{
    let bounds = field_bounds(content);
    let ghost fields = chunk_fields(content@);
    let mut values: Vec<i64> = Vec::new();
    let mut k: usize = 0;
    while k < bounds.len()
        invariant
            k <= bounds@.len() == fields.len(),
            fields == chunk_fields(content@),
            values@.len() == k,
            forall|j: int|
                0 <= j < bounds@.len() ==> {
                    &&& (#[trigger] bounds@[j]).0 <= bounds@[j].1 <= content@.len()
                    &&& fields[j] == content@.subrange(bounds@[j].0 as int, bounds@[j].1 as int)
                },
            forall|j: int| 0 <= j < k ==> parses_as_i64(#[trigger] fields[j]),
            forall|j: int| 0 <= j < k ==> values@[j] == field_value(#[trigger] fields[j]) as i64,
        decreases bounds@.len() - k,
    {
        let (a, b) = bounds[k];
        match parse_field(content, a, b) {
            None => {
                return Err(ParseError { field_index: k });
            },
            Some(v) => {
                values.push(v);
            },
        }
        k = k + 1;
    }
    assert(values@ =~= chunk_values(content@));
    Ok(values)
}

/// Writes a sequence of integers as text: decimal, separated by single spaces.
pub fn render_chunk(values: &Vec<i64>) -> (r: Vec<u8>)
    ensures
        r@ == render_values(values@),
{
    let mut out: Vec<u8> = Vec::new();
    let mut k: usize = 0;
    while k < values.len()
        invariant
            k <= values@.len(),
            out@ == render_values(values@.subrange(0, k as int)),
        decreases values@.len() - k,
    {
        let ghost before = values@.subrange(0, k as int).map_values(|x: i64| render_int(x as int));
        let ghost after = values@.subrange(0, k + 1).map_values(|x: i64| render_int(x as int));
        assert(after.drop_last() =~= before);
        if k > 0 {
            out.push(32);
        }
        push_int(&mut out, values[k]);
        assert(out@ =~= render_values(values@.subrange(0, k + 1)));
        k = k + 1;
    }
    assert(values@.subrange(0, values@.len() as int) =~= values@);
    out
}

} // verus!
