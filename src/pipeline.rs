//! The run's configuration and the decisions of its two stages: where each
//! chunk goes and when the splitter stops reading, and what each chunk's
//! content becomes once sorted.

use vstd::prelude::*;
use crate::chunk_text::{
    all_fields_parse, chunk_fields, chunk_values, lemma_render_reads_back, lemma_split_nonempty,
    parse_chunk, render_chunk, render_values, trim, ParseError,
};
use crate::numbers::{digits_of, parses_as_i64};
use crate::sorting::{lemma_sort_values, lemma_sorted_unique, sort_values, sorted};
use crate::split::final_read;

verus! {

/// The capacity of a chunk, in bytes, unless configured otherwise.
pub const DEFAULT_CAPACITY: usize = 65535;

/// The largest number of chunks one run writes, unless configured otherwise.
pub const DEFAULT_CEILING: usize = 65535;

/// The decimal text of `n`, as characters.
pub open spec fn decimal_chars(n: nat) -> Seq<char> {
    digits_of(n).map_values(|b: u8| b as char)
}

/// The path of chunk `idx` inside `folder`: `<folder>/chunk_<idx>.txt`.
pub open spec fn chunk_path(folder: Seq<char>, idx: nat) -> Seq<char> {
    folder + seq!['/', 'c', 'h', 'u', 'n', 'k', '_'] + decimal_chars(idx) + seq!['.', 't', 'x', 't']
}

/// Relies on `ToString` for `usize` (its `Display`): the number in decimal,
/// without sign or leading zeros.
#[verifier::external_body]
fn decimal_text(n: usize) -> (r: String)
    ensures
        r@ == decimal_chars(n as nat),
{
    n.to_string()
}

/// The chunk is a sequence of integers, and sorting it gives `out`.
pub open spec fn sorts_to(content: Seq<u8>, out: Seq<u8>) -> bool {
    &&& all_fields_parse(content)
    &&& out == render_values(sort_values(chunk_values(content)))
}

/// Field `k` of the chunk is the first one that is not an integer.
pub open spec fn first_bad_field(content: Seq<u8>, k: int) -> bool {
    &&& 0 <= k < chunk_fields(content).len()
    &&& !parses_as_i64(chunk_fields(content)[k])
    &&& forall|j: int| 0 <= j < k ==> parses_as_i64(#[trigger] chunk_fields(content)[j])
}

/// A run over one source file: where the source is, where its chunks go, how
/// large a chunk may be and how many chunks there may be.
pub struct ProcessHugeFile {
    pub source: String,
    pub chunks_folder: String,
    pub capacity: usize,
    pub ceiling: usize,
}

impl ProcessHugeFile {
    /// A run over `source` with the default folder `chunks`, capacity and
    /// ceiling.
    pub fn new(source: String) -> (r: Self)
        ensures
            r.source@ == source@,
            r.chunks_folder@ == seq!['c', 'h', 'u', 'n', 'k', 's'],
            r.capacity == DEFAULT_CAPACITY,
            r.ceiling == DEFAULT_CEILING,
    {
        let folder = "chunks".to_owned();
        proof {
            reveal_strlit("chunks");
        }
        ProcessHugeFile {
            source,
            chunks_folder: folder,
            capacity: DEFAULT_CAPACITY,
            ceiling: DEFAULT_CEILING,
        }
    }

    /// The path of chunk `idx`.
    pub fn get_path_to_chunk_by_idx(&self, idx: usize) -> (r: String)
        ensures
            r@ == chunk_path(self.chunks_folder@, idx as nat),
    {
        let digits = decimal_text(idx);
        let mut r = self.chunks_folder.as_str().to_owned();
        r.append("/chunk_");
        r.append(digits.as_str());
        r.append(".txt");
        proof {
            reveal_strlit("/chunk_");
            reveal_strlit(".txt");
            assert(r@ =~= chunk_path(self.chunks_folder@, idx as nat));
        }
        r
    }

    /// Whether the splitter stops after writing chunk `index`, whose read
    /// gave `bytes_read` bytes.
    pub fn is_final_read(&self, index: usize, bytes_read: usize) -> (r: bool)
        ensures
            r == final_read(self.capacity as nat, self.ceiling as nat, index as nat, bytes_read as nat),
    {
        bytes_read < self.capacity || index >= self.ceiling || self.ceiling - index <= 1
    }

    /// Sorts `array` ascending, by passes that swap neighbours out of order,
    /// until a pass swaps none.
    pub fn internal_sort(&self, array: &mut Vec<i64>)
        ensures
            sorted(final(array)@),
            final(array)@.to_multiset() == old(array)@.to_multiset(),
            final(array)@ == sort_values(old(array)@),
    {
        broadcast use vstd::seq_lib::group_to_multiset_ensures;

        let n = array.len();
        let mut i: usize = 0;
        while i < n
            invariant
                n == array@.len(),
                i <= n,
                array@.to_multiset() == old(array)@.to_multiset(),
                forall|a: int, b: int| n - i <= a < b < n ==> array@[a] <= array@[b],
                forall|a: int, b: int| 0 <= a < n - i <= b < n ==> array@[a] <= array@[b],
            ensures
                sorted(array@),
                array@.to_multiset() == old(array)@.to_multiset(),
            decreases n - i,
        {
            let mut swapped = false;
            let mut j: usize = 0;
            while j < n - i - 1
                invariant
                    n == array@.len(),
                    i < n,
                    j <= n - i - 1,
                    array@.to_multiset() == old(array)@.to_multiset(),
                    forall|a: int, b: int| n - i <= a < b < n ==> array@[a] <= array@[b],
                    forall|a: int, b: int| 0 <= a < n - i <= b < n ==> array@[a] <= array@[b],
                    forall|a: int| 0 <= a <= j ==> array@[a] <= array@[j as int],
                    !swapped ==> forall|a: int| 0 <= a < j ==> #[trigger] array@[a] <= array@[a + 1],
                decreases n - i - 1 - j,
            {
                if array[j] > array[j + 1] {
                    let x = array[j];
                    let y = array[j + 1];
                    let ghost before = array@;
                    array.set(j, y);
                    array.set(j + 1, x);
                    proof {
                        let mid = before.update(j as int, y);
                        assert(array@ == mid.update(j + 1, x));
                        let m = before.to_multiset();
                        assert(before[j as int] == x && before[j + 1] == y);
                        vstd::seq_lib::to_multiset_update(before, j as int, y);
                        vstd::seq_lib::to_multiset_update(mid, j + 1, x);
                        assert(mid.to_multiset() == m.insert(y).remove(x));
                        assert(array@.to_multiset() == m.insert(y).remove(x).insert(x).remove(y));
                        assert(before.contains(x));
                        before.to_multiset_ensures();
                        assert(m.count(x) > 0);
                        assert(m.insert(y).remove(x).insert(x).remove(y) =~= m);
                    }
                    swapped = true;
                }
                j = j + 1;
            }
            if !swapped {
                proof {
                    lemma_adjacent_sorted(array@, (n - i) as int);
                }
                break;
            }
            i = i + 1;
        }
        proof {
            lemma_sort_values(old(array)@);
            lemma_sorted_unique(array@, sort_values(old(array)@));
        }
    }

    /// Sorts the integers of one chunk: the content is read as integers
    /// separated by single spaces, and written back in ascending order. Fails
    /// at the first field that is not an integer.
    pub fn sort_chunk(&self, content: &[u8]) -> (r: Result<Vec<u8>, ParseError>)
        ensures
            r is Ok <==> all_fields_parse(content@),
            r matches Ok(out) ==> sorts_to(content@, out@),
            r matches Err(e) ==> first_bad_field(content@, e.field_index as int),
    {
        match parse_chunk(content) {
            Err(e) => Err(e),
            Ok(mut values) => {
                self.internal_sort(&mut values);
                Ok(render_chunk(&values))
            },
        }
    }
}

/// A chunk the sorter rewrote reads back as integers in non-decreasing order,
/// the same integers as before, each as often.
pub proof fn lemma_sorted_chunk(content: Seq<u8>, out: Seq<u8>)
    requires
        sorts_to(content, out),
    ensures
        all_fields_parse(out),
        sorted(chunk_values(out)),
        chunk_values(out).to_multiset() == chunk_values(content).to_multiset(),
{
    broadcast use vstd::seq_lib::group_to_multiset_ensures;

    let xs = chunk_values(content);
    let ys = sort_values(xs);
    lemma_sort_values(xs);
    lemma_split_nonempty(trim(content));
    assert(xs.len() == xs.to_multiset().len());
    assert(ys.len() == ys.to_multiset().len());
    lemma_render_reads_back(ys);
}

/// Sorting a chunk a second time gives the same bytes: what the sorter wrote
/// sorts to itself.
pub proof fn lemma_sort_idempotent(content: Seq<u8>, out: Seq<u8>)
    requires
        sorts_to(content, out),
    ensures
        sorts_to(out, out),
{
    lemma_sorted_chunk(content, out);
    let ys = chunk_values(out);
    lemma_sort_values(ys);
    lemma_sorted_unique(sort_values(ys), ys);
    lemma_sort_values(chunk_values(content));
    lemma_sorted_unique(sort_values(chunk_values(content)), ys);
}

/// Neighbours in order up to `hi`, and everything from `hi` on sorted and no
/// smaller than what comes before: the whole sequence is sorted.
proof fn lemma_adjacent_sorted(s: Seq<i64>, hi: int)
    requires
        0 <= hi <= s.len(),
        forall|a: int| 0 <= a < hi - 1 ==> #[trigger] s[a] <= s[a + 1],
        forall|a: int, b: int| hi <= a < b < s.len() ==> s[a] <= s[b],
        forall|a: int, b: int| 0 <= a < hi <= b < s.len() ==> s[a] <= s[b],
    ensures
        sorted(s),
{
    assert forall|a: int, b: int| 0 <= a < b < s.len() implies s[a] <= s[b] by {
        if b < hi {
            lemma_adjacent_chain(s, a, b);
        }
    }
}

proof fn lemma_adjacent_chain(s: Seq<i64>, a: int, b: int)
    requires
        0 <= a <= b < s.len(),
        forall|k: int| a <= k < b ==> #[trigger] s[k] <= s[k + 1],
    ensures
        s[a] <= s[b],
    decreases b - a,
{
    if a < b {
        lemma_adjacent_chain(s, a, b - 1);
    }
}

} // verus!
