//! The search engine: evaluates a textual query against an index by a
//! full scan over every block and entry, matching the lower-cased query
//! as a substring of each lower-cased file name, de-duplicating by full
//! path, capping the result list and sorting it by lower-cased name.

use vstd::prelude::*;

use crate::ascii::{contains_bytes, has_substring, lex_le, lemma_lex_le_total, lemma_lex_le_trans,
    lower_bytes, to_lower};
use crate::entry::{spec_decompress_date, spec_decompress_size};
use crate::index::EverythingIndex;
use crate::path_codec::{spec_path_file_name, FilePath};

verus! {

/// The most results one query returns.
pub const MAX_DISPLAY_RESULTS: usize = 100;

/// One search hit: the file name, the full path, and the approximate
/// size and modification time (seconds since the Unix epoch) stored in
/// the index.
pub struct SearchResult {
    pub name: Vec<u8>,
    pub path: FilePath,
    pub size: u64,
    pub is_dir: bool,
    pub modified: u64,
}

/// The key results are ordered by: the lower-cased file name.
pub open spec fn result_key(r: SearchResult) -> Seq<u8> {
    lower_bytes(r.name@)
}

/// Whether a result list is ordered by lower-cased name, ascending.
pub open spec fn results_sorted(s: Seq<SearchResult>) -> bool {
    forall|a: int, b: int|
        0 <= a <= b < s.len() ==> lex_le(result_key(#[trigger] s[a]), result_key(#[trigger] s[b]))
}

/// Whether no two results carry the same path.
pub open spec fn results_distinct(s: Seq<SearchResult>) -> bool {
    forall|a: int, b: int| 0 <= a < b < s.len() ==> (#[trigger] s[a]).path@ != (#[trigger] s[b]).path@
}

/// Whether `r` reports one indexed entry whose lower-cased file name
/// holds `lq` as a substring, with the fields the index stores for it.
pub open spec fn spec_result_ok(ix: EverythingIndex, lq: Seq<u8>, r: SearchResult) -> bool {
    exists|i: int, j: int|
        #![trigger ix.blocks@[i].entries@[j]]
        {
            &&& 0 <= i < ix.blocks@.len()
            &&& 0 <= j < ix.blocks@[i].entries@.len()
            &&& ix.blocks@[i].spec_paths()[j] == r.path@
            &&& r.name@ == spec_path_file_name(r.path@)
            &&& r.size == spec_decompress_size(ix.blocks@[i].entries@[j].size)
            &&& r.is_dir == ix.blocks@[i].entries@[j].spec_is_dir()
            &&& r.modified == spec_decompress_date(ix.blocks@[i].entries@[j].date)
            &&& has_substring(lower_bytes(spec_path_file_name(r.path@)), lq)
        }
}

/// Whether some indexed entry stores the path `p` and `p`'s lower-cased
/// file name holds `lq` as a substring.
pub open spec fn spec_indexed_match(ix: EverythingIndex, lq: Seq<u8>, p: Seq<Seq<u8>>) -> bool {
    exists|i: int, j: int|
        #![trigger ix.blocks@[i].spec_paths()[j]]
        {
            &&& 0 <= i < ix.blocks@.len()
            &&& 0 <= j < ix.blocks@[i].spec_paths().len()
            &&& ix.blocks@[i].spec_paths()[j] == p
            &&& has_substring(lower_bytes(spec_path_file_name(p)), lq)
        }
}

/// The engine itself carries no state; it reads the index it is given.
pub struct SearchEngine {}

impl SearchEngine {
    /// A search engine.
    pub fn new() -> (r: Self)
        ensures
            true,
    {
        SearchEngine {  }
    }

    /// Evaluates `query` against `index`: scans every block and entry,
    /// keeps entries whose lower-cased file name holds the lower-cased
    /// query as a substring, de-duplicates by full path, stops
    /// accumulating at the display cap, and sorts by lower-cased name.
    /// Every reported hit is a real indexed match; when the cap is not
    /// reached, every matching path is reported, each exactly once.
    pub fn search(&self, index: &EverythingIndex, query: &[u8]) -> (r: Vec<SearchResult>)
        requires
            index.wf(),
        ensures
            r@.len() <= MAX_DISPLAY_RESULTS,
            forall|k: int|
                0 <= k < r@.len() ==> spec_result_ok(*index, lower_bytes(query@), #[trigger] r@[k]),
            results_distinct(r@),
            results_sorted(r@),
            r@.len() < MAX_DISPLAY_RESULTS ==> forall|p: Seq<Seq<u8>>|
                spec_indexed_match(*index, lower_bytes(query@), p) ==> exists|k: int|
                    0 <= k < r@.len() && (#[trigger] r@[k]).path@ == p,
    {
        let lq = to_lower(query);
        let mut results: Vec<SearchResult> = Vec::new();
        let nb = index.blocks.len();
        let mut i: usize = 0;
        while i < nb && results.len() < MAX_DISPLAY_RESULTS
            invariant
                index.wf(),
                nb == index.blocks@.len(),
                i <= nb,
                lq@ == lower_bytes(query@),
                results@.len() <= MAX_DISPLAY_RESULTS,
                forall|k: int|
                    0 <= k < results@.len() ==> spec_result_ok(*index, lq@, #[trigger] results@[k]),
                results_distinct(results@),
                results@.len() < MAX_DISPLAY_RESULTS ==> forall|bi: int, ej: int|
                    #![trigger index.blocks@[bi].spec_paths()[ej]]
                    0 <= bi < i && 0 <= ej < index.blocks@[bi].spec_paths().len()
                        && has_substring(
                        lower_bytes(spec_path_file_name(index.blocks@[bi].spec_paths()[ej])),
                        lq@,
                    ) ==> exists|k: int|
                        0 <= k < results@.len() && (#[trigger] results@[k]).path@
                            == index.blocks@[bi].spec_paths()[ej],
            decreases nb - i,
        {
            let block = &index.blocks[i];
            let ne = block.entries.len();
            let mut j: usize = 0;
            while j < ne && results.len() < MAX_DISPLAY_RESULTS
                invariant
                    index.wf(),
                    nb == index.blocks@.len(),
                    i < nb,
                    block == &index.blocks@[i as int],
                    ne == block.entries@.len(),
                    j <= ne,
                    lq@ == lower_bytes(query@),
                    results@.len() <= MAX_DISPLAY_RESULTS,
                    forall|k: int|
                        0 <= k < results@.len() ==> spec_result_ok(
                            *index,
                            lq@,
                            #[trigger] results@[k],
                        ),
                    results_distinct(results@),
                    results@.len() < MAX_DISPLAY_RESULTS ==> forall|bi: int, ej: int|
                        #![trigger index.blocks@[bi].spec_paths()[ej]]
                        0 <= bi < i && 0 <= ej < index.blocks@[bi].spec_paths().len()
                            && has_substring(
                            lower_bytes(spec_path_file_name(index.blocks@[bi].spec_paths()[ej])),
                            lq@,
                        ) ==> exists|k: int|
                            0 <= k < results@.len() && (#[trigger] results@[k]).path@
                                == index.blocks@[bi].spec_paths()[ej],
                    results@.len() < MAX_DISPLAY_RESULTS ==> forall|ej: int|
                        0 <= ej < j && has_substring(
                            lower_bytes(
                                spec_path_file_name(#[trigger] index.blocks@[i as int].spec_paths()[ej]),
                            ),
                            lq@,
                        ) ==> exists|k: int|
                            0 <= k < results@.len() && (#[trigger] results@[k]).path@
                                == index.blocks@[i as int].spec_paths()[ej],
                decreases ne - j,
            {
                let e = block.entries[j];
                let path = match index.path_table.get_path(e.path_id) {
                    Some(p) => p,
                    None => {
                        proof {
                            assert(index.blocks@[i as int].entries@[j as int].path_id
                                < index.path_table@.len());
                        }
                        unreached()
                    },
                };
                proof {
                    assert(path@ == index.blocks@[i as int].spec_paths()[j as int]);
                }
                let name = path.file_name();
                let lname = to_lower(name.as_slice());
                let ghost results_prev = results@;
                let ghost this_path = index.blocks@[i as int].spec_paths()[j as int];
                let is_match = contains_bytes(lname.as_slice(), lq.as_slice());
                if is_match {
                    if !contains_path(&results, path) {
                        let hit = SearchResult {
                            name,
                            path: path.duplicate(),
                            size: e.decompress_size(),
                            is_dir: e.is_dir(),
                            modified: e.decompress_date(),
                        };
                        proof {
                            assert(spec_result_ok(*index, lq@, hit));
                        }
                        results.push(hit);
                        proof {
                            assert(results@.last().path@ == this_path);
                            assert forall|k: int|
                                0 <= k < results@.len() implies spec_result_ok(
                                *index,
                                lq@,
                                #[trigger] results@[k],
                            ) by {
                                if k < results@.len() - 1 {
                                    assert(results@[k] == results_prev[k]);
                                }
                            }
                        }
                    }
                }
                let ghost jj = j as int;
                j = j + 1;
                proof {
                    if results@.len() < MAX_DISPLAY_RESULTS {
                        assert forall|ej: int|
                            0 <= ej < j && has_substring(
                                lower_bytes(
                                    spec_path_file_name(
                                        #[trigger] index.blocks@[i as int].spec_paths()[ej],
                                    ),
                                ),
                                lq@,
                            ) implies exists|k: int|
                            0 <= k < results@.len() && (#[trigger] results@[k]).path@
                                == index.blocks@[i as int].spec_paths()[ej] by {
                            if ej == jj {
                                assert(lname@ == lower_bytes(spec_path_file_name(this_path)));
                                assert(is_match);
                                assert(exists|k: int|
                                    0 <= k < results@.len() && (#[trigger] results@[k]).path@
                                        == this_path);
                            } else {
                                let k0 = choose|k: int|
                                    0 <= k < results_prev.len() && (
                                    #[trigger] results_prev[k]).path@
                                        == index.blocks@[i as int].spec_paths()[ej];
                                assert(results@[k0].path@ == index.blocks@[
                                    i as int].spec_paths()[ej]);
                            }
                        }
                        assert forall|bi: int, ej: int|
                            #![trigger index.blocks@[bi].spec_paths()[ej]]
                            0 <= bi < i && 0 <= ej < index.blocks@[bi].spec_paths().len()
                                && has_substring(
                                lower_bytes(
                                    spec_path_file_name(index.blocks@[bi].spec_paths()[ej]),
                                ),
                                lq@,
                            ) implies exists|k: int|
                            0 <= k < results@.len() && (#[trigger] results@[k]).path@
                                == index.blocks@[bi].spec_paths()[ej] by {
                            let k0 = choose|k: int|
                                0 <= k < results_prev.len() && (#[trigger] results_prev[k]).path@
                                    == index.blocks@[bi].spec_paths()[ej];
                            assert(results@[k0].path@ == index.blocks@[bi].spec_paths()[ej]);
                        }
                    }
                }
            }
            i = i + 1;
            proof {
                if results@.len() < MAX_DISPLAY_RESULTS {
                    assert(j == ne);
                }
            }
        }
        proof {
            if results@.len() < MAX_DISPLAY_RESULTS {
                assert(i == nb);
                assert forall|p: Seq<Seq<u8>>|
                    spec_indexed_match(*index, lq@, p) implies exists|k: int|
                    0 <= k < results@.len() && (#[trigger] results@[k]).path@ == p by {
                    let (bi, ej): (int, int) = choose|bi: int, ej: int|
                        #![trigger index.blocks@[bi].spec_paths()[ej]]
                        {
                            &&& 0 <= bi < index.blocks@.len()
                            &&& 0 <= ej < index.blocks@[bi].spec_paths().len()
                            &&& index.blocks@[bi].spec_paths()[ej] == p
                            &&& has_substring(lower_bytes(spec_path_file_name(p)), lq@)
                        };
                    assert(0 <= bi < i);
                }
            }
        }
        sort_results(&mut results);
        results
    }
}

/// Law: a query whose lower-cased text occurs as a substring of no
/// indexed file name yields no results: every sound result list is
/// empty then.
pub proof fn lemma_no_match_empty(ix: EverythingIndex, lq: Seq<u8>, rs: Seq<SearchResult>)
    requires
        ix.wf(),
        forall|k: int| 0 <= k < rs.len() ==> spec_result_ok(ix, lq, #[trigger] rs[k]),
        forall|p: Seq<Seq<u8>>| !spec_indexed_match(ix, lq, p),
    ensures
        rs.len() == 0,
{
    if rs.len() > 0 {
        assert(spec_result_ok(ix, lq, rs[0]));
        let (i, j): (int, int) = choose|i: int, j: int|
            #![trigger ix.blocks@[i].entries@[j]]
            {
                &&& 0 <= i < ix.blocks@.len()
                &&& 0 <= j < ix.blocks@[i].entries@.len()
                &&& ix.blocks@[i].spec_paths()[j] == rs[0].path@
                &&& rs[0].name@ == spec_path_file_name(rs[0].path@)
                &&& rs[0].size == spec_decompress_size(ix.blocks@[i].entries@[j].size)
                &&& rs[0].is_dir == ix.blocks@[i].entries@[j].spec_is_dir()
                &&& rs[0].modified == spec_decompress_date(ix.blocks@[i].entries@[j].date)
                &&& has_substring(lower_bytes(spec_path_file_name(rs[0].path@)), lq)
            };
        assert(ix.blocks@[i].spec_paths().len() == ix.blocks@[i].entries@.len());
        assert(spec_indexed_match(ix, lq, rs[0].path@));
    }
}

/// Whether the result list already carries the path.
fn contains_path(results: &Vec<SearchResult>, path: &FilePath) -> (r: bool)
    ensures
        r == exists|k: int| 0 <= k < results@.len() && (#[trigger] results@[k]).path@ == path@,
{
    let n = results.len();
    let mut k: usize = 0;
    while k < n
        invariant
            n == results@.len(),
            k <= n,
            forall|l: int| 0 <= l < k ==> (#[trigger] results@[l]).path@ != path@,
        decreases n - k,
    {
        if results[k].path.path_eq(path) {
            return true;
        }
        k = k + 1;
    }
    false
}

/// Sorts the results by lower-cased name, ascending, keeping exactly
/// the same hits (and so the same set of paths).
#[verifier::rlimit(60)]
fn sort_results(results: &mut Vec<SearchResult>)
    requires
        results_distinct(old(results)@),
    ensures
        final(results)@.len() == old(results)@.len(),
        results_sorted(final(results)@),
        results_distinct(final(results)@),
        forall|k: int|
            0 <= k < final(results)@.len() ==> old(results)@.contains(#[trigger] final(results)@[k]),
        forall|k: int|
            0 <= k < old(results)@.len() ==> final(results)@.contains(#[trigger] old(results)@[k]),
{
    let ghost orig = old(results)@;
    let n = results.len();
    proof {
        assert forall|k: int| 0 <= k < orig.len() implies results@.contains(
            #[trigger] orig[k],
        ) by {
            assert(results@[k] == orig[k]);
        }
    }
    if n <= 1 {
        proof {
            if n == 1 {
                lemma_lex_le_total(result_key(results@[0]), result_key(results@[0]));
            }
        }
        return ;
    }
    let mut i: usize = 1;
    proof {
        lemma_lex_le_total(result_key(results@[0]), result_key(results@[0]));
    }
    while i < n
        invariant
            n == results@.len() == orig.len(),
            1 <= i <= n,
            results_distinct(results@),
            forall|a: int, b: int|
                0 <= a <= b < i ==> lex_le(
                    result_key(#[trigger] results@[a]),
                    result_key(#[trigger] results@[b]),
                ),
            forall|k: int| 0 <= k < results@.len() ==> orig.contains(#[trigger] results@[k]),
            forall|k: int| 0 <= k < orig.len() ==> results@.contains(#[trigger] orig[k]),
        decreases n - i,
    {
        let key_i = to_lower(results[i].name.as_slice());
        let mut p: usize = i;
        while p > 0 && !crate::ascii::lex_le_bytes(
            to_lower(results[p - 1].name.as_slice()).as_slice(),
            key_i.as_slice(),
        )
            invariant
                n == results@.len(),
                i < n,
                p <= i,
                key_i@ == result_key(results@[i as int]),
                forall|b: int|
                    p <= b < i ==> !lex_le(result_key(#[trigger] results@[b]), key_i@),
            decreases p,
        {
            p = p - 1;
        }
        let ghost before = results@;
        let moved = results.remove(i);
        results.insert(p, moved);
        i = i + 1;
        proof {
            let after = results@;
            assert(moved == before[i - 1]);
            assert forall|k: int|
                0 <= k < after.len() implies #[trigger] after[k] == before[spec_unmoved_index(
                p as int,
                i - 1,
                k,
            )] by {
                let mid = before.remove(i - 1);
                assert(after == mid.insert(p as int, moved));
                if k < p {
                    assert(after[k] == mid[k]);
                    assert(mid[k] == before[k]);
                } else if k == p {
                    assert(after[k] == moved);
                } else {
                    assert(after[k] == mid[k - 1]);
                    if k - 1 < i - 1 {
                        assert(mid[k - 1] == before[k - 1]);
                    } else {
                        assert(mid[k - 1] == before[k]);
                    }
                }
            }
            assert forall|a: int, b: int| 0 <= a <= b < i implies lex_le(
                result_key(#[trigger] after[a]),
                result_key(#[trigger] after[b]),
            ) by {
                lemma_sorted_insert_step(before, after, p as int, i - 1, a, b, key_i@);
            }
            assert forall|k: int| 0 <= k < after.len() implies orig.contains(
                #[trigger] after[k],
            ) by {
                assert(after[k] == before[spec_unmoved_index(p as int, i - 1, k)]);
            }
            assert forall|k: int| 0 <= k < orig.len() implies after.contains(
                #[trigger] orig[k],
            ) by {
                assert(before.contains(orig[k]));
                let l = choose|l: int| 0 <= l < before.len() && before[l] == orig[k];
                if l < p {
                    assert(after[l] == orig[k]);
                } else if l == i - 1 {
                    assert(after[p as int] == orig[k]);
                } else if l < i - 1 {
                    assert(after[l + 1] == orig[k]);
                } else {
                    assert(after[l] == orig[k]);
                }
            }
            assert forall|a: int, b: int| 0 <= a < b < after.len() implies (
            #[trigger] after[a]).path@ != (#[trigger] after[b]).path@ by {
                let a0 = spec_unmoved_index(p as int, i - 1, a);
                let b0 = spec_unmoved_index(p as int, i - 1, b);
                assert(after[a] == before[a0] && after[b] == before[b0]);
                assert(a0 != b0);
                if a0 < b0 {
                    assert(before[a0].path@ != before[b0].path@);
                } else {
                    assert(before[b0].path@ != before[a0].path@);
                }
            }
        }
    }
}

/// Where the element now at `k` stood before one rotation that moved
/// the element at `src` to `dst` (with `dst <= src`).
pub open spec fn spec_unmoved_index(dst: int, src: int, k: int) -> int {
    if k < dst {
        k
    } else if k == dst {
        src
    } else if k <= src {
        k - 1
    } else {
        k
    }
}

/// After rotating the element at `src` down to `dst` over a prefix that
/// was sorted up to `src`, the prefix through `src` is sorted.
proof fn lemma_sorted_insert_step(
    before: Seq<SearchResult>,
    after: Seq<SearchResult>,
    dst: int,
    src: int,
    a: int,
    b: int,
    key: Seq<u8>,
)
    requires
        0 <= dst <= src < before.len(),
        after.len() == before.len(),
        key == result_key(before[src]),
        forall|k: int| 0 <= k < after.len() ==> after[k] == before[spec_unmoved_index(dst, src, k)],
        forall|x: int, y: int|
            0 <= x <= y < src ==> lex_le(
                result_key(#[trigger] before[x]),
                result_key(#[trigger] before[y]),
            ),
        forall|x: int| dst <= x < src ==> !lex_le(result_key(#[trigger] before[x]), key),
        dst > 0 ==> lex_le(result_key(before[dst - 1]), key),
        0 <= a <= b <= src,
    ensures
        lex_le(result_key(after[a]), result_key(after[b])),
{
    let a0 = spec_unmoved_index(dst, src, a);
    let b0 = spec_unmoved_index(dst, src, b);
    assert(after[a] == before[a0] && after[b] == before[b0]);
    if a == b {
        lemma_lex_le_total(result_key(before[a0]), result_key(before[a0]));
    } else if a0 == src {
        // `a` is the moved element; everything at or after `dst` was not
        // below it, so it is below them.
        assert(b0 == src || dst <= b0 < src);
        if b0 == src {
            lemma_lex_le_total(key, key);
        } else {
            lemma_lex_le_total(key, result_key(before[b0]));
        }
    } else if b0 == src {
        // `b` is the moved element: `a` lies before `dst`.
        assert(a0 < dst);
        if dst > 0 {
            if a0 < dst - 1 {
                lemma_lex_le_trans(
                    result_key(before[a0]),
                    result_key(before[dst - 1]),
                    key,
                );
            }
        }
    } else {
        assert(a0 <= b0);
    }
}

} // verus!
