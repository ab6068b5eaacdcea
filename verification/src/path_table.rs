//! The de-duplicating path table: every distinct path is stored once
//! and mapped to a stable integer identifier, assigned in insertion
//! order and reused on repeat insertion.

use vstd::bytes::{spec_u32_from_le_bytes, spec_u32_to_le_bytes, u32_from_le_bytes,
    u32_to_le_bytes, lemma_auto_spec_u32_to_from_le_bytes};
use vstd::prelude::*;
use vstd::slice::slice_subrange;
use vstd::utf8::valid_utf8;

use crate::path_codec::{FilePath, compress_path, decompress_path, spec_compress_path,
    spec_decompress_path, MAX_COMPONENT_BYTES};
use crate::FormatError;

verus! {

/// Whether a list of paths holds `p`.
pub open spec fn spec_contains_path(s: Seq<Seq<Seq<u8>>>, p: Seq<Seq<u8>>) -> bool {
    exists|i: int| 0 <= i < s.len() && s[i] == p
}

/// Whether a list of paths holds no path twice.
pub open spec fn wf_paths(s: Seq<Seq<Seq<u8>>>) -> bool {
    forall|i: int, j: int| 0 <= i < j < s.len() ==> s[i] != s[j]
}

/// What get-or-insert leaves behind: the list unchanged when it already
/// holds `p`, else the list with `p` appended.
pub open spec fn spec_add(s: Seq<Seq<Seq<u8>>>, p: Seq<Seq<u8>>) -> Seq<Seq<Seq<u8>>> {
    if spec_contains_path(s, p) {
        s
    } else {
        s.push(p)
    }
}

/// The identifier get-or-insert hands out: the position of `p` when the
/// list already holds it, else the position it is appended at.
pub open spec fn spec_add_id(s: Seq<Seq<Seq<u8>>>, p: Seq<Seq<u8>>) -> int {
    if spec_contains_path(s, p) {
        choose|i: int| 0 <= i < s.len() && s[i] == p
    } else {
        s.len() as int
    }
}

/// The de-duplicating registry from full paths to stable identifiers.
pub struct PathTable {
    paths: Vec<FilePath>,
}

impl View for PathTable {
    type V = Seq<Seq<Seq<u8>>>;

    closed spec fn view(&self) -> Seq<Seq<Seq<u8>>> {
        Seq::new(self.paths@.len(), |i: int| self.paths@[i]@)
    }
}

impl PathTable {
    /// Invariant: no path is stored twice.
    pub open spec fn wf(self) -> bool {
        wf_paths(self@)
    }

    /// The empty table.
    pub fn new() -> (r: Self)
        ensures
            r@ =~= Seq::<Seq<Seq<u8>>>::empty(),
            r.wf(),
    {
        let r = PathTable { paths: Vec::new() };
        proof {
            assert(r@ =~= Seq::<Seq<Seq<u8>>>::empty());
        }
        r
    }

    /// The number of stored paths.
    pub fn len(&self) -> (r: usize)
        ensures
            r == self@.len(),
    {
        self.paths.len()
    }

    /// Get-or-insert: returns the identifier of `path`, storing it first
    /// when it is new. Identifiers are positions in insertion order;
    /// repeat insertion returns the existing identifier and changes
    /// nothing.
    pub fn add_path(&mut self, path: &FilePath) -> (id: u32)
        requires
            old(self).wf(),
            old(self)@.len() < 0xFFFF_FFFF,
        ensures
            final(self).wf(),
            final(self)@ == spec_add(old(self)@, path@),
            id == spec_add_id(old(self)@, path@),
            id < final(self)@.len(),
            final(self)@[id as int] == path@,
    {
        let n = self.paths.len();
        let mut i: usize = 0;
        while i < n
            invariant
                *self == *old(self),
                old(self).wf(),
                n == self@.len() < 0xFFFF_FFFF,
                i <= n,
                forall|k: int| 0 <= k < i ==> self@[k] != path@,
            decreases n - i,
        {
            if self.paths[i].path_eq(path) {
                proof {
                    assert(self@[i as int] == path@);
                    assert(spec_contains_path(self@, path@));
                    let c = spec_add_id(self@, path@);
                    assert(self@[c] == path@);
                    if c < i as int {
                        assert(self@[c] != self@[i as int]);
                    }
                    if (i as int) < c {
                        assert(self@[i as int] != self@[c]);
                    }
                    assert(c == i as int);
                }
                return i as u32;
            }
            i = i + 1;
        }
        proof {
            assert(!spec_contains_path(self@, path@));
        }
        let ghost prev = self@;
        let id = self.paths.len() as u32;
        self.paths.push(path.duplicate());
        proof {
            assert(self@ =~= prev.push(path@));
            assert forall|a: int, b: int| 0 <= a < b < self@.len() implies self@[a]
                != self@[b] by {
                if b == self@.len() - 1 {
                    assert(!spec_contains_path(prev, path@));
                    assert(prev[a] != path@);
                }
            }
        }
        id
    }

    /// The path stored under `id`, or nothing when no path has that
    /// identifier.
    pub fn get_path(&self, id: u32) -> (r: Option<&FilePath>)
        ensures
            match r {
                Some(p) => id < self@.len() && p@ == self@[id as int],
                None => id >= self@.len(),
            },
    {
        if (id as usize) < self.paths.len() {
            Some(&self.paths[id as usize])
        } else {
            None
        }
    }

    /// The encoding of the stored paths, in order: for each, the length
    /// of its compressed form as a four-byte little-endian count, then
    /// the compressed form itself.
    pub open spec fn spec_paths_ser(s: Seq<Seq<Seq<u8>>>) -> Seq<u8>
        decreases s.len(),
    {
        if s.len() == 0 {
            Seq::empty()
        } else {
            spec_u32_to_le_bytes(spec_compress_path(s[0]).len() as u32) + spec_compress_path(
                s[0],
            ) + Self::spec_paths_ser(s.subrange(1, s.len() as int))
        }
    }

    /// The raw encoding of the whole table: the path count as a
    /// four-byte little-endian word, then each path's encoding.
    pub open spec fn spec_ser(s: Seq<Seq<Seq<u8>>>) -> Seq<u8> {
        spec_u32_to_le_bytes(s.len() as u32) + Self::spec_paths_ser(s)
    }

    /// Appends the raw encoding of the table to `out`. The stored paths
    /// must fit the format: component lengths, compressed lengths and
    /// the path count are bounded by their fields.
    pub fn write_to(&self, out: &mut Vec<u8>)
        requires
            self@.len() <= 0xFFFF_FFFF,
            forall|i: int, j: int|
                0 <= i < self@.len() && 0 <= j < self@[i].len() ==> #[trigger] self@[i][j].len()
                    <= MAX_COMPONENT_BYTES,
            forall|i: int|
                0 <= i < self@.len() ==> #[trigger] spec_compress_path(self@[i]).len()
                    <= 0xFFFF_FFFF,
        ensures
            final(out)@ == old(out)@ + Self::spec_ser(self@),
    {
        let n = self.paths.len();
        let mut count_bytes = u32_to_le_bytes(n as u32);
        out.append(&mut count_bytes);
        let mut i: usize = 0;
        proof {
            assert(self@.subrange(0, n as int) =~= self@);
        }
        while i < n
            invariant
                n == self@.len() <= 0xFFFF_FFFF,
                i <= n,
                forall|a: int, b: int|
                    0 <= a < self@.len() && 0 <= b < self@[a].len() ==> #[trigger] self@[a][b].len()
                        <= MAX_COMPONENT_BYTES,
                forall|a: int|
                    0 <= a < self@.len() ==> #[trigger] spec_compress_path(self@[a]).len()
                        <= 0xFFFF_FFFF,
                out@ == old(out)@ + spec_u32_to_le_bytes(n as u32) + Self::spec_paths_ser(
                    self@.subrange(0, i as int),
                ) && Self::spec_ser(self@) == spec_u32_to_le_bytes(n as u32)
                    + Self::spec_paths_ser(self@.subrange(0, i as int)) + Self::spec_paths_ser(
                    self@.subrange(i as int, n as int),
                ),
            decreases n - i,
        {
            let compressed = compress_path(&self.paths[i]);
            let mut len_bytes = u32_to_le_bytes(compressed.len() as u32);
            out.append(&mut len_bytes);
            let mut body = compressed;
            out.append(&mut body);
            i = i + 1;
            proof {
                let tail_prev = self@.subrange(i - 1, n as int);
                assert(tail_prev[0] == self@[i - 1]);
                assert(tail_prev.subrange(1, tail_prev.len() as int) =~= self@.subrange(
                    i as int,
                    n as int,
                ));
                assert(Self::spec_paths_ser(tail_prev) == spec_u32_to_le_bytes(
                    spec_compress_path(self@[i - 1]).len() as u32,
                ) + spec_compress_path(self@[i - 1]) + Self::spec_paths_ser(
                    self@.subrange(i as int, n as int),
                ));
                lemma_paths_ser_snoc(self@, i as int);
                assert(out@ =~= old(out)@ + spec_u32_to_le_bytes(n as u32)
                    + Self::spec_paths_ser(self@.subrange(0, i as int)));
                assert(Self::spec_ser(self@) =~= spec_u32_to_le_bytes(n as u32)
                    + Self::spec_paths_ser(self@.subrange(0, i as int)) + Self::spec_paths_ser(
                    self@.subrange(i as int, n as int),
                ));
            }
        }
        proof {
            assert(self@.subrange(i as int, n as int).len() == 0);
            assert(out@ =~= old(out)@ + Self::spec_ser(self@));
        }
    }

    /// What reading `count` stored paths from `pos` yields: for each,
    /// its declared length and the decoded path (`None` for one whose
    /// bytes do not decode); fails when a declared length overruns the
    /// buffer.
    pub open spec fn spec_read_entries(data: Seq<u8>, pos: int, count: nat) -> Option<
        (Seq<Option<Seq<Seq<u8>>>>, int),
    >
        decreases count,
    {
        if count == 0 {
            Some((Seq::empty(), pos))
        } else if pos + 4 > data.len() {
            None
        } else {
            let len = spec_u32_from_le_bytes(data.subrange(pos, pos + 4)) as int;
            if pos + 4 + len > data.len() {
                None
            } else {
                let parsed = spec_decompress_path(data.subrange(pos + 4, pos + 4 + len));
                match Self::spec_read_entries(data, pos + 4 + len, (count - 1) as nat) {
                    Some((rest, end)) => Some((seq![parsed] + rest, end)),
                    None => None,
                }
            }
        }
    }

    /// What re-inserting decoded paths into an empty table leaves: each
    /// decoded path get-or-inserted in file order, failed decodes
    /// dropped.
    pub open spec fn spec_add_all(
        s: Seq<Seq<Seq<u8>>>,
        entries: Seq<Option<Seq<Seq<u8>>>>,
    ) -> Seq<Seq<Seq<u8>>>
        decreases entries.len(),
    {
        if entries.len() == 0 {
            s
        } else {
            let s1 = match entries[0] {
                Some(p) => spec_add(s, p),
                None => s,
            };
            Self::spec_add_all(s1, entries.subrange(1, entries.len() as int))
        }
    }

    /// Reads a table from position `pos` of `data`: the declared number
    /// of paths, each re-inserted in file order. A path whose bytes do
    /// not decode is dropped; the read fails only when the stream ends
    /// before the declared structure.
    pub fn read_from(data: &[u8], pos: usize) -> (r: Result<(Self, usize), FormatError>)
        ensures
            match r {
                Ok((t, end)) => {
                    &&& pos + 4 <= data@.len()
                    &&& t.wf()
                    &&& match Self::spec_read_entries(
                        data@,
                        pos + 4,
                        spec_u32_from_le_bytes(data@.subrange(pos as int, pos + 4)) as nat,
                    ) {
                        Some((entries, e)) => t@ == Self::spec_add_all(Seq::empty(), entries)
                            && end == e,
                        None => false,
                    }
                },
                Err(e) => {
                    &&& e == FormatError::Truncated
                    &&& (pos + 4 > data@.len() || Self::spec_read_entries(
                        data@,
                        pos + 4,
                        spec_u32_from_le_bytes(data@.subrange(pos as int, pos + 4)) as nat,
                    ) is None)
                },
            },
    {
        let n = data.len();
        if n < 4 || pos > n - 4 {
            return Err(FormatError::Truncated);
        }
        let count = u32_from_le_bytes(slice_subrange(data, pos, pos + 4));
        let mut table = PathTable { paths: Vec::new() };
        let mut cursor: usize = pos + 4;
        let mut k: u32 = 0;
        let ghost count_spec = count as nat;
        let ghost mut processed: Seq<Option<Seq<Seq<u8>>>> = Seq::empty();
        proof {
            assert(table@ =~= Seq::<Seq<Seq<u8>>>::empty());
            assert(processed + Seq::<Option<Seq<Seq<u8>>>>::empty() =~= processed);
        }
        while k < count
            invariant
                n == data@.len(),
                pos + 4 <= cursor <= n,
                k <= count,
                table.wf(),
                table@.len() <= k,
                count_spec == count as nat,
                count_spec == spec_u32_from_le_bytes(data@.subrange(pos as int, pos + 4)) as nat,
                table@ == Self::spec_add_all(Seq::empty(), processed),
                Self::spec_read_entries(data@, pos + 4, count_spec) == (match Self::spec_read_entries(
                    data@,
                    cursor as int,
                    (count - k) as nat,
                ) {
                    Some((rest, e)) => Some::<(Seq<Option<Seq<Seq<u8>>>>, int)>(
                        (processed + rest, e),
                    ),
                    None => None::<(Seq<Option<Seq<Seq<u8>>>>, int)>,
                }),
            decreases count - k,
        {
            let ghost remaining_count = (count - k) as nat;
            if n - cursor < 4 {
                proof {
                    assert(Self::spec_read_entries(data@, cursor as int, remaining_count)
                        is None);
                    assert(Self::spec_read_entries(data@, pos + 4, count_spec) is None);
                    assert(count_spec == spec_u32_from_le_bytes(
                        data@.subrange(pos as int, pos + 4),
                    ) as nat);
                }
                return Err(FormatError::Truncated);
            }
            let len = u32_from_le_bytes(slice_subrange(data, cursor, cursor + 4)) as usize;
            if len > n - cursor - 4 {
                proof {
                    assert(cursor + 4 + len > n);
                    assert(Self::spec_read_entries(data@, cursor as int, remaining_count)
                        is None);
                    assert(Self::spec_read_entries(data@, pos + 4, count_spec) is None);
                    assert(count_spec == spec_u32_from_le_bytes(
                        data@.subrange(pos as int, pos + 4),
                    ) as nat);
                }
                return Err(FormatError::Truncated);
            }
            let body = slice_subrange(data, cursor + 4, cursor + 4 + len);
            let ghost parsed = spec_decompress_path(body@);
            match decompress_path(body) {
                Some(p) => {
                    let _ = table.add_path(&p);
                },
                None => {},
            }
            let ghost processed_prev = processed;
            proof {
                processed = processed.push(parsed);
                lemma_add_all_snoc(Seq::empty(), processed_prev, parsed);
            }
            cursor = cursor + 4 + len;
            k = k + 1;
            proof {
                let ghost rec = Self::spec_read_entries(data@, cursor as int, (count - k) as nat);
                match rec {
                    Some((rest, e)) => {
                        assert(processed_prev + (seq![parsed] + rest) =~= processed + rest);
                    },
                    None => {},
                }
            }
        }
        proof {
            assert(processed + Seq::<Option<Seq<Seq<u8>>>>::empty() =~= processed);
        }
        Ok((table, cursor))
    }
}

/// Applying one more decoded path at the end of a re-insertion run is
/// one more get-or-insert on its result.
proof fn lemma_add_all_snoc(
    s: Seq<Seq<Seq<u8>>>,
    entries: Seq<Option<Seq<Seq<u8>>>>,
    x: Option<Seq<Seq<u8>>>,
)
    ensures
        PathTable::spec_add_all(s, entries.push(x)) == (match x {
            Some(p) => spec_add(PathTable::spec_add_all(s, entries), p),
            None => PathTable::spec_add_all(s, entries),
        }),
    decreases entries.len(),
{
    let whole = entries.push(x);
    if entries.len() == 0 {
        assert(whole[0] == x);
        let s1 = match x {
            Some(p) => spec_add(s, p),
            None => s,
        };
        assert(whole.subrange(1, whole.len() as int).len() == 0);
        assert(PathTable::spec_add_all(s1, whole.subrange(1, whole.len() as int)) == s1);
        assert(PathTable::spec_add_all(s, entries) == s);
    } else {
        assert(whole[0] == entries[0]);
        let s1 = match entries[0] {
            Some(p) => spec_add(s, p),
            None => s,
        };
        assert(whole.subrange(1, whole.len() as int) =~= entries.subrange(
            1,
            entries.len() as int,
        ).push(x));
        lemma_add_all_snoc(s1, entries.subrange(1, entries.len() as int), x);
    }
}

/// Law: get-or-insert is idempotent. Inserting a path a second time
/// returns the same identifier as the first insertion and leaves the
/// table unchanged.
pub proof fn lemma_add_path_idempotent(s: Seq<Seq<Seq<u8>>>, p: Seq<Seq<u8>>)
    requires
        wf_paths(s),
    ensures
        spec_add(spec_add(s, p), p) == spec_add(s, p),
        spec_add_id(spec_add(s, p), p) == spec_add_id(s, p),
{
    let s1 = spec_add(s, p);
    if !spec_contains_path(s, p) {
        assert(s1[s.len() as int] == p);
        assert(spec_contains_path(s1, p));
        let c = spec_add_id(s1, p);
        assert(s1[c] == p);
        if c < s.len() {
            assert(s[c] == p);
            assert(spec_contains_path(s, p));
        }
    }
}

/// Law: distinct paths receive distinct identifiers. Inserting `p` and
/// then a different path `q` hands out two different identifiers.
pub proof fn lemma_add_path_distinct(s: Seq<Seq<Seq<u8>>>, p: Seq<Seq<u8>>, q: Seq<Seq<u8>>)
    requires
        wf_paths(s),
        p != q,
    ensures
        spec_add_id(spec_add(s, p), q) != spec_add_id(s, p),
{
    let id1 = spec_add_id(s, p);
    let s1 = spec_add(s, p);
    if !spec_contains_path(s, p) {
        assert(s1[s.len() as int] == p);
    }
    assert(0 <= id1 < s1.len() && s1[id1] == p);
    let id2 = spec_add_id(s1, q);
    if spec_contains_path(s1, q) {
        assert(s1[id2] == q);
        if id2 == id1 {
            assert(p == q);
        }
    } else {
        assert(id2 == s1.len());
    }
}

/// Law: the identifier handed out for a path resolves to that path in
/// the table that the insertion leaves behind.
pub proof fn lemma_get_after_add(s: Seq<Seq<Seq<u8>>>, p: Seq<Seq<u8>>)
    requires
        wf_paths(s),
    ensures
        0 <= spec_add_id(s, p) < spec_add(s, p).len(),
        spec_add(s, p)[spec_add_id(s, p)] == p,
{
    if !spec_contains_path(s, p) {
        assert(spec_add(s, p)[s.len() as int] == p);
    }
}

/// The encoded paths read back as themselves: parsing the byte range
/// that `spec_paths_ser` wrote yields every path, decoded, in order.
pub proof fn lemma_paths_ser_reads_back(s: Seq<Seq<Seq<u8>>>, data: Seq<u8>, pos: int)
    requires
        0 <= pos,
        pos + PathTable::spec_paths_ser(s).len() <= data.len(),
        data.subrange(pos, pos + PathTable::spec_paths_ser(s).len()) == PathTable::spec_paths_ser(
            s,
        ),
        forall|i: int, j: int|
            0 <= i < s.len() && 0 <= j < s[i].len() ==> #[trigger] s[i][j].len()
                <= MAX_COMPONENT_BYTES && valid_utf8(s[i][j]),
        forall|i: int|
            0 <= i < s.len() ==> #[trigger] spec_compress_path(s[i]).len() <= 0xFFFF_FFFF,
    ensures
        PathTable::spec_read_entries(data, pos, s.len() as nat) == Some(
            (
                Seq::new(s.len(), |k: int| Some(s[k])),
                pos + PathTable::spec_paths_ser(s).len(),
            ),
        ),
    decreases s.len(),
{
    lemma_auto_spec_u32_to_from_le_bytes();
    let ser = PathTable::spec_paths_ser(s);
    if s.len() == 0 {
        assert(Seq::new(0, |k: int| Some(s[k])) =~= Seq::<Option<Seq<Seq<u8>>>>::empty());
    } else {
        let head = s[0];
        let c = spec_compress_path(head);
        let tail = s.subrange(1, s.len() as int);
        let tser = PathTable::spec_paths_ser(tail);
        assert(ser == spec_u32_to_le_bytes(c.len() as u32) + c + tser);
        assert forall|x: int| 0 <= x < ser.len() implies data[pos + x] == ser[x] by {
            assert(data.subrange(pos, pos + ser.len())[x] == data[pos + x]);
        }
        assert(ser.len() == 4 + c.len() + tser.len());
        assert(data.subrange(pos, pos + 4) =~= spec_u32_to_le_bytes(c.len() as u32));
        assert(spec_u32_from_le_bytes(data.subrange(pos, pos + 4)) == c.len());
        assert forall|t: int| 0 <= t < c.len() implies data.subrange(
            pos + 4,
            pos + 4 + c.len(),
        )[t] == c[t] by {
            assert(data[pos + 4 + t] == ser[4 + t]);
            assert(ser[4 + t] == c[t]);
        }
        assert(data.subrange(pos + 4, pos + 4 + c.len()) =~= c);
        crate::path_codec::lemma_path_round_trip(head);
        let pos2 = pos + 4 + c.len();
        assert forall|t: int| 0 <= t < tser.len() implies data.subrange(
            pos2,
            pos2 + tser.len(),
        )[t] == tser[t] by {
            assert(data[pos2 + t] == ser[4 + c.len() + t]);
            assert(ser[4 + c.len() + t] == tser[t]);
        }
        assert(data.subrange(pos2, pos2 + tser.len()) =~= tser);
        lemma_paths_ser_reads_back(tail, data, pos2);
        match PathTable::spec_read_entries(data, pos2, tail.len() as nat) {
            Some((rest, end)) => {
                assert(seq![Some(head)] + rest =~= Seq::new(s.len(), |k: int| Some(s[k])));
            },
            None => {
                assert(false);
            },
        }
    }
}

/// Re-inserting a run of pairwise distinct paths into a table that
/// holds none of them appends them in order.
pub proof fn lemma_add_all_distinct(acc: Seq<Seq<Seq<u8>>>, s: Seq<Seq<Seq<u8>>>)
    requires
        wf_paths(acc + s),
    ensures
        PathTable::spec_add_all(acc, Seq::new(s.len(), |k: int| Some(s[k]))) == acc + s,
    decreases s.len(),
{
    let entries = Seq::new(s.len(), |k: int| Some(s[k]));
    if s.len() == 0 {
        assert(acc + s =~= acc);
    } else {
        let head = s[0];
        let whole = acc + s;
        assert(whole[acc.len() as int] == head);
        assert forall|i: int| 0 <= i < acc.len() implies acc[i] != head by {
            assert(whole[i] == acc[i]);
        }
        assert(!spec_contains_path(acc, head));
        assert(spec_add(acc, head) == acc.push(head));
        let tail = s.subrange(1, s.len() as int);
        assert(acc.push(head) + tail =~= acc + s);
        lemma_add_all_distinct(acc.push(head), tail);
        assert(entries.subrange(1, entries.len() as int) =~= Seq::new(
            tail.len(),
            |k: int| Some(tail[k]),
        ));
        assert(entries[0] == Some(head));
    }
}

/// Appending one path to a prefix moves one step of the encoding from
/// the tail to the prefix.
proof fn lemma_paths_ser_snoc(s: Seq<Seq<Seq<u8>>>, i: int)
    requires
        1 <= i <= s.len(),
    ensures
        PathTable::spec_paths_ser(s.subrange(0, i)) == PathTable::spec_paths_ser(
            s.subrange(0, i - 1),
        ) + spec_u32_to_le_bytes(spec_compress_path(s[i - 1]).len() as u32) + spec_compress_path(
            s[i - 1],
        ),
    decreases i,
{
    if i == 1 {
        let one = s.subrange(0, 1);
        assert(one[0] == s[0]);
        assert(one.subrange(1, 1).len() == 0);
        assert(PathTable::spec_paths_ser(one.subrange(1, 1)) == Seq::<u8>::empty());
        assert(PathTable::spec_paths_ser(s.subrange(0, 0)) == Seq::<u8>::empty());
        assert(PathTable::spec_paths_ser(one) =~= PathTable::spec_paths_ser(s.subrange(0, 0))
            + spec_u32_to_le_bytes(spec_compress_path(s[0]).len() as u32) + spec_compress_path(
            s[0],
        ));
    } else {
        let pre = s.subrange(0, i);
        let pre1 = s.subrange(0, i - 1);
        assert(pre[0] == s[0] && pre1[0] == s[0]);
        let t = s.subrange(1, s.len() as int);
        assert(pre.subrange(1, pre.len() as int) =~= t.subrange(0, i - 1));
        assert(pre1.subrange(1, pre1.len() as int) =~= t.subrange(0, i - 2));
        assert(PathTable::spec_paths_ser(pre) == spec_u32_to_le_bytes(
            spec_compress_path(s[0]).len() as u32,
        ) + spec_compress_path(s[0]) + PathTable::spec_paths_ser(t.subrange(0, i - 1)));
        assert(PathTable::spec_paths_ser(pre1) == spec_u32_to_le_bytes(
            spec_compress_path(s[0]).len() as u32,
        ) + spec_compress_path(s[0]) + PathTable::spec_paths_ser(t.subrange(0, i - 2)));
        lemma_paths_ser_snoc(t, i - 1);
        assert(t[i - 2] == s[i - 1]);
        assert(PathTable::spec_paths_ser(pre) =~= PathTable::spec_paths_ser(pre1)
            + spec_u32_to_le_bytes(spec_compress_path(s[i - 1]).len() as u32)
            + spec_compress_path(s[i - 1]));
    }
}

} // verus!
