//! Paths and their variable-length on-disk encoding: a path is a list
//! of components (UTF-8 bytes), stored component-wise as a two-byte
//! little-endian length followed by the raw bytes.

use vstd::bytes::{spec_u16_from_le_bytes, spec_u16_to_le_bytes, u16_from_le_bytes,
    u16_to_le_bytes, lemma_auto_spec_u16_to_from_le_bytes};
use vstd::prelude::*;
use vstd::slice::{slice_subrange, slice_to_vec};
use vstd::utf8::valid_utf8;

verus! {

/// The longest component the on-disk encoding can carry: its length
/// field is two bytes.
pub const MAX_COMPONENT_BYTES: usize = 0xFFFF;

/// A full path, as the list of its components. Each component holds the
/// UTF-8 bytes of one path segment (a root, a directory name or a file
/// name).
pub struct FilePath {
    pub components: Vec<Vec<u8>>,
}

impl View for FilePath {
    type V = Seq<Seq<u8>>;

    open spec fn view(&self) -> Seq<Seq<u8>> {
        Seq::new(self.components@.len(), |i: int| self.components@[i]@)
    }
}

impl FilePath {
    /// The empty path.
    pub fn new() -> (r: Self)
        ensures
            r@ =~= Seq::<Seq<u8>>::empty(),
    {
        FilePath { components: Vec::new() }
    }

    /// Appends one component.
    pub fn push(&mut self, component: Vec<u8>)
        ensures
            final(self)@ =~= old(self)@.push(component@),
    {
        self.components.push(component);
    }

    /// The number of components.
    pub fn len(&self) -> (r: usize)
        ensures
            r == self@.len(),
    {
        self.components.len()
    }

    /// The file name the path stands for: its last component, or the
    /// empty byte string for the empty path.
    pub open spec fn spec_file_name(self) -> Seq<u8> {
        spec_path_file_name(self@)
    }

    /// The file name the path stands for: its last component, or the
    /// empty byte string for the empty path.
    pub fn file_name(&self) -> (r: Vec<u8>)
        ensures
            r@ == self.spec_file_name(),
    {
        if self.components.len() == 0 {
            Vec::new()
        } else {
            slice_to_vec(self.components[self.components.len() - 1].as_slice())
        }
    }

    /// Whether the two paths are equal, component for component.
    pub fn path_eq(&self, other: &FilePath) -> (r: bool)
        ensures
            r == (self@ == other@),
    {
        if self.components.len() != other.components.len() {
            proof {
                assert(self@.len() != other@.len());
            }
            return false;
        }
        let n = self.components.len();
        let mut i: usize = 0;
        while i < n
            invariant
                n == self@.len() == other@.len(),
                i <= n,
                forall|k: int| 0 <= k < i ==> self@[k] == other@[k],
            decreases n - i,
        {
            if !crate::ascii::bytes_eq(self.components[i].as_slice(), other.components[i]
                .as_slice()) {
                proof {
                    assert(self@[i as int] != other@[i as int]);
                }
                return false;
            }
            i = i + 1;
        }
        proof {
            assert(self@ =~= other@);
        }
        true
    }

    /// Copies the path.
    pub fn duplicate(&self) -> (r: FilePath)
        ensures
            r@ == self@,
    {
        let mut components: Vec<Vec<u8>> = Vec::new();
        let n = self.components.len();
        let mut i: usize = 0;
        while i < n
            invariant
                n == self@.len(),
                i <= n,
                components@.len() == i,
                forall|k: int| 0 <= k < i ==> components@[k]@ == self@[k],
            decreases n - i,
        {
            components.push(slice_to_vec(self.components[i].as_slice()));
            i = i + 1;
        }
        let r = FilePath { components };
        proof {
            assert(r@ =~= self@);
        }
        r
    }
}

/// The file name a path (as the list of its components) stands for: the
/// last component, or the empty byte string for the empty path.
pub open spec fn spec_path_file_name(p: Seq<Seq<u8>>) -> Seq<u8> {
    if p.len() == 0 {
        Seq::empty()
    } else {
        p.last()
    }
}

/// The encoding of a list of components: for each component in order, a
/// two-byte little-endian length, then its bytes.
pub open spec fn spec_compress_path(cs: Seq<Seq<u8>>) -> Seq<u8>
    decreases cs.len(),
{
    if cs.len() == 0 {
        Seq::empty()
    } else {
        spec_u16_to_le_bytes(cs[0].len() as u16) + cs[0] + spec_compress_path(
            cs.subrange(1, cs.len() as int),
        )
    }
}

/// What decoding a byte string yields: the components read in order,
/// each a declared length and as many bytes; `None` when a declared
/// length overruns the buffer or component bytes are not valid UTF-8.
/// A single trailing byte (too short to be a length field) is ignored.
pub open spec fn spec_decompress_path(data: Seq<u8>) -> Option<Seq<Seq<u8>>>
    decreases data.len(),
{
    if data.len() < 2 {
        Some(Seq::empty())
    } else {
        let n = spec_u16_from_le_bytes(data.subrange(0, 2)) as int;
        if 2 + n > data.len() {
            None
        } else {
            let comp = data.subrange(2, 2 + n);
            if !valid_utf8(comp) {
                None
            } else {
                match spec_decompress_path(data.subrange(2 + n, data.len() as int)) {
                    Some(rest) => Some(seq![comp] + rest),
                    None => None,
                }
            }
        }
    }
}

/// Relies on `core::str::from_utf8`: it accepts exactly the byte
/// strings that are valid UTF-8, the property `vstd::utf8::valid_utf8`
/// states.
#[verifier::external_body]
fn check_utf8(bytes: &[u8]) -> (r: bool)
    ensures
        r == valid_utf8(bytes@),
{
    core::str::from_utf8(bytes).is_ok()
}

/// Encodes a path: for each component in order, a two-byte
/// little-endian length, then its bytes. Components longer than the
/// length field can carry are ruled out.
pub fn compress_path(path: &FilePath) -> (r: Vec<u8>)
    requires
        forall|i: int| 0 <= i < path@.len() ==> #[trigger] path@[i].len() <= MAX_COMPONENT_BYTES,
    ensures
        r@ == spec_compress_path(path@),
{
    let mut out: Vec<u8> = Vec::new();
    let n = path.components.len();
    let mut i: usize = 0;
    proof {
        assert(path@.subrange(0, n as int) =~= path@);
    }
    while i < n
        invariant
            n == path@.len(),
            i <= n,
            forall|k: int| 0 <= k < n ==> #[trigger] path@[k].len() <= MAX_COMPONENT_BYTES,
            spec_compress_path(path@) == out@ + spec_compress_path(
                path@.subrange(i as int, n as int),
            ),
        decreases n - i,
    {
        let component = &path.components[i];
        let mut len_bytes = u16_to_le_bytes(component.len() as u16);
        out.append(&mut len_bytes);
        let mut comp_bytes = slice_to_vec(component.as_slice());
        out.append(&mut comp_bytes);
        i = i + 1;
        proof {
            let tail_prev = path@.subrange(i - 1, n as int);
            assert(tail_prev[0] == path@[i - 1]);
            assert(tail_prev.subrange(1, tail_prev.len() as int) =~= path@.subrange(
                i as int,
                n as int,
            ));
            assert(spec_compress_path(tail_prev) == spec_u16_to_le_bytes(
                path@[i - 1].len() as u16,
            ) + path@[i - 1] + spec_compress_path(path@.subrange(i as int, n as int)));
            assert(spec_compress_path(path@) =~= out@ + spec_compress_path(
                path@.subrange(i as int, n as int),
            ));
        }
    }
    proof {
        assert(path@.subrange(n as int, n as int) =~= Seq::<Seq<u8>>::empty());
        assert(out@ =~= spec_compress_path(path@));
    }
    out
}

/// Decodes a byte string into a path: reads components in order, each a
/// declared two-byte length and as many bytes. Fails when a declared
/// length overruns the buffer or component bytes are not valid UTF-8; a
/// single trailing byte is ignored.
pub fn decompress_path(data: &[u8]) -> (r: Option<FilePath>)
    ensures
        match r {
            Some(p) => spec_decompress_path(data@) == Some(p@),
            None => spec_decompress_path(data@) == None::<Seq<Seq<u8>>>,
        },
{
    let mut acc = FilePath { components: Vec::new() };
    let n = data.len();
    let mut pos: usize = 0;
    proof {
        assert(data@.subrange(0, n as int) =~= data@);
    }
    while n - pos >= 2
        invariant
            n == data@.len(),
            pos <= n,
            spec_decompress_path(data@) == match spec_decompress_path(
                data@.subrange(pos as int, n as int),
            ) {
                Some(rest) => Some(acc@ + rest),
                None => None::<Seq<Seq<u8>>>,
            },
        decreases n - pos,
    {
        let ghost remaining = data@.subrange(pos as int, n as int);
        let len = u16_from_le_bytes(slice_subrange(data, pos, pos + 2)) as usize;
        proof {
            assert(remaining.subrange(0, 2) =~= data@.subrange(pos as int, pos + 2));
        }
        if len > n - pos - 2 {
            proof {
                assert(2 + len as int > remaining.len());
                assert(spec_decompress_path(remaining) == None::<Seq<Seq<u8>>>);
            }
            return None;
        }
        let component_slice = slice_subrange(data, pos + 2, pos + 2 + len);
        proof {
            assert(remaining.subrange(2, 2 + len as int) =~= component_slice@);
        }
        if !check_utf8(component_slice) {
            proof {
                assert(spec_decompress_path(remaining) == None::<Seq<Seq<u8>>>);
            }
            return None;
        }
        let component = slice_to_vec(component_slice);
        let ghost acc_prev = acc@;
        acc.components.push(component);
        pos = pos + 2 + len;
        proof {
            let rem_new = data@.subrange(pos as int, n as int);
            assert(remaining.subrange(2 + len as int, remaining.len() as int) =~= rem_new);
            assert(acc@ =~= acc_prev.push(component_slice@));
            assert(spec_decompress_path(remaining) == match spec_decompress_path(rem_new) {
                Some(rest) => Some(seq![component_slice@] + rest),
                None => None::<Seq<Seq<u8>>>,
            });
            let ghost parsed = spec_decompress_path(rem_new);
            match parsed {
                Some(rest) => {
                    assert(acc_prev + (seq![component_slice@] + rest) =~= acc@ + rest);
                },
                None => {},
            }
        }
    }
    proof {
        assert(spec_decompress_path(data@.subrange(pos as int, n as int)) == Some(
            Seq::<Seq<u8>>::empty(),
        ));
        assert(acc@ + Seq::<Seq<u8>>::empty() =~= acc@);
    }
    Some(acc)
}

/// Round trip: decoding an encoded path yields the path itself, for
/// every path whose components are valid UTF-8 and fit the two-byte
/// length field.
pub proof fn lemma_path_round_trip(p: Seq<Seq<u8>>)
    requires
        forall|i: int|
            0 <= i < p.len() ==> #[trigger] p[i].len() <= MAX_COMPONENT_BYTES && valid_utf8(p[i]),
    ensures
        spec_decompress_path(spec_compress_path(p)) == Some(p),
    decreases p.len(),
{
    lemma_auto_spec_u16_to_from_le_bytes();
    if p.len() == 0 {
        assert(spec_compress_path(p).len() == 0);
    } else {
        let head = p[0];
        let tail = p.subrange(1, p.len() as int);
        let data = spec_compress_path(p);
        let head_enc = spec_u16_to_le_bytes(head.len() as u16);
        assert(data == head_enc + head + spec_compress_path(tail));
        assert(data.len() >= 2);
        assert(data.subrange(0, 2) =~= head_enc);
        assert(spec_u16_from_le_bytes(data.subrange(0, 2)) == head.len());
        assert(data.subrange(2, 2 + head.len() as int) =~= head);
        assert(data.subrange(2 + head.len() as int, data.len() as int) =~= spec_compress_path(
            tail,
        ));
        lemma_path_round_trip(tail);
        assert(seq![head] + tail =~= p);
    }
}

} // verus!
