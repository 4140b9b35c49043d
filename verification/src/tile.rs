//! The square RGBA tile and the fingerprints of its four edges.

use vstd::prelude::*;
use vstd::std_specs::hash::DefaultHasherAdditionalSpecFns;
use std::collections::hash_map::DefaultHasher;
use std::hash::Hasher;

verus! {

/// Why a pixel buffer was not accepted as a tile.
#[derive(Clone, Copy, Debug, PartialEq, Eq, Structural)]
pub enum LoadError {
    /// Width and height differ.
    NotSquare,
    /// The tile has no pixels.
    Empty,
    /// The buffer does not hold four bytes for each pixel.
    WrongLength,
}

/// The reason, if any, for which a buffer of `len` bytes is no tile of the
/// given width and height.
pub open spec fn tile_error(len: int, width: int, height: int) -> Option<LoadError> {
    if width != height {
        Some(LoadError::NotSquare)
    } else if width == 0 {
        Some(LoadError::Empty)
    } else if len != 4 * width * width {
        Some(LoadError::WrongLength)
    } else {
        None
    }
}

/// The pixel, counted row by row, that stands at position `k` of edge `edge`
/// in a tile of `n` by `n` pixels. Edge 0 is the last row and edge 2 the first
/// row, both from the first column to the last; edge 1 is the first column and
/// edge 3 the last column, both from the first row to the last.
pub open spec fn edge_pixel(n: int, edge: int, k: int) -> int {
    if edge == 0 {
        (n - 1) * n + k
    } else if edge == 1 {
        k * n
    } else if edge == 2 {
        k
    } else {
        k * n + (n - 1)
    }
}

/// The bytes of the pixels along edge `edge`, in the order of `edge_pixel`.
pub open spec fn border_bytes(pixels: Seq<u8>, n: int, edge: int) -> Seq<u8> {
    Seq::new((4 * n) as nat, |j: int| pixels[4 * edge_pixel(n, edge, j / 4) + j % 4])
}

/// The fingerprint of a run of bytes: what the standard hasher gives for them
/// when they are written to it at once.
pub open spec fn fingerprint_of(bytes: Seq<u8>) -> u64 {
    DefaultHasher::spec_finish(seq![bytes])
}

/// The fingerprints of the four edges of a tile of `n` by `n` pixels.
pub open spec fn border_fingerprints(pixels: Seq<u8>, n: int) -> Seq<u64> {
    seq![
        fingerprint_of(border_bytes(pixels, n, 0)),
        fingerprint_of(border_bytes(pixels, n, 1)),
        fingerprint_of(border_bytes(pixels, n, 2)),
        fingerprint_of(border_bytes(pixels, n, 3)),
    ]
}

/// Every pixel of an edge lies inside the tile, and so do its four bytes inside
/// a buffer of `len` bytes.
pub proof fn lemma_edge_pixel_in_tile(n: int, len: int, edge: int, k: int)
    requires
        0 < n,
        len == 4 * n * n,
        0 <= edge < 4,
        0 <= k < n,
    ensures
        0 <= edge_pixel(n, edge, k) < n * n,
        0 <= k * n <= (n - 1) * n,
        (n - 1) * n + n == n * n,
        len == 4 * (n * n),
        0 <= 4 * edge_pixel(n, edge, k),
        4 * edge_pixel(n, edge, k) + 3 < len,
{
    assert(0 <= k * n <= (n - 1) * n) by (nonlinear_arith)
        requires
            0 < n,
            0 <= k < n,
    ;
    assert((n - 1) * n + n == n * n) by (nonlinear_arith);
    assert(4 * n * n == 4 * (n * n)) by (nonlinear_arith);
}

/// The fingerprint of `bytes`.
pub fn fingerprint(bytes: &[u8]) -> (h: u64)
    ensures
        h == fingerprint_of(bytes@),
{
    let mut hasher = DefaultHasher::new();
    hasher.write(bytes);
    assert(hasher@ =~= seq![bytes@]);
    hasher.finish()
}

/// A square tile of `size` by `size` pixels, four bytes each, row by row.
#[derive(Debug)]
pub struct Tile {
    pub size: usize,
    pub pixels: Vec<u8>,
}

impl Tile {
    /// The tile is not empty and the buffer holds exactly its pixels.
    pub open spec fn wf(self) -> bool {
        &&& self.size > 0
        &&& self.pixels@.len() == 4 * self.size * self.size
    }

    /// Accepts a pixel buffer as a tile, or says why it is none.
    pub fn new(pixels: Vec<u8>, width: usize, height: usize) -> (r: Result<Tile, LoadError>)
        ensures
            match r {
                Ok(t) => {
                    &&& tile_error(pixels@.len() as int, width as int, height as int) is None
                    &&& t.wf()
                    &&& t.size == width
                    &&& t.pixels@ == pixels@
                },
                Err(e) => tile_error(pixels@.len() as int, width as int, height as int) == Some(
                    e,
                ),
            },
    {
        let len: usize = pixels.len();
        assert(4 * width * width == 4 * (width * width)) by (nonlinear_arith);
        if width != height {
            return Err(LoadError::NotSquare);
        }
        if width == 0 {
            return Err(LoadError::Empty);
        }
        let area: usize = match width.checked_mul(width) {
            Some(a) => a,
            None => {
                return Err(LoadError::WrongLength);
            },
        };
        let wanted: usize = match area.checked_mul(4) {
            Some(b) => b,
            None => {
                return Err(LoadError::WrongLength);
            },
        };
        if len != wanted {
            return Err(LoadError::WrongLength);
        }
        Ok(Tile { size: width, pixels })
    }

    /// The bytes along edge `edge`.
    pub fn edge(&self, edge: usize) -> (out: Vec<u8>)
        requires
            self.wf(),
            edge < 4,
        ensures
            out@ == border_bytes(self.pixels@, self.size as int, edge as int),
    {
        let n: usize = self.size;
        let len: usize = self.pixels.len();
        let mut out: Vec<u8> = Vec::new();
        let mut k: usize = 0;
        while k < n
            invariant
                self.wf(),
                n == self.size,
                len == self.pixels@.len(),
                edge < 4,
                k <= n,
                out@.len() == 4 * k,
                forall|j: int|
                    0 <= j < 4 * k ==> #[trigger] out@[j] == self.pixels@[4 * edge_pixel(
                        n as int,
                        edge as int,
                        j / 4,
                    ) + j % 4],
            decreases n - k,
        {
            proof {
                lemma_edge_pixel_in_tile(n as int, len as int, edge as int, k as int);
            }
            let pixel: usize = if edge == 0 {
                (n - 1) * n + k
            } else if edge == 1 {
                k * n
            } else if edge == 2 {
                k
            } else {
                k * n + (n - 1)
            };
            let at: usize = 4 * pixel;
            out.push(self.pixels[at]);
            out.push(self.pixels[at + 1]);
            out.push(self.pixels[at + 2]);
            out.push(self.pixels[at + 3]);
            k += 1;
        }
        assert(out@ =~= border_bytes(self.pixels@, n as int, edge as int));
        out
    }

    /// The fingerprints of the four edges, by edge number.
    pub fn fingerprints(&self) -> (fp: [u64; 4])
        requires
            self.wf(),
        ensures
            fp@ == border_fingerprints(self.pixels@, self.size as int),
    {
        let e0 = self.edge(0);
        let e1 = self.edge(1);
        let e2 = self.edge(2);
        let e3 = self.edge(3);
        let fp: [u64; 4] = [
            fingerprint(e0.as_slice()),
            fingerprint(e1.as_slice()),
            fingerprint(e2.as_slice()),
            fingerprint(e3.as_slice()),
        ];
        assert(fp@ =~= border_fingerprints(self.pixels@, self.size as int));
        fp
    }
}

} // verus!
