//! Reading an STL file held in memory into a triangle soup, with coordinates
//! kept as `f32` bit patterns.
use vstd::prelude::*;

verus! {

#[verifier::external_type_specification]
#[verifier::external_body]
pub struct ExIoError(std::io::Error);

/// The most triangles a file may hold.
pub const MAX_TRIANGLES: usize = 5_000_000;

/// The mesh that `stl_io::read_stl` reads from these bytes, if it reads one:
/// its distinct vertices as `f32` bit patterns, and its faces as indices
/// into them.
pub uninterp spec fn stl_read(bytes: Seq<u8>) -> Option<(Seq<(u32, u32, u32)>, Seq<(usize, usize, usize)>)>;

/// Reads an ASCII or binary STL file from memory with `stl_io::read_stl`
/// over a `Cursor`. Claimed: the outcome depends on the bytes alone (named
/// `stl_read`), it is `Ok` exactly when the name gives a mesh, the vertices
/// come as the bit patterns of their coordinates and the faces as index
/// triples, and every face index is below the number of vertices (the
/// crate's `as_indexed_triangles` only hands out indices of vertices it has
/// already stored). Which bytes parse, and to what, is left to the name.
#[verifier::external_body]
fn read_stl_mesh(bytes: &Vec<u8>) -> (r: Result<(Vec<(u32, u32, u32)>, Vec<(usize, usize, usize)>), std::io::Error>)
    ensures
        match r {
            Ok((v, f)) => {
                &&& stl_read(bytes@) == Some((v@, f@))
                &&& forall|i: int|
                    0 <= i < f.len() ==> (#[trigger] f@[i]).0 < v.len() && f@[i].1 < v.len() && f@[i].2
                        < v.len()
            },
            Err(_) => stl_read(bytes@) is None,
        },
{
    let mesh = stl_io::read_stl(&mut std::io::Cursor::new(bytes.as_slice()))?;
    let v = mesh.vertices.iter().map(|p| (p[0].to_bits(), p[1].to_bits(), p[2].to_bits())).collect();
    let f = mesh.faces.iter().map(|t| (t.vertices[0], t.vertices[1], t.vertices[2])).collect();
    Ok((v, f))
}

/// The text of an I/O error, by its `Display` (`ToString::to_string`).
#[verifier::external_body]
fn io_error_text(e: &std::io::Error) -> (s: String) {
    e.to_string()
}

/// Why a file could not be read.
#[derive(Debug, Clone, PartialEq, Eq)]
pub enum StlError {
    /// The bytes are not an STL file; the reader's message.
    Parse(String),
    /// The file holds more than `MAX_TRIANGLES` triangles; how many.
    TooManyTriangles(usize),
}

/// Corner `j` (0, 1 or 2) of a triple.
pub open spec fn corner_of<T>(t: (T, T, T), j: int) -> T {
    if j == 0 {
        t.0
    } else if j == 1 {
        t.1
    } else {
        t.2
    }
}

/// The corners of the faces, three per face in order, looked up in `verts`.
pub open spec fn face_corners(verts: Seq<(u32, u32, u32)>, faces: Seq<(usize, usize, usize)>) -> Seq<
    (u32, u32, u32),
> {
    Seq::new(3 * faces.len(), |k: int| verts[corner_of(faces[k / 3], k % 3) as int])
}

/// The coordinates of the corners laid end to end, three per corner.
pub open spec fn flat_coords(corners: Seq<(u32, u32, u32)>) -> Seq<u32> {
    Seq::new(3 * corners.len(), |k: int| corner_of(corners[k / 3], k % 3))
}

/// What reading `bytes` gives: the corners of the triangles, three per
/// triangle, or the reason it failed.
pub open spec fn stl_outcome(bytes: Seq<u8>) -> Result<Seq<(u32, u32, u32)>, Option<usize>> {
    match stl_read(bytes) {
        None => Err(None),
        Some((v, f)) => if f.len() > MAX_TRIANGLES {
            Err(Some(f.len() as usize))
        } else {
            Ok(face_corners(v, f))
        },
    }
}

/// What a mesh read from a file gives: the corners of its triangles, three
/// per triangle, or the count when there are too many triangles.
pub open spec fn mesh_outcome(verts: Seq<(u32, u32, u32)>, faces: Seq<(usize, usize, usize)>) -> Result<
    Seq<(u32, u32, u32)>,
    usize,
> {
    if faces.len() > MAX_TRIANGLES {
        Err(faces.len() as usize)
    } else {
        Ok(face_corners(verts, faces))
    }
}

/// Expands a mesh read from a file, its distinct vertices and its faces as
/// index triples, into the corners of its triangles, three per triangle;
/// fails with the count when there are more than `MAX_TRIANGLES` triangles.
pub fn mesh_corners(verts: &Vec<(u32, u32, u32)>, faces: &Vec<(usize, usize, usize)>) -> (r: Result<
    Vec<(u32, u32, u32)>,
    StlError,
>)
    requires
        forall|q: int|
            0 <= q < faces.len() ==> (#[trigger] faces@[q]).0 < verts.len() && faces@[q].1 < verts.len()
                && faces@[q].2 < verts.len(),
    ensures
        match (r, mesh_outcome(verts@, faces@)) {
            (Ok(c), Ok(s)) => c@ == s,
            (Err(StlError::TooManyTriangles(n)), Err(m)) => n == m,
            _ => false,
        },
{
    let count = faces.len();
    if count > MAX_TRIANGLES {
        return Err(StlError::TooManyTriangles(count));
    }
    let mut corners: Vec<(u32, u32, u32)> = Vec::new();
    let mut i: usize = 0;
    while i < count
        invariant
            count == faces.len(),
            count <= MAX_TRIANGLES,
            0 <= i <= count,
            forall|q: int|
                0 <= q < faces.len() ==> (#[trigger] faces@[q]).0 < verts.len() && faces@[q].1 < verts.len()
                    && faces@[q].2 < verts.len(),
            corners@ =~= face_corners(verts@, faces@.take(i as int)),
        decreases count - i,
    {
        let f = faces[i];
        corners.push(verts[f.0]);
        corners.push(verts[f.1]);
        corners.push(verts[f.2]);
        proof {
            let next = face_corners(verts@, faces@.take(i as int + 1));
            assert forall|k: int| 0 <= k < next.len() implies corners@[k] == next[k] by {
                if k < 3 * i {
                    assert(faces@.take(i as int + 1)[k / 3] == faces@.take(i as int)[k / 3]);
                }
            }
        }
        i += 1;
    }
    assert(faces@.take(count as int) =~= faces@);
    Ok(corners)
}

/// Reads an STL file held in memory into its triangles' corners, three per
/// triangle, each corner the bit patterns of its coordinates. Fails with the
/// reader's message when the bytes are not an STL file, and with the count
/// when there are more than `MAX_TRIANGLES` triangles.
pub fn parse_stl(bytes: &Vec<u8>) -> (r: Result<Vec<(u32, u32, u32)>, StlError>)
    ensures
        match (r, stl_outcome(bytes@)) {
            (Ok(c), Ok(s)) => c@ == s,
            (Err(StlError::Parse(_)), Err(None)) => true,
            (Err(StlError::TooManyTriangles(n)), Err(Some(m))) => n == m,
            _ => false,
        },
{
    match read_stl_mesh(bytes) {
        Ok((verts, faces)) => mesh_corners(&verts, &faces),
        Err(e) => Err(StlError::Parse(io_error_text(&e))),
    }
}

/// Reads an STL file held in memory into a flat list of coordinates, nine
/// per triangle, each the bit pattern of an `f32`.
pub fn parse_stl_bytes(bytes: &Vec<u8>) -> (r: Result<Vec<u32>, StlError>)
    ensures
        match (r, stl_outcome(bytes@)) {
            (Ok(c), Ok(s)) => c@ == flat_coords(s),
            (Err(StlError::Parse(_)), Err(None)) => true,
            (Err(StlError::TooManyTriangles(n)), Err(Some(m))) => n == m,
            _ => false,
        },
{
    let corners = match parse_stl(bytes) {
        Ok(c) => c,
        Err(e) => {
            return Err(e);
        },
    };
    let n = corners.len();
    let mut flat: Vec<u32> = Vec::new();
    let mut i: usize = 0;
    while i < n
        invariant
            n == corners.len(),
            n <= 3 * MAX_TRIANGLES,
            0 <= i <= n,
            flat@ =~= flat_coords(corners@.take(i as int)),
        decreases n - i,
    {
        let c = corners[i];
        flat.push(c.0);
        flat.push(c.1);
        flat.push(c.2);
        proof {
            let next = flat_coords(corners@.take(i as int + 1));
            assert forall|k: int| 0 <= k < next.len() implies flat@[k] == next[k] by {
                if k < 3 * i {
                    assert(corners@.take(i as int + 1)[k / 3] == corners@.take(i as int)[k / 3]);
                }
            }
        }
        i += 1;
    }
    assert(corners@.take(n as int) =~= corners@);
    Ok(flat)
}

} // verus!
