//! Polygon faces of a mesh and their fan triangulation, at the level of
//! vertex, texture-coordinate and normal indices.
use vstd::prelude::*;
use vstd::string::StringSliceAdditionalSpecFns;

verus! {

/// A polygon: for each corner, the index of its position, texture
/// coordinate and normal.
#[derive(Debug)]
pub struct Face {
    pub v_indices: Vec<usize>,
    pub vt_indices: Vec<usize>,
    pub vn_indices: Vec<usize>,
}

/// The three corners of one triangle of a face.
#[derive(Debug, Clone, Copy, PartialEq, Eq)]
pub struct FaceTriangle {
    pub v: [usize; 3],
    pub vt: [usize; 3],
    pub vn: [usize; 3],
}

impl Face {
    /// Every corner has all three indices (extra texture-coordinate or
    /// normal indices are ignored).
    pub open spec fn wf(&self) -> bool {
        self.vt_indices@.len() >= self.v_indices@.len() && self.vn_indices@.len() >= self.v_indices@.len()
    }
}

/// The triangle of `f` with corners `i`, `j` and `k`.
pub open spec fn corner_triangle(f: Face, i: int, j: int, k: int) -> FaceTriangle {
    FaceTriangle {
        v: [f.v_indices@[i], f.v_indices@[j], f.v_indices@[k]],
        vt: [f.vt_indices@[i], f.vt_indices@[j], f.vt_indices@[k]],
        vn: [f.vn_indices@[i], f.vn_indices@[j], f.vn_indices@[k]],
    }
}

/// The fan of a face with `n >= 3` corners: triangles `(0, i, i + 1)` for
/// `i` from 1 to `n - 2`; a face with fewer corners gives none.
pub open spec fn fan_of(f: Face) -> Seq<FaceTriangle> {
    if f.v_indices@.len() < 3 {
        Seq::empty()
    } else {
        Seq::new((f.v_indices@.len() - 2) as nat, |i: int| corner_triangle(f, 0, i + 1, i + 2))
    }
}

/// The fans of `faces`, face after face.
pub open spec fn fans_of(faces: Seq<Face>) -> Seq<FaceTriangle>
    decreases faces.len(),
{
    if faces.len() == 0 {
        Seq::empty()
    } else {
        fans_of(faces.drop_last()) + fan_of(faces.last())
    }
}

/// Splits every face into a fan of triangles around its first corner, in
/// face order.
pub fn fan_triangulate_faces(faces: &Vec<Face>) -> (r: Vec<FaceTriangle>)
    requires
        forall|i: int| 0 <= i < faces@.len() ==> #[trigger] faces@[i].wf(),
    ensures
        r@ == fans_of(faces@),
{
    let mut triangles: Vec<FaceTriangle> = Vec::new();
    let mut k: usize = 0;
    while k < faces.len()
        invariant
            0 <= k <= faces@.len(),
            forall|i: int| 0 <= i < faces@.len() ==> #[trigger] faces@[i].wf(),
            triangles@ == fans_of(faces@.take(k as int)),
        decreases faces@.len() - k,
    {
        let face = &faces[k];
        assert(face.wf());
        let ghost before = triangles@;
        let n = face.v_indices.len();
        if n >= 3 {
            let mut i: usize = 1;
            while i < n - 1
                invariant
                    1 <= i <= n - 1,
                    n == face.v_indices@.len(),
                    n >= 3,
                    face.wf(),
                    triangles@ == before + fan_of(*face).take(i - 1),
                decreases n - i,
            {
                let t = FaceTriangle {
                    v: [face.v_indices[0], face.v_indices[i], face.v_indices[i + 1]],
                    vt: [face.vt_indices[0], face.vt_indices[i], face.vt_indices[i + 1]],
                    vn: [face.vn_indices[0], face.vn_indices[i], face.vn_indices[i + 1]],
                };
                assert(t == corner_triangle(*face, 0, i as int, i + 1));
                triangles.push(t);
                assert(fan_of(*face).take(i as int) =~= fan_of(*face).take(i - 1).push(t));
                i = i + 1;
            }
            assert(fan_of(*face).take(n - 2) =~= fan_of(*face));
        } else {
            assert(fan_of(*face) =~= Seq::<FaceTriangle>::empty());
        }
        assert(faces@.take(k + 1).drop_last() =~= faces@.take(k as int));
        assert(triangles@ =~= fans_of(faces@.take(k + 1)));
        k = k + 1;
    }
    assert(faces@.take(k as int) =~= faces@);
    triangles
}

/// Why a face corner could not be read.
#[derive(Debug, Clone, Copy, PartialEq, Eq, Structural)]
pub enum FaceError {
    /// A field is not a decimal number that fits a `usize`.
    InvalidIndex,
    /// A field is `0`: corners are numbered from 1.
    ZeroIndex,
}

/// Position of the first `/` in `b`, or its length when there is none.
pub open spec fn first_slash(b: Seq<u8>) -> int
    decreases b.len(),
{
    if b.len() == 0 || b[0] == 47u8 {
        0
    } else {
        1 + first_slash(b.drop_first())
    }
}

/// The `i`-th of the `/`-separated fields of `b`, if there are that many.
pub open spec fn field(b: Seq<u8>, i: nat) -> Option<Seq<u8>>
    decreases i,
{
    let k = first_slash(b);
    if i == 0 {
        Some(b.take(k))
    } else if k >= b.len() {
        None
    } else {
        field(b.skip(k + 1), (i - 1) as nat)
    }
}

pub open spec fn is_digit(c: u8) -> bool {
    48 <= c <= 57
}

pub open spec fn all_digits(s: Seq<u8>) -> bool {
    forall|i: int| 0 <= i < s.len() ==> is_digit(#[trigger] s[i])
}

/// The value of a string of decimal digits.
pub open spec fn digits_value(s: Seq<u8>) -> int
    decreases s.len(),
{
    if s.len() == 0 {
        0
    } else {
        digits_value(s.drop_last()) * 10 + (s.last() - 48)
    }
}

/// The number a field spells: an optional `+` and at least one digit.
pub open spec fn number_of(s: Seq<u8>) -> Option<int> {
    let d = if s.len() > 0 && s[0] == 43u8 { s.drop_first() } else { s };
    if d.len() > 0 && all_digits(d) {
        Some(digits_value(d))
    } else {
        None
    }
}

/// The zero-based index that a field names.
pub open spec fn index_of(s: Seq<u8>) -> Result<usize, FaceError> {
    match number_of(s) {
        None => Err(FaceError::InvalidIndex),
        Some(n) => if n > usize::MAX {
            Err(FaceError::InvalidIndex)
        } else if n == 0 {
            Err(FaceError::ZeroIndex)
        } else {
            Ok((n - 1) as usize)
        },
    }
}

/// An optional index: a field that is missing or empty names none.
pub open spec fn optional_index_of(f: Option<Seq<u8>>) -> Result<Option<usize>, FaceError> {
    match f {
        None => Ok(None),
        Some(s) => if s.len() == 0 {
            Ok(None)
        } else {
            match index_of(s) {
                Ok(i) => Ok(Some(i)),
                Err(e) => Err(e),
            }
        },
    }
}

/// The corner `v/vt/vn` of a face line: a vertex index, then optional
/// texture-coordinate and normal indices, all made zero-based; fields after
/// the third are ignored, and the first field in error decides the error.
pub open spec fn face_vertex(b: Seq<u8>) -> Result<(usize, Option<usize>, Option<usize>), FaceError> {
    match index_of(field(b, 0).unwrap()) {
        Err(e) => Err(e),
        Ok(v) => match optional_index_of(field(b, 1)) {
            Err(e) => Err(e),
            Ok(vt) => match optional_index_of(field(b, 2)) {
                Err(e) => Err(e),
                Ok(vn) => Ok((v, vt, vn)),
            },
        },
    }
}

proof fn lemma_first_slash(s: Seq<u8>, k: int)
    requires
        0 <= k <= s.len(),
        forall|j: int| 0 <= j < k ==> s[j] != 47u8,
        k == s.len() || s[k] == 47u8,
    ensures
        first_slash(s) == k,
    decreases k,
{
    if k > 0 {
        lemma_first_slash(s.drop_first(), k - 1);
    }
}

proof fn lemma_digits_prefix(s: Seq<u8>, i: int)
    requires
        0 <= i <= s.len(),
        all_digits(s),
    ensures
        digits_value(s.take(i)) <= digits_value(s),
        0 <= digits_value(s.take(i)),
    decreases s.len(),
{
    if i < s.len() {
        let t = s.drop_last();
        assert(all_digits(t));
        assert(t.take(i) =~= s.take(i));
        lemma_digits_prefix(t, i);
        lemma_digits_prefix(t, t.len() as int);
        assert(t.take(t.len() as int) =~= t);
        assert(is_digit(s[s.len() - 1]));
    } else {
        assert(s.take(i) =~= s);
        if s.len() > 0 {
            let t = s.drop_last();
            assert(all_digits(t));
            lemma_digits_prefix(t, t.len() as int);
            assert(t.take(t.len() as int) =~= t);
            assert(is_digit(s[s.len() - 1]));
        }
    }
}

/// End of the field that starts at `start`: the next `/` or the end.
fn field_end(b: &[u8], start: usize) -> (end: usize)
    requires
        start <= b@.len(),
    ensures
        start <= end <= b@.len(),
        end - start == first_slash(b@.skip(start as int)),
{
    let mut end = start;
    while end < b.len() && b[end] != 47u8
        invariant
            start <= end <= b@.len(),
            forall|j: int| start <= j < end ==> b@[j] != 47u8,
        decreases b@.len() - end,
    {
        end = end + 1;
    }
    proof {
        lemma_first_slash(b@.skip(start as int), end - start);
    }
    end
}

/// The zero-based index named by `b[start..end]`.
fn parse_index(b: &[u8], start: usize, end: usize) -> (r: Result<usize, FaceError>)
    requires
        start <= end <= b@.len(),
    ensures
        r == index_of(b@.subrange(start as int, end as int)),
{
    let ghost s = b@.subrange(start as int, end as int);
    let mut i = start;
    if i < end && b[i] == 43u8 {
        i = i + 1;
    }
    let ghost d = b@.subrange(i as int, end as int);
    assert(d =~= (if s.len() > 0 && s[0] == 43u8 { s.drop_first() } else { s }));
    if i == end {
        return Err(FaceError::InvalidIndex);
    }
    let first = i;
    let mut value: usize = 0;
    let mut overflow = false;
    while i < end
        invariant
            first <= i <= end <= b@.len(),
            start <= first,
            s == b@.subrange(start as int, end as int),
            d == (if s.len() > 0 && s[0] == 43u8 { s.drop_first() } else { s }),
            d == b@.subrange(first as int, end as int),
            all_digits(b@.subrange(first as int, i as int)),
            !overflow ==> value == digits_value(b@.subrange(first as int, i as int)),
            overflow ==> digits_value(b@.subrange(first as int, i as int)) > usize::MAX,
        decreases end - i,
    {
        let c = b[i];
        if !(48u8 <= c && c <= 57u8) {
            proof {
                assert(d[i - first] == c);
                assert(!is_digit(d[i - first]));
                assert(!all_digits(d));
                assert(number_of(s) is None);
            }
            return Err(FaceError::InvalidIndex);
        }
        let ghost prev = b@.subrange(first as int, i as int);
        let ghost next = b@.subrange(first as int, i + 1);
        assert(next.drop_last() =~= prev);
        assert(all_digits(next));
        if !overflow {
            let digit = (c - 48u8) as usize;
            if value > (usize::MAX - digit) / 10 {
                overflow = true;
            } else {
                value = value * 10 + digit;
            }
        } else {
            proof {
                lemma_digits_prefix(next, prev.len() as int);
                assert(next.take(prev.len() as int) =~= prev);
            }
        }
        i = i + 1;
    }
    assert(b@.subrange(first as int, i as int) =~= d);
    if overflow {
        Err(FaceError::InvalidIndex)
    } else if value == 0 {
        Err(FaceError::ZeroIndex)
    } else {
        Ok(value - 1)
    }
}

/// Reads one corner `v/vt/vn` of a face line (see `face_vertex`).
pub fn parse_face_vertex(s: &str) -> (r: Result<(usize, Option<usize>, Option<usize>), FaceError>)
    ensures
        r == face_vertex(s.spec_bytes()),
{
    let b = s.as_bytes();
    let ghost bs = b@;
    let e0 = field_end(b, 0);
    assert(bs.skip(0) =~= bs);
    assert(bs.take(e0 as int) =~= bs.subrange(0, e0 as int));
    assert(field(bs, 0) == Some(bs.subrange(0, e0 as int)));
    let v = match parse_index(b, 0, e0) {
        Ok(v) => v,
        Err(e) => return Err(e),
    };
    if e0 == b.len() {
        return Ok((v, None, None));
    }
    let s1 = e0 + 1;
    let e1 = field_end(b, s1);
    assert(field(bs, 1) == Some(bs.subrange(s1 as int, e1 as int))) by {
        let t = bs.skip(s1 as int);
        assert(field(bs, 1) == field(t, 0));
        assert(field(t, 0) == Some(t.take(first_slash(t))));
        assert(t.take(e1 - s1) =~= bs.subrange(s1 as int, e1 as int));
    }
    let vt = if e1 == s1 {
        None
    } else {
        match parse_index(b, s1, e1) {
            Ok(i) => Some(i),
            Err(e) => return Err(e),
        }
    };
    if e1 == b.len() {
        assert(field(bs, 2) == None::<Seq<u8>>) by {
            let t = bs.skip(s1 as int);
            assert(field(bs, 2) == field(t, 1));
            assert(first_slash(t) >= t.len());
        }
        return Ok((v, vt, None));
    }
    let s2 = e1 + 1;
    let e2 = field_end(b, s2);
    assert(field(bs, 2) == Some(bs.subrange(s2 as int, e2 as int))) by {
        let t = bs.skip(s1 as int);
        let u = bs.skip(s2 as int);
        assert(t.skip(e1 - s1 + 1) =~= u);
        assert(field(bs, 2) == field(t, 1));
        assert(field(t, 1) == field(u, 0));
        assert(field(u, 0) == Some(u.take(first_slash(u))));
        assert(u.take(e2 - s2) =~= bs.subrange(s2 as int, e2 as int));
    }
    let vn = if e2 == s2 {
        None
    } else {
        match parse_index(b, s2, e2) {
            Ok(i) => Some(i),
            Err(e) => return Err(e),
        }
    };
    Ok((v, vt, vn))
}

} // verus!
