//! Parsing of the face statements of Wavefront mesh files.
//!
//! A face line holds three vertex components, each of the form `v`,
//! `v/vt`, `v//vn` or `v/vt/vn`, with one-based indices that the parser
//! turns into zero-based ones. Contracts are stated over the UTF-8 byte
//! encoding of the tokens.

use vstd::prelude::*;
use vstd::string::StringExecFns;
use vstd::utf8::encode_utf8;

use crate::parse::{
    dec_chars, decimal_string, first_sep, lemma_first_sep_at, parse_usize_range, sep_count,
    spec_parse_usize,
};

verus! {

/// Byte value of `/`.
pub const SLASH: u8 = 47;

/// One face of a triangle mesh: zero-based indices into the vertex,
/// normal and texture-coordinate lists.
#[derive(PartialEq, Eq, Debug)]
pub struct Face {
    pub v: (usize, usize, usize),
    pub vn: Option<(usize, usize, usize)>,
    pub vt: Option<(usize, usize, usize)>,
}

/// A failure while loading a mesh file: a malformed statement, or an
/// unreadable file.
#[derive(PartialEq, Eq, Debug)]
pub enum Error {
    ParseError { file_name: String, line_number: usize, message: String },
    IOError { file_name: String, message: String },
}

impl Error {
    /// Wrap a malformed statement, with the file and line it came from.
    pub fn parse_error(file_name: String, line_number: usize, message: String) -> (r: Self)
        ensures
            r == (Error::ParseError { file_name, line_number, message }),
    {
        Self::ParseError { file_name, line_number, message }
    }

    /// Wrap a read failure, with the file it came from.
    pub fn io_error(file_name: String, message: String) -> (r: Self)
        ensures
            r == (Error::IOError { file_name, message }),
    {
        Self::IOError { file_name, message }
    }

    /// The human-readable description of the failure.
    pub fn message(&self) -> (r: String)
        ensures
            self matches Error::ParseError { file_name, line_number, message } ==> r@ == file_name@
                + ":"@ + dec_chars(line_number as int) + " error: "@ + message@,
            self matches Error::IOError { file_name, message } ==> r@ == "Failed to read "@
                + file_name@ + ": "@ + message@,
    {
        match self {
            Error::ParseError { file_name, line_number, message } => {
                file_name
                    .clone()
                    .concat(":")
                    .concat(decimal_string(*line_number).as_str())
                    .concat(" error: ")
                    .concat(message.as_str())
            },
            Error::IOError { file_name, message } => {
                String::from_str("Failed to read ")
                    .concat(file_name.as_str())
                    .concat(": ")
                    .concat(message.as_str())
            },
        }
    }
}

/// The one-based indices a face vertex component holds, if it is well
/// formed: `(vertex, normal, texture)` for the forms `v`, `v/vt`, `v//vn`
/// and `v/vt/vn`.
pub open spec fn spec_face_component_raw(s: Seq<u8>) -> Option<
    (usize, Option<usize>, Option<usize>),
> {
    let c = sep_count(s, SLASH, SLASH);
    if c == 0 {
        match spec_parse_usize(s) {
            Some(v) => Some((v, None, None)),
            None => None,
        }
    } else if c == 1 {
        let i = first_sep(s, SLASH, SLASH);
        match (spec_parse_usize(s.subrange(0, i)), spec_parse_usize(
            s.subrange(i + 1, s.len() as int),
        )) {
            (Some(v), Some(t)) => Some((v, None, Some(t))),
            _ => None,
        }
    } else if c == 2 {
        let i = first_sep(s, SLASH, SLASH);
        let rest = s.subrange(i + 1, s.len() as int);
        let k = first_sep(rest, SLASH, SLASH);
        let mid = rest.subrange(0, k);
        let tail = rest.subrange(k + 1, rest.len() as int);
        if mid.len() == 0 {
            match (spec_parse_usize(s.subrange(0, i)), spec_parse_usize(tail)) {
                (Some(v), Some(n)) => Some((v, Some(n), None)),
                _ => None,
            }
        } else {
            match (spec_parse_usize(s.subrange(0, i)), spec_parse_usize(mid), spec_parse_usize(
                tail,
            )) {
                (Some(v), Some(t), Some(n)) => Some((v, Some(n), Some(t))),
                _ => None,
            }
        }
    } else {
        None
    }
}

/// All indices of a well-formed component are at least one, as the
/// one-based mesh format requires.
pub open spec fn component_indices_positive(s: Seq<u8>) -> bool {
    match spec_face_component_raw(s) {
        Some(c) => {
            &&& c.0 >= 1
            &&& (c.1 matches Some(n) ==> n >= 1)
            &&& (c.2 matches Some(t) ==> t >= 1)
        },
        None => true,
    }
}

/// The zero-based form of a component's one-based indices.
pub open spec fn spec_component_value(c: (usize, Option<usize>, Option<usize>)) -> (
    usize,
    Option<usize>,
    Option<usize>,
) {
    (
        (c.0 - 1) as usize,
        match c.1 {
            Some(n) => Some((n - 1) as usize),
            None => None,
        },
        match c.2 {
            Some(t) => Some((t - 1) as usize),
            None => None,
        },
    )
}

/// Parse one one-based index token of a face component.
pub fn parse_face_component_index(part: &str) -> (r: Result<usize, String>)
    ensures
        r is Ok <==> spec_parse_usize(encode_utf8(part@)) is Some,
        r matches Ok(v) ==> Some(v) == spec_parse_usize(encode_utf8(part@)),
{
    let bs = part.as_bytes();
    proof {
        assert(bs@.subrange(0, bs@.len() as int) =~= bs@);
    }
    match parse_usize_range(bs, 0, bs.len()) {
        Some(v) => Ok(v),
        None => Err(String::from_str("Failed to parse index")),
    }
}

/// Parse one face vertex component of the form `v`, `v/vt`, `v//vn` or
/// `v/vt/vn` into zero-based `(vertex, normal, texture)` indices.
pub fn parse_face_component(component: &str) -> (r: Result<
    (usize, Option<usize>, Option<usize>),
    String,
>)
    requires
        component_indices_positive(encode_utf8(component@)),
    ensures
        r is Ok <==> spec_face_component_raw(encode_utf8(component@)) is Some,
        r matches Ok(c) ==> spec_face_component_raw(encode_utf8(component@)) matches Some(raw)
            && c == spec_component_value(raw),
{
    let bs = component.as_bytes();
    let n = bs.len();
    let mut count: usize = 0;
    let mut p1: usize = 0;
    let mut p2: usize = 0;
    let mut k: usize = 0;
    while k < n
        invariant
            k <= n == bs@.len(),
            count <= k,
            count == sep_count(bs@.subrange(0, k as int), SLASH, SLASH),
            count > 0 ==> p1 < k && bs@[p1 as int] == SLASH && (forall|j: int|
                0 <= j < p1 ==> (#[trigger] bs@[j]) != SLASH),
            count > 1 ==> p1 < p2 < k && bs@[p2 as int] == SLASH && (forall|j: int|
                p1 < j < p2 ==> (#[trigger] bs@[j]) != SLASH),
            count == 0 ==> forall|j: int| 0 <= j < k ==> (#[trigger] bs@[j]) != SLASH,
            count == 1 ==> forall|j: int| p1 < j < k ==> (#[trigger] bs@[j]) != SLASH,
        decreases n - k,
    {
        let ghost prefix = bs@.subrange(0, k as int);
        let ghost prefix1 = bs@.subrange(0, k + 1int);
        proof {
            assert(prefix1.drop_last() =~= prefix);
            assert(prefix1.last() == bs@[k as int]);
        }
        let b = bs[k];
        if b == SLASH {
            if count == 0 {
                p1 = k;
            } else if count == 1 {
                p2 = k;
            }
            count = count + 1;
        }
        k = k + 1;
    }
    proof {
        assert(bs@.subrange(0, n as int) =~= bs@);
    }
    let ghost raw = spec_face_component_raw(bs@);
    if count == 0 {
        match parse_usize_range(bs, 0, n) {
            Some(v) => {
                proof {
                    assert(raw == Some((v, None::<usize>, None::<usize>)));
                }
                Ok((v - 1, None, None))
            },
            None => Err(String::from_str("Failed to parse index")),
        }
    } else if count == 1 {
        proof {
            lemma_first_sep_at(bs@, SLASH, SLASH, p1 as int);
        }
        let v = match parse_usize_range(bs, 0, p1) {
            Some(v) => v,
            None => {
                return Err(String::from_str("Failed to parse index"));
            },
        };
        let t = match parse_usize_range(bs, p1 + 1, n) {
            Some(t) => t,
            None => {
                return Err(String::from_str("Failed to parse index"));
            },
        };
        proof {
            assert(raw == Some((v, None::<usize>, Some(t))));
        }
        Ok((v - 1, None, Some(t - 1)))
    } else if count == 2 {
        proof {
            lemma_first_sep_at(bs@, SLASH, SLASH, p1 as int);
            let rest = bs@.subrange(p1 + 1, n as int);
            assert forall|j: int| 0 <= j < p2 - p1 - 1 implies (#[trigger] rest[j]) != SLASH by {
                assert(rest[j] == bs@[p1 + 1 + j]);
            }
            assert(rest[p2 - p1 - 1] == bs@[p2 as int]);
            lemma_first_sep_at(rest, SLASH, SLASH, p2 - p1 - 1);
            assert(rest.subrange(0, p2 - p1 - 1) =~= bs@.subrange(p1 + 1, p2 as int));
            assert(rest.subrange(p2 - p1 - 1 + 1, rest.len() as int) =~= bs@.subrange(
                p2 + 1,
                n as int,
            ));
        }
        let v = match parse_usize_range(bs, 0, p1) {
            Some(v) => v,
            None => {
                return Err(String::from_str("Failed to parse index"));
            },
        };
        if p2 == p1 + 1 {
            let nrm = match parse_usize_range(bs, p2 + 1, n) {
                Some(nrm) => nrm,
                None => {
                    return Err(String::from_str("Failed to parse index"));
                },
            };
            proof {
                assert(raw == Some((v, Some(nrm), None::<usize>)));
            }
            Ok((v - 1, Some(nrm - 1), None))
        } else {
            let t = match parse_usize_range(bs, p1 + 1, p2) {
                Some(t) => t,
                None => {
                    return Err(String::from_str("Failed to parse index"));
                },
            };
            let nrm = match parse_usize_range(bs, p2 + 1, n) {
                Some(nrm) => nrm,
                None => {
                    return Err(String::from_str("Failed to parse index"));
                },
            };
            proof {
                assert(raw == Some((v, Some(nrm), Some(t))));
            }
            Ok((v - 1, Some(nrm - 1), Some(t - 1)))
        }
    } else {
        Err(String::from_str("Face vertices cannot have more than 3 components"))
    }
}

/// The face a whole face statement describes, if it is well formed: the
/// keyword and three components, with all-or-none normal and
/// texture-coordinate indices.
pub open spec fn spec_face(s1: Seq<u8>, s2: Seq<u8>, s3: Seq<u8>) -> Option<Face> {
    match (spec_face_component_raw(s1), spec_face_component_raw(s2), spec_face_component_raw(s3)) {
        (Some(c1), Some(c2), Some(c3)) => {
            let d1 = spec_component_value(c1);
            let d2 = spec_component_value(c2);
            let d3 = spec_component_value(c3);
            let normals_ok = (d1.1 is Some && d2.1 is Some && d3.1 is Some) || (d1.1 is None
                && d2.1 is None && d3.1 is None);
            let textures_ok = (d1.2 is Some && d2.2 is Some && d3.2 is Some) || (d1.2 is None
                && d2.2 is None && d3.2 is None);
            if normals_ok && textures_ok {
                Some(
                    Face {
                        v: (d1.0, d2.0, d3.0),
                        vn: if d1.1 is Some {
                            Some((d1.1->0, d2.1->0, d3.1->0))
                        } else {
                            None
                        },
                        vt: if d1.2 is Some {
                            Some((d1.2->0, d2.2->0, d3.2->0))
                        } else {
                            None
                        },
                    },
                )
            } else {
                None
            }
        },
        _ => None,
    }
}

/// Parse a whole face statement, split into its whitespace-separated
/// parts: the `f` keyword and exactly three vertex components.
pub fn parse_face_data(parts: &Vec<&str>) -> (r: Result<Face, String>)
    requires
        parts@.len() == 4 ==> {
            &&& component_indices_positive(encode_utf8(parts@[1]@))
            &&& component_indices_positive(encode_utf8(parts@[2]@))
            &&& component_indices_positive(encode_utf8(parts@[3]@))
        },
    ensures
        r is Ok <==> parts@.len() == 4 && spec_face(
            encode_utf8(parts@[1]@),
            encode_utf8(parts@[2]@),
            encode_utf8(parts@[3]@),
        ) is Some,
        r matches Ok(f) ==> Some(f) == spec_face(
            encode_utf8(parts@[1]@),
            encode_utf8(parts@[2]@),
            encode_utf8(parts@[3]@),
        ),
{
    if parts.len() < 4 {
        return Err(String::from_str("Faces with fewer than 3 vertices are not supported"));
    }
    if parts.len() > 4 {
        return Err(String::from_str("Faces with more than 3 vertices are not supported"));
    }

    let c1 = match parse_face_component(parts[1]) {
        Ok(c) => c,
        Err(e) => {
            return Err(e);
        },
    };
    let c2 = match parse_face_component(parts[2]) {
        Ok(c) => c,
        Err(e) => {
            return Err(e);
        },
    };
    let c3 = match parse_face_component(parts[3]) {
        Ok(c) => c,
        Err(e) => {
            return Err(e);
        },
    };

    let vertices = (c1.0, c2.0, c3.0);

    let normals = match (c1.1, c2.1, c3.1) {
        (Some(vn1), Some(vn2), Some(vn3)) => Some((vn1, vn2, vn3)),
        (None, None, None) => None,
        _ => {
            return Err(String::from_str("Some vertices missing normal data"));
        },
    };

    let texture_coordinates = match (c1.2, c2.2, c3.2) {
        (Some(vt1), Some(vt2), Some(vt3)) => Some((vt1, vt2, vt3)),
        (None, None, None) => None,
        _ => {
            return Err(String::from_str("Some vertices missing texture coordinate data"));
        },
    };

    Ok(Face { v: vertices, vn: normals, vt: texture_coordinates })
}

} // verus!
