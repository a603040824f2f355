use pathtracer::bsdf::{albedo_is_valid, BSDF};
use pathtracer::scene::{encode_scene, Scene};
use pathtracer::util::{read, read_3tuple, serialize_seq, Colour, DecodeError, FloatBits, Object, Point3, Reader};

fn bits(v: f32) -> FloatBits {
    FloatBits(v.to_bits())
}

fn push_u32(out: &mut Vec<u8>, v: u32) {
    out.extend_from_slice(&v.to_le_bytes());
}

fn push_f32(out: &mut Vec<u8>, v: f32) {
    out.extend_from_slice(&v.to_le_bytes());
}

fn header(out: &mut Vec<u8>, nv: u32, nb: u32, nf: u32) {
    out.push(1);
    push_u32(out, nv);
    push_u32(out, nb);
    push_u32(out, nf);
}

fn triangle_vertices(out: &mut Vec<u8>) {
    for v in [[0.0f32, 0.0, 0.0], [1.0, 0.0, 0.0], [1.0, 2.0, 0.0]] {
        for c in v {
            push_f32(out, c);
        }
    }
}

fn decode(bytes: Vec<u8>) -> Result<Scene, DecodeError> {
    let mut r = Reader::new(bytes);
    Scene::deserialize(&mut r)
}

fn diffuse_scene(albedo: [f32; 3]) -> Vec<u8> {
    let mut f = Vec::new();
    header(&mut f, 3, 1, 1);
    triangle_vertices(&mut f);
    f.push(2);
    for c in albedo {
        push_f32(&mut f, c);
    }
    for v in [0u32, 1, 2, 0] {
        push_u32(&mut f, v);
    }
    f
}

fn normal_of(v: &[Point3<FloatBits>; 3]) -> [f32; 3] {
    let p: Vec<[f32; 3]> = v
        .iter()
        .map(|q| [f32::from_bits(q.0[0].0), f32::from_bits(q.0[1].0), f32::from_bits(q.0[2].0)])
        .collect();
    let ab = [p[1][0] - p[0][0], p[1][1] - p[0][1], p[1][2] - p[0][2]];
    let ac = [p[2][0] - p[0][0], p[2][1] - p[0][1], p[2][2] - p[0][2]];
    let n = [
        ab[1] * ac[2] - ab[2] * ac[1],
        ab[2] * ac[0] - ab[0] * ac[2],
        ab[0] * ac[1] - ab[1] * ac[0],
    ];
    let len = (n[0] * n[0] + n[1] * n[1] + n[2] * n[2]).sqrt();
    [n[0] / len, n[1] / len, n[2] / len]
}

#[test]
fn name() {
    let f: Vec<u8> = vec!(0x1, // version
                          0x03, 0x00, 0x00, 0x00, // Num vertices
                          0x00, 0x00, 0x00, 0x00, // Num bsdfs
                          0x01, 0x00, 0x00, 0x00, // Num faces
                          0x00, 0x00, 0x00, 0x00, // Vertex 0, x
                          0x00, 0x00, 0x00, 0x00, // Vertex 0, y
                          0x00, 0x00, 0x00, 0x00, // Vertex 0, z
                          0x00, 0x00, 0x80, 0x3F, // Vertex 1, x
                          0x00, 0x00, 0x00, 0x00, // Vertex 1, y
                          0x00, 0x00, 0x00, 0x00, // Vertex 1, z
                          0x00, 0x00, 0x80, 0x3F, // Vertex 2, x
                          0x00, 0x00, 0x00, 0x40, // Vertex 2, y
                          0x00, 0x00, 0x00, 0x00, // Vertex 2, z
                          0x00, 0x00, 0x00, 0x00, // Face 0, x
                          0x01, 0x00, 0x00, 0x00, // Face 0, y
                          0x02, 0x00, 0x00, 0x00, // Face 0, z
                          0x00, 0x00, 0x00, 0x00, // Face 0, bsdf
    );
    // The face names BSDF 0 while the table is empty.
    assert_eq!(decode(f.clone()).err(), Some(DecodeError::BsdfIndexOutOfRange));

    // The same mesh with one material in the table.
    let mut g = f[..13].to_vec();
    g[5] = 1;
    g.extend_from_slice(&f[13..49]);
    g.push(1);
    g.extend_from_slice(&f[49..]);
    let s = decode(g).expect("scene decodes");
    let faces = s.faces();
    assert_eq!(faces.len(), 1);
    assert_eq!(faces[0].vertices[0], Point3([bits(0.), bits(0.), bits(0.)]));
    assert_eq!(faces[0].vertices[1], Point3([bits(1.), bits(0.), bits(0.)]));
    assert_eq!(faces[0].vertices[2], Point3([bits(1.), bits(2.), bits(0.)]));
    assert_eq!(normal_of(&faces[0].vertices), [0., 0., 1.]);
}

#[test]
fn round_trip_keeps_vertices_and_materials() {
    let mut f = Vec::new();
    header(&mut f, 4, 3, 2);
    let verts = [[0.5f32, -1.25, 3.0], [1e-30, 7.0, -0.0], [2.0, 2.0, 2.0], [-4.5, 0.1, 9.75]];
    for v in verts {
        for c in v {
            push_f32(&mut f, c);
        }
    }
    f.push(3);
    for c in [4.0f32, 5.0, 6.0] {
        push_f32(&mut f, c);
    }
    f.push(1);
    f.push(2);
    for c in [0.2f32, 0.3, 0.4] {
        push_f32(&mut f, c);
    }
    for v in [3u32, 1, 0, 2, 2, 0, 1, 0] {
        push_u32(&mut f, v);
    }
    let s = decode(f).expect("scene decodes");
    assert_eq!(s.faces().len(), 2);
    let p = |v: [f32; 3]| Point3([bits(v[0]), bits(v[1]), bits(v[2])]);
    assert_eq!(s.faces()[0].vertices, [p(verts[3]), p(verts[1]), p(verts[0])]);
    assert_eq!(s.faces()[0].bsdf_idx, 2);
    assert_eq!(s.faces()[1].vertices, [p(verts[2]), p(verts[0]), p(verts[1])]);
    assert_eq!(s.faces()[1].bsdf_idx, 0);
    assert_eq!(s.bsdfs().len(), 3);
    assert_eq!(s.bsdfs()[0], BSDF::Emitter(Colour(bits(4.0), bits(5.0), bits(6.0))));
    assert_eq!(s.bsdfs()[1], BSDF::Mirror);
    assert_eq!(s.bsdfs()[2], BSDF::Diffuse(Colour(bits(0.2), bits(0.3), bits(0.4))));
    assert_eq!(*s.bsdf_of(0), BSDF::Diffuse(Colour(bits(0.2), bits(0.3), bits(0.4))));
}

#[test]
fn diffuse_over_unit_sum_rejected() {
    assert_eq!(decode(diffuse_scene([0.5, 0.5, 0.5])).err(), Some(DecodeError::InvalidAlbedo));
    let s = decode(diffuse_scene([0.3, 0.3, 0.3])).expect("albedo 0.9 accepted");
    assert_eq!(s.bsdfs()[0], BSDF::Diffuse(Colour(bits(0.3), bits(0.3), bits(0.3))));
}

#[test]
fn albedo_checked_exactly() {
    let col = |a: f32, b: f32, c: f32| Colour(bits(a), bits(b), bits(c));
    assert!(albedo_is_valid(&col(1.0, 0.0, 0.0)));
    assert!(albedo_is_valid(&col(0.5, 0.25, 0.25)));
    assert!(albedo_is_valid(&col(-0.0, 0.0, 1.0)));
    // One smallest subnormal past 1 in total.
    assert!(!albedo_is_valid(&col(1.0, f32::from_bits(1), 0.0)));
    assert!(!albedo_is_valid(&col(0.5, 0.5, f32::from_bits(1))));
    assert!(albedo_is_valid(&col(0.5, 0.5 - f32::EPSILON / 4.0, f32::EPSILON / 4.0)));
    assert!(!albedo_is_valid(&col(1.5, 0.0, 0.0)));
    assert!(!albedo_is_valid(&col(-0.1, 0.1, 0.0)));
    assert!(!albedo_is_valid(&col(f32::NAN, 0.0, 0.0)));
}

#[test]
fn unknown_bsdf_tag_rejected() {
    for tag in [0u8, 4, 255] {
        let mut f = diffuse_scene([0.1, 0.1, 0.1]);
        f[13 + 36] = tag;
        assert_eq!(decode(f).err(), Some(DecodeError::InvalidBsdfTag));
    }
}

#[test]
fn bad_version_rejected() {
    let mut f = diffuse_scene([0.1, 0.1, 0.1]);
    f[0] = 2;
    assert_eq!(decode(f).err(), Some(DecodeError::InvalidVersion));
    assert_eq!(decode(Vec::new()).err(), Some(DecodeError::UnexpectedEof));
}

#[test]
fn truncated_stream_rejected() {
    let f = diffuse_scene([0.1, 0.1, 0.1]);
    for cut in [3usize, 13, 20, 49, 55, 61, 70] {
        assert_eq!(decode(f[..cut].to_vec()).err(), Some(DecodeError::UnexpectedEof), "{}", cut);
    }
    assert!(decode(f).is_ok());
}

#[test]
fn vertex_index_out_of_range_rejected() {
    let mut f = diffuse_scene([0.1, 0.1, 0.1]);
    f[62 + 8] = 3;
    assert_eq!(decode(f).err(), Some(DecodeError::VertexIndexOutOfRange));
}

#[test]
fn reader_reads_exact_lengths() {
    let mut r = Reader::new(vec![1, 2, 3, 4, 5, 0, 0, 0, 6, 0, 0, 0, 7, 0, 0, 0, 9]);
    let mut buf = [0u8; 4];
    assert_eq!(read(&mut r, &mut buf), Ok(()));
    assert_eq!(buf, [1, 2, 3, 4]);
    assert_eq!(r.position(), 4);
    assert_eq!(u8::deserialize(&mut r), Ok(5));
    let mut r2 = Reader::new(vec![1, 2, 3, 4, 5, 0, 0, 0, 6, 0, 0, 0, 7, 0, 0, 0, 9]);
    assert_eq!(u8::deserialize(&mut r2), Ok(1));
    assert_eq!(u32::deserialize(&mut r2), Ok(0x0005_0403 * 256 + 2));
    let t: Result<(u32, u32, u32), DecodeError> = read_3tuple(&mut r2);
    assert_eq!(t, Ok((0x0600_0000, 0x0700_0000, 0x0900_0000)));
    assert_eq!(u8::deserialize(&mut r2), Err(DecodeError::UnexpectedEof));
    let mut big = [0u8; 100];
    assert_eq!(read(&mut r, &mut big), Err(DecodeError::UnexpectedEof));
    assert_eq!(r.position(), 5);
}

#[test]
fn emission_only_from_emitters() {
    let c = Colour(bits(2.0), bits(3.0), bits(4.0));
    assert_eq!(BSDF::Emitter(c).emission(), c);
    assert!(BSDF::Emitter(c).is_emitter());
    assert_eq!(BSDF::Diffuse(c).emission(), Colour(bits(0.0), bits(0.0), bits(0.0)));
    assert_eq!(BSDF::Mirror.emission(), Colour(bits(0.0), bits(0.0), bits(0.0)));
    assert!(!BSDF::Mirror.is_emitter());
}

#[test]
fn point_accessors() {
    let p = Point3([7u32, 8, 9]);
    assert_eq!((p.x(), p.y(), p.z()), (7, 8, 9));
    assert_eq!(Point3::new(), Point3([bits(0.0); 3]));
}

#[test]
fn encode_then_decode_round_trips() {
    let p = |v: [f32; 3]| Point3([bits(v[0]), bits(v[1]), bits(v[2])]);
    let vertices = vec![p([0.0, 0.0, 0.0]), p([1.0, 0.0, 0.0]), p([1.0, 2.0, 0.0]), p([f32::MIN_POSITIVE, -3.5, 1e20])];
    let bsdfs = vec![
        BSDF::Mirror,
        BSDF::Diffuse(Colour(bits(0.3), bits(0.3), bits(0.3))),
        BSDF::Emitter(Colour(bits(10.0), bits(9.0), bits(8.0))),
    ];
    let records = vec![(Point3([0u32, 1, 2]), 1u32), (Point3([3u32, 2, 1]), 2u32), (Point3([1u32, 1, 3]), 0u32)];
    let bytes = encode_scene(&vertices, &bsdfs, &records);
    assert_eq!(bytes.len(), 13 + 4 * 12 + (1 + 13 + 13) + 3 * 16);
    assert_eq!(&bytes[..5], &[1, 4, 0, 0, 0]);
    let s = decode(bytes).expect("encoded scene decodes");
    assert_eq!(s.faces().len(), 3);
    assert_eq!(s.bsdfs(), &bsdfs);
    for (face, (idx, b)) in s.faces().iter().zip(records.iter()) {
        assert_eq!(face.bsdf_idx, *b as usize);
        for k in 0..3 {
            assert_eq!(face.vertices[k], vertices[idx.0[k] as usize]);
        }
    }
}

#[test]
fn serialize_writes_little_endian() {
    let mut out = Vec::new();
    0x0403_0201u32.serialize(&mut out);
    bits(1.0).serialize(&mut out);
    BSDF::Emitter(Colour(bits(0.0), bits(-0.0), bits(2.0))).serialize(&mut out);
    assert_eq!(out, vec![1, 2, 3, 4, 0, 0, 0x80, 0x3F, 3, 0, 0, 0, 0, 0, 0, 0, 0x80, 0, 0, 0, 0x40]);
    let mut seq_out = Vec::new();
    serialize_seq(&vec![7u8, 8, 9], &mut seq_out);
    assert_eq!(seq_out, vec![7, 8, 9]);
}

#[test]
fn point_iterator_yields_three_coordinates() {
    let p = Point3([4u32, 5, 6]);
    let mut it = p.into_iter();
    assert_eq!(it.next(), Some(4));
    assert_eq!(it.next(), Some(5));
    assert_eq!(it.next(), Some(6));
    assert_eq!(it.next(), None);
    assert_eq!(it.next(), None);
}

#[test]
fn errors_name_the_violation() {
    assert_eq!(DecodeError::InvalidVersion.message(), "Invalid version byte");
    assert_eq!(DecodeError::UnexpectedEof.message(), "Encountered EOF before being able to read");
    assert_ne!(DecodeError::VertexIndexOutOfRange.message(), DecodeError::BsdfIndexOutOfRange.message());
}
