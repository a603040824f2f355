//! The scene: faces and the material table they refer to, decoded from bytes.
use vstd::prelude::*;
use crate::bsdf::BSDF;
use crate::face::Face;
use crate::util::{
    DecodeError, Object, Point3, Point3f, Point3u, Reader, decode_3tuple_at, decode_seq_at,
    encode_3, encode_seq, lemma_3tuple_round_trip, lemma_seq_round_trip, read_3tuple,
    read_seq, serialize_seq,
};

verus! {

/// The version byte that opens every scene.
pub const SCENE_VERSION: u8 = 1;

/// A face record as stored: three vertex indices and a BSDF index.
pub type FaceRecord = (Point3u, u32);

/// Why the face record `rec` cannot be resolved against `num_vertices` vertices and
/// `num_bsdfs` materials; vertex indices are checked first.
pub open spec fn record_error(num_vertices: nat, num_bsdfs: nat, rec: FaceRecord) -> Option<
    DecodeError,
> {
    if rec.0.0@[0] >= num_vertices || rec.0.0@[1] >= num_vertices || rec.0.0@[2] >= num_vertices {
        Some(DecodeError::VertexIndexOutOfRange)
    } else if rec.1 >= num_bsdfs {
        Some(DecodeError::BsdfIndexOutOfRange)
    } else {
        None
    }
}

/// The face a valid record describes.
pub open spec fn resolve_face(vertices: Seq<Point3f>, rec: FaceRecord) -> Face {
    Face {
        vertices: [
            vertices[rec.0.0@[0] as int],
            vertices[rec.0.0@[1] as int],
            vertices[rec.0.0@[2] as int],
        ],
        bsdf_idx: rec.1 as usize,
    }
}

/// The first `n` records resolved in order, or the error of the first bad one.
pub open spec fn resolve_faces(
    vertices: Seq<Point3f>,
    num_bsdfs: nat,
    recs: Seq<FaceRecord>,
    n: nat,
) -> Result<Seq<Face>, DecodeError>
    decreases n,
{
    if n == 0 {
        Ok(Seq::empty())
    } else {
        match resolve_faces(vertices, num_bsdfs, recs, (n - 1) as nat) {
            Err(e) => Err(e),
            Ok(fs) => match record_error(vertices.len(), num_bsdfs, recs[n - 1]) {
                Some(e) => Err(e),
                None => Ok(fs.push(resolve_face(vertices, recs[n - 1]))),
            },
        }
    }
}

pub proof fn lemma_resolve_fails(
    vertices: Seq<Point3f>,
    num_bsdfs: nat,
    recs: Seq<FaceRecord>,
    i: nat,
    n: nat,
)
    requires
        i <= n,
        resolve_faces(vertices, num_bsdfs, recs, i) is Err,
    ensures
        resolve_faces(vertices, num_bsdfs, recs, n) == resolve_faces(vertices, num_bsdfs, recs, i),
    decreases n - i,
{
    if i < n {
        lemma_resolve_fails(vertices, num_bsdfs, recs, i, (n - 1) as nat);
    }
}

/// What the bytes from offset `at` decode to: the faces and the material table, or
/// the first violation met reading front to back. Bytes past the last face are not read.
pub open spec fn decode_scene(bytes: Seq<u8>, at: int) -> Result<(Seq<Face>, Seq<BSDF>), DecodeError> {
    match u8::decode_at(bytes, at) {
        Err(e) => Err(e),
        Ok((version, p0)) => if version != SCENE_VERSION {
            Err(DecodeError::InvalidVersion)
        } else {
            match decode_3tuple_at::<u32>(bytes, p0) {
                Err(e) => Err(e),
                Ok(((nv, nb, nf), p1)) => match decode_seq_at::<Point3f>(bytes, p1, nv as nat) {
                    Err(e) => Err(e),
                    Ok((vertices, p2)) => match decode_seq_at::<BSDF>(bytes, p2, nb as nat) {
                        Err(e) => Err(e),
                        Ok((bsdfs, p3)) => match decode_seq_at::<FaceRecord>(
                            bytes,
                            p3,
                            nf as nat,
                        ) {
                            Err(e) => Err(e),
                            Ok((recs, _)) => match resolve_faces(
                                vertices,
                                bsdfs.len(),
                                recs,
                                recs.len(),
                            ) {
                                Err(e) => Err(e),
                                Ok(faces) => Ok((faces, bsdfs)),
                            },
                        },
                    },
                },
            }
        },
    }
}

/// An immutable mesh with its materials.
#[derive(Debug)]
pub struct Scene {
    faces: Vec<Face>,
    bsdfs: Vec<BSDF>,
}

impl Scene {
    pub closed spec fn faces_view(&self) -> Seq<Face> {
        self.faces@
    }

    pub closed spec fn bsdfs_view(&self) -> Seq<BSDF> {
        self.bsdfs@
    }

    /// Every face names a material of the table.
    pub open spec fn wf(&self) -> bool {
        forall|i: int|
            0 <= i < self.faces_view().len() ==> #[trigger] self.faces_view()[i].bsdf_idx
                < self.bsdfs_view().len()
    }

    pub fn faces(&self) -> (r: &Vec<Face>)
        ensures
            r@ == self.faces_view(),
    {
        &self.faces
    }

    pub fn bsdfs(&self) -> (r: &Vec<BSDF>)
        ensures
            r@ == self.bsdfs_view(),
    {
        &self.bsdfs
    }

    /// The material of face `i`.
    pub fn bsdf_of(&self, i: usize) -> (r: &BSDF)
        requires
            self.wf(),
            i < self.faces_view().len(),
        ensures
            *r == self.bsdfs_view()[self.faces_view()[i as int].bsdf_idx as int],
    {
        let k = self.faces[i].bsdf_idx;
        assert(self.faces_view()[i as int].bsdf_idx < self.bsdfs_view().len());
        &self.bsdfs[k]
    }

    /// Decodes a whole scene from the reader's position on.
    pub fn deserialize(r: &mut Reader) -> (res: Result<Scene, DecodeError>)
        requires
            old(r).wf(),
        ensures
            final(r).data() == old(r).data(),
            match decode_scene(old(r).data(), old(r).pos()) {
                Ok((faces, bsdfs)) => res is Ok && res->Ok_0.faces_view() == faces
                    && res->Ok_0.bsdfs_view() == bsdfs && res->Ok_0.wf(),
                Err(e) => res == Err::<Scene, DecodeError>(e),
            },
    {
        let version = u8::deserialize(r)?;
        if version != SCENE_VERSION {
            return Err(DecodeError::InvalidVersion);
        }
        let (num_vertices, num_bsdfs, num_faces) = read_3tuple::<u32>(r)?;
        let vertices: Vec<Point3f> = read_seq(r, num_vertices)?;
        let bsdfs: Vec<BSDF> = read_seq(r, num_bsdfs)?;
        let records: Vec<FaceRecord> = read_seq(r, num_faces)?;
        let ghost recs = records@;
        let ghost outcome = match resolve_faces(vertices@, bsdfs@.len(), recs, recs.len()) {
            Err(e) => Err(e),
            Ok(fs) => Ok((fs, bsdfs@)),
        };
        assert(decode_scene(old(r).data(), old(r).pos()) == outcome);
        let mut faces: Vec<Face> = Vec::with_capacity(records.len());
        let mut i: usize = 0;
        while i < records.len()
            invariant
                i <= records@.len(),
                recs == records@,
                r.data() == old(r).data(),
                decode_scene(old(r).data(), old(r).pos()) == outcome,
                outcome == match resolve_faces(vertices@, bsdfs@.len(), recs, recs.len()) {
                    Err(e) => Err(e),
                    Ok(fs) => Ok((fs, bsdfs@)),
                },
                resolve_faces(vertices@, bsdfs@.len(), recs, i as nat) == Ok::<
                    Seq<Face>,
                    DecodeError,
                >(faces@),
                forall|j: int| 0 <= j < faces@.len() ==> #[trigger] faces@[j].bsdf_idx < bsdfs@.len(),
            decreases records@.len() - i,
        {
            let (idx, bsdf_idx) = records[i];
            let a = idx.0[0];
            let b = idx.0[1];
            let c = idx.0[2];
            if a as usize >= vertices.len() || b as usize >= vertices.len() || c as usize
                >= vertices.len() {
                proof {
                    lemma_resolve_fails(vertices@, bsdfs@.len(), recs, (i + 1) as nat, recs.len());
                }
                return Err(DecodeError::VertexIndexOutOfRange);
            }
            if bsdf_idx as usize >= bsdfs.len() {
                proof {
                    lemma_resolve_fails(vertices@, bsdfs@.len(), recs, (i + 1) as nat, recs.len());
                }
                return Err(DecodeError::BsdfIndexOutOfRange);
            }
            let mut point_faces = [Point3f::new(); 3];
            point_faces[0] = vertices[a as usize];
            point_faces[1] = vertices[b as usize];
            point_faces[2] = vertices[c as usize];
            let face = Face::new(point_faces, bsdf_idx as usize);
            proof {
                let want = resolve_face(vertices@, recs[i as int]);
                assert(face.vertices@[0] == want.vertices@[0]);
                assert(face.vertices@[1] == want.vertices@[1]);
                assert(face.vertices@[2] == want.vertices@[2]);
                assert(face.vertices =~= want.vertices);
            }
            faces.push(face);
            i = i + 1;
        }
        Ok(Scene { faces, bsdfs })
    }
}

/// The bytes of a scene with these vertices, materials and face records.
pub open spec fn scene_bytes(
    vertices: Seq<Point3f>,
    bsdfs: Seq<BSDF>,
    records: Seq<FaceRecord>,
) -> Seq<u8> {
    seq![SCENE_VERSION] + encode_3::<u32>(
        vertices.len() as u32,
        bsdfs.len() as u32,
        records.len() as u32,
    ) + encode_seq(vertices) + encode_seq(bsdfs) + encode_seq(records)
}

/// Encodes a scene: header, vertex table, material table, face records.
pub fn encode_scene(vertices: &Vec<Point3f>, bsdfs: &Vec<BSDF>, records: &Vec<FaceRecord>) -> (r:
    Vec<u8>)
    requires
        vertices@.len() <= u32::MAX,
        bsdfs@.len() <= u32::MAX,
        records@.len() <= u32::MAX,
    ensures
        r@ == scene_bytes(vertices@, bsdfs@, records@),
{
    let mut out: Vec<u8> = Vec::new();
    out.push(SCENE_VERSION);
    (vertices.len() as u32).serialize(&mut out);
    (bsdfs.len() as u32).serialize(&mut out);
    (records.len() as u32).serialize(&mut out);
    serialize_seq(vertices, &mut out);
    serialize_seq(bsdfs, &mut out);
    serialize_seq(records, &mut out);
    assert(out@ =~= scene_bytes(vertices@, bsdfs@, records@));
    out
}

/// The faces that valid records describe.
pub open spec fn resolved(vertices: Seq<Point3f>, records: Seq<FaceRecord>) -> Seq<Face> {
    Seq::new(records.len(), |i: int| resolve_face(vertices, records[i]))
}

proof fn lemma_resolve_all(
    vertices: Seq<Point3f>,
    num_bsdfs: nat,
    records: Seq<FaceRecord>,
    n: nat,
)
    requires
        n <= records.len(),
        forall|i: int|
            0 <= i < records.len() ==> #[trigger] record_error(vertices.len(), num_bsdfs, records[i])
                is None,
    ensures
        resolve_faces(vertices, num_bsdfs, records, n) == Ok::<Seq<Face>, DecodeError>(
            resolved(vertices, records).subrange(0, n as int),
        ),
    decreases n,
{
    if n == 0 {
        assert(resolved(vertices, records).subrange(0, 0) =~= Seq::<Face>::empty());
    } else {
        lemma_resolve_all(vertices, num_bsdfs, records, (n - 1) as nat);
        assert(record_error(vertices.len(), num_bsdfs, records[n - 1]) is None);
        assert(resolved(vertices, records).subrange(0, n - 1).push(
            resolve_face(vertices, records[n - 1]),
        ) =~= resolved(vertices, records).subrange(0, n as int));
    }
}

/// Encoding a scene and decoding the bytes gives back the same faces, vertex for
/// vertex and bit for bit, with the same material indices, and the same material
/// table, provided every face names existing entries and every diffuse albedo
/// conserves energy.
pub proof fn lemma_scene_round_trip(
    vertices: Seq<Point3f>,
    bsdfs: Seq<BSDF>,
    records: Seq<FaceRecord>,
)
    requires
        vertices.len() <= u32::MAX,
        bsdfs.len() <= u32::MAX,
        records.len() <= u32::MAX,
        forall|i: int| 0 <= i < bsdfs.len() ==> BSDF::decodable(#[trigger] bsdfs[i]),
        forall|i: int|
            0 <= i < records.len() ==> #[trigger] record_error(vertices.len(), bsdfs.len(), records[i])
                is None,
    ensures
        decode_scene(scene_bytes(vertices, bsdfs, records), 0) == Ok::<
            (Seq<Face>, Seq<BSDF>),
            DecodeError,
        >((resolved(vertices, records), bsdfs)),
{
    let b = scene_bytes(vertices, bsdfs, records);
    let nv = vertices.len() as u32;
    let nb = bsdfs.len() as u32;
    let nf = records.len() as u32;
    let hdr = encode_3::<u32>(nv, nb, nf);
    let ev = encode_seq(vertices);
    let eb = encode_seq(bsdfs);
    let er = encode_seq(records);
    let lh: int = hdr.len() as int;
    let lv: int = ev.len() as int;
    let lb: int = eb.len() as int;
    let lr: int = er.len() as int;
    assert(b =~= seq![SCENE_VERSION] + hdr + ev + eb + er);
    assert(b.len() == 1 + lh + lv + lb + lr);
    assert(b.subrange(0, b.len() as int) =~= b);
    assert(u8::decode_at(b, 0) == Ok::<(u8, int), DecodeError>((SCENE_VERSION, 1))) by {
        assert(b.subrange(0, 1) =~= seq![SCENE_VERSION]);
        u8::lemma_round_trip(SCENE_VERSION, b, 0);
    }
    assert(decode_3tuple_at::<u32>(b, 1) == Ok::<((u32, u32, u32), int), DecodeError>(
        ((nv, nb, nf), 1 + lh),
    )) by {
        assert(b.subrange(1, 1 + lh) =~= hdr);
        lemma_3tuple_round_trip::<u32>(nv, nb, nf, b, 1);
    }
    assert(decode_seq_at::<Point3f>(b, 1 + lh, nv as nat) == Ok::<(Seq<Point3f>, int), DecodeError>(
        (vertices, 1 + lh + lv),
    )) by {
        assert(b.subrange(1 + lh, 1 + lh + lv) =~= ev);
        lemma_seq_round_trip(vertices, b, 1 + lh);
    }
    assert(decode_seq_at::<BSDF>(b, 1 + lh + lv, nb as nat) == Ok::<(Seq<BSDF>, int), DecodeError>(
        (bsdfs, 1 + lh + lv + lb),
    )) by {
        assert(b.subrange(1 + lh + lv, 1 + lh + lv + lb) =~= eb);
        lemma_seq_round_trip(bsdfs, b, 1 + lh + lv);
    }
    assert(decode_seq_at::<FaceRecord>(b, 1 + lh + lv + lb, nf as nat) == Ok::<
        (Seq<FaceRecord>, int),
        DecodeError,
    >((records, 1 + lh + lv + lb + lr))) by {
        assert(b.subrange(1 + lh + lv + lb, 1 + lh + lv + lb + lr) =~= er);
        lemma_seq_round_trip(records, b, 1 + lh + lv + lb);
    }
    assert(resolve_faces(vertices, bsdfs.len(), records, records.len()) == Ok::<
        Seq<Face>,
        DecodeError,
    >(resolved(vertices, records))) by {
        lemma_resolve_all(vertices, bsdfs.len(), records, records.len());
        assert(resolved(vertices, records).subrange(0, records.len() as int) =~= resolved(
            vertices,
            records,
        ));
    }
}

} // verus!
