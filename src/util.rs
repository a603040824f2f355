//! Coordinate triples, colours and the little-endian byte cursor the scene
//! format is read through.
use vstd::prelude::*;

verus! {

/// Why a scene could not be decoded.
#[derive(Clone, Copy, Debug, PartialEq, Eq, Structural)]
pub enum DecodeError {
    /// Fewer bytes were left than the next field needs.
    UnexpectedEof,
    /// The leading version byte is not 1.
    InvalidVersion,
    /// A BSDF record starts with a tag other than 1, 2 or 3.
    InvalidBsdfTag,
    /// A diffuse albedo has a component outside [0, 1] or components summing past 1.
    InvalidAlbedo,
    /// A face names a vertex that the vertex table does not have.
    VertexIndexOutOfRange,
    /// A face names a BSDF that the material table does not have.
    BsdfIndexOutOfRange,
}

impl DecodeError {
    /// A sentence naming what was wrong with the input.
    pub fn message(&self) -> String {
        match self {
            DecodeError::UnexpectedEof => String::from_str("Encountered EOF before being able to read"),
            DecodeError::InvalidVersion => String::from_str("Invalid version byte"),
            DecodeError::InvalidBsdfTag => String::from_str("Invalid first byte in deserialising BSDF"),
            DecodeError::InvalidAlbedo => String::from_str("Diffuse albedo violates energy conservation"),
            DecodeError::VertexIndexOutOfRange => String::from_str("Face refers to a missing vertex"),
            DecodeError::BsdfIndexOutOfRange => String::from_str("Face refers to a missing BSDF"),
        }
    }
}

/// The bit pattern of an IEEE-754 single-precision number, kept verbatim.
#[derive(Clone, Copy, Debug, PartialEq, Eq, Structural)]
pub struct FloatBits(pub u32);

/// A location in object space; `Point3<FloatBits>` for vertices,
/// `Point3<u32>` for vertex-index triples.
#[derive(Clone, Copy, Debug, PartialEq, Eq)]
pub struct Point3<T>(pub [T; 3]);

pub type Point3f = Point3<FloatBits>;
pub type Point3u = Point3<u32>;

impl<T: Copy> Point3<T> {
    pub fn x(&self) -> (r: T)
        ensures
            r == self.0@[0],
    {
        self.0[0]
    }

    pub fn y(&self) -> (r: T)
        ensures
            r == self.0@[1],
    {
        self.0[1]
    }

    pub fn z(&self) -> (r: T)
        ensures
            r == self.0@[2],
    {
        self.0[2]
    }
}

impl<T: Copy> Point3<T> {
    /// The coordinates x, y, z in turn.
    pub fn into_iter(&self) -> (r: PointIterator<T>)
        ensures
            r.point() == *self,
            r.index() == 0,
    {
        PointIterator { point: *self, index: 0 }
    }
}

/// Hands out the coordinates of a point one at a time.
pub struct PointIterator<T> {
    point: Point3<T>,
    index: usize,
}

impl<T: Copy> PointIterator<T> {
    pub closed spec fn point(&self) -> Point3<T> {
        self.point
    }

    /// How many coordinates have been handed out.
    pub closed spec fn index(&self) -> int {
        self.index as int
    }

    pub fn next(&mut self) -> (r: Option<T>)
        ensures
            final(self).point() == old(self).point(),
            old(self).index() < 3 ==> r == Some(old(self).point().0@[old(self).index()])
                && final(self).index() == old(self).index() + 1,
            old(self).index() >= 3 ==> r is None && final(self).index() == old(self).index(),
    {
        if self.index < 3 {
            self.index = self.index + 1;
            Some(self.point.0[self.index - 1])
        } else {
            None
        }
    }
}

impl Point3<FloatBits> {
    /// The origin: three zero coordinates.
    pub fn new() -> (r: Point3<FloatBits>)
        ensures
            forall|i: int| 0 <= i < 3 ==> r.0@[i] == FloatBits(0),
    {
        Point3([FloatBits(0); 3])
    }
}

/// A direction or displacement.
#[derive(Clone, Copy, Debug, PartialEq, Eq)]
pub struct Vec3<T>(pub [T; 3]);

pub type Vec3f = Vec3<FloatBits>;

/// A linear-light radiance or reflectance triple.
#[derive(Clone, Copy, Debug, PartialEq, Eq)]
pub struct Colour<T>(pub T, pub T, pub T);

pub type ColF = Colour<FloatBits>;

/// Component access shared by the triple types.
pub trait VecArith<T> {
    fn _0(&self) -> T;

    fn _1(&self) -> T;

    fn _2(&self) -> T;
}

/// The unsigned 32-bit number stored little-endian at `at`.
pub open spec fn le_u32(bytes: Seq<u8>, at: int) -> u32 {
    (bytes[at] as int + 256 * bytes[at + 1] as int + 65536 * bytes[at + 2] as int + 16777216
        * bytes[at + 3] as int) as u32
}

/// A read position over an immutable byte sequence.
pub struct Reader {
    bytes: Vec<u8>,
    pos: usize,
}

impl Reader {
    /// The bytes being read.
    pub closed spec fn data(&self) -> Seq<u8> {
        self.bytes@
    }

    /// The offset of the next byte to be read.
    pub closed spec fn pos(&self) -> int {
        self.pos as int
    }

    pub open spec fn wf(&self) -> bool {
        0 <= self.pos() <= self.data().len()
    }

    /// A reader at the start of `bytes`.
    pub fn new(bytes: Vec<u8>) -> (r: Reader)
        ensures
            r.wf(),
            r.data() == bytes@,
            r.pos() == 0,
    {
        Reader { bytes, pos: 0 }
    }

    /// The offset of the next byte to be read.
    pub fn position(&self) -> (r: usize)
        ensures
            r == self.pos(),
    {
        self.pos
    }
}

/// Fills `buf` with the next `buf.len()` bytes and moves past them; fails, moving
/// nothing, when fewer are left.
pub fn read(r: &mut Reader, buf: &mut [u8]) -> (res: Result<(), DecodeError>)
    requires
        old(r).wf(),
    ensures
        final(r).wf(),
        final(r).data() == old(r).data(),
        final(buf)@.len() == old(buf)@.len(),
        old(r).pos() + old(buf)@.len() <= old(r).data().len() ==> {
            &&& res is Ok
            &&& final(r).pos() == old(r).pos() + old(buf)@.len()
            &&& final(buf)@ == old(r).data().subrange(old(r).pos(), final(r).pos())
        },
        old(r).pos() + old(buf)@.len() > old(r).data().len() ==> {
            &&& res == Err::<(), DecodeError>(DecodeError::UnexpectedEof)
            &&& final(r).pos() == old(r).pos()
        },
{
    let n = buf.len();
    let len = r.bytes.len();
    if n > len - r.pos {
        return Err(DecodeError::UnexpectedEof);
    }
    let start = r.pos;
    let mut i: usize = 0;
    while i < n
        invariant
            0 <= i <= n,
            n == buf@.len(),
            start == r.pos,
            start + n <= len,
            len == r.bytes@.len(),
            forall|j: int| 0 <= j < i ==> buf@[j] == r.bytes@[start + j],
        decreases n - i,
    {
        buf[i] = r.bytes[start + i];
        i = i + 1;
    }
    r.pos = start + n;
    assert(buf@ =~= old(r).data().subrange(old(r).pos(), r.pos()));
    Ok(())
}

/// The outcome of a decode as the exact value and end position `expected` describes.
pub open spec fn decoded_as<T>(
    res: Result<T, DecodeError>,
    end: int,
    expected: Result<(T, int), DecodeError>,
) -> bool {
    match expected {
        Ok((v, e)) => res == Ok::<T, DecodeError>(v) && end == e,
        Err(err) => res == Err::<T, DecodeError>(err),
    }
}

/// A value with a fixed binary encoding.
pub trait Object: Sized {
    /// The value encoded at offset `at` of `bytes` with the offset just past it,
    /// or why there is none.
    spec fn decode_at(bytes: Seq<u8>, at: int) -> Result<(Self, int), DecodeError>;

    /// The bytes that encode `v`.
    spec fn encoded(v: Self) -> Seq<u8>;

    /// Whether decoding accepts `v` back (a diffuse albedo must conserve energy).
    spec fn decodable(v: Self) -> bool;

    /// Decoding the encoding of a decodable value gives the value back and stops
    /// right after it, whatever surrounds it.
    proof fn lemma_round_trip(v: Self, bytes: Seq<u8>, at: int)
        requires
            0 <= at,
            Self::decodable(v),
            at + Self::encoded(v).len() <= bytes.len(),
            bytes.subrange(at, at + Self::encoded(v).len()) == Self::encoded(v),
        ensures
            Self::decode_at(bytes, at) == Ok::<(Self, int), DecodeError>(
                (v, at + Self::encoded(v).len()),
            ),
    ;

    fn deserialize(r: &mut Reader) -> (res: Result<Self, DecodeError>)
        requires
            old(r).wf(),
        ensures
            final(r).wf(),
            final(r).data() == old(r).data(),
            decoded_as(res, final(r).pos(), Self::decode_at(old(r).data(), old(r).pos())),
    ;

    /// Appends the encoding of `self`.
    fn serialize(&self, out: &mut Vec<u8>)
        ensures
            final(out)@ == old(out)@ + Self::encoded(*self),
    ;
}

/// A piece of an encoding sits in the bytes where that part of the whole lies.
pub proof fn lemma_piece(bytes: Seq<u8>, at: int, whole: Seq<u8>, off: int, piece: Seq<u8>)
    requires
        0 <= at,
        0 <= off,
        off + piece.len() <= whole.len(),
        at + whole.len() <= bytes.len(),
        bytes.subrange(at, at + whole.len()) == whole,
        whole.subrange(off, off + piece.len()) == piece,
    ensures
        bytes.subrange(at + off, at + off + piece.len()) == piece,
{
    assert forall|i: int| 0 <= i < piece.len() implies bytes[at + off + i] == piece[i] by {
        assert(whole.subrange(off, off + piece.len())[i] == whole[off + i]);
        assert(bytes.subrange(at, at + whole.len())[off + i] == bytes[at + off + i]);
    }
    assert(bytes.subrange(at + off, at + off + piece.len()) =~= piece);
}

/// The little-endian bytes of `v`.
pub open spec fn le_bytes(v: u32) -> Seq<u8> {
    seq![(v % 256) as u8, ((v / 256) % 256) as u8, ((v / 65536) % 256) as u8, (v / 16777216) as u8]
}

impl Object for u8 {
    open spec fn decode_at(bytes: Seq<u8>, at: int) -> Result<(u8, int), DecodeError> {
        if 0 <= at && at + 1 <= bytes.len() {
            Ok((bytes[at], at + 1))
        } else {
            Err(DecodeError::UnexpectedEof)
        }
    }

    open spec fn encoded(v: u8) -> Seq<u8> {
        seq![v]
    }

    open spec fn decodable(v: u8) -> bool {
        true
    }

    proof fn lemma_round_trip(v: u8, bytes: Seq<u8>, at: int) {
        assert(bytes.subrange(at, at + 1)[0] == bytes[at]);
    }

    fn serialize(&self, out: &mut Vec<u8>) {
        out.push(*self);
    }

    fn deserialize(r: &mut Reader) -> (res: Result<u8, DecodeError>) {
        let mut buf = [0u8];
        read(r, &mut buf)?;
        Ok(buf[0])
    }
}

impl Object for u32 {
    open spec fn decode_at(bytes: Seq<u8>, at: int) -> Result<(u32, int), DecodeError> {
        if 0 <= at && at + 4 <= bytes.len() {
            Ok((le_u32(bytes, at), at + 4))
        } else {
            Err(DecodeError::UnexpectedEof)
        }
    }

    open spec fn encoded(v: u32) -> Seq<u8> {
        le_bytes(v)
    }

    open spec fn decodable(v: u32) -> bool {
        true
    }

    proof fn lemma_round_trip(v: u32, bytes: Seq<u8>, at: int) {
        let sub = bytes.subrange(at, at + 4);
        assert(sub[0] == bytes[at] && sub[1] == bytes[at + 1] && sub[2] == bytes[at + 2] && sub[3]
            == bytes[at + 3]);
        assert(le_u32(bytes, at) == v) by (nonlinear_arith)
            requires
                bytes[at] == (v % 256) as u8,
                bytes[at + 1] == ((v / 256) % 256) as u8,
                bytes[at + 2] == ((v / 65536) % 256) as u8,
                bytes[at + 3] == (v / 16777216) as u8,
        ;
    }

    fn serialize(&self, out: &mut Vec<u8>) {
        let v = *self;
        out.push((v % 256) as u8);
        out.push(((v / 256) % 256) as u8);
        out.push(((v / 65536) % 256) as u8);
        out.push((v / 16777216) as u8);
        assert(out@ =~= old(out)@ + le_bytes(v));
    }

    fn deserialize(r: &mut Reader) -> (res: Result<u32, DecodeError>) {
        let mut buf = [0u8; 4];
        read(r, &mut buf)?;
        let v: u32 = buf[0] as u32 + (buf[1] as u32) * 256 + (buf[2] as u32) * 65536 + (buf[3]
            as u32) * 16777216;
        Ok(v)
    }
}

impl Object for FloatBits {
    open spec fn decode_at(bytes: Seq<u8>, at: int) -> Result<(FloatBits, int), DecodeError> {
        match u32::decode_at(bytes, at) {
            Ok((v, end)) => Ok((FloatBits(v), end)),
            Err(e) => Err(e),
        }
    }

    open spec fn encoded(v: FloatBits) -> Seq<u8> {
        le_bytes(v.0)
    }

    open spec fn decodable(v: FloatBits) -> bool {
        true
    }

    proof fn lemma_round_trip(v: FloatBits, bytes: Seq<u8>, at: int) {
        u32::lemma_round_trip(v.0, bytes, at);
    }

    fn serialize(&self, out: &mut Vec<u8>) {
        self.0.serialize(out);
    }

    fn deserialize(r: &mut Reader) -> (res: Result<FloatBits, DecodeError>) {
        let v = u32::deserialize(r)?;
        Ok(FloatBits(v))
    }
}

/// Three values of `T` encoded one after the other from `at`.
pub open spec fn decode_3tuple_at<T: Object>(bytes: Seq<u8>, at: int) -> Result<
    ((T, T, T), int),
    DecodeError,
> {
    match T::decode_at(bytes, at) {
        Err(e) => Err(e),
        Ok((x, p1)) => match T::decode_at(bytes, p1) {
            Err(e) => Err(e),
            Ok((y, p2)) => match T::decode_at(bytes, p2) {
                Err(e) => Err(e),
                Ok((z, p3)) => Ok(((x, y, z), p3)),
            },
        },
    }
}

/// The encodings of three values, one after the other.
pub open spec fn encode_3<T: Object>(x: T, y: T, z: T) -> Seq<u8> {
    T::encoded(x) + T::encoded(y) + T::encoded(z)
}

pub proof fn lemma_3tuple_round_trip<T: Object>(x: T, y: T, z: T, bytes: Seq<u8>, at: int)
    requires
        0 <= at,
        T::decodable(x),
        T::decodable(y),
        T::decodable(z),
        at + encode_3(x, y, z).len() <= bytes.len(),
        bytes.subrange(at, at + encode_3(x, y, z).len()) == encode_3(x, y, z),
    ensures
        decode_3tuple_at::<T>(bytes, at) == Ok::<((T, T, T), int), DecodeError>(
            ((x, y, z), at + encode_3(x, y, z).len()),
        ),
{
    let ex = T::encoded(x);
    let ey = T::encoded(y);
    let ez = T::encoded(z);
    let w = encode_3(x, y, z);
    let lx: int = ex.len() as int;
    let ly: int = ey.len() as int;
    let lz: int = ez.len() as int;
    assert(w.subrange(0, lx) =~= ex);
    lemma_piece(bytes, at, w, 0, ex);
    T::lemma_round_trip(x, bytes, at);
    assert(w.subrange(lx, lx + ly) =~= ey);
    lemma_piece(bytes, at, w, lx, ey);
    T::lemma_round_trip(y, bytes, at + lx);
    assert(w.subrange(lx + ly, lx + ly + lz) =~= ez);
    lemma_piece(bytes, at, w, lx + ly, ez);
    T::lemma_round_trip(z, bytes, at + lx + ly);
}

/// Reads three consecutive values of `T`.
pub fn read_3tuple<T: Object>(r: &mut Reader) -> (res: Result<(T, T, T), DecodeError>)
    requires
        old(r).wf(),
    ensures
        final(r).wf(),
        final(r).data() == old(r).data(),
        decoded_as(res, final(r).pos(), decode_3tuple_at::<T>(old(r).data(), old(r).pos())),
{
    let x = T::deserialize(r)?;
    let y = T::deserialize(r)?;
    let z = T::deserialize(r)?;
    Ok((x, y, z))
}

impl<T: Object> Object for Point3<T> {
    open spec fn decode_at(bytes: Seq<u8>, at: int) -> Result<(Point3<T>, int), DecodeError> {
        match decode_3tuple_at::<T>(bytes, at) {
            Ok(((x, y, z), end)) => Ok((Point3([x, y, z]), end)),
            Err(e) => Err(e),
        }
    }

    open spec fn encoded(v: Point3<T>) -> Seq<u8> {
        encode_3(v.0@[0], v.0@[1], v.0@[2])
    }

    open spec fn decodable(v: Point3<T>) -> bool {
        T::decodable(v.0@[0]) && T::decodable(v.0@[1]) && T::decodable(v.0@[2])
    }

    proof fn lemma_round_trip(v: Point3<T>, bytes: Seq<u8>, at: int) {
        lemma_3tuple_round_trip(v.0@[0], v.0@[1], v.0@[2], bytes, at);
        let a = [v.0@[0], v.0@[1], v.0@[2]];
        assert(a@[0] == v.0@[0] && a@[1] == v.0@[1] && a@[2] == v.0@[2]);
        assert(a =~= v.0);
    }

    fn serialize(&self, out: &mut Vec<u8>) {
        self.0[0].serialize(out);
        self.0[1].serialize(out);
        self.0[2].serialize(out);
        assert(out@ =~= old(out)@ + Self::encoded(*self));
    }

    fn deserialize(r: &mut Reader) -> (res: Result<Point3<T>, DecodeError>) {
        let (x, y, z) = read_3tuple(r)?;
        Ok(Point3([x, y, z]))
    }
}

impl<T: Object> Object for Colour<T> {
    open spec fn decode_at(bytes: Seq<u8>, at: int) -> Result<(Colour<T>, int), DecodeError> {
        match decode_3tuple_at::<T>(bytes, at) {
            Ok(((x, y, z), end)) => Ok((Colour(x, y, z), end)),
            Err(e) => Err(e),
        }
    }

    open spec fn encoded(v: Colour<T>) -> Seq<u8> {
        encode_3(v.0, v.1, v.2)
    }

    open spec fn decodable(v: Colour<T>) -> bool {
        T::decodable(v.0) && T::decodable(v.1) && T::decodable(v.2)
    }

    proof fn lemma_round_trip(v: Colour<T>, bytes: Seq<u8>, at: int) {
        lemma_3tuple_round_trip(v.0, v.1, v.2, bytes, at);
    }

    fn serialize(&self, out: &mut Vec<u8>) {
        self.0.serialize(out);
        self.1.serialize(out);
        self.2.serialize(out);
        assert(out@ =~= old(out)@ + Self::encoded(*self));
    }

    fn deserialize(r: &mut Reader) -> (res: Result<Colour<T>, DecodeError>) {
        let (x, y, z) = read_3tuple(r)?;
        Ok(Colour(x, y, z))
    }
}

impl<A: Object, B: Object> Object for (A, B) {
    open spec fn decode_at(bytes: Seq<u8>, at: int) -> Result<((A, B), int), DecodeError> {
        match A::decode_at(bytes, at) {
            Err(e) => Err(e),
            Ok((a, p)) => match B::decode_at(bytes, p) {
                Err(e) => Err(e),
                Ok((b, q)) => Ok(((a, b), q)),
            },
        }
    }

    open spec fn encoded(v: (A, B)) -> Seq<u8> {
        A::encoded(v.0) + B::encoded(v.1)
    }

    open spec fn decodable(v: (A, B)) -> bool {
        A::decodable(v.0) && B::decodable(v.1)
    }

    proof fn lemma_round_trip(v: (A, B), bytes: Seq<u8>, at: int) {
        let ea = A::encoded(v.0);
        let eb = B::encoded(v.1);
        let w = ea + eb;
        let la: int = ea.len() as int;
        let lb: int = eb.len() as int;
        assert(w.subrange(0, la) =~= ea);
        lemma_piece(bytes, at, w, 0, ea);
        A::lemma_round_trip(v.0, bytes, at);
        assert(w.subrange(la, la + lb) =~= eb);
        lemma_piece(bytes, at, w, la, eb);
        B::lemma_round_trip(v.1, bytes, at + la);
    }

    fn serialize(&self, out: &mut Vec<u8>) {
        self.0.serialize(out);
        self.1.serialize(out);
        assert(out@ =~= old(out)@ + Self::encoded(*self));
    }

    fn deserialize(r: &mut Reader) -> (res: Result<(A, B), DecodeError>) {
        let a = A::deserialize(r)?;
        let b = B::deserialize(r)?;
        Ok((a, b))
    }
}

/// `n` values of `T` encoded one after the other from `at`.
pub open spec fn decode_seq_at<T: Object>(bytes: Seq<u8>, at: int, n: nat) -> Result<
    (Seq<T>, int),
    DecodeError,
>
    decreases n,
{
    if n == 0 {
        Ok((Seq::empty(), at))
    } else {
        match decode_seq_at::<T>(bytes, at, (n - 1) as nat) {
            Err(e) => Err(e),
            Ok((vs, p)) => match T::decode_at(bytes, p) {
                Err(e) => Err(e),
                Ok((v, q)) => Ok((vs.push(v), q)),
            },
        }
    }
}

/// Once a prefix of a run fails, the whole run fails the same way.
pub proof fn lemma_decode_seq_fails<T: Object>(bytes: Seq<u8>, at: int, i: nat, n: nat)
    requires
        i <= n,
        decode_seq_at::<T>(bytes, at, i) is Err,
    ensures
        decode_seq_at::<T>(bytes, at, n) == decode_seq_at::<T>(bytes, at, i),
    decreases n - i,
{
    if i < n {
        lemma_decode_seq_fails::<T>(bytes, at, i, (n - 1) as nat);
    }
}

/// Reads `n` consecutive values of `T`.
pub fn read_seq<T: Object>(r: &mut Reader, n: u32) -> (res: Result<Vec<T>, DecodeError>)
    requires
        old(r).wf(),
    ensures
        final(r).wf(),
        final(r).data() == old(r).data(),
        match decode_seq_at::<T>(old(r).data(), old(r).pos(), n as nat) {
            Ok((vs, end)) => res is Ok && res->Ok_0@ == vs && final(r).pos() == end,
            Err(e) => res == Err::<Vec<T>, DecodeError>(e),
        },
{
    let ghost start = r.pos();
    let mut out: Vec<T> = Vec::new();
    let mut i: u32 = 0;
    while i < n
        invariant
            i <= n,
            r.wf(),
            r.data() == old(r).data(),
            start == old(r).pos(),
            decode_seq_at::<T>(r.data(), start, i as nat) == Ok::<(Seq<T>, int), DecodeError>(
                (out@, r.pos()),
            ),
        decreases n - i,
    {
        let v = match T::deserialize(r) {
            Ok(v) => v,
            Err(e) => {
                proof {
                    lemma_decode_seq_fails::<T>(r.data(), start, (i + 1) as nat, n as nat);
                }
                return Err(e);
            },
        };
        out.push(v);
        i = i + 1;
    }
    Ok(out)
}

/// The encodings of `vs`, one after the other.
pub open spec fn encode_seq<T: Object>(vs: Seq<T>) -> Seq<u8>
    decreases vs.len(),
{
    if vs.len() == 0 {
        Seq::empty()
    } else {
        encode_seq(vs.drop_last()) + T::encoded(vs.last())
    }
}

/// Decoding the encodings of a run of decodable values gives the run back.
pub proof fn lemma_seq_round_trip<T: Object>(vs: Seq<T>, bytes: Seq<u8>, at: int)
    requires
        0 <= at,
        forall|i: int| 0 <= i < vs.len() ==> T::decodable(#[trigger] vs[i]),
        at + encode_seq(vs).len() <= bytes.len(),
        bytes.subrange(at, at + encode_seq(vs).len()) == encode_seq(vs),
    ensures
        decode_seq_at::<T>(bytes, at, vs.len()) == Ok::<(Seq<T>, int), DecodeError>(
            (vs, at + encode_seq(vs).len()),
        ),
    decreases vs.len(),
{
    if vs.len() == 0 {
        assert(vs =~= Seq::<T>::empty());
    } else {
        let front = vs.drop_last();
        let w = encode_seq(vs);
        let lf: int = encode_seq(front).len() as int;
        let e = T::encoded(vs.last());
        assert(w.subrange(0, lf) =~= encode_seq(front));
        lemma_piece(bytes, at, w, 0, encode_seq(front));
        assert forall|i: int| 0 <= i < front.len() implies T::decodable(#[trigger] front[i]) by {
            assert(front[i] == vs[i]);
        }
        lemma_seq_round_trip(front, bytes, at);
        assert(w.subrange(lf, lf + e.len()) =~= e);
        lemma_piece(bytes, at, w, lf, e);
        assert(T::decodable(vs[vs.len() - 1]));
        T::lemma_round_trip(vs.last(), bytes, at + lf);
        assert(front.push(vs.last()) =~= vs);
    }
}

/// Appends the encodings of `vs`, first to last.
pub fn serialize_seq<T: Object>(vs: &Vec<T>, out: &mut Vec<u8>)
    ensures
        final(out)@ == old(out)@ + encode_seq(vs@),
{
    let mut i: usize = 0;
    while i < vs.len()
        invariant
            i <= vs@.len(),
            out@ == old(out)@ + encode_seq(vs@.subrange(0, i as int)),
        decreases vs@.len() - i,
    {
        let ghost before = out@;
        vs[i].serialize(out);
        proof {
            let next = vs@.subrange(0, i + 1);
            assert(next.drop_last() =~= vs@.subrange(0, i as int));
            assert(next.last() == vs@[i as int]);
            assert(out@ =~= old(out)@ + encode_seq(next));
        }
        i = i + 1;
    }
    assert(vs@.subrange(0, vs@.len() as int) =~= vs@);
}

} // verus!
