//! The streamline format: a 1000-byte header and a list of point records.
//!
//! A record is a 32-bit point count followed by that many points, each three
//! single-precision coordinates in millimetres. Decoding divides each
//! coordinate by the voxel spacing of its axis and drops the fraction;
//! encoding multiplies back.
use vstd::prelude::*;
use crate::binary32::{
    divide, from_i32, from_int, lemma_over_one, lemma_times_one, lemma_truncated_small_int,
    multiply, product, quotient, to_i32, truncated,
};
use crate::error::FormatError;
use crate::nifti::NIfTI1Header;
use crate::wire::{
    bytes16, bytes32, get_bytes, get_matrix, get_names, get_u16, get_u16s, get_u32, get_u32s,
    le32, lemma_join, lemma_le32_inverse, lemma_same_bytes, lemma_same_matrix, lemma_same_names,
    lemma_same_runs, lemma_split, matrix_bytes, names_bytes, put_bytes,
    put_matrix, put_names, put_u16, put_u16s, put_u32, put_u32s, seq16, seq32,
};

verus! {

broadcast use crate::wire::group_widths;

/// Size of the header in bytes, and the value its last field must hold.
pub const HEADER_LEN: usize = 1000;

/// A voxel, by its integer coordinates.
#[derive(Clone, Copy, Debug, PartialEq, Eq, Hash, PartialOrd, Ord)]
pub struct Position {
    pub x: i32,
    pub y: i32,
    pub z: i32,
}

/// One streamline: the voxels it passes through, in order.
pub type Fiber = Vec<Position>;

/// The header of a streamline file, field by field in file order. Fields
/// that hold single-precision numbers are kept as their bit patterns.
#[derive(Clone, Copy, Debug, PartialEq, Eq)]
pub struct TrackVisHeader {
    /// Offset 0. Format tag; the first five characters must be "TRACK".
    pub id_string: [u8; 6],
    /// Offset 6. Extents of the volume, x, y, z.
    pub dim: [u16; 3],
    /// Offset 12. Voxel spacings of the volume (bits), x, y, z.
    pub voxel_size: [u32; 3],
    /// Offset 24. Origin of the volume (bits).
    pub origin: [u32; 3],
    /// Offset 36. Number of scalars stored with each point.
    pub n_scalars: u16,
    /// Offset 38. Names of the scalars.
    pub scalar_name: [[u8; 10]; 20],
    /// Offset 238. Number of properties stored with each streamline.
    pub n_properties: u16,
    /// Offset 240. Names of the properties.
    pub property_name: [[u8; 10]; 20],
    /// Offset 440. Voxel-to-world matrix (bits), row by row.
    pub vox_to_ras: [[u32; 4]; 4],
    /// Offset 504. Reserved.
    pub reserved: [u8; 444],
    /// Offset 948. Storing order of the volume.
    pub voxel_order: [u8; 4],
    /// Offset 952. Padding.
    pub pad2: [u8; 4],
    /// Offset 956. Orientation of the volume (bits).
    pub image_orientation_patient: [u32; 6],
    /// Offset 980. Padding.
    pub pad1: [u8; 2],
    /// Offset 982. Inversion flag.
    pub invert_x: u8,
    /// Offset 983. Inversion flag.
    pub invert_y: u8,
    /// Offset 984. Inversion flag.
    pub invert_z: u8,
    /// Offset 985. Swap flag.
    pub swap_xy: u8,
    /// Offset 986. Swap flag.
    pub swap_yz: u8,
    /// Offset 987. Swap flag.
    pub swap_zx: u8,
    /// Offset 988. Number of streamlines; 0 where it was not stored.
    pub n_count: u32,
    /// Offset 992. Format version.
    pub version: u32,
    /// Offset 996. Size of the header; must be 1000.
    pub hdr_size: u32,
}

/// Bytes 0 to 38 of the header: the tag, the extents, the spacings and the
/// origin of the volume, and the number of scalars.
pub open spec fn grid_bytes(h: TrackVisHeader) -> Seq<u8> {
    h.id_string@ + seq16(h.dim@) + seq32(h.voxel_size@) + seq32(h.origin@)
        + bytes16(h.n_scalars as int)
}

/// Bytes 38 to 440 of the header: the names of scalars and properties.
pub open spec fn naming_bytes(h: TrackVisHeader) -> Seq<u8> {
    names_bytes(h.scalar_name@) + bytes16(h.n_properties as int) + names_bytes(h.property_name@)
}

/// Bytes 440 to 948 of the header: the voxel-to-world matrix and the reserved
/// block.
pub open spec fn frame_bytes(h: TrackVisHeader) -> Seq<u8> {
    matrix_bytes(h.vox_to_ras@) + h.reserved@
}

/// Bytes 948 to 1000 of the header: orientation, flags, the number of
/// streamlines, the version and the header's size.
pub open spec fn tail_bytes(h: TrackVisHeader) -> Seq<u8> {
    h.voxel_order@ + h.pad2@ + seq32(h.image_orientation_patient@) + h.pad1@ + seq![h.invert_x]
        + seq![h.invert_y] + seq![h.invert_z] + seq![h.swap_xy] + seq![h.swap_yz] + seq![h.swap_zx]
        + bytes32(h.n_count as int) + bytes32(h.version as int) + bytes32(h.hdr_size as int)
}

fn put_grid(out: &mut Vec<u8>, h: &TrackVisHeader)
    ensures
        final(out)@ == old(out)@ + grid_bytes(*h),
{
    let ghost start = out@;
    put_bytes(out, &h.id_string);
    put_u16s(out, &h.dim);
    put_u32s(out, &h.voxel_size);
    put_u32s(out, &h.origin);
    put_u16(out, h.n_scalars);
    assert(out@ =~= start + grid_bytes(*h));
}

proof fn lemma_grid_injective(a: TrackVisHeader, b: TrackVisHeader)
    requires
        grid_bytes(a) == grid_bytes(b),
    ensures
        a.id_string == b.id_string,
        a.dim == b.dim,
        a.voxel_size == b.voxel_size,
        a.origin == b.origin,
        a.n_scalars == b.n_scalars,
{
    let a0 = a.id_string@;
    let a1 = a0 + seq16(a.dim@);
    let a2 = a1 + seq32(a.voxel_size@);
    let a3 = a2 + seq32(a.origin@);
    let b0 = b.id_string@;
    let b1 = b0 + seq16(b.dim@);
    let b2 = b1 + seq32(b.voxel_size@);
    let b3 = b2 + seq32(b.origin@);
    lemma_split(a3, bytes16(a.n_scalars as int), b3, bytes16(b.n_scalars as int));
    lemma_split(a2, seq32(a.origin@), b2, seq32(b.origin@));
    lemma_split(a1, seq32(a.voxel_size@), b1, seq32(b.voxel_size@));
    lemma_split(a0, seq16(a.dim@), b0, seq16(b.dim@));
    assert(a.id_string =~= b.id_string);
    lemma_same_runs(a.dim@, b.dim@, Seq::empty(), Seq::empty());
    assert(a.dim =~= b.dim);
    lemma_same_runs(Seq::empty(), Seq::empty(), a.voxel_size@, b.voxel_size@);
    assert(a.voxel_size =~= b.voxel_size);
    lemma_same_runs(Seq::empty(), Seq::empty(), a.origin@, b.origin@);
    assert(a.origin =~= b.origin);
    lemma_same_bytes(a.n_scalars as int, b.n_scalars as int);
}

proof fn lemma_grid_located(h: TrackVisHeader, s: Seq<u8>)
    requires
        38 <= s.len(),
        h.id_string@ == s.subrange(0, 6),
        seq16(h.dim@) == s.subrange(6, 12),
        seq32(h.voxel_size@) == s.subrange(12, 24),
        seq32(h.origin@) == s.subrange(24, 36),
        bytes16(h.n_scalars as int) == s.subrange(36, 38),
    ensures
        grid_bytes(h) == s.subrange(0, 38),
{
    lemma_join(s, 0, 6, 12);
    lemma_join(s, 0, 12, 24);
    lemma_join(s, 0, 24, 36);
    lemma_join(s, 0, 36, 38);
}

fn put_naming(out: &mut Vec<u8>, h: &TrackVisHeader)
    ensures
        final(out)@ == old(out)@ + naming_bytes(*h),
{
    let ghost start = out@;
    put_names(out, &h.scalar_name);
    put_u16(out, h.n_properties);
    put_names(out, &h.property_name);
    assert(out@ =~= start + naming_bytes(*h));
}

proof fn lemma_naming_injective(a: TrackVisHeader, b: TrackVisHeader)
    requires
        naming_bytes(a) == naming_bytes(b),
    ensures
        a.scalar_name == b.scalar_name,
        a.n_properties == b.n_properties,
        a.property_name == b.property_name,
{
    let a0 = names_bytes(a.scalar_name@);
    let a1 = a0 + bytes16(a.n_properties as int);
    let b0 = names_bytes(b.scalar_name@);
    let b1 = b0 + bytes16(b.n_properties as int);
    lemma_split(a1, names_bytes(a.property_name@), b1, names_bytes(b.property_name@));
    lemma_split(a0, bytes16(a.n_properties as int), b0, bytes16(b.n_properties as int));
    lemma_same_names(a.scalar_name@, b.scalar_name@);
    assert(a.scalar_name =~= b.scalar_name);
    lemma_same_bytes(a.n_properties as int, b.n_properties as int);
    lemma_same_names(a.property_name@, b.property_name@);
    assert(a.property_name =~= b.property_name);
}

proof fn lemma_naming_located(h: TrackVisHeader, s: Seq<u8>)
    requires
        440 <= s.len(),
        names_bytes(h.scalar_name@) == s.subrange(38, 238),
        bytes16(h.n_properties as int) == s.subrange(238, 240),
        names_bytes(h.property_name@) == s.subrange(240, 440),
    ensures
        naming_bytes(h) == s.subrange(38, 440),
{
    lemma_join(s, 38, 238, 240);
    lemma_join(s, 38, 240, 440);
}

fn put_frame(out: &mut Vec<u8>, h: &TrackVisHeader)
    ensures
        final(out)@ == old(out)@ + frame_bytes(*h),
{
    let ghost start = out@;
    put_matrix(out, &h.vox_to_ras);
    put_bytes(out, &h.reserved);
    assert(out@ =~= start + frame_bytes(*h));
}

proof fn lemma_frame_injective(a: TrackVisHeader, b: TrackVisHeader)
    requires
        frame_bytes(a) == frame_bytes(b),
    ensures
        a.vox_to_ras == b.vox_to_ras,
        a.reserved == b.reserved,
{
    let a0 = matrix_bytes(a.vox_to_ras@);
    let b0 = matrix_bytes(b.vox_to_ras@);
    lemma_split(a0, a.reserved@, b0, b.reserved@);
    lemma_same_matrix(a.vox_to_ras@, b.vox_to_ras@);
    assert(a.vox_to_ras =~= b.vox_to_ras);
    assert(a.reserved =~= b.reserved);
}

proof fn lemma_frame_located(h: TrackVisHeader, s: Seq<u8>)
    requires
        948 <= s.len(),
        matrix_bytes(h.vox_to_ras@) == s.subrange(440, 504),
        h.reserved@ == s.subrange(504, 948),
    ensures
        frame_bytes(h) == s.subrange(440, 948),
{
    lemma_join(s, 440, 504, 948);
}

fn put_tail(out: &mut Vec<u8>, h: &TrackVisHeader)
    ensures
        final(out)@ == old(out)@ + tail_bytes(*h),
{
    let ghost start = out@;
    put_bytes(out, &h.voxel_order);
    put_bytes(out, &h.pad2);
    put_u32s(out, &h.image_orientation_patient);
    put_bytes(out, &h.pad1);
    out.push(h.invert_x);
    out.push(h.invert_y);
    out.push(h.invert_z);
    out.push(h.swap_xy);
    out.push(h.swap_yz);
    out.push(h.swap_zx);
    put_u32(out, h.n_count);
    put_u32(out, h.version);
    put_u32(out, h.hdr_size);
    assert(out@ =~= start + tail_bytes(*h));
}

proof fn lemma_tail_injective(a: TrackVisHeader, b: TrackVisHeader)
    requires
        tail_bytes(a) == tail_bytes(b),
    ensures
        a.voxel_order == b.voxel_order,
        a.pad2 == b.pad2,
        a.image_orientation_patient == b.image_orientation_patient,
        a.pad1 == b.pad1,
        a.invert_x == b.invert_x,
        a.invert_y == b.invert_y,
        a.invert_z == b.invert_z,
        a.swap_xy == b.swap_xy,
        a.swap_yz == b.swap_yz,
        a.swap_zx == b.swap_zx,
        a.n_count == b.n_count,
        a.version == b.version,
        a.hdr_size == b.hdr_size,
{
    let a0 = a.voxel_order@;
    let a1 = a0 + a.pad2@;
    let a2 = a1 + seq32(a.image_orientation_patient@);
    let a3 = a2 + a.pad1@;
    let a4 = a3 + seq![a.invert_x];
    let a5 = a4 + seq![a.invert_y];
    let a6 = a5 + seq![a.invert_z];
    let a7 = a6 + seq![a.swap_xy];
    let a8 = a7 + seq![a.swap_yz];
    let a9 = a8 + seq![a.swap_zx];
    let a10 = a9 + bytes32(a.n_count as int);
    let a11 = a10 + bytes32(a.version as int);
    let b0 = b.voxel_order@;
    let b1 = b0 + b.pad2@;
    let b2 = b1 + seq32(b.image_orientation_patient@);
    let b3 = b2 + b.pad1@;
    let b4 = b3 + seq![b.invert_x];
    let b5 = b4 + seq![b.invert_y];
    let b6 = b5 + seq![b.invert_z];
    let b7 = b6 + seq![b.swap_xy];
    let b8 = b7 + seq![b.swap_yz];
    let b9 = b8 + seq![b.swap_zx];
    let b10 = b9 + bytes32(b.n_count as int);
    let b11 = b10 + bytes32(b.version as int);
    lemma_split(a11, bytes32(a.hdr_size as int), b11, bytes32(b.hdr_size as int));
    lemma_split(a10, bytes32(a.version as int), b10, bytes32(b.version as int));
    lemma_split(a9, bytes32(a.n_count as int), b9, bytes32(b.n_count as int));
    lemma_split(a8, seq![a.swap_zx], b8, seq![b.swap_zx]);
    lemma_split(a7, seq![a.swap_yz], b7, seq![b.swap_yz]);
    lemma_split(a6, seq![a.swap_xy], b6, seq![b.swap_xy]);
    lemma_split(a5, seq![a.invert_z], b5, seq![b.invert_z]);
    lemma_split(a4, seq![a.invert_y], b4, seq![b.invert_y]);
    lemma_split(a3, seq![a.invert_x], b3, seq![b.invert_x]);
    lemma_split(a2, a.pad1@, b2, b.pad1@);
    lemma_split(a1, seq32(a.image_orientation_patient@), b1, seq32(b.image_orientation_patient@));
    lemma_split(a0, a.pad2@, b0, b.pad2@);
    assert(a.voxel_order =~= b.voxel_order);
    assert(a.pad2 =~= b.pad2);
    lemma_same_runs(Seq::empty(), Seq::empty(), a.image_orientation_patient@,
        b.image_orientation_patient@);
    assert(a.image_orientation_patient =~= b.image_orientation_patient);
    assert(a.pad1 =~= b.pad1);
    assert(seq![a.invert_x][0] == seq![b.invert_x][0]);
    assert(seq![a.invert_y][0] == seq![b.invert_y][0]);
    assert(seq![a.invert_z][0] == seq![b.invert_z][0]);
    assert(seq![a.swap_xy][0] == seq![b.swap_xy][0]);
    assert(seq![a.swap_yz][0] == seq![b.swap_yz][0]);
    assert(seq![a.swap_zx][0] == seq![b.swap_zx][0]);
    lemma_same_bytes(a.n_count as int, b.n_count as int);
    lemma_same_bytes(a.version as int, b.version as int);
    lemma_same_bytes(a.hdr_size as int, b.hdr_size as int);
}

proof fn lemma_tail_located(h: TrackVisHeader, s: Seq<u8>)
    requires
        1000 <= s.len(),
        h.voxel_order@ == s.subrange(948, 952),
        h.pad2@ == s.subrange(952, 956),
        seq32(h.image_orientation_patient@) == s.subrange(956, 980),
        h.pad1@ == s.subrange(980, 982),
        seq![h.invert_x] == s.subrange(982, 983),
        seq![h.invert_y] == s.subrange(983, 984),
        seq![h.invert_z] == s.subrange(984, 985),
        seq![h.swap_xy] == s.subrange(985, 986),
        seq![h.swap_yz] == s.subrange(986, 987),
        seq![h.swap_zx] == s.subrange(987, 988),
        bytes32(h.n_count as int) == s.subrange(988, 992),
        bytes32(h.version as int) == s.subrange(992, 996),
        bytes32(h.hdr_size as int) == s.subrange(996, 1000),
    ensures
        tail_bytes(h) == s.subrange(948, 1000),
{
    lemma_join(s, 948, 952, 956);
    lemma_join(s, 948, 956, 980);
    lemma_join(s, 948, 980, 982);
    lemma_join(s, 948, 982, 983);
    lemma_join(s, 948, 983, 984);
    lemma_join(s, 948, 984, 985);
    lemma_join(s, 948, 985, 986);
    lemma_join(s, 948, 986, 987);
    lemma_join(s, 948, 987, 988);
    lemma_join(s, 948, 988, 992);
    lemma_join(s, 948, 992, 996);
    lemma_join(s, 948, 996, 1000);
}

/// The 1000 bytes of a header: its fields in file order, each least
/// significant byte first.
pub open spec fn header_bytes(h: TrackVisHeader) -> Seq<u8> {
    grid_bytes(h) + naming_bytes(h) + frame_bytes(h) + tail_bytes(h)
}

/// The four blocks of a header take 38, 402, 508 and 52 bytes.
pub proof fn lemma_block_lengths(h: TrackVisHeader)
    ensures
        grid_bytes(h).len() == 38,
        naming_bytes(h).len() == 402,
        frame_bytes(h).len() == 508,
        tail_bytes(h).len() == 52,
        header_bytes(h).len() == 1000,
{
}

/// A header is determined by its bytes.
pub proof fn lemma_header_bytes_injective(a: TrackVisHeader, b: TrackVisHeader)
    requires
        header_bytes(a) == header_bytes(b),
    ensures
        a == b,
{
    lemma_block_lengths(a);
    lemma_block_lengths(b);
    lemma_split(
        grid_bytes(a) + naming_bytes(a) + frame_bytes(a),
        tail_bytes(a),
        grid_bytes(b) + naming_bytes(b) + frame_bytes(b),
        tail_bytes(b),
    );
    lemma_split(
        grid_bytes(a) + naming_bytes(a),
        frame_bytes(a),
        grid_bytes(b) + naming_bytes(b),
        frame_bytes(b),
    );
    lemma_split(grid_bytes(a), naming_bytes(a), grid_bytes(b), naming_bytes(b));
    lemma_grid_injective(a, b);
    lemma_naming_injective(a, b);
    lemma_frame_injective(a, b);
    lemma_tail_injective(a, b);
}

/// Appends the 1000 bytes of `h` to `out`.
pub fn put_header(out: &mut Vec<u8>, h: &TrackVisHeader)
    ensures
        final(out)@ == old(out)@ + header_bytes(*h),
{
    let ghost start = out@;
    put_grid(out, h);
    put_naming(out, h);
    put_frame(out, h);
    put_tail(out, h);
    assert(out@ =~= start + header_bytes(*h));
}

/// Reads the 1000 bytes of a header from the start of `bytes`.
pub fn get_header(bytes: &[u8]) -> (h: TrackVisHeader)
    requires
        bytes.len() >= HEADER_LEN,
    ensures
        header_bytes(h) == bytes@.subrange(0, HEADER_LEN as int),
        h.hdr_size == le32(bytes@, 996),
        h.id_string@ == bytes@.subrange(0, 6),
{
    let h = TrackVisHeader {
        id_string: get_bytes::<6>(bytes, 0),
        dim: get_u16s::<3>(bytes, 6),
        voxel_size: get_u32s::<3>(bytes, 12),
        origin: get_u32s::<3>(bytes, 24),
        n_scalars: get_u16(bytes, 36),
        scalar_name: get_names(bytes, 38),
        n_properties: get_u16(bytes, 238),
        property_name: get_names(bytes, 240),
        vox_to_ras: get_matrix(bytes, 440),
        reserved: get_bytes::<444>(bytes, 504),
        voxel_order: get_bytes::<4>(bytes, 948),
        pad2: get_bytes::<4>(bytes, 952),
        image_orientation_patient: get_u32s::<6>(bytes, 956),
        pad1: get_bytes::<2>(bytes, 980),
        invert_x: bytes[982],
        invert_y: bytes[983],
        invert_z: bytes[984],
        swap_xy: bytes[985],
        swap_yz: bytes[986],
        swap_zx: bytes[987],
        n_count: get_u32(bytes, 988),
        version: get_u32(bytes, 992),
        hdr_size: get_u32(bytes, 996),
    };
    proof {
        let s = bytes@;
        assert(seq![h.invert_x] =~= s.subrange(982, 983));
        assert(seq![h.invert_y] =~= s.subrange(983, 984));
        assert(seq![h.invert_z] =~= s.subrange(984, 985));
        assert(seq![h.swap_xy] =~= s.subrange(985, 986));
        assert(seq![h.swap_yz] =~= s.subrange(986, 987));
        assert(seq![h.swap_zx] =~= s.subrange(987, 988));
        lemma_grid_located(h, s);
        lemma_naming_located(h, s);
        lemma_frame_located(h, s);
        lemma_tail_located(h, s);
        lemma_join(s, 0, 38, 440);
        lemma_join(s, 0, 440, 948);
        lemma_join(s, 0, 948, 1000);
    }
    h
}

/// A point of a streamline as a file stores it: three coordinates in
/// millimetres, each as the bits of a single-precision number.
pub struct Point {
    pub x: u32,
    pub y: u32,
    pub z: u32,
}

/// The first five bytes of the tag: the characters "TRACK".
pub open spec fn tag_bytes() -> Seq<u8> {
    seq![84u8, 82u8, 65u8, 67u8, 75u8]
}

/// The `n` points stored back to back from `at` on.
pub open spec fn points_at(s: Seq<u8>, at: int, n: nat) -> Seq<Point> {
    Seq::new(
        n,
        |i: int|
            Point {
                x: le32(s, at + 12 * i) as u32,
                y: le32(s, at + 12 * i + 4) as u32,
                z: le32(s, at + 12 * i + 8) as u32,
            },
    )
}

/// The records stored from `at` to the end of the string, or the offset of
/// the first record that the string ends within.
pub open spec fn records_from(s: Seq<u8>, at: int) -> Result<Seq<Seq<Point>>, int>
    decreases s.len() - at,
{
    if at >= s.len() {
        Ok(Seq::empty())
    } else if at + 4 > s.len() {
        Err(at)
    } else if at + 4 + 12 * le32(s, at) > s.len() {
        Err(at)
    } else {
        match records_from(s, at + 4 + 12 * le32(s, at)) {
            Ok(rest) => Ok(seq![points_at(s, at + 4, le32(s, at) as nat)] + rest),
            Err(e) => Err(e),
        }
    }
}

/// The voxel that a stored point falls into: each coordinate divided by the
/// spacing of its axis, the fraction dropped.
pub open spec fn voxel_of(p: Point, spacing: Seq<u32>) -> Position {
    Position {
        x: truncated(quotient(p.x, spacing[0])) as i32,
        y: truncated(quotient(p.y, spacing[1])) as i32,
        z: truncated(quotient(p.z, spacing[2])) as i32,
    }
}

/// The point that is stored for a voxel: each coordinate multiplied by the
/// spacing of its axis.
pub open spec fn point_of(v: Position, spacing: Seq<u32>) -> Point {
    Point {
        x: product(spacing[0], from_int(v.x as int)),
        y: product(spacing[1], from_int(v.y as int)),
        z: product(spacing[2], from_int(v.z as int)),
    }
}

/// The voxels of a stored streamline, point by point.
pub open spec fn voxel_path(points: Seq<Point>, spacing: Seq<u32>) -> Seq<Position> {
    Seq::new(points.len(), |i: int| voxel_of(points[i], spacing))
}

/// The points stored for a streamline, voxel by voxel.
pub open spec fn point_path(path: Seq<Position>, spacing: Seq<u32>) -> Seq<Point> {
    Seq::new(path.len(), |i: int| point_of(path[i], spacing))
}

/// The voxels of stored streamlines, streamline by streamline.
pub open spec fn voxel_paths(tracks: Seq<Seq<Point>>, spacing: Seq<u32>) -> Seq<Seq<Position>> {
    Seq::new(tracks.len(), |i: int| voxel_path(tracks[i], spacing))
}

/// The points stored for streamlines, streamline by streamline.
pub open spec fn point_paths(paths: Seq<Seq<Position>>, spacing: Seq<u32>) -> Seq<Seq<Point>> {
    Seq::new(paths.len(), |i: int| point_path(paths[i], spacing))
}

/// What a list of streamlines holds.
pub open spec fn paths(fibers: Seq<Fiber>) -> Seq<Seq<Position>> {
    Seq::new(fibers.len(), |i: int| fibers[i]@)
}

/// The first reason, in the order in which a file is examined, for which a
/// byte string is no streamline file; `None` where there is none.
pub open spec fn read_failure(s: Seq<u8>) -> Option<FormatError> {
    if s.len() < 1000 {
        Some(FormatError::ShortHeader { needed: 1000, found: s.len() as usize })
    } else if le32(s, 996) != 1000 {
        Some(FormatError::HeaderSize { expected: 1000, declared: le32(s, 996) as u32 })
    } else if s.subrange(0, 5) != tag_bytes() {
        Some(FormatError::BadMagic)
    } else {
        match records_from(s, 1000) {
            Ok(_) => None,
            Err(at) => Some(FormatError::Truncated { at: at as usize }),
        }
    }
}

/// Decodes a streamline file.
///
/// A byte string is rejected, with the first reason that applies, when it
/// is shorter than a header, when the header's size field is not 1000, when
/// the tag does not start with "TRACK", or when it ends within a record.
/// The streamlines come in file order, each with its points in file order,
/// every point as the voxel it falls into.
pub fn read(bytes: &[u8]) -> (r: Result<(TrackVisHeader, Vec<Fiber>), FormatError>)
    ensures
        match r {
            Ok((h, fibers)) => {
                &&& read_failure(bytes@) is None
                &&& header_bytes(h) == bytes@.subrange(0, 1000)
                &&& records_from(bytes@, 1000) is Ok
                &&& paths(fibers@) == voxel_paths(records_from(bytes@, 1000)->Ok_0, h.voxel_size@)
            },
            Err(e) => read_failure(bytes@) == Some(e),
        },
        bytes@.len() >= 1000 && le32(bytes@, 996) != 1000 ==> r == Err::<
            (TrackVisHeader, Vec<Fiber>),
            FormatError,
        >(FormatError::HeaderSize { expected: 1000, declared: le32(bytes@, 996) as u32 }),
{
    let len: usize = bytes.len();
    if len < HEADER_LEN {
        return Err(FormatError::ShortHeader { needed: HEADER_LEN, found: len });
    }
    let h: TrackVisHeader = get_header(bytes);
    if h.hdr_size != 1000 {
        return Err(FormatError::HeaderSize { expected: 1000, declared: h.hdr_size });
    }
    let tag_ok: bool = h.id_string[0] == 84 && h.id_string[1] == 82 && h.id_string[2] == 65
        && h.id_string[3] == 67 && h.id_string[4] == 75;
    proof {
        let s = bytes@;
        assert(tag_ok <==> s.subrange(0, 5) =~= tag_bytes()) by {
            assert forall|i: int| 0 <= i < 5 implies s.subrange(0, 5)[i] == h.id_string@[i] by {
                assert(s.subrange(0, 6)[i] == s[i]);
            }
        }
    }
    if !tag_ok {
        return Err(FormatError::BadMagic);
    }
    let ghost s = bytes@;
    let ghost spacing = h.voxel_size@;
    let ghost whole = records_from(s, 1000);
    let ghost mut done: Seq<Seq<Point>> = Seq::empty();
    let mut fibers: Vec<Fiber> = Vec::new();
    let mut pos: usize = HEADER_LEN;
    assert(done + records_from(s, 1000)->Ok_0 =~= records_from(s, 1000)->Ok_0);
    while pos < len
        invariant
            1000 <= pos <= len,
            len == bytes.len(),
            s == bytes@,
            spacing == h.voxel_size@,
            whole == records_from(s, 1000),
            le32(s, 996) == 1000,
            s.subrange(0, 5) == tag_bytes(),
            match records_from(s, pos as int) {
                Ok(rest) => whole == Ok::<Seq<Seq<Point>>, int>(done + rest),
                Err(e) => whole == Err::<Seq<Seq<Point>>, int>(e),
            },
            fibers@.len() == done.len(),
            forall|i: int| 0 <= i < done.len() ==> (#[trigger] fibers@[i])@ == voxel_path(done[i],
                spacing),
        decreases len - pos,
    {
        if len - pos < 4 {
            return Err(FormatError::Truncated { at: pos });
        }
        let n: u32 = get_u32(bytes, pos);
        if ((len - pos - 4) as u64) < 12 * (n as u64) {
            return Err(FormatError::Truncated { at: pos });
        }
        let ghost points = points_at(s, pos + 4, n as nat);
        let mut fiber: Fiber = Vec::new();
        let mut j: u32 = 0;
        while j < n
            invariant
                j <= n,
                pos + 4 + 12 * n <= len,
                len == bytes.len(),
                s == bytes@,
                spacing == h.voxel_size@,
                points == points_at(s, pos + 4, n as nat),
                fiber@.len() == j,
                forall|k: int| 0 <= k < j ==> fiber@[k] == voxel_of(points[k], spacing),
            decreases n - j,
        {
            let at: usize = pos + 4 + 12 * (j as usize);
            let x: u32 = get_u32(bytes, at);
            let y: u32 = get_u32(bytes, at + 4);
            let z: u32 = get_u32(bytes, at + 8);
            let v = Position {
                x: to_i32(divide(x, h.voxel_size[0])),
                y: to_i32(divide(y, h.voxel_size[1])),
                z: to_i32(divide(z, h.voxel_size[2])),
            };
            assert(v == voxel_of(points[j as int], spacing));
            fiber.push(v);
            j += 1;
        }
        proof {
            assert(fiber@ =~= voxel_path(points, spacing));
            let next = pos + 4 + 12 * n;
            match records_from(s, next) {
                Ok(rest) => {
                    assert(done + (seq![points] + rest) =~= done.push(points) + rest);
                },
                Err(e) => {},
            }
            done = done.push(points);
        }
        fibers.push(fiber);
        pos = pos + 4 + 12 * (n as usize);
    }
    proof {
        assert(records_from(s, pos as int) == Ok::<Seq<Seq<Point>>, int>(Seq::empty()));
        assert(done + Seq::<Seq<Point>>::empty() =~= done);
        assert(paths(fibers@) =~= voxel_paths(done, spacing));
    }
    Ok((h, fibers))
}

/// The bytes of the points of one streamline, point by point.
pub open spec fn points_bytes(points: Seq<Point>) -> Seq<u8>
    decreases points.len(),
{
    if points.len() == 0 {
        Seq::empty()
    } else {
        points_bytes(points.drop_last()) + bytes32(points.last().x as int) + bytes32(
            points.last().y as int,
        ) + bytes32(points.last().z as int)
    }
}

/// The bytes of one record: the number of points, held to 32 bits, and the
/// points.
pub open spec fn record_bytes(points: Seq<Point>) -> Seq<u8> {
    bytes32(points.len() as int % 0x1_0000_0000) + points_bytes(points)
}

/// The bytes of a list of records, record by record.
pub open spec fn body_bytes(tracks: Seq<Seq<Point>>) -> Seq<u8>
    decreases tracks.len(),
{
    if tracks.len() == 0 {
        Seq::empty()
    } else {
        body_bytes(tracks.drop_last()) + record_bytes(tracks.last())
    }
}

/// The header that is written for `count` streamlines in the space of a
/// volume: the volume's extents, spacings and affine rows, the format's
/// constants, and the count held to 32 bits.
pub open spec fn describes(h: TrackVisHeader, n: NIfTI1Header, count: nat) -> bool {
    &&& h.id_string@ == seq![84u8, 82u8, 65u8, 67u8, 75u8, 0u8]
    &&& h.dim@ == seq![n.dim@[1], n.dim@[2], n.dim@[3]]
    &&& h.voxel_size@ == seq![n.pixdim@[1], n.pixdim@[2], n.pixdim@[3]]
    &&& h.origin@ == seq![0u32, 0u32, 0u32]
    &&& h.n_scalars == 0
    &&& forall|i: int, j: int| 0 <= i < 20 && 0 <= j < 10 ==> (#[trigger] h.scalar_name@[i]@[j])
        == 0
    &&& h.n_properties == 0
    &&& forall|i: int, j: int|
        0 <= i < 20 && 0 <= j < 10 ==> (#[trigger] h.property_name@[i]@[j]) == 0
    &&& h.vox_to_ras@[0] == n.srow_x
    &&& h.vox_to_ras@[1] == n.srow_y
    &&& h.vox_to_ras@[2] == n.srow_z
    &&& h.vox_to_ras@[3]@ == seq![0u32, 0u32, 0u32, 0x3F80_0000u32]
    &&& forall|i: int| 0 <= i < 444 ==> (#[trigger] h.reserved@[i]) == 0
    &&& h.voxel_order@ == seq![76u8, 65u8, 83u8, 0u8]
    &&& h.pad2@ == seq![76u8, 65u8, 83u8, 0u8]
    &&& h.image_orientation_patient@ == seq![
        0x3F80_0000u32,
        0u32,
        0u32,
        0u32,
        0xBF80_0000u32,
        0u32,
    ]
    &&& h.pad1@ == seq![0u8, 0u8]
    &&& h.invert_x == 0 && h.invert_y == 0 && h.invert_z == 0
    &&& h.swap_xy == 0 && h.swap_yz == 0 && h.swap_zx == 0
    &&& h.n_count == count % 0x1_0000_0000
    &&& h.version == 2
    &&& h.hdr_size == 1000
}

fn header_for(n: &NIfTI1Header, count: usize) -> (h: TrackVisHeader)
    ensures
        describes(h, *n, count as nat),
{
    let h = TrackVisHeader {
        id_string: [84u8, 82u8, 65u8, 67u8, 75u8, 0u8],
        dim: [n.dim[1], n.dim[2], n.dim[3]],
        voxel_size: [n.pixdim[1], n.pixdim[2], n.pixdim[3]],
        origin: [0u32, 0u32, 0u32],
        n_scalars: 0,
        scalar_name: [[0u8; 10]; 20],
        n_properties: 0,
        property_name: [[0u8; 10]; 20],
        vox_to_ras: [n.srow_x, n.srow_y, n.srow_z, [0u32, 0u32, 0u32, 0x3F80_0000u32]],
        reserved: [0u8; 444],
        voxel_order: [76u8, 65u8, 83u8, 0u8],
        pad2: [76u8, 65u8, 83u8, 0u8],
        image_orientation_patient: [0x3F80_0000u32, 0u32, 0u32, 0u32, 0xBF80_0000u32, 0u32],
        pad1: [0u8, 0u8],
        invert_x: 0,
        invert_y: 0,
        invert_z: 0,
        swap_xy: 0,
        swap_yz: 0,
        swap_zx: 0,
        n_count: ((count as u64) % 0x1_0000_0000) as u32,
        version: 2,
        hdr_size: 1000,
    };
    proof {
        assert(h.id_string@ =~= seq![84u8, 82u8, 65u8, 67u8, 75u8, 0u8]);
        assert(h.dim@ =~= seq![n.dim@[1], n.dim@[2], n.dim@[3]]);
        assert(h.voxel_size@ =~= seq![n.pixdim@[1], n.pixdim@[2], n.pixdim@[3]]);
        assert(h.origin@ =~= seq![0u32, 0u32, 0u32]);
        assert(h.vox_to_ras@[3]@ =~= seq![0u32, 0u32, 0u32, 0x3F80_0000u32]);
        assert(h.voxel_order@ =~= seq![76u8, 65u8, 83u8, 0u8]);
        assert(h.pad2@ =~= seq![76u8, 65u8, 83u8, 0u8]);
        assert(h.image_orientation_patient@ =~= seq![
            0x3F80_0000u32,
            0u32,
            0u32,
            0u32,
            0xBF80_0000u32,
            0u32,
        ]);
        assert(h.pad1@ =~= seq![0u8, 0u8]);
    }
    h
}

/// Encodes a streamline file in the space of a volume.
///
/// The header is the one that `describes` pins down. Each streamline
/// becomes one record: its number of points, then every voxel as a point in
/// millimetres. A count that does not fit in 32 bits is stored without its
/// upper bits.
pub fn write(nheader: &NIfTI1Header, fibers: &Vec<Fiber>) -> (r: (TrackVisHeader, Vec<u8>))
    ensures
        describes(r.0, *nheader, fibers@.len()),
        r.1@ == header_bytes(r.0) + body_bytes(point_paths(paths(fibers@), r.0.voxel_size@)),
{
    let h: TrackVisHeader = header_for(nheader, fibers.len());
    let mut out: Vec<u8> = Vec::new();
    put_header(&mut out, &h);
    let ghost head = out@;
    let ghost spacing = h.voxel_size@;
    let ghost tracks = point_paths(paths(fibers@), spacing);
    let mut i: usize = 0;
    assert(head + body_bytes(tracks.subrange(0, 0)) =~= head);
    while i < fibers.len()
        invariant
            i <= fibers.len(),
            spacing == h.voxel_size@,
            tracks == point_paths(paths(fibers@), spacing),
            out@ == head + body_bytes(tracks.subrange(0, i as int)),
        decreases fibers.len() - i,
    {
        let fiber: &Fiber = &fibers[i];
        let ghost points = tracks[i as int];
        let ghost before = out@;
        assert(points == point_path(fiber@, spacing));
        put_u32(&mut out, ((fiber.len() as u64) % 0x1_0000_0000) as u32);
        let ghost mid = out@;
        let mut j: usize = 0;
        assert(mid + points_bytes(points.subrange(0, 0)) =~= mid);
        while j < fiber.len()
            invariant
                j <= fiber.len(),
                spacing == h.voxel_size@,
                points == point_path(fiber@, spacing),
                out@ == mid + points_bytes(points.subrange(0, j as int)),
            decreases fiber.len() - j,
        {
            let v: Position = fiber[j];
            put_u32(&mut out, multiply(h.voxel_size[0], from_i32(v.x)));
            put_u32(&mut out, multiply(h.voxel_size[1], from_i32(v.y)));
            put_u32(&mut out, multiply(h.voxel_size[2], from_i32(v.z)));
            proof {
                let lo = points.subrange(0, j as int);
                let hi = points.subrange(0, j + 1);
                assert(hi.drop_last() =~= lo);
                assert(hi.last() == point_of(v, spacing));
                assert(out@ =~= mid + points_bytes(hi));
            }
            j += 1;
        }
        proof {
            assert(points.subrange(0, fiber.len() as int) =~= points);
            let lo = tracks.subrange(0, i as int);
            let hi = tracks.subrange(0, i + 1);
            assert(hi.drop_last() =~= lo);
            assert(hi.last() == points);
            assert(out@ =~= head + body_bytes(hi));
        }
        i += 1;
    }
    assert(tracks.subrange(0, fibers.len() as int) =~= tracks);
    (h, out)
}

/// The points of a streamline take twelve bytes each, and every point can
/// be read back from them.
pub proof fn lemma_points_bytes(points: Seq<Point>)
    ensures
        points_bytes(points).len() == 12 * points.len(),
        points_at(points_bytes(points), 0, points.len()) == points,
    decreases points.len(),
{
    if points.len() > 0 {
        let rest = points.drop_last();
        let last = points.last();
        lemma_points_bytes(rest);
        let s = points_bytes(points);
        let r = points_bytes(rest);
        let n = rest.len() as int;
        assert(s == r + bytes32(last.x as int) + bytes32(last.y as int) + bytes32(last.z as int));
        assert(s.subrange(12 * n, 12 * n + 4) =~= bytes32(last.x as int));
        assert(s.subrange(12 * n + 4, 12 * n + 8) =~= bytes32(last.y as int));
        assert(s.subrange(12 * n + 8, 12 * n + 12) =~= bytes32(last.z as int));
        lemma_le32_inverse(s, 12 * n, last.x as int);
        lemma_le32_inverse(s, 12 * n + 4, last.y as int);
        lemma_le32_inverse(s, 12 * n + 8, last.z as int);
        lemma_same_bytes(le32(s, 12 * n), last.x as int);
        lemma_same_bytes(le32(s, 12 * n + 4), last.y as int);
        lemma_same_bytes(le32(s, 12 * n + 8), last.z as int);
        assert(s.subrange(0, r.len() as int) =~= r);
        assert forall|i: int| 0 <= i < points.len() implies points_at(s, 0, points.len())[i]
            == points[i] by {
            if i < n {
                assert(points_at(r, 0, rest.len())[i] == rest[i]);
                lemma_same_le32(s, r, 12 * i);
                lemma_same_le32(s, r, 12 * i + 4);
                lemma_same_le32(s, r, 12 * i + 8);
            }
        }
        assert(points_at(s, 0, points.len()) =~= points);
    } else {
        assert(points_at(points_bytes(points), 0, points.len()) =~= points);
    }
}

proof fn lemma_same_le32(s: Seq<u8>, r: Seq<u8>, at: int)
    requires
        0 <= at,
        at + 4 <= r.len() <= s.len(),
        s.subrange(0, r.len() as int) == r,
    ensures
        le32(s, at) == le32(r, at),
{
    assert(s.subrange(0, r.len() as int)[at] == s[at]);
    assert(s.subrange(0, r.len() as int)[at + 1] == s[at + 1]);
    assert(s.subrange(0, r.len() as int)[at + 2] == s[at + 2]);
    assert(s.subrange(0, r.len() as int)[at + 3] == s[at + 3]);
}

proof fn lemma_points_shifted(s: Seq<u8>, a: int, r: Seq<u8>, b: int, n: nat)
    requires
        0 <= a,
        0 <= b,
        a + 12 * n <= s.len(),
        b + 12 * n <= r.len(),
        s.subrange(a, a + 12 * n) == r.subrange(b, b + 12 * n),
    ensures
        points_at(s, a, n) == points_at(r, b, n),
{
    let u = s.subrange(a, a + 12 * n);
    let v = r.subrange(b, b + 12 * n);
    assert forall|i: int| 0 <= i < n implies points_at(s, a, n)[i] == points_at(r, b, n)[i] by {
        assert(u[12 * i] == s[a + 12 * i] && v[12 * i] == r[b + 12 * i]);
        assert(u[12 * i + 1] == s[a + 12 * i + 1] && v[12 * i + 1] == r[b + 12 * i + 1]);
        assert(u[12 * i + 2] == s[a + 12 * i + 2] && v[12 * i + 2] == r[b + 12 * i + 2]);
        assert(u[12 * i + 3] == s[a + 12 * i + 3] && v[12 * i + 3] == r[b + 12 * i + 3]);
        assert(u[12 * i + 4] == s[a + 12 * i + 4] && v[12 * i + 4] == r[b + 12 * i + 4]);
        assert(u[12 * i + 5] == s[a + 12 * i + 5] && v[12 * i + 5] == r[b + 12 * i + 5]);
        assert(u[12 * i + 6] == s[a + 12 * i + 6] && v[12 * i + 6] == r[b + 12 * i + 6]);
        assert(u[12 * i + 7] == s[a + 12 * i + 7] && v[12 * i + 7] == r[b + 12 * i + 7]);
        assert(u[12 * i + 8] == s[a + 12 * i + 8] && v[12 * i + 8] == r[b + 12 * i + 8]);
        assert(u[12 * i + 9] == s[a + 12 * i + 9] && v[12 * i + 9] == r[b + 12 * i + 9]);
        assert(u[12 * i + 10] == s[a + 12 * i + 10] && v[12 * i + 10] == r[b + 12 * i + 10]);
        assert(u[12 * i + 11] == s[a + 12 * i + 11] && v[12 * i + 11] == r[b + 12 * i + 11]);
    }
    assert(points_at(s, a, n) =~= points_at(r, b, n));
}

/// A record appended to records is read back after them.
pub proof fn lemma_records_append(s: Seq<u8>, at: int, tracks: Seq<Seq<Point>>, t: Seq<Point>)
    requires
        0 <= at <= s.len(),
        records_from(s, at) == Ok::<Seq<Seq<Point>>, int>(tracks),
        t.len() < 0x1_0000_0000,
    ensures
        records_from(s + record_bytes(t), at) == Ok::<Seq<Seq<Point>>, int>(tracks.push(t)),
    decreases s.len() - at,
{
    let rec = record_bytes(t);
    let n = t.len() as int;
    let more = s + rec;
    lemma_points_bytes(t);
    assert(rec.len() == 4 + 12 * n);
    if at == s.len() {
        assert(tracks =~= Seq::<Seq<Point>>::empty());
        assert(more.subrange(at, at + 4) =~= bytes32(n));
        lemma_le32_inverse(more, at, n);
        lemma_same_bytes(le32(more, at), n);
        assert(le32(more, at) == n);
        assert(records_from(more, at + 4 + 12 * n) == Ok::<Seq<Seq<Point>>, int>(Seq::empty()));
        let body = points_bytes(t);
        assert(more.subrange(at + 4, at + 4 + 12 * n) =~= body.subrange(0, 0 + 12 * n));
        lemma_points_shifted(more, at + 4, body, 0, t.len());
        assert(seq![t] + Seq::<Seq<Point>>::empty() =~= tracks.push(t));
    } else {
        let n0 = le32(s, at);
        let next = at + 4 + 12 * n0;
        let rest = records_from(s, next)->Ok_0;
        assert(records_from(s, next) is Ok);
        lemma_records_append(s, next, rest, t);
        assert(more.subrange(0, s.len() as int) =~= s);
        lemma_same_le32(more, s, at);
        assert(more.subrange(at + 4, at + 4 + 12 * n0) =~= s.subrange(at + 4, at + 4 + 12 * n0));
        lemma_points_shifted(more, at + 4, s, at + 4, n0 as nat);
        assert(seq![points_at(s, at + 4, n0 as nat)] + rest.push(t) =~= (seq![
            points_at(s, at + 4, n0 as nat),
        ] + rest).push(t));
    }
}

/// Decoding the records of an encoded body gives back the streamlines, as
/// long as each has fewer than 2^32 points.
pub proof fn lemma_records_of_body(head: Seq<u8>, tracks: Seq<Seq<Point>>)
    requires
        head.len() == 1000,
        forall|i: int| 0 <= i < tracks.len() ==> (#[trigger] tracks[i]).len() < 0x1_0000_0000,
    ensures
        records_from(head + body_bytes(tracks), 1000) == Ok::<Seq<Seq<Point>>, int>(tracks),
    decreases tracks.len(),
{
    if tracks.len() == 0 {
        assert(head + body_bytes(tracks) =~= head);
        assert(tracks =~= Seq::<Seq<Point>>::empty());
    } else {
        let rest = tracks.drop_last();
        assert forall|i: int| 0 <= i < rest.len() implies (#[trigger] rest[i]).len()
            < 0x1_0000_0000 by {
            assert(rest[i] == tracks[i]);
        }
        lemma_records_of_body(head, rest);
        assert(tracks.last() == tracks[tracks.len() - 1]);
        lemma_records_append(head + body_bytes(rest), 1000, rest, tracks.last());
        assert(head + body_bytes(tracks) =~= (head + body_bytes(rest)) + record_bytes(
            tracks.last(),
        ));
        assert(rest.push(tracks.last()) =~= tracks);
    }
}

/// Where the fields that a decoder examines lie in a header's bytes.
pub proof fn lemma_header_layout(h: TrackVisHeader)
    ensures
        header_bytes(h).len() == 1000,
        header_bytes(h).subrange(0, 6) == h.id_string@,
        le32(header_bytes(h), 996) == h.hdr_size,
{
    let s = header_bytes(h);
    lemma_block_lengths(h);
    assert(s.subrange(0, 38) =~= grid_bytes(h));
    assert(grid_bytes(h).subrange(0, 6) =~= h.id_string@);
    assert(s.subrange(0, 6) =~= grid_bytes(h).subrange(0, 6));
    assert(s.subrange(948, 1000) =~= tail_bytes(h));
    assert(tail_bytes(h).subrange(48, 52) =~= bytes32(h.hdr_size as int));
    assert(s.subrange(996, 1000) =~= tail_bytes(h).subrange(48, 52));
    lemma_le32_inverse(s, 996, h.hdr_size as int);
    lemma_same_bytes(le32(s, 996), h.hdr_size as int);
}

/// What is written is accepted and read back: the bytes of a header with
/// the format's size and tag, followed by the records of streamlines of
/// fewer than 2^32 points each, are a streamline file that holds that
/// header and those streamlines, point for point.
pub proof fn lemma_read_inverts_write(h: TrackVisHeader, tracks: Seq<Seq<Point>>)
    requires
        h.hdr_size == 1000,
        h.id_string@.subrange(0, 5) == tag_bytes(),
        forall|i: int| 0 <= i < tracks.len() ==> (#[trigger] tracks[i]).len() < 0x1_0000_0000,
    ensures
        read_failure(header_bytes(h) + body_bytes(tracks)) is None,
        (header_bytes(h) + body_bytes(tracks)).subrange(0, 1000) == header_bytes(h),
        records_from(header_bytes(h) + body_bytes(tracks), 1000) == Ok::<Seq<Seq<Point>>, int>(
            tracks,
        ),
        forall|other: TrackVisHeader|
            header_bytes(other) == (header_bytes(h) + body_bytes(tracks)).subrange(0, 1000)
                ==> other == h,
{
    let head = header_bytes(h);
    let s = head + body_bytes(tracks);
    lemma_header_layout(h);
    lemma_records_of_body(head, tracks);
    assert(s.subrange(0, 1000) =~= head);
    assert(s.subrange(0, 5) =~= head.subrange(0, 6).subrange(0, 5));
    assert(le32(s, 996) == le32(head, 996)) by {
        assert(s[996] == head[996] && s[997] == head[997] && s[998] == head[998] && s[999]
            == head[999]);
    }
    assert forall|other: TrackVisHeader| header_bytes(other) == s.subrange(0, 1000) implies other
        == h by {
        lemma_header_bytes_injective(other, h);
    }
}

/// Unit spacing along all three axes.
pub open spec fn unit_spacing() -> Seq<u32> {
    seq![0x3F80_0000u32, 0x3F80_0000u32, 0x3F80_0000u32]
}

/// Whether the coordinates of a voxel have fewer than 25 binary digits.
pub open spec fn near_origin(v: Position) -> bool {
    &&& -0x100_0000 < v.x < 0x100_0000
    &&& -0x100_0000 < v.y < 0x100_0000
    &&& -0x100_0000 < v.z < 0x100_0000
}

proof fn lemma_unit_coordinate(t: int)
    requires
        -0x100_0000 < t < 0x100_0000,
    ensures
        truncated(quotient(product(0x3F80_0000, from_int(t)), 0x3F80_0000)) == t,
{
    lemma_truncated_small_int(t);
    if t != 0 {
        lemma_times_one(from_int(t));
        lemma_over_one(from_int(t));
    }
}

/// Under unit spacing a second round trip is exact: the point written for
/// a voxel whose coordinates have fewer than 25 binary digits is read back
/// as that voxel.
pub proof fn lemma_unit_spacing_round_trip(v: Position)
    requires
        near_origin(v),
    ensures
        voxel_of(point_of(v, unit_spacing()), unit_spacing()) == v,
{
    lemma_unit_coordinate(v.x as int);
    lemma_unit_coordinate(v.y as int);
    lemma_unit_coordinate(v.z as int);
}

/// Under unit spacing streamlines near the origin are read back as they
/// were written.
pub proof fn lemma_unit_spacing_paths(tracks: Seq<Seq<Position>>)
    requires
        forall|i: int, k: int|
            0 <= i < tracks.len() && 0 <= k < tracks[i].len() ==> near_origin(
                #[trigger] tracks[i][k],
            ),
    ensures
        voxel_paths(point_paths(tracks, unit_spacing()), unit_spacing()) == tracks,
{
    let unit = unit_spacing();
    let back = voxel_paths(point_paths(tracks, unit), unit);
    assert forall|i: int| 0 <= i < tracks.len() implies back[i] == tracks[i] by {
        assert forall|k: int| 0 <= k < tracks[i].len() implies back[i][k] == tracks[i][k] by {
            assert(near_origin(tracks[i][k]));
            lemma_unit_spacing_round_trip(tracks[i][k]);
        }
        assert(back[i] =~= tracks[i]);
    }
    assert(back =~= tracks);
}

/// Under unit spacing a file that was written is read back as it was
/// written: the bytes written for streamlines near the origin, of fewer
/// than 2^32 points each, are accepted and hold those streamlines.
pub proof fn lemma_unit_spacing_file(h: TrackVisHeader, n: NIfTI1Header, tracks: Seq<Seq<Position>>)
    requires
        describes(h, n, tracks.len()),
        h.voxel_size@ == unit_spacing(),
        forall|i: int| 0 <= i < tracks.len() ==> (#[trigger] tracks[i]).len() < 0x1_0000_0000,
        forall|i: int, k: int|
            0 <= i < tracks.len() && 0 <= k < tracks[i].len() ==> near_origin(
                #[trigger] tracks[i][k],
            ),
    ensures
        read_failure(header_bytes(h) + body_bytes(point_paths(tracks, unit_spacing()))) is None,
        voxel_paths(
            records_from(
                header_bytes(h) + body_bytes(point_paths(tracks, unit_spacing())),
                1000,
            )->Ok_0,
            h.voxel_size@,
        ) == tracks,
{
    let stored = point_paths(tracks, unit_spacing());
    assert(h.id_string@.subrange(0, 5) =~= tag_bytes());
    assert forall|i: int| 0 <= i < stored.len() implies (#[trigger] stored[i]).len()
        < 0x1_0000_0000 by {
        assert(stored[i].len() == tracks[i].len());
    }
    lemma_read_inverts_write(h, stored);
    lemma_unit_spacing_paths(tracks);
}

} // verus!
