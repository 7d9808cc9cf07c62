//! The voxel-volume format: a 348-byte header, one padding element, and a
//! dense grid of 32-bit elements.
//!
//! Elements are IEEE-754 single-precision numbers. The library never does
//! arithmetic on them as such; it carries each one as the 32 bits it is
//! stored in.
use vstd::prelude::*;
use crate::error::FormatError;
use crate::wire::{
    bytes16, bytes32, get_bytes, get_i16, get_i32, get_u16s, get_u32, get_u32s, le16, le32,
    lemma_join, lemma_le32_inverse, lemma_same_bytes, lemma_same_runs,
    lemma_seq16_words, lemma_seq32_push, lemma_seq32_words, lemma_split, put_bytes, put_i16,
        put_i32, put_u16s, put_u32,
    put_u32s, seq16, seq32, signed32, unsigned16, unsigned32, words16, words32,
};

verus! {

broadcast use crate::wire::group_widths;

/// Size of the header in bytes, and the value its first field must hold.
pub const HEADER_LEN: usize = 348;

/// Offset of the first grid element: the header and one padding element.
pub const DATA_START: usize = 352;

/// The header of a volume file, field by field in file order. Fields that
/// hold single-precision numbers are kept as their bit patterns.
#[derive(Clone, Copy, Debug, PartialEq, Eq)]
pub struct NIfTI1Header {
    /// Offset 0. Size of the header; must be 348.
    pub sizeof_hdr: i32,
    /// Offset 4. Unused.
    pub data_type: [u8; 10],
    /// Offset 14. Unused.
    pub db_name: [u8; 18],
    /// Offset 32. Unused.
    pub extents: i32,
    /// Offset 36. Unused.
    pub session_error: i16,
    /// Offset 38. Unused.
    pub regular: u8,
    /// Offset 39. Encoding directions.
    pub dim_info: u8,
    /// Offset 40. Grid extents: index 0 is unused, 1 to 4 are x, y, z, t.
    pub dim: [u16; 8],
    /// Offset 56. First intent parameter (bits).
    pub intent_p1: u32,
    /// Offset 60. Second intent parameter (bits).
    pub intent_p2: u32,
    /// Offset 64. Third intent parameter (bits).
    pub intent_p3: u32,
    /// Offset 68. Intent code.
    pub intent_code: i16,
    /// Offset 70. Element type code.
    pub datatype: i16,
    /// Offset 72. Bits per voxel.
    pub bitpix: i16,
    /// Offset 74. First slice index.
    pub slice_start: i16,
    /// Offset 76. Grid spacings (bits), parallel to `dim`.
    pub pixdim: [u32; 8],
    /// Offset 108. Offset of the data in the file (bits).
    pub vox_offset: u32,
    /// Offset 112. Data scaling slope (bits).
    pub scl_slope: u32,
    /// Offset 116. Data scaling offset (bits).
    pub scl_inter: u32,
    /// Offset 120. Last slice index.
    pub slice_end: i16,
    /// Offset 122. Slice timing order.
    pub slice_code: u8,
    /// Offset 123. Units of the spacings.
    pub xyzt_units: u8,
    /// Offset 124. Maximum display intensity (bits).
    pub cal_max: u32,
    /// Offset 128. Minimum display intensity (bits).
    pub cal_min: u32,
    /// Offset 132. Time for one slice (bits).
    pub slice_duration: u32,
    /// Offset 136. Time axis shift (bits).
    pub toffset: u32,
    /// Offset 140. Unused.
    pub glmax: i32,
    /// Offset 144. Unused.
    pub glmin: i32,
    /// Offset 148. Free text.
    pub descrip: [u8; 80],
    /// Offset 228. Auxiliary file name.
    pub aux_file: [u8; 24],
    /// Offset 252. Use of the quaternion fields.
    pub qform_code: i16,
    /// Offset 254. Use of the affine rows.
    pub sform_code: i16,
    /// Offset 256. Quaternion b (bits).
    pub quatern_b: u32,
    /// Offset 260. Quaternion c (bits).
    pub quatern_c: u32,
    /// Offset 264. Quaternion d (bits).
    pub quatern_d: u32,
    /// Offset 268. Quaternion x shift (bits).
    pub qoffset_x: u32,
    /// Offset 272. Quaternion y shift (bits).
    pub qoffset_y: u32,
    /// Offset 276. Quaternion z shift (bits).
    pub qoffset_z: u32,
    /// Offset 280. First row of the affine transform (bits).
    pub srow_x: [u32; 4],
    /// Offset 296. Second row of the affine transform (bits).
    pub srow_y: [u32; 4],
    /// Offset 312. Third row of the affine transform (bits).
    pub srow_z: [u32; 4],
    /// Offset 328. Name of the data's meaning.
    pub intent_name: [u8; 16],
    /// Offset 344. Magic string; must be "n+1" and a zero byte.
    pub magic: [u8; 4],
}

/// The magic string of a file that holds header and data together.
pub open spec fn magic_bytes() -> Seq<u8> {
    seq![110u8, 43u8, 49u8, 0u8]
}

/// Bytes 0 to 40 of the header: the size field and the unused legacy block.
pub open spec fn legacy_bytes(h: NIfTI1Header) -> Seq<u8> {
    bytes32(unsigned32(h.sizeof_hdr as int)) + h.data_type@ + h.db_name@ + bytes32(
        unsigned32(h.extents as int),
    ) + bytes16(unsigned16(h.session_error as int)) + seq![h.regular] + seq![h.dim_info]
}

/// Bytes 40 to 76 of the header: extents, intent and element type.
pub open spec fn shape_bytes(h: NIfTI1Header) -> Seq<u8> {
    seq16(h.dim@) + bytes32(h.intent_p1 as int) + bytes32(h.intent_p2 as int) + bytes32(
        h.intent_p3 as int,
    ) + bytes16(unsigned16(h.intent_code as int)) + bytes16(unsigned16(h.datatype as int))
        + bytes16(unsigned16(h.bitpix as int)) + bytes16(unsigned16(h.slice_start as int))
}

/// Bytes 76 to 124 of the header: spacings, data offset and scaling.
pub open spec fn scale_bytes(h: NIfTI1Header) -> Seq<u8> {
    seq32(h.pixdim@) + bytes32(h.vox_offset as int) + bytes32(h.scl_slope as int) + bytes32(
        h.scl_inter as int,
    ) + bytes16(unsigned16(h.slice_end as int)) + seq![h.slice_code] + seq![h.xyzt_units]
}

/// Bytes 124 to 252 of the header: display range, timing and text.
pub open spec fn display_bytes(h: NIfTI1Header) -> Seq<u8> {
    bytes32(h.cal_max as int) + bytes32(h.cal_min as int) + bytes32(h.slice_duration as int)
        + bytes32(h.toffset as int) + bytes32(unsigned32(h.glmax as int)) + bytes32(
        unsigned32(h.glmin as int),
    ) + h.descrip@ + h.aux_file@
}

/// Bytes 252 to 348 of the header: the transforms, the intent name and the
/// magic string.
pub open spec fn transform_bytes(h: NIfTI1Header) -> Seq<u8> {
    bytes16(unsigned16(h.qform_code as int)) + bytes16(unsigned16(h.sform_code as int))
        + bytes32(h.quatern_b as int) + bytes32(h.quatern_c as int) + bytes32(
        h.quatern_d as int,
    ) + bytes32(h.qoffset_x as int) + bytes32(h.qoffset_y as int) + bytes32(h.qoffset_z as int)
        + seq32(h.srow_x@) + seq32(h.srow_y@) + seq32(h.srow_z@) + h.intent_name@ + h.magic@
}

/// The 348 bytes of a header: its fields in file order, each least
/// significant byte first.
pub open spec fn header_bytes(h: NIfTI1Header) -> Seq<u8> {
    legacy_bytes(h) + shape_bytes(h) + scale_bytes(h) + display_bytes(h) + transform_bytes(h)
}

impl NIfTI1Header {
    /// A header that a decoder accepts: the size field and the magic string
    /// hold the format's constants.
    pub open spec fn valid(self) -> bool {
        self.sizeof_hdr == 348 && self.magic@ == magic_bytes()
    }
}

fn put_legacy(out: &mut Vec<u8>, h: &NIfTI1Header)
    ensures
        final(out)@ == old(out)@ + legacy_bytes(*h),
{
    let ghost start = out@;
    put_i32(out, h.sizeof_hdr);
    put_bytes(out, &h.data_type);
    put_bytes(out, &h.db_name);
    put_i32(out, h.extents);
    put_i16(out, h.session_error);
    out.push(h.regular);
    out.push(h.dim_info);
    assert(out@ =~= start + legacy_bytes(*h));
}

fn put_shape(out: &mut Vec<u8>, h: &NIfTI1Header)
    ensures
        final(out)@ == old(out)@ + shape_bytes(*h),
{
    let ghost start = out@;
    put_u16s(out, &h.dim);
    put_u32(out, h.intent_p1);
    put_u32(out, h.intent_p2);
    put_u32(out, h.intent_p3);
    put_i16(out, h.intent_code);
    put_i16(out, h.datatype);
    put_i16(out, h.bitpix);
    put_i16(out, h.slice_start);
    assert(out@ =~= start + shape_bytes(*h));
}

fn put_scale(out: &mut Vec<u8>, h: &NIfTI1Header)
    ensures
        final(out)@ == old(out)@ + scale_bytes(*h),
{
    let ghost start = out@;
    put_u32s(out, &h.pixdim);
    put_u32(out, h.vox_offset);
    put_u32(out, h.scl_slope);
    put_u32(out, h.scl_inter);
    put_i16(out, h.slice_end);
    out.push(h.slice_code);
    out.push(h.xyzt_units);
    assert(out@ =~= start + scale_bytes(*h));
}

fn put_display(out: &mut Vec<u8>, h: &NIfTI1Header)
    ensures
        final(out)@ == old(out)@ + display_bytes(*h),
{
    let ghost start = out@;
    put_u32(out, h.cal_max);
    put_u32(out, h.cal_min);
    put_u32(out, h.slice_duration);
    put_u32(out, h.toffset);
    put_i32(out, h.glmax);
    put_i32(out, h.glmin);
    put_bytes(out, &h.descrip);
    put_bytes(out, &h.aux_file);
    assert(out@ =~= start + display_bytes(*h));
}

fn put_transform(out: &mut Vec<u8>, h: &NIfTI1Header)
    ensures
        final(out)@ == old(out)@ + transform_bytes(*h),
{
    let ghost start = out@;
    put_i16(out, h.qform_code);
    put_i16(out, h.sform_code);
    put_u32(out, h.quatern_b);
    put_u32(out, h.quatern_c);
    put_u32(out, h.quatern_d);
    put_u32(out, h.qoffset_x);
    put_u32(out, h.qoffset_y);
    put_u32(out, h.qoffset_z);
    put_u32s(out, &h.srow_x);
    put_u32s(out, &h.srow_y);
    put_u32s(out, &h.srow_z);
    put_bytes(out, &h.intent_name);
    put_bytes(out, &h.magic);
    assert(out@ =~= start + transform_bytes(*h));
}

/// Appends the 348 bytes of `h` to `out`.
pub fn put_header(out: &mut Vec<u8>, h: &NIfTI1Header)
    ensures
        final(out)@ == old(out)@ + header_bytes(*h),
{
    let ghost start = out@;
    put_legacy(out, h);
    put_shape(out, h);
    put_scale(out, h);
    put_display(out, h);
    put_transform(out, h);
    assert(out@ =~= start + header_bytes(*h));
}

/// Reads the 348 bytes of a header from the start of `bytes`.
pub fn get_header(bytes: &[u8]) -> (h: NIfTI1Header)
    requires
        bytes.len() >= HEADER_LEN,
    ensures
        header_bytes(h) == bytes@.subrange(0, HEADER_LEN as int),
        h.sizeof_hdr == signed32(le32(bytes@, 0)),
        forall|j: int| 0 <= j < 8 ==> h.dim@[j] == le16(bytes@, 40 + 2 * j),
        h.magic@ == bytes@.subrange(344, 348),
{
    let h = NIfTI1Header {
        sizeof_hdr: get_i32(bytes, 0),
        data_type: get_bytes::<10>(bytes, 4),
        db_name: get_bytes::<18>(bytes, 14),
        extents: get_i32(bytes, 32),
        session_error: get_i16(bytes, 36),
        regular: bytes[38],
        dim_info: bytes[39],
        dim: get_u16s::<8>(bytes, 40),
        intent_p1: get_u32(bytes, 56),
        intent_p2: get_u32(bytes, 60),
        intent_p3: get_u32(bytes, 64),
        intent_code: get_i16(bytes, 68),
        datatype: get_i16(bytes, 70),
        bitpix: get_i16(bytes, 72),
        slice_start: get_i16(bytes, 74),
        pixdim: get_u32s::<8>(bytes, 76),
        vox_offset: get_u32(bytes, 108),
        scl_slope: get_u32(bytes, 112),
        scl_inter: get_u32(bytes, 116),
        slice_end: get_i16(bytes, 120),
        slice_code: bytes[122],
        xyzt_units: bytes[123],
        cal_max: get_u32(bytes, 124),
        cal_min: get_u32(bytes, 128),
        slice_duration: get_u32(bytes, 132),
        toffset: get_u32(bytes, 136),
        glmax: get_i32(bytes, 140),
        glmin: get_i32(bytes, 144),
        descrip: get_bytes::<80>(bytes, 148),
        aux_file: get_bytes::<24>(bytes, 228),
        qform_code: get_i16(bytes, 252),
        sform_code: get_i16(bytes, 254),
        quatern_b: get_u32(bytes, 256),
        quatern_c: get_u32(bytes, 260),
        quatern_d: get_u32(bytes, 264),
        qoffset_x: get_u32(bytes, 268),
        qoffset_y: get_u32(bytes, 272),
        qoffset_z: get_u32(bytes, 276),
        srow_x: get_u32s::<4>(bytes, 280),
        srow_y: get_u32s::<4>(bytes, 296),
        srow_z: get_u32s::<4>(bytes, 312),
        intent_name: get_bytes::<16>(bytes, 328),
        magic: get_bytes::<4>(bytes, 344),
    };
    proof {
        let s = bytes@;
        assert(seq![h.regular] =~= s.subrange(38, 39));
        assert(seq![h.dim_info] =~= s.subrange(39, 40));
        assert(seq![h.slice_code] =~= s.subrange(122, 123));
        assert(seq![h.xyzt_units] =~= s.subrange(123, 124));
        lemma_legacy_located(h, s);
        lemma_shape_located(h, s);
        lemma_scale_located(h, s);
        lemma_display_located(h, s);
        lemma_transform_located(h, s);
        lemma_join(s, 0, 40, 76);
        lemma_join(s, 0, 76, 124);
        lemma_join(s, 0, 124, 252);
        lemma_join(s, 0, 252, 348);
    }
    h
}

/// The five blocks of a header take 40, 36, 48, 128 and 96 bytes.
pub proof fn lemma_block_lengths(h: NIfTI1Header)
    ensures
        legacy_bytes(h).len() == 40,
        shape_bytes(h).len() == 36,
        scale_bytes(h).len() == 48,
        display_bytes(h).len() == 128,
        transform_bytes(h).len() == 96,
        header_bytes(h).len() == 348,
{
}

/// A header is determined by its bytes.
pub proof fn lemma_header_bytes_injective(a: NIfTI1Header, b: NIfTI1Header)
    requires
        header_bytes(a) == header_bytes(b),
    ensures
        a == b,
{
    lemma_block_lengths(a);
    lemma_block_lengths(b);
    lemma_split(
        legacy_bytes(a) + shape_bytes(a) + scale_bytes(a) + display_bytes(a),
        transform_bytes(a),
        legacy_bytes(b) + shape_bytes(b) + scale_bytes(b) + display_bytes(b),
        transform_bytes(b),
    );
    lemma_split(
        legacy_bytes(a) + shape_bytes(a) + scale_bytes(a),
        display_bytes(a),
        legacy_bytes(b) + shape_bytes(b) + scale_bytes(b),
        display_bytes(b),
    );
    lemma_split(
        legacy_bytes(a) + shape_bytes(a),
        scale_bytes(a),
        legacy_bytes(b) + shape_bytes(b),
        scale_bytes(b),
    );
    lemma_split(legacy_bytes(a), shape_bytes(a), legacy_bytes(b), shape_bytes(b));
    lemma_legacy_injective(a, b);
    lemma_shape_injective(a, b);
    lemma_scale_injective(a, b);
    lemma_display_injective(a, b);
    lemma_transform_injective(a, b);
}

proof fn lemma_legacy_injective(a: NIfTI1Header, b: NIfTI1Header)
    requires
        legacy_bytes(a) == legacy_bytes(b),
    ensures
        a.sizeof_hdr == b.sizeof_hdr,
        a.data_type == b.data_type,
        a.db_name == b.db_name,
        a.extents == b.extents,
        a.session_error == b.session_error,
        a.regular == b.regular,
        a.dim_info == b.dim_info,
{
    let a0 = bytes32(unsigned32(a.sizeof_hdr as int));
    let a1 = a0 + a.data_type@;
    let a2 = a1 + a.db_name@;
    let a3 = a2 + bytes32(unsigned32(a.extents as int));
    let a4 = a3 + bytes16(unsigned16(a.session_error as int));
    let a5 = a4 + seq![a.regular];
    let b0 = bytes32(unsigned32(b.sizeof_hdr as int));
    let b1 = b0 + b.data_type@;
    let b2 = b1 + b.db_name@;
    let b3 = b2 + bytes32(unsigned32(b.extents as int));
    let b4 = b3 + bytes16(unsigned16(b.session_error as int));
    let b5 = b4 + seq![b.regular];
    lemma_split(a5, seq![a.dim_info], b5, seq![b.dim_info]);
    lemma_split(a4, seq![a.regular], b4, seq![b.regular]);
    lemma_split(a3, bytes16(unsigned16(a.session_error as int)), b3,
        bytes16(unsigned16(b.session_error as int)));
    lemma_split(a2, bytes32(unsigned32(a.extents as int)), b2,
        bytes32(unsigned32(b.extents as int)));
    lemma_split(a1, a.db_name@, b1, b.db_name@);
    lemma_split(a0, a.data_type@, b0, b.data_type@);
    lemma_same_bytes(unsigned32(a.sizeof_hdr as int), unsigned32(b.sizeof_hdr as int));
    assert(a.data_type =~= b.data_type);
    assert(a.db_name =~= b.db_name);
    lemma_same_bytes(unsigned32(a.extents as int), unsigned32(b.extents as int));
    lemma_same_bytes(unsigned16(a.session_error as int), unsigned16(b.session_error as int));
    assert(seq![a.regular][0] == seq![b.regular][0]);
    assert(seq![a.dim_info][0] == seq![b.dim_info][0]);
}

proof fn lemma_legacy_located(h: NIfTI1Header, s: Seq<u8>)
    requires
        40 <= s.len(),
        bytes32(unsigned32(h.sizeof_hdr as int)) == s.subrange(0, 4),
        h.data_type@ == s.subrange(4, 14),
        h.db_name@ == s.subrange(14, 32),
        bytes32(unsigned32(h.extents as int)) == s.subrange(32, 36),
        bytes16(unsigned16(h.session_error as int)) == s.subrange(36, 38),
        seq![h.regular] == s.subrange(38, 39),
        seq![h.dim_info] == s.subrange(39, 40),
    ensures
        legacy_bytes(h) == s.subrange(0, 40),
{
    lemma_join(s, 0, 4, 14);
    lemma_join(s, 0, 14, 32);
    lemma_join(s, 0, 32, 36);
    lemma_join(s, 0, 36, 38);
    lemma_join(s, 0, 38, 39);
    lemma_join(s, 0, 39, 40);
}

proof fn lemma_shape_injective(a: NIfTI1Header, b: NIfTI1Header)
    requires
        shape_bytes(a) == shape_bytes(b),
    ensures
        a.dim == b.dim,
        a.intent_p1 == b.intent_p1,
        a.intent_p2 == b.intent_p2,
        a.intent_p3 == b.intent_p3,
        a.intent_code == b.intent_code,
        a.datatype == b.datatype,
        a.bitpix == b.bitpix,
        a.slice_start == b.slice_start,
{
    let a0 = seq16(a.dim@);
    let a1 = a0 + bytes32(a.intent_p1 as int);
    let a2 = a1 + bytes32(a.intent_p2 as int);
    let a3 = a2 + bytes32(a.intent_p3 as int);
    let a4 = a3 + bytes16(unsigned16(a.intent_code as int));
    let a5 = a4 + bytes16(unsigned16(a.datatype as int));
    let a6 = a5 + bytes16(unsigned16(a.bitpix as int));
    let b0 = seq16(b.dim@);
    let b1 = b0 + bytes32(b.intent_p1 as int);
    let b2 = b1 + bytes32(b.intent_p2 as int);
    let b3 = b2 + bytes32(b.intent_p3 as int);
    let b4 = b3 + bytes16(unsigned16(b.intent_code as int));
    let b5 = b4 + bytes16(unsigned16(b.datatype as int));
    let b6 = b5 + bytes16(unsigned16(b.bitpix as int));
    lemma_split(a6, bytes16(unsigned16(a.slice_start as int)), b6,
        bytes16(unsigned16(b.slice_start as int)));
    lemma_split(a5, bytes16(unsigned16(a.bitpix as int)), b5, bytes16(unsigned16(b.bitpix as int)));
    lemma_split(a4, bytes16(unsigned16(a.datatype as int)), b4,
        bytes16(unsigned16(b.datatype as int)));
    lemma_split(a3, bytes16(unsigned16(a.intent_code as int)), b3,
        bytes16(unsigned16(b.intent_code as int)));
    lemma_split(a2, bytes32(a.intent_p3 as int), b2, bytes32(b.intent_p3 as int));
    lemma_split(a1, bytes32(a.intent_p2 as int), b1, bytes32(b.intent_p2 as int));
    lemma_split(a0, bytes32(a.intent_p1 as int), b0, bytes32(b.intent_p1 as int));
    lemma_same_runs(a.dim@, b.dim@, Seq::empty(), Seq::empty());
    assert(a.dim =~= b.dim);
    lemma_same_bytes(a.intent_p1 as int, b.intent_p1 as int);
    lemma_same_bytes(a.intent_p2 as int, b.intent_p2 as int);
    lemma_same_bytes(a.intent_p3 as int, b.intent_p3 as int);
    lemma_same_bytes(unsigned16(a.intent_code as int), unsigned16(b.intent_code as int));
    lemma_same_bytes(unsigned16(a.datatype as int), unsigned16(b.datatype as int));
    lemma_same_bytes(unsigned16(a.bitpix as int), unsigned16(b.bitpix as int));
    lemma_same_bytes(unsigned16(a.slice_start as int), unsigned16(b.slice_start as int));
}

proof fn lemma_shape_located(h: NIfTI1Header, s: Seq<u8>)
    requires
        76 <= s.len(),
        seq16(h.dim@) == s.subrange(40, 56),
        bytes32(h.intent_p1 as int) == s.subrange(56, 60),
        bytes32(h.intent_p2 as int) == s.subrange(60, 64),
        bytes32(h.intent_p3 as int) == s.subrange(64, 68),
        bytes16(unsigned16(h.intent_code as int)) == s.subrange(68, 70),
        bytes16(unsigned16(h.datatype as int)) == s.subrange(70, 72),
        bytes16(unsigned16(h.bitpix as int)) == s.subrange(72, 74),
        bytes16(unsigned16(h.slice_start as int)) == s.subrange(74, 76),
    ensures
        shape_bytes(h) == s.subrange(40, 76),
{
    lemma_join(s, 40, 56, 60);
    lemma_join(s, 40, 60, 64);
    lemma_join(s, 40, 64, 68);
    lemma_join(s, 40, 68, 70);
    lemma_join(s, 40, 70, 72);
    lemma_join(s, 40, 72, 74);
    lemma_join(s, 40, 74, 76);
}

proof fn lemma_scale_injective(a: NIfTI1Header, b: NIfTI1Header)
    requires
        scale_bytes(a) == scale_bytes(b),
    ensures
        a.pixdim == b.pixdim,
        a.vox_offset == b.vox_offset,
        a.scl_slope == b.scl_slope,
        a.scl_inter == b.scl_inter,
        a.slice_end == b.slice_end,
        a.slice_code == b.slice_code,
        a.xyzt_units == b.xyzt_units,
{
    let a0 = seq32(a.pixdim@);
    let a1 = a0 + bytes32(a.vox_offset as int);
    let a2 = a1 + bytes32(a.scl_slope as int);
    let a3 = a2 + bytes32(a.scl_inter as int);
    let a4 = a3 + bytes16(unsigned16(a.slice_end as int));
    let a5 = a4 + seq![a.slice_code];
    let b0 = seq32(b.pixdim@);
    let b1 = b0 + bytes32(b.vox_offset as int);
    let b2 = b1 + bytes32(b.scl_slope as int);
    let b3 = b2 + bytes32(b.scl_inter as int);
    let b4 = b3 + bytes16(unsigned16(b.slice_end as int));
    let b5 = b4 + seq![b.slice_code];
    lemma_split(a5, seq![a.xyzt_units], b5, seq![b.xyzt_units]);
    lemma_split(a4, seq![a.slice_code], b4, seq![b.slice_code]);
    lemma_split(a3, bytes16(unsigned16(a.slice_end as int)), b3,
        bytes16(unsigned16(b.slice_end as int)));
    lemma_split(a2, bytes32(a.scl_inter as int), b2, bytes32(b.scl_inter as int));
    lemma_split(a1, bytes32(a.scl_slope as int), b1, bytes32(b.scl_slope as int));
    lemma_split(a0, bytes32(a.vox_offset as int), b0, bytes32(b.vox_offset as int));
    lemma_same_runs(Seq::empty(), Seq::empty(), a.pixdim@, b.pixdim@);
    assert(a.pixdim =~= b.pixdim);
    lemma_same_bytes(a.vox_offset as int, b.vox_offset as int);
    lemma_same_bytes(a.scl_slope as int, b.scl_slope as int);
    lemma_same_bytes(a.scl_inter as int, b.scl_inter as int);
    lemma_same_bytes(unsigned16(a.slice_end as int), unsigned16(b.slice_end as int));
    assert(seq![a.slice_code][0] == seq![b.slice_code][0]);
    assert(seq![a.xyzt_units][0] == seq![b.xyzt_units][0]);
}

proof fn lemma_scale_located(h: NIfTI1Header, s: Seq<u8>)
    requires
        124 <= s.len(),
        seq32(h.pixdim@) == s.subrange(76, 108),
        bytes32(h.vox_offset as int) == s.subrange(108, 112),
        bytes32(h.scl_slope as int) == s.subrange(112, 116),
        bytes32(h.scl_inter as int) == s.subrange(116, 120),
        bytes16(unsigned16(h.slice_end as int)) == s.subrange(120, 122),
        seq![h.slice_code] == s.subrange(122, 123),
        seq![h.xyzt_units] == s.subrange(123, 124),
    ensures
        scale_bytes(h) == s.subrange(76, 124),
{
    lemma_join(s, 76, 108, 112);
    lemma_join(s, 76, 112, 116);
    lemma_join(s, 76, 116, 120);
    lemma_join(s, 76, 120, 122);
    lemma_join(s, 76, 122, 123);
    lemma_join(s, 76, 123, 124);
}

proof fn lemma_display_injective(a: NIfTI1Header, b: NIfTI1Header)
    requires
        display_bytes(a) == display_bytes(b),
    ensures
        a.cal_max == b.cal_max,
        a.cal_min == b.cal_min,
        a.slice_duration == b.slice_duration,
        a.toffset == b.toffset,
        a.glmax == b.glmax,
        a.glmin == b.glmin,
        a.descrip == b.descrip,
        a.aux_file == b.aux_file,
{
    let a0 = bytes32(a.cal_max as int);
    let a1 = a0 + bytes32(a.cal_min as int);
    let a2 = a1 + bytes32(a.slice_duration as int);
    let a3 = a2 + bytes32(a.toffset as int);
    let a4 = a3 + bytes32(unsigned32(a.glmax as int));
    let a5 = a4 + bytes32(unsigned32(a.glmin as int));
    let a6 = a5 + a.descrip@;
    let b0 = bytes32(b.cal_max as int);
    let b1 = b0 + bytes32(b.cal_min as int);
    let b2 = b1 + bytes32(b.slice_duration as int);
    let b3 = b2 + bytes32(b.toffset as int);
    let b4 = b3 + bytes32(unsigned32(b.glmax as int));
    let b5 = b4 + bytes32(unsigned32(b.glmin as int));
    let b6 = b5 + b.descrip@;
    lemma_split(a6, a.aux_file@, b6, b.aux_file@);
    lemma_split(a5, a.descrip@, b5, b.descrip@);
    lemma_split(a4, bytes32(unsigned32(a.glmin as int)), b4, bytes32(unsigned32(b.glmin as int)));
    lemma_split(a3, bytes32(unsigned32(a.glmax as int)), b3, bytes32(unsigned32(b.glmax as int)));
    lemma_split(a2, bytes32(a.toffset as int), b2, bytes32(b.toffset as int));
    lemma_split(a1, bytes32(a.slice_duration as int), b1, bytes32(b.slice_duration as int));
    lemma_split(a0, bytes32(a.cal_min as int), b0, bytes32(b.cal_min as int));
    lemma_same_bytes(a.cal_max as int, b.cal_max as int);
    lemma_same_bytes(a.cal_min as int, b.cal_min as int);
    lemma_same_bytes(a.slice_duration as int, b.slice_duration as int);
    lemma_same_bytes(a.toffset as int, b.toffset as int);
    lemma_same_bytes(unsigned32(a.glmax as int), unsigned32(b.glmax as int));
    lemma_same_bytes(unsigned32(a.glmin as int), unsigned32(b.glmin as int));
    assert(a.descrip =~= b.descrip);
    assert(a.aux_file =~= b.aux_file);
}

proof fn lemma_display_located(h: NIfTI1Header, s: Seq<u8>)
    requires
        252 <= s.len(),
        bytes32(h.cal_max as int) == s.subrange(124, 128),
        bytes32(h.cal_min as int) == s.subrange(128, 132),
        bytes32(h.slice_duration as int) == s.subrange(132, 136),
        bytes32(h.toffset as int) == s.subrange(136, 140),
        bytes32(unsigned32(h.glmax as int)) == s.subrange(140, 144),
        bytes32(unsigned32(h.glmin as int)) == s.subrange(144, 148),
        h.descrip@ == s.subrange(148, 228),
        h.aux_file@ == s.subrange(228, 252),
    ensures
        display_bytes(h) == s.subrange(124, 252),
{
    lemma_join(s, 124, 128, 132);
    lemma_join(s, 124, 132, 136);
    lemma_join(s, 124, 136, 140);
    lemma_join(s, 124, 140, 144);
    lemma_join(s, 124, 144, 148);
    lemma_join(s, 124, 148, 228);
    lemma_join(s, 124, 228, 252);
}

proof fn lemma_transform_injective(a: NIfTI1Header, b: NIfTI1Header)
    requires
        transform_bytes(a) == transform_bytes(b),
    ensures
        a.qform_code == b.qform_code,
        a.sform_code == b.sform_code,
        a.quatern_b == b.quatern_b,
        a.quatern_c == b.quatern_c,
        a.quatern_d == b.quatern_d,
        a.qoffset_x == b.qoffset_x,
        a.qoffset_y == b.qoffset_y,
        a.qoffset_z == b.qoffset_z,
        a.srow_x == b.srow_x,
        a.srow_y == b.srow_y,
        a.srow_z == b.srow_z,
        a.intent_name == b.intent_name,
        a.magic == b.magic,
{
    let a0 = bytes16(unsigned16(a.qform_code as int));
    let a1 = a0 + bytes16(unsigned16(a.sform_code as int));
    let a2 = a1 + bytes32(a.quatern_b as int);
    let a3 = a2 + bytes32(a.quatern_c as int);
    let a4 = a3 + bytes32(a.quatern_d as int);
    let a5 = a4 + bytes32(a.qoffset_x as int);
    let a6 = a5 + bytes32(a.qoffset_y as int);
    let a7 = a6 + bytes32(a.qoffset_z as int);
    let a8 = a7 + seq32(a.srow_x@);
    let a9 = a8 + seq32(a.srow_y@);
    let a10 = a9 + seq32(a.srow_z@);
    let a11 = a10 + a.intent_name@;
    let b0 = bytes16(unsigned16(b.qform_code as int));
    let b1 = b0 + bytes16(unsigned16(b.sform_code as int));
    let b2 = b1 + bytes32(b.quatern_b as int);
    let b3 = b2 + bytes32(b.quatern_c as int);
    let b4 = b3 + bytes32(b.quatern_d as int);
    let b5 = b4 + bytes32(b.qoffset_x as int);
    let b6 = b5 + bytes32(b.qoffset_y as int);
    let b7 = b6 + bytes32(b.qoffset_z as int);
    let b8 = b7 + seq32(b.srow_x@);
    let b9 = b8 + seq32(b.srow_y@);
    let b10 = b9 + seq32(b.srow_z@);
    let b11 = b10 + b.intent_name@;
    lemma_split(a11, a.magic@, b11, b.magic@);
    lemma_split(a10, a.intent_name@, b10, b.intent_name@);
    lemma_split(a9, seq32(a.srow_z@), b9, seq32(b.srow_z@));
    lemma_split(a8, seq32(a.srow_y@), b8, seq32(b.srow_y@));
    lemma_split(a7, seq32(a.srow_x@), b7, seq32(b.srow_x@));
    lemma_split(a6, bytes32(a.qoffset_z as int), b6, bytes32(b.qoffset_z as int));
    lemma_split(a5, bytes32(a.qoffset_y as int), b5, bytes32(b.qoffset_y as int));
    lemma_split(a4, bytes32(a.qoffset_x as int), b4, bytes32(b.qoffset_x as int));
    lemma_split(a3, bytes32(a.quatern_d as int), b3, bytes32(b.quatern_d as int));
    lemma_split(a2, bytes32(a.quatern_c as int), b2, bytes32(b.quatern_c as int));
    lemma_split(a1, bytes32(a.quatern_b as int), b1, bytes32(b.quatern_b as int));
    lemma_split(a0, bytes16(unsigned16(a.sform_code as int)), b0,
        bytes16(unsigned16(b.sform_code as int)));
    lemma_same_bytes(unsigned16(a.qform_code as int), unsigned16(b.qform_code as int));
    lemma_same_bytes(unsigned16(a.sform_code as int), unsigned16(b.sform_code as int));
    lemma_same_bytes(a.quatern_b as int, b.quatern_b as int);
    lemma_same_bytes(a.quatern_c as int, b.quatern_c as int);
    lemma_same_bytes(a.quatern_d as int, b.quatern_d as int);
    lemma_same_bytes(a.qoffset_x as int, b.qoffset_x as int);
    lemma_same_bytes(a.qoffset_y as int, b.qoffset_y as int);
    lemma_same_bytes(a.qoffset_z as int, b.qoffset_z as int);
    lemma_same_runs(Seq::empty(), Seq::empty(), a.srow_x@, b.srow_x@);
    assert(a.srow_x =~= b.srow_x);
    lemma_same_runs(Seq::empty(), Seq::empty(), a.srow_y@, b.srow_y@);
    assert(a.srow_y =~= b.srow_y);
    lemma_same_runs(Seq::empty(), Seq::empty(), a.srow_z@, b.srow_z@);
    assert(a.srow_z =~= b.srow_z);
    assert(a.intent_name =~= b.intent_name);
    assert(a.magic =~= b.magic);
}

proof fn lemma_transform_located(h: NIfTI1Header, s: Seq<u8>)
    requires
        348 <= s.len(),
        bytes16(unsigned16(h.qform_code as int)) == s.subrange(252, 254),
        bytes16(unsigned16(h.sform_code as int)) == s.subrange(254, 256),
        bytes32(h.quatern_b as int) == s.subrange(256, 260),
        bytes32(h.quatern_c as int) == s.subrange(260, 264),
        bytes32(h.quatern_d as int) == s.subrange(264, 268),
        bytes32(h.qoffset_x as int) == s.subrange(268, 272),
        bytes32(h.qoffset_y as int) == s.subrange(272, 276),
        bytes32(h.qoffset_z as int) == s.subrange(276, 280),
        seq32(h.srow_x@) == s.subrange(280, 296),
        seq32(h.srow_y@) == s.subrange(296, 312),
        seq32(h.srow_z@) == s.subrange(312, 328),
        h.intent_name@ == s.subrange(328, 344),
        h.magic@ == s.subrange(344, 348),
    ensures
        transform_bytes(h) == s.subrange(252, 348),
{
    lemma_join(s, 252, 254, 256);
    lemma_join(s, 252, 256, 260);
    lemma_join(s, 252, 260, 264);
    lemma_join(s, 252, 264, 268);
    lemma_join(s, 252, 268, 272);
    lemma_join(s, 252, 272, 276);
    lemma_join(s, 252, 276, 280);
    lemma_join(s, 252, 280, 296);
    lemma_join(s, 252, 296, 312);
    lemma_join(s, 252, 312, 328);
    lemma_join(s, 252, 328, 344);
    lemma_join(s, 252, 344, 348);
}

/// What a grid is: four extents and the elements in file order, with t
/// outermost and x varying fastest.
pub struct GridView {
    pub nx: nat,
    pub ny: nat,
    pub nz: nat,
    pub nt: nat,
    pub cells: Seq<u32>,
}

impl GridView {
    /// The number of elements that the extents call for.
    pub open spec fn count(self) -> nat {
        self.nt * self.nz * self.ny * self.nx
    }

    /// The grid holds exactly as many elements as its extents call for.
    pub open spec fn wf(self) -> bool {
        self.cells.len() == self.count()
    }

    /// Whether an index lies inside the grid.
    pub open spec fn contains(self, t: int, z: int, y: int, x: int) -> bool {
        0 <= t < self.nt && 0 <= z < self.nz && 0 <= y < self.ny && 0 <= x < self.nx
    }

    /// The place of an index in file order.
    pub open spec fn offset(self, t: int, z: int, y: int, x: int) -> int {
        ((t * self.nz + z) * self.ny + y) * self.nx + x
    }

    /// The element at an index.
    pub open spec fn at(self, t: int, z: int, y: int, x: int) -> u32 {
        self.cells[self.offset(t, z, y, x)]
    }

    /// The grid has the extents that a header announces.
    pub open spec fn fits(self, h: NIfTI1Header) -> bool {
        self.nx == h.dim@[1] && self.ny == h.dim@[2] && self.nz == h.dim@[3] && self.nt
            == h.dim@[4]
    }

    /// The same grid with one element replaced.
    pub open spec fn with(self, t: int, z: int, y: int, x: int, value: u32) -> GridView {
        GridView { cells: self.cells.update(self.offset(t, z, y, x), value), ..self }
    }
}

/// An index inside the grid has its place among the grid's elements.
pub proof fn lemma_offset_in_range(g: GridView, t: int, z: int, y: int, x: int)
    requires
        g.contains(t, z, y, x),
    ensures
        0 <= g.offset(t, z, y, x) < g.count(),
{
    let a = t * g.nz + z;
    let b = a * g.ny + y;
    assert(0 <= a <= g.nt * g.nz - 1) by (nonlinear_arith)
        requires
            a == t * g.nz + z,
            0 <= t <= g.nt - 1,
            0 <= z <= g.nz - 1,
    ;
    assert(0 <= b <= g.nt * g.nz * g.ny - 1) by (nonlinear_arith)
        requires
            b == a * g.ny + y,
            0 <= a <= g.nt * g.nz - 1,
            0 <= y <= g.ny - 1,
    ;
    assert(0 <= b * g.nx + x <= g.nt * g.nz * g.ny * g.nx - 1) by (nonlinear_arith)
        requires
            0 <= b <= g.nt * g.nz * g.ny - 1,
            0 <= x <= g.nx - 1,
    ;
}

/// Two indices inside the grid with the same place are the same index.
pub proof fn lemma_offset_injective(
    g: GridView,
    t: int,
    z: int,
    y: int,
    x: int,
    t2: int,
    z2: int,
    y2: int,
    x2: int,
)
    requires
        g.contains(t, z, y, x),
        g.contains(t2, z2, y2, x2),
        g.offset(t, z, y, x) == g.offset(t2, z2, y2, x2),
    ensures
        t == t2 && z == z2 && y == y2 && x == x2,
{
    let b = (t * g.nz + z) * g.ny + y;
    let b2 = (t2 * g.nz + z2) * g.ny + y2;
    lemma_digit(b, x, b2, x2, g.nx as int);
    lemma_digit(t * g.nz + z, y, t2 * g.nz + z2, y2, g.ny as int);
    lemma_digit(t, z, t2, z2, g.nz as int);
}

/// A number is determined by its last digit to a base and the rest.
pub proof fn lemma_digit(a: int, r: int, a2: int, r2: int, n: int)
    by (nonlinear_arith)
    requires
        0 <= r < n,
        0 <= r2 < n,
        a * n + r == a2 * n + r2,
    ensures
        a == a2,
        r == r2,
{
    if a < a2 {
        assert(a2 * n >= (a + 1) * n);
    } else if a2 < a {
        assert(a * n >= (a2 + 1) * n);
    }
}

/// A dense 4-dimensional grid of 32-bit elements. A value always holds
/// exactly as many elements as its extents call for.
#[derive(Debug, PartialEq, Eq)]
pub struct NIfTI1Data {
    nx: u16,
    ny: u16,
    nz: u16,
    nt: u16,
    cells: Vec<u32>,
}

/// A grid with every element zero, made for a header's extents.
pub trait New: Sized {
    /// What the value holds.
    spec fn content(&self) -> GridView;

    fn init(header: &NIfTI1Header) -> (data: Self)
        ensures
            data.content().wf(),
            data.content().fits(*header),
            forall|i: int| 0 <= i < data.content().cells.len() ==> data.content().cells[i] == 0,
    ;
}

fn count_of(nx: u16, ny: u16, nz: u16, nt: u16) -> (n: u64)
    ensures
        n == (nt as nat) * (nz as nat) * (ny as nat) * (nx as nat),
        n <= 0xFFFE_0005_FFF8_0001,
{
    assert((nt as nat) * (nz as nat) <= 65535 * 65535) by (nonlinear_arith);
    let a: u64 = (nt as u64) * (nz as u64);
    assert(a * (ny as nat) <= 65535 * 65535 * 65535) by (nonlinear_arith)
        requires
            a <= 65535 * 65535,
            ny <= 65535,
    ;
    let b: u64 = a * (ny as u64);
    assert(b * (nx as nat) <= 65535 * 65535 * 65535 * 65535) by (nonlinear_arith)
        requires
            b <= 65535 * 65535 * 65535,
            nx <= 65535,
    ;
    b * (nx as u64)
}

impl View for NIfTI1Data {
    type V = GridView;

    closed spec fn view(&self) -> GridView {
        GridView {
            nx: self.nx as nat,
            ny: self.ny as nat,
            nz: self.nz as nat,
            nt: self.nt as nat,
            cells: self.cells@,
        }
    }
}

impl NIfTI1Data {
    #[verifier::type_invariant]
    spec fn well_formed(self) -> bool {
        self.cells@.len() == (self.nt as nat) * (self.nz as nat) * (self.ny as nat) * (
        self.nx as nat)
    }

    /// A grid of the given extents over the given elements, if there are
    /// exactly as many elements as the extents call for.
    pub fn from_cells(nx: u16, ny: u16, nz: u16, nt: u16, cells: Vec<u32>) -> (r: Option<Self>)
        ensures
            r is Some <==> cells@.len() == (nt as nat) * (nz as nat) * (ny as nat) * (nx as nat),
            r is Some ==> r->0@ == (GridView {
                nx: nx as nat,
                ny: ny as nat,
                nz: nz as nat,
                nt: nt as nat,
                cells: cells@,
            }),
    {
        let n: u64 = count_of(nx, ny, nz, nt);
        if cells.len() as u64 == n {
            Some(NIfTI1Data { nx, ny, nz, nt, cells })
        } else {
            None
        }
    }

    /// The extents, in the order x, y, z, t.
    pub fn extents(&self) -> (r: (u16, u16, u16, u16))
        ensures
            self@.wf(),
            r.0 == self@.nx,
            r.1 == self@.ny,
            r.2 == self@.nz,
            r.3 == self@.nt,
    {
        proof {
            use_type_invariant(self);
        }
        (self.nx, self.ny, self.nz, self.nt)
    }

    /// The elements in file order.
    pub fn cells(&self) -> (r: &Vec<u32>)
        ensures
            self@.wf(),
            r@ == self@.cells,
    {
        proof {
            use_type_invariant(self);
        }
        &self.cells
    }

    /// Whether an index lies inside the grid.
    pub fn contains(&self, t: usize, z: usize, y: usize, x: usize) -> (r: bool)
        ensures
            r == self@.contains(t as int, z as int, y as int, x as int),
    {
        t < self.nt as usize && z < self.nz as usize && y < self.ny as usize && x
            < self.nx as usize
    }

    fn place(&self, t: usize, z: usize, y: usize, x: usize) -> (r: usize)
        requires
            self@.contains(t as int, z as int, y as int, x as int),
        ensures
            r == self@.offset(t as int, z as int, y as int, x as int),
            r < self.cells@.len(),
    {
        proof {
            use_type_invariant(self);
            lemma_offset_in_range(self@, t as int, z as int, y as int, x as int);
        }
        let ghost g = self@;
        assert(0 <= t * g.nz + z <= 65535 * 65535 - 1) by (nonlinear_arith)
            requires
                0 <= t <= g.nt - 1,
                0 <= z <= g.nz - 1,
                g.nt <= 65535,
                g.nz <= 65535,
        ;
        let a: u64 = (t as u64) * (self.nz as u64) + (z as u64);
        assert(0 <= a * g.ny + y <= 65535 * 65535 * 65535 - 1) by (nonlinear_arith)
            requires
                0 <= a <= 65535 * 65535 - 1,
                0 <= y <= g.ny - 1,
                g.ny <= 65535,
        ;
        let b: u64 = a * (self.ny as u64) + (y as u64);
        assert(0 <= b * g.nx + x <= 65535 * 65535 * 65535 * 65535 - 1) by (nonlinear_arith)
            requires
                0 <= b <= 65535 * 65535 * 65535 - 1,
                0 <= x <= g.nx - 1,
                g.nx <= 65535,
        ;
        let c: u64 = b * (self.nx as u64) + (x as u64);
        let len: usize = self.cells.len();
        assert(c < len);
        c as usize
    }

    /// The element at an index inside the grid.
    pub fn get(&self, t: usize, z: usize, y: usize, x: usize) -> (r: u32)
        requires
            self@.contains(t as int, z as int, y as int, x as int),
        ensures
            r == self@.at(t as int, z as int, y as int, x as int),
    {
        let i: usize = self.place(t, z, y, x);
        self.cells[i]
    }

    /// Replaces the element at an index inside the grid.
    pub fn set(&mut self, t: usize, z: usize, y: usize, x: usize, value: u32)
        requires
            old(self)@.contains(t as int, z as int, y as int, x as int),
        ensures
            final(self)@ == old(self)@.with(t as int, z as int, y as int, x as int, value),
    {
        let i: usize = self.place(t, z, y, x);
        proof {
            use_type_invariant(&*self);
        }
        self.cells[i] = value;
    }
}

impl New for NIfTI1Data {
    open spec fn content(&self) -> GridView {
        self@
    }

    fn init(header: &NIfTI1Header) -> (data: NIfTI1Data) {
        let nx: u16 = header.dim[1];
        let ny: u16 = header.dim[2];
        let nz: u16 = header.dim[3];
        let nt: u16 = header.dim[4];
        let n: u64 = count_of(nx, ny, nz, nt);
        let mut cells: Vec<u32> = Vec::new();
        let mut i: u64 = 0;
        while i < n
            invariant
                i <= n,
                cells@.len() == i,
                forall|j: int| 0 <= j < i ==> cells@[j] == 0,
            decreases n - i,
        {
            cells.push(0);
            i += 1;
        }
        NIfTI1Data { nx, ny, nz, nt, cells }
    }
}

/// The number of voxels that the extents stored in a file's header announce.
pub open spec fn announced(s: Seq<u8>) -> int {
    le16(s, 48) * le16(s, 46) * le16(s, 44) * le16(s, 42)
}

/// The first reason, in the order in which a file is examined, for which a
/// byte string is no volume file; `None` where there is none.
pub open spec fn read_failure(s: Seq<u8>) -> Option<FormatError> {
    if s.len() < 348 {
        Some(FormatError::ShortHeader { needed: 348, found: s.len() as usize })
    } else if signed32(le32(s, 0)) != 348 {
        Some(FormatError::HeaderSize { expected: 348, declared: le32(s, 0) as u32 })
    } else if s.subrange(344, 348) != magic_bytes() {
        Some(FormatError::BadMagic)
    } else if (s.len() - 348) % 4 != 0 {
        Some(FormatError::Unaligned { trailing: (s.len() - 348) as usize })
    } else if announced(s) > 0 && (s.len() - 348) / 4 < announced(s) + 1 {
        Some(FormatError::Truncated { at: 348 })
    } else {
        None
    }
}

/// A header and a grid are what a byte string holds: the header is the
/// string's first 348 bytes, the grid has the header's extents, and its
/// elements are the 32-bit values that follow the padding element.
pub open spec fn decodes(s: Seq<u8>, h: NIfTI1Header, g: GridView) -> bool {
    &&& header_bytes(h) == s.subrange(0, 348)
    &&& g.fits(h)
    &&& g.wf()
    &&& g.cells == words32(s, 352, g.count())
}

/// The bytes of a volume file: the header, a zero padding element, and the
/// grid's elements in file order.
pub open spec fn file_bytes(h: NIfTI1Header, g: GridView) -> Seq<u8> {
    header_bytes(h) + bytes32(0) + seq32(g.cells)
}

/// Decodes a volume file.
///
/// A byte string is rejected, with the first reason that applies, when it
/// is shorter than a header, when the header's size field is not 348, when
/// the magic string is not the format's, when the bytes after the header
/// are no whole number of elements, or when there are fewer elements than
/// the padding and the header's extents call for. Elements beyond the
/// grid are ignored.
pub fn read(bytes: &[u8]) -> (r: Result<(NIfTI1Header, NIfTI1Data), FormatError>)
    ensures
        match r {
            Ok((h, g)) => read_failure(bytes@) is None && h.valid() && decodes(bytes@, h, g@),
            Err(e) => read_failure(bytes@) == Some(e),
        },
        bytes@.len() >= 348 && signed32(le32(bytes@, 0)) != 348 ==> r == Err::<
            (NIfTI1Header, NIfTI1Data),
            FormatError,
        >(FormatError::HeaderSize { expected: 348, declared: le32(bytes@, 0) as u32 }),
{
    let len: usize = bytes.len();
    if len < HEADER_LEN {
        return Err(FormatError::ShortHeader { needed: HEADER_LEN, found: len });
    }
    let h: NIfTI1Header = get_header(bytes);
    if h.sizeof_hdr != 348 {
        return Err(FormatError::HeaderSize { expected: 348, declared: get_u32(bytes, 0) });
    }
    let magic_ok: bool = h.magic[0] == 110 && h.magic[1] == 43 && h.magic[2] == 49 && h.magic[3]
        == 0;
    assert(magic_ok <==> h.magic@ =~= magic_bytes());
    if !magic_ok {
        return Err(FormatError::BadMagic);
    }
    let rest: usize = len - HEADER_LEN;
    if rest % 4 != 0 {
        return Err(FormatError::Unaligned { trailing: rest });
    }
    let n: u64 = count_of(h.dim[1], h.dim[2], h.dim[3], h.dim[4]);
    assert(n == announced(bytes@));
    if n > 0 && ((rest / 4) as u64) < n + 1 {
        return Err(FormatError::Truncated { at: HEADER_LEN });
    }
    let mut cells: Vec<u32> = Vec::new();
    let mut i: usize = 0;
    while (i as u64) < n
        invariant
            i <= n,
            n > 0 ==> 352 + 4 * n <= bytes.len(),
            cells@ == words32(bytes@, 352, i as nat),
        decreases n - i,
    {
        let w: u32 = get_u32(bytes, DATA_START + 4 * i);
        cells.push(w);
        i += 1;
        assert(cells@ =~= words32(bytes@, 352, i as nat));
    }
    let g = NIfTI1Data { nx: h.dim[1], ny: h.dim[2], nz: h.dim[3], nt: h.dim[4], cells };
    Ok((h, g))
}

/// Encodes a volume file: the header as it stands, a zero padding element,
/// and the grid's elements in file order.
///
/// The grid must have the extents that the header announces; a file
/// written from a grid of other extents would not decode to it.
pub fn write(header: NIfTI1Header, data: NIfTI1Data) -> (out: Vec<u8>)
    requires
        data@.fits(header),
    ensures
        out@ == file_bytes(header, data@),
{
    let mut out: Vec<u8> = Vec::new();
    put_header(&mut out, &header);
    put_u32(&mut out, 0);
    let cells: &Vec<u32> = data.cells();
    let ghost start = out@;
    let n: usize = cells.len();
    let mut i: usize = 0;
    while i < n
        invariant
            i <= n,
            n == cells@.len(),
            out@ == start + seq32(cells@.subrange(0, i as int)),
        decreases n - i,
    {
        put_u32(&mut out, cells[i]);
        i += 1;
        proof {
            let lo = cells@.subrange(0, i - 1);
            assert(cells@.subrange(0, i as int) =~= lo.push(cells@[i - 1]));
            lemma_seq32_push(lo, cells@[i - 1]);
        }
    }
    assert(cells@.subrange(0, n as int) =~= cells@);
    assert(out@ =~= file_bytes(header, data@));
    out
}

/// Where the fields that a decoder examines lie in a header's bytes.
pub proof fn lemma_header_layout(h: NIfTI1Header)
    ensures
        header_bytes(h).len() == 348,
        signed32(le32(header_bytes(h), 0)) == h.sizeof_hdr,
        words16(header_bytes(h), 40, 8) == h.dim@,
        header_bytes(h).subrange(344, 348) == h.magic@,
{
    let s = header_bytes(h);
    lemma_block_lengths(h);
    let head = legacy_bytes(h) + shape_bytes(h) + scale_bytes(h) + display_bytes(h);
    assert(s.subrange(252, 348) =~= transform_bytes(h));
    assert(transform_bytes(h).subrange(92, 96) =~= h.magic@);
    assert(s.subrange(344, 348) =~= transform_bytes(h).subrange(92, 96));
    assert(s.subrange(0, 40) =~= legacy_bytes(h));
    assert(legacy_bytes(h).subrange(0, 4) =~= bytes32(unsigned32(h.sizeof_hdr as int)));
    lemma_le32_inverse(Seq::empty(), 0, unsigned32(h.sizeof_hdr as int));
    assert(le32(s, 0) == le32(legacy_bytes(h).subrange(0, 4), 0));
    assert(s.subrange(40, 76) =~= shape_bytes(h));
    assert(shape_bytes(h).subrange(0, 16) =~= seq16(h.dim@));
    lemma_seq16_words(h.dim@);
    assert(words16(s, 40, 8) =~= words16(seq16(h.dim@), 0, 8));
}

proof fn lemma_file_parts(head: Seq<u8>, cells: Seq<u32>)
    requires
        head.len() == 348,
    ensures
        (head + bytes32(0) + seq32(cells)).len() == 352 + 4 * cells.len(),
        (head + bytes32(0) + seq32(cells)).subrange(0, 348) == head,
        words32(head + bytes32(0) + seq32(cells), 352, cells.len()) == cells,
{
    let s = head + bytes32(0) + seq32(cells);
    let n = cells.len();
    lemma_seq32_words(cells);
    assert(s.subrange(0, 348) =~= head);
    assert forall|i: int| 0 <= i < n implies words32(s, 352, n)[i] == cells[i] by {
        assert(s[352 + 4 * i] == seq32(cells)[4 * i]);
        assert(s[352 + 4 * i + 1] == seq32(cells)[4 * i + 1]);
        assert(s[352 + 4 * i + 2] == seq32(cells)[4 * i + 2]);
        assert(s[352 + 4 * i + 3] == seq32(cells)[4 * i + 3]);
        assert(le32(s, 352 + 4 * i) == le32(seq32(cells), 4 * i));
        assert(words32(seq32(cells), 0, n)[i] == cells[i]);
    }
    assert(words32(s, 352, n) =~= cells);
}

proof fn lemma_prefix_fields(s: Seq<u8>, head: Seq<u8>)
    requires
        head.len() == 348,
        s.len() >= 348,
        s.subrange(0, 348) == head,
    ensures
        le32(s, 0) == le32(head, 0),
        s.subrange(344, 348) == head.subrange(344, 348),
        le16(s, 42) == words16(head, 40, 8)[1],
        le16(s, 44) == words16(head, 40, 8)[2],
        le16(s, 46) == words16(head, 40, 8)[3],
        le16(s, 48) == words16(head, 40, 8)[4],
{
    assert forall|i: int| 0 <= i < 348 implies s[i] == head[i] by {
        assert(s.subrange(0, 348)[i] == s[i]);
    }
    assert(s.subrange(344, 348) =~= head.subrange(344, 348));
}

/// Decoding an encoded volume gives back the header and the grid: the
/// bytes written for a valid header and a grid of its extents are
/// accepted, and they hold no other header or grid.
pub proof fn lemma_read_inverts_write(h: NIfTI1Header, g: GridView)
    requires
        h.valid(),
        g.wf(),
        g.fits(h),
    ensures
        read_failure(file_bytes(h, g)) is None,
        decodes(file_bytes(h, g), h, g),
        forall|h2: NIfTI1Header, g2: GridView|
            decodes(file_bytes(h, g), h2, g2) ==> h2 == h && g2 == g,
{
    let s = file_bytes(h, g);
    let head = header_bytes(h);
    let n = g.count();
    lemma_header_layout(h);
    lemma_file_parts(head, g.cells);
    lemma_prefix_fields(s, head);
    assert(announced(s) == n);
    assert(read_failure(s) is None);
    assert(decodes(s, h, g));
    assert forall|h2: NIfTI1Header, g2: GridView| decodes(s, h2, g2) implies h2 == h && g2
        == g by {
        lemma_header_bytes_injective(h2, h);
        assert(g2.count() == n);
        assert(g2.cells =~= g.cells);
    }
}

} // verus!
