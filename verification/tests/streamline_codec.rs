use tract_parcel::error::FormatError;
use tract_parcel::nifti::NIfTI1Header;
use tract_parcel::trackvis::{get_header, put_header, read, Fiber, Position};

fn volume_header(dim: [u16; 3], spacing: [f32; 3]) -> NIfTI1Header {
    NIfTI1Header {
        sizeof_hdr: 348,
        data_type: [0; 10],
        db_name: [0; 18],
        extents: 0,
        session_error: 0,
        regular: 0,
        dim_info: 0,
        dim: [3, dim[0], dim[1], dim[2], 1, 1, 1, 1],
        intent_p1: 0,
        intent_p2: 0,
        intent_p3: 0,
        intent_code: 0,
        datatype: 16,
        bitpix: 32,
        slice_start: 0,
        pixdim: [
            1.0f32.to_bits(),
            spacing[0].to_bits(),
            spacing[1].to_bits(),
            spacing[2].to_bits(),
            0,
            0,
            0,
            0,
        ],
        vox_offset: 352.0f32.to_bits(),
        scl_slope: 0,
        scl_inter: 0,
        slice_end: 0,
        slice_code: 0,
        xyzt_units: 0,
        cal_max: 0,
        cal_min: 0,
        slice_duration: 0,
        toffset: 0,
        glmax: 0,
        glmin: 0,
        descrip: [0; 80],
        aux_file: [0; 24],
        qform_code: 0,
        sform_code: 1,
        quatern_b: 0,
        quatern_c: 0,
        quatern_d: 0,
        qoffset_x: 0,
        qoffset_y: 0,
        qoffset_z: 0,
        srow_x: [1.0f32.to_bits(), 2.0f32.to_bits(), 3.0f32.to_bits(), 4.0f32.to_bits()],
        srow_y: [5.0f32.to_bits(), 6.0f32.to_bits(), 7.0f32.to_bits(), 8.0f32.to_bits()],
        srow_z: [9.0f32.to_bits(), 10.0f32.to_bits(), 11.0f32.to_bits(), 12.0f32.to_bits()],
        intent_name: [0; 16],
        magic: [b'n', b'+', b'1', 0],
    }
}

fn header_bytes(spacing: [f32; 3]) -> Vec<u8> {
    let mut bytes = vec![0u8; 1000];
    bytes[0..6].copy_from_slice(b"TRACK\0");
    for k in 0..3 {
        bytes[12 + 4 * k..16 + 4 * k].copy_from_slice(&spacing[k].to_le_bytes());
    }
    bytes[992..996].copy_from_slice(&2u32.to_le_bytes());
    bytes[996..1000].copy_from_slice(&1000u32.to_le_bytes());
    bytes
}

fn record(points: &[[f32; 3]]) -> Vec<u8> {
    let mut bytes = (points.len() as u32).to_le_bytes().to_vec();
    for p in points {
        for c in p {
            bytes.extend_from_slice(&c.to_le_bytes());
        }
    }
    bytes
}

fn at(x: i32, y: i32, z: i32) -> Position {
    Position { x, y, z }
}

#[test]
fn points_become_voxels_by_division_and_truncation() {
    let mut bytes = header_bytes([2.0, 0.5, 1.0]);
    bytes.extend(record(&[[5.9, 1.3, 7.8], [4.0, 0.49, 0.999], [0.0, 1.0, 255.5]]));
    let (h, fibers) = read(&bytes).unwrap();
    assert_eq!(h.voxel_size, [2.0f32.to_bits(), 0.5f32.to_bits(), 1.0f32.to_bits()]);
    assert_eq!(fibers, vec![vec![at(2, 2, 7), at(2, 0, 0), at(0, 2, 255)]]);
}

#[test]
fn truncation_is_toward_zero() {
    let mut bytes = header_bytes([2.0, 0.5, 1.0]);
    bytes.extend(record(&[[-5.9, -1.3, -7.8], [-1.9, -0.49, -0.999], [3.9, 0.99, 1.999]]));
    let (_, fibers) = read(&bytes).unwrap();
    assert_eq!(fibers, vec![vec![at(-2, -2, -7), at(0, 0, 0), at(1, 1, 1)]]);
}

#[test]
fn coordinates_without_a_voxel_become_zero_or_a_bound() {
    let mut bytes = header_bytes([1.0, 0.0, 1.0]);
    bytes.extend(record(&[[f32::NAN, 0.0, f32::INFINITY], [3.0e10, 1.0, -3.0e10], [
        1.0,
        -1.0,
        f32::NEG_INFINITY,
    ]]));
    let (_, fibers) = read(&bytes).unwrap();
    assert_eq!(
        fibers,
        vec![vec![
            at(0, 0, i32::MAX),
            at(i32::MAX, i32::MAX, i32::MIN),
            at(1, i32::MIN, i32::MIN)
        ]]
    );
}

#[test]
fn a_quotient_is_rounded_before_it_is_truncated() {
    let spacing = 0.1f32;
    let coordinate = 0.3f32;
    let mut bytes = header_bytes([spacing, spacing, spacing]);
    bytes.extend(record(&[[coordinate, 0.7, 2.3]]));
    let (_, fibers) = read(&bytes).unwrap();
    let expect = |c: f32| (c / spacing).trunc() as i32;
    assert_eq!(fibers, vec![vec![at(expect(0.3), expect(0.7), expect(2.3))]]);
    assert_eq!(fibers[0][0].x, 3);
    assert_eq!(fibers[0][0].y, 7);
    assert_eq!(fibers[0][0].z, 23);
}

#[test]
fn conversion_to_voxels_matches_the_machine() {
    let mut state: u64 = 11;
    let mut next = move || {
        state = state.wrapping_mul(6364136223846793005).wrapping_add(1442695040888963407);
        (state >> 32) as u32
    };
    for _ in 0..200 {
        let spacing = [
            f32::from_bits(0x3E00_0000 + next() % 0x0300_0000),
            f32::from_bits(0x3E00_0000 + next() % 0x0300_0000),
            f32::from_bits(0x3E00_0000 + next() % 0x0300_0000),
        ];
        let mut points = Vec::new();
        for _ in 0..50 {
            let c = |bits: u32| f32::from_bits((bits & 0x8000_0000) | (0x3C00_0000
                + bits % 0x0A00_0000));
            points.push([c(next()), c(next()), c(next())]);
        }
        let mut bytes = header_bytes(spacing);
        bytes.extend(record(&points));
        let (_, fibers) = read(&bytes).unwrap();
        for (p, v) in points.iter().zip(fibers[0].iter()) {
            assert_eq!(v.x, (p[0] / spacing[0]).trunc() as i32);
            assert_eq!(v.y, (p[1] / spacing[1]).trunc() as i32);
            assert_eq!(v.z, (p[2] / spacing[2]).trunc() as i32);
        }
    }
}

#[test]
fn streamlines_and_points_keep_their_order() {
    let mut bytes = header_bytes([1.0, 1.0, 1.0]);
    bytes.extend(record(&[[3.0, 0.0, 0.0], [1.0, 0.0, 0.0], [2.0, 0.0, 0.0]]));
    bytes.extend(record(&[]));
    bytes.extend(record(&[[9.0, 8.0, 7.0]]));
    bytes.extend(record(&[[1.0, 0.0, 0.0], [1.0, 0.0, 0.0]]));
    let (_, fibers) = read(&bytes).unwrap();
    assert_eq!(
        fibers,
        vec![
            vec![at(3, 0, 0), at(1, 0, 0), at(2, 0, 0)],
            vec![],
            vec![at(9, 8, 7)],
            vec![at(1, 0, 0), at(1, 0, 0)],
        ]
    );
}

#[test]
fn a_header_alone_holds_no_streamlines() {
    let (h, fibers) = read(&header_bytes([1.0, 1.0, 1.0])).unwrap();
    assert!(fibers.is_empty());
    assert_eq!(h.hdr_size, 1000);
    assert_eq!(h.version, 2);
    assert_eq!(&h.id_string, b"TRACK\0");
}

#[test]
fn a_file_that_ends_within_a_record_is_rejected() {
    let head = header_bytes([1.0, 1.0, 1.0]);
    let first = record(&[[1.0, 2.0, 3.0]]);
    let second = record(&[[4.0, 5.0, 6.0], [7.0, 8.0, 9.0]]);
    let mut whole = head.clone();
    whole.extend(&first);
    whole.extend(&second);
    assert!(read(&whole).is_ok());
    for cut in 1..second.len() {
        let bytes = &whole[..1000 + first.len() + cut];
        assert_eq!(read(bytes).unwrap_err(), FormatError::Truncated { at: 1016 }, "cut {}", cut);
    }
    for cut in 1..first.len() {
        let bytes = &whole[..1000 + cut];
        assert_eq!(read(bytes).unwrap_err(), FormatError::Truncated { at: 1000 }, "cut {}", cut);
    }
    let mut huge = head.clone();
    huge.extend_from_slice(&u32::MAX.to_le_bytes());
    huge.extend_from_slice(&[0; 24]);
    assert_eq!(read(&huge).unwrap_err(), FormatError::Truncated { at: 1000 });
}

#[test]
fn a_short_streamline_header_is_rejected() {
    let head = header_bytes([1.0, 1.0, 1.0]);
    assert_eq!(
        read(&head[..999]).unwrap_err(),
        FormatError::ShortHeader { needed: 1000, found: 999 }
    );
}

#[test]
fn a_wrong_streamline_header_size_is_rejected_as_such() {
    let mut head = header_bytes([1.0, 1.0, 1.0]);
    head[996..1000].copy_from_slice(&1001u32.to_le_bytes());
    assert_eq!(
        read(&head).unwrap_err(),
        FormatError::HeaderSize { expected: 1000, declared: 1001 }
    );
    head[0] = b'X';
    head.extend_from_slice(&[1, 2, 3]);
    assert_eq!(
        read(&head).unwrap_err(),
        FormatError::HeaderSize { expected: 1000, declared: 1001 }
    );
    head[996..1000].copy_from_slice(&0xE803_0000u32.to_le_bytes());
    assert_eq!(
        read(&head).unwrap_err(),
        FormatError::HeaderSize { expected: 1000, declared: 0xE803_0000 }
    );
}

#[test]
fn a_wrong_tag_is_rejected() {
    let mut head = header_bytes([1.0, 1.0, 1.0]);
    head[4] = b'S';
    assert_eq!(read(&head).unwrap_err(), FormatError::BadMagic);
    let mut head = header_bytes([1.0, 1.0, 1.0]);
    head[5] = b'2';
    assert!(read(&head).is_ok());
}

#[test]
fn the_written_header_describes_the_volume() {
    let volume = volume_header([181, 217, 150], [0.9375, 1.5, 2.0]);
    let fibers: Vec<Fiber> = vec![vec![], vec![at(1, 2, 3)], vec![]];
    let (h, bytes) = tract_parcel::trackvis::write(&volume, &fibers);
    assert_eq!(&h.id_string, b"TRACK\0");
    assert_eq!(h.dim, [181, 217, 150]);
    assert_eq!(h.voxel_size, [0.9375f32.to_bits(), 1.5f32.to_bits(), 2.0f32.to_bits()]);
    assert_eq!(h.origin, [0, 0, 0]);
    assert_eq!(h.n_scalars, 0);
    assert_eq!(h.scalar_name, [[0u8; 10]; 20]);
    assert_eq!(h.n_properties, 0);
    assert_eq!(h.property_name, [[0u8; 10]; 20]);
    assert_eq!(h.vox_to_ras[0], volume.srow_x);
    assert_eq!(h.vox_to_ras[1], volume.srow_y);
    assert_eq!(h.vox_to_ras[2], volume.srow_z);
    assert_eq!(h.vox_to_ras[3], [0, 0, 0, 1.0f32.to_bits()]);
    assert_eq!(h.reserved, [0u8; 444]);
    assert_eq!(&h.voxel_order, b"LAS\0");
    assert_eq!(&h.pad2, b"LAS\0");
    assert_eq!(
        h.image_orientation_patient,
        [1.0f32.to_bits(), 0, 0, 0, (-1.0f32).to_bits(), 0]
    );
    assert_eq!(h.pad1, [0, 0]);
    assert_eq!(
        (h.invert_x, h.invert_y, h.invert_z, h.swap_xy, h.swap_yz, h.swap_zx),
        (0, 0, 0, 0, 0, 0)
    );
    assert_eq!(h.n_count, 3);
    assert_eq!(h.version, 2);
    assert_eq!(h.hdr_size, 1000);
    let mut head = Vec::new();
    put_header(&mut head, &h);
    assert_eq!(head.len(), 1000);
    assert_eq!(&bytes[..1000], &head[..]);
    assert_eq!(get_header(&bytes), h);
}

#[test]
fn streamline_header_fields_lie_at_their_offsets() {
    let volume = volume_header([181, 217, 150], [0.9375, 1.5, 2.0]);
    let (_, bytes) = tract_parcel::trackvis::write(&volume, &vec![vec![], vec![]]);
    assert_eq!(&bytes[0..6], b"TRACK\0");
    assert_eq!(&bytes[6..12], &[181, 0, 217, 0, 150, 0]);
    assert_eq!(&bytes[12..16], &0.9375f32.to_le_bytes());
    assert_eq!(&bytes[20..24], &2.0f32.to_le_bytes());
    assert_eq!(&bytes[440..444], &1.0f32.to_le_bytes());
    assert_eq!(&bytes[456..460], &5.0f32.to_le_bytes());
    assert_eq!(&bytes[484..488], &12.0f32.to_le_bytes());
    assert_eq!(&bytes[488..504], &[0, 0, 0, 0, 0, 0, 0, 0, 0, 0, 0, 0, 0, 0, 0x80, 0x3F]);
    assert_eq!(&bytes[948..956], b"LAS\0LAS\0");
    assert_eq!(&bytes[956..960], &1.0f32.to_le_bytes());
    assert_eq!(&bytes[972..976], &(-1.0f32).to_le_bytes());
    assert_eq!(&bytes[988..992], &2u32.to_le_bytes());
    assert_eq!(&bytes[992..996], &2u32.to_le_bytes());
    assert_eq!(&bytes[996..1000], &1000u32.to_le_bytes());
}

#[test]
fn voxels_are_written_as_millimetres() {
    let volume = volume_header([10, 10, 10], [0.9375, 1.5, 0.1]);
    let fibers: Vec<Fiber> = vec![vec![at(3, -2, 7), at(0, 16777217, -1)], vec![at(1, 1, 1)]];
    let (_, bytes) = tract_parcel::trackvis::write(&volume, &fibers);
    let mut expect = Vec::new();
    expect.extend(record(&[
        [0.9375 * 3.0, 1.5 * -2.0, 0.1f32 * 7.0f32],
        [0.9375 * 0.0, 1.5f32 * (16777217i32 as f32), 0.1f32 * -1.0f32],
    ]));
    expect.extend(record(&[[0.9375, 1.5, 0.1]]));
    assert_eq!(&bytes[1000..], &expect[..]);
    assert_eq!(&bytes[1000..1004], &[2, 0, 0, 0]);
    assert_eq!(&bytes[1004..1008], &2.8125f32.to_le_bytes());
}

#[test]
fn the_second_round_trip_is_exact_where_the_first_is_not() {
    let volume = volume_header([64, 64, 64], [2.0, 0.5, 1.0]);
    let mut stored = header_bytes([2.0, 0.5, 1.0]);
    stored.extend(record(&[[5.9, 1.3, 7.8], [11.0, 3.26, 0.1]]));
    stored.extend(record(&[[63.99, 31.99, 0.0]]));
    let (_, first) = read(&stored).unwrap();
    assert_eq!(first, vec![vec![at(2, 2, 7), at(5, 6, 0)], vec![at(31, 63, 0)]]);
    let (_, written) = tract_parcel::trackvis::write(&volume, &first);
    assert_ne!(&written[1000..], &stored[1000..]);
    let (_, second) = read(&written).unwrap();
    assert_eq!(second, first);
    let (_, rewritten) = tract_parcel::trackvis::write(&volume, &second);
    assert_eq!(rewritten, written);
}

#[test]
fn written_streamlines_are_read_back_under_unit_spacing() {
    let volume = volume_header([256, 256, 256], [1.0, 1.0, 1.0]);
    let fibers: Vec<Fiber> = vec![
        vec![at(0, 1, 2), at(255, 254, 253), at(-3, 16777216, -16777216)],
        vec![],
        vec![at(7, 7, 7)],
    ];
    let (_, bytes) = tract_parcel::trackvis::write(&volume, &fibers);
    let (h, back) = read(&bytes).unwrap();
    assert_eq!(back, fibers);
    assert_eq!(h.n_count, 3);
}

#[test]
fn rewriting_can_move_a_voxel_where_the_spacing_is_no_power_of_two() {
    let spacing = 0.9f32;
    let volume = volume_header([64, 64, 64], [spacing, 0.3, 0.75]);
    let fibers: Vec<Fiber> = vec![vec![at(3, 15, 3)]];
    let (_, bytes) = tract_parcel::trackvis::write(&volume, &fibers);
    assert_eq!(&bytes[1004..1008], &(spacing * 3.0).to_le_bytes());
    assert_eq!(&bytes[1004..1008], &2.6999998f32.to_le_bytes());
    assert_eq!(&bytes[1008..1012], &4.5f32.to_le_bytes());
    let (_, back) = read(&bytes).unwrap();
    assert_eq!(back, vec![vec![at(2, 14, 3)]]);
    assert_eq!(((spacing * 3.0) / spacing).trunc() as i32, 2);
    assert_eq!(((0.3f32 * 15.0) / 0.3f32).trunc() as i32, 14);
}
