use tract_parcel::error::FormatError;
use tract_parcel::nifti::{get_header, put_header, read, NIfTI1Data, NIfTI1Header, New};

fn blank_header(nx: u16, ny: u16, nz: u16, nt: u16) -> NIfTI1Header {
    NIfTI1Header {
        sizeof_hdr: 348,
        data_type: [0; 10],
        db_name: [0; 18],
        extents: 0,
        session_error: 0,
        regular: 0,
        dim_info: 0,
        dim: [4, nx, ny, nz, nt, 1, 1, 1],
        intent_p1: 0,
        intent_p2: 0,
        intent_p3: 0,
        intent_code: 0,
        datatype: 16,
        bitpix: 32,
        slice_start: 0,
        pixdim: [1.0f32.to_bits(); 8],
        vox_offset: 352.0f32.to_bits(),
        scl_slope: 0,
        scl_inter: 0,
        slice_end: 0,
        slice_code: 0,
        xyzt_units: 0,
        cal_max: 0,
        cal_min: 0,
        slice_duration: 0,
        toffset: 0,
        glmax: 0,
        glmin: 0,
        descrip: [0; 80],
        aux_file: [0; 24],
        qform_code: 0,
        sform_code: 0,
        quatern_b: 0,
        quatern_c: 0,
        quatern_d: 0,
        qoffset_x: 0,
        qoffset_y: 0,
        qoffset_z: 0,
        srow_x: [0; 4],
        srow_y: [0; 4],
        srow_z: [0; 4],
        intent_name: [0; 16],
        magic: [b'n', b'+', b'1', 0],
    }
}

fn counting_grid(nx: u16, ny: u16, nz: u16, nt: u16) -> NIfTI1Data {
    let n = nx as usize * ny as usize * nz as usize * nt as usize;
    let cells: Vec<u32> = (0..n).map(|i| (i as f32 * 1.5).to_bits()).collect();
    NIfTI1Data::from_cells(nx, ny, nz, nt, cells).unwrap()
}

fn file_of(header: &NIfTI1Header, floats: &[f32]) -> Vec<u8> {
    let mut bytes = Vec::new();
    put_header(&mut bytes, header);
    for f in floats {
        bytes.extend_from_slice(&f.to_le_bytes());
    }
    bytes
}

#[test]
fn decoding_an_encoded_volume_gives_back_header_and_grid() {
    let mut header = blank_header(2, 3, 4, 2);
    header.extents = -16384;
    header.session_error = -2;
    header.intent_code = -32768;
    header.glmin = i32::MIN;
    header.glmax = i32::MAX;
    header.dim_info = 0x39;
    header.descrip[0] = b'x';
    header.descrip[79] = 0xFF;
    header.pixdim = [
        (-1.0f32).to_bits(),
        0.9375f32.to_bits(),
        0.9375f32.to_bits(),
        1.5f32.to_bits(),
        2.0f32.to_bits(),
        0,
        0,
        f32::NAN.to_bits(),
    ];
    header.srow_x = [1.0f32.to_bits(), 0, 0, (-90.0f32).to_bits()];
    header.srow_y = [0, 1.0f32.to_bits(), 0, (-126.0f32).to_bits()];
    header.srow_z = [0, 0, 1.0f32.to_bits(), (-72.0f32).to_bits()];
    header.intent_name[15] = 7;
    let grid = counting_grid(2, 3, 4, 2);
    let bytes = tract_parcel::nifti::write(header, counting_grid(2, 3, 4, 2));
    let (h, g) = read(&bytes).unwrap();
    assert_eq!(h, header);
    assert_eq!(g, grid);
}

#[test]
fn an_encoded_volume_is_header_padding_and_elements() {
    let header = blank_header(3, 2, 1, 1);
    let bytes = tract_parcel::nifti::write(header, counting_grid(3, 2, 1, 1));
    assert_eq!(bytes.len(), 348 + 4 + 6 * 4);
    assert_eq!(&bytes[0..4], &[0x5C, 0x01, 0x00, 0x00]);
    assert_eq!(&bytes[40..50], &[4, 0, 3, 0, 2, 0, 1, 0, 1, 0]);
    assert_eq!(&bytes[76..80], &1.0f32.to_le_bytes());
    assert_eq!(&bytes[108..112], &352.0f32.to_le_bytes());
    assert_eq!(&bytes[344..348], b"n+1\0");
    assert_eq!(&bytes[348..352], &[0, 0, 0, 0]);
    assert_eq!(&bytes[352..356], &0.0f32.to_le_bytes());
    assert_eq!(&bytes[356..360], &1.5f32.to_le_bytes());
    assert_eq!(&bytes[372..376], &7.5f32.to_le_bytes());
}

#[test]
fn elements_are_stored_with_t_outermost_and_x_fastest() {
    let (nx, ny, nz, nt) = (2usize, 3usize, 4usize, 2usize);
    let header = blank_header(2, 3, 4, 2);
    let mut floats = vec![99.0f32];
    for i in 0..(nx * ny * nz * nt) {
        floats.push(i as f32);
    }
    let (_, grid) = read(&file_of(&header, &floats)).unwrap();
    assert_eq!(grid.extents(), (2, 3, 4, 2));
    for t in 0..nt {
        for z in 0..nz {
            for y in 0..ny {
                for x in 0..nx {
                    let place = ((t * nz + z) * ny + y) * nx + x;
                    assert_eq!(grid.get(t, z, y, x), (place as f32).to_bits());
                }
            }
        }
    }
    assert_eq!(grid.get(1, 3, 2, 1), 47.0f32.to_bits());
    assert_eq!(grid.get(0, 0, 1, 0), 2.0f32.to_bits());
}

#[test]
fn the_first_element_of_the_data_is_padding() {
    let header = blank_header(2, 1, 1, 1);
    let (_, grid) = read(&file_of(&header, &[123.0, 4.0, 5.0])).unwrap();
    assert_eq!(grid.cells(), &vec![4.0f32.to_bits(), 5.0f32.to_bits()]);
}

#[test]
fn elements_beyond_the_grid_are_ignored() {
    let header = blank_header(2, 1, 1, 1);
    let (_, grid) = read(&file_of(&header, &[0.0, 4.0, 5.0, 6.0, 7.0])).unwrap();
    assert_eq!(grid.cells(), &vec![4.0f32.to_bits(), 5.0f32.to_bits()]);
}

#[test]
fn a_volume_without_voxels_needs_no_data() {
    let header = blank_header(2, 0, 3, 1);
    let (h, grid) = read(&file_of(&header, &[])).unwrap();
    assert_eq!(h, header);
    assert_eq!(grid.extents(), (2, 0, 3, 1));
    assert!(grid.cells().is_empty());
    let bytes = tract_parcel::nifti::write(h, grid);
    assert_eq!(bytes.len(), 352);
    assert!(read(&bytes).is_ok());
}

#[test]
fn a_file_shorter_than_a_header_is_rejected() {
    let header = blank_header(1, 1, 1, 1);
    let bytes = file_of(&header, &[]);
    assert_eq!(
        read(&bytes[..347]).unwrap_err(),
        FormatError::ShortHeader { needed: 348, found: 347 }
    );
    assert_eq!(read(&[]).unwrap_err(), FormatError::ShortHeader { needed: 348, found: 0 });
}

#[test]
fn a_wrong_size_field_is_rejected_as_such() {
    let mut header = blank_header(1, 1, 1, 1);
    header.sizeof_hdr = 347;
    let bytes = file_of(&header, &[0.0, 1.0]);
    assert_eq!(
        read(&bytes).unwrap_err(),
        FormatError::HeaderSize { expected: 348, declared: 347 }
    );
    header.sizeof_hdr = -1;
    header.magic = [0; 4];
    let mut bytes = file_of(&header, &[0.0]);
    bytes.push(0);
    assert_eq!(
        read(&bytes).unwrap_err(),
        FormatError::HeaderSize { expected: 348, declared: 0xFFFF_FFFF }
    );
    header.sizeof_hdr = 0x5C01_0000;
    assert_eq!(
        read(&file_of(&header, &[])).unwrap_err(),
        FormatError::HeaderSize { expected: 348, declared: 0x5C01_0000 }
    );
}

#[test]
fn a_wrong_magic_string_is_rejected() {
    let mut header = blank_header(1, 1, 1, 1);
    header.magic = [b'n', b'i', b'1', 0];
    assert_eq!(read(&file_of(&header, &[0.0, 1.0])).unwrap_err(), FormatError::BadMagic);
    header.magic = [b'n', b'+', b'1', b' '];
    assert_eq!(read(&file_of(&header, &[0.0, 1.0])).unwrap_err(), FormatError::BadMagic);
}

#[test]
fn data_that_is_no_whole_number_of_elements_is_rejected() {
    let header = blank_header(1, 1, 1, 1);
    let mut bytes = file_of(&header, &[0.0, 1.0]);
    bytes.push(0);
    assert_eq!(read(&bytes).unwrap_err(), FormatError::Unaligned { trailing: 9 });
    bytes.truncate(348 + 3);
    assert_eq!(read(&bytes).unwrap_err(), FormatError::Unaligned { trailing: 3 });
}

#[test]
fn data_that_ends_before_the_last_voxel_is_rejected() {
    let header = blank_header(2, 2, 1, 1);
    assert_eq!(
        read(&file_of(&header, &[0.0, 1.0, 2.0, 3.0])).unwrap_err(),
        FormatError::Truncated { at: 348 }
    );
    assert_eq!(read(&file_of(&header, &[])).unwrap_err(), FormatError::Truncated { at: 348 });
    assert!(read(&file_of(&header, &[0.0, 1.0, 2.0, 3.0, 4.0])).is_ok());
}

#[test]
fn header_fields_are_read_from_their_offsets() {
    let mut bytes: Vec<u8> = (0..348).map(|i| (i % 251) as u8).collect();
    bytes[0..4].copy_from_slice(&348i32.to_le_bytes());
    bytes[344..348].copy_from_slice(b"n+1\0");
    let h = get_header(&bytes);
    assert_eq!(h.sizeof_hdr, 348);
    assert_eq!(h.data_type, [4, 5, 6, 7, 8, 9, 10, 11, 12, 13]);
    assert_eq!(h.db_name[0], 14);
    assert_eq!(h.db_name[17], 31);
    assert_eq!(h.extents, i32::from_le_bytes([32, 33, 34, 35]));
    assert_eq!(h.session_error, i16::from_le_bytes([36, 37]));
    assert_eq!(h.regular, 38);
    assert_eq!(h.dim_info, 39);
    assert_eq!(h.dim[0], u16::from_le_bytes([40, 41]));
    assert_eq!(h.dim[7], u16::from_le_bytes([54, 55]));
    assert_eq!(h.intent_p1, u32::from_le_bytes([56, 57, 58, 59]));
    assert_eq!(h.intent_p3, u32::from_le_bytes([64, 65, 66, 67]));
    assert_eq!(h.intent_code, i16::from_le_bytes([68, 69]));
    assert_eq!(h.datatype, i16::from_le_bytes([70, 71]));
    assert_eq!(h.bitpix, i16::from_le_bytes([72, 73]));
    assert_eq!(h.slice_start, i16::from_le_bytes([74, 75]));
    assert_eq!(h.pixdim[0], u32::from_le_bytes([76, 77, 78, 79]));
    assert_eq!(h.pixdim[7], u32::from_le_bytes([104, 105, 106, 107]));
    assert_eq!(h.vox_offset, u32::from_le_bytes([108, 109, 110, 111]));
    assert_eq!(h.scl_inter, u32::from_le_bytes([116, 117, 118, 119]));
    assert_eq!(h.slice_end, i16::from_le_bytes([120, 121]));
    assert_eq!(h.slice_code, 122);
    assert_eq!(h.xyzt_units, 123);
    assert_eq!(h.cal_max, u32::from_le_bytes([124, 125, 126, 127]));
    assert_eq!(h.toffset, u32::from_le_bytes([136, 137, 138, 139]));
    assert_eq!(h.glmax, i32::from_le_bytes([140, 141, 142, 143]));
    assert_eq!(h.glmin, i32::from_le_bytes([144, 145, 146, 147]));
    assert_eq!(h.descrip[0], 148);
    assert_eq!(h.descrip[79], 227);
    assert_eq!(h.aux_file[0], 228);
    assert_eq!(h.aux_file[23], 251 % 251);
    assert_eq!(h.qform_code, i16::from_le_bytes([1, 2]));
    assert_eq!(h.sform_code, i16::from_le_bytes([3, 4]));
    assert_eq!(h.quatern_b, u32::from_le_bytes([5, 6, 7, 8]));
    assert_eq!(h.qoffset_z, u32::from_le_bytes([25, 26, 27, 28]));
    assert_eq!(h.srow_x[0], u32::from_le_bytes([29, 30, 31, 32]));
    assert_eq!(h.srow_y[0], u32::from_le_bytes([45, 46, 47, 48]));
    assert_eq!(h.srow_z[3], u32::from_le_bytes([73, 74, 75, 76]));
    assert_eq!(h.intent_name[0], 77);
    assert_eq!(h.intent_name[15], 92);
    assert_eq!(h.magic, [b'n', b'+', b'1', 0]);
    let mut back = Vec::new();
    put_header(&mut back, &h);
    assert_eq!(back, bytes);
}

#[test]
fn negative_fields_are_stored_in_twos_complement() {
    let mut header = blank_header(1, 1, 1, 1);
    header.extents = -2;
    header.session_error = -32768;
    let mut bytes = Vec::new();
    put_header(&mut bytes, &header);
    assert_eq!(&bytes[32..36], &[0xFE, 0xFF, 0xFF, 0xFF]);
    assert_eq!(&bytes[36..38], &[0x00, 0x80]);
    assert_eq!(get_header(&bytes), header);
}

#[test]
fn a_new_grid_has_the_headers_extents_and_holds_zeros() {
    let header = blank_header(3, 4, 5, 2);
    let grid = NIfTI1Data::init(&header);
    assert_eq!(grid.extents(), (3, 4, 5, 2));
    assert_eq!(grid.cells().len(), 120);
    assert!(grid.cells().iter().all(|&c| c == 0));
}

#[test]
fn a_grid_holds_as_many_elements_as_its_extents_call_for() {
    assert!(NIfTI1Data::from_cells(2, 2, 2, 1, vec![0; 8]).is_some());
    assert!(NIfTI1Data::from_cells(2, 2, 2, 1, vec![0; 7]).is_none());
    assert!(NIfTI1Data::from_cells(2, 2, 2, 1, vec![0; 9]).is_none());
    assert!(NIfTI1Data::from_cells(2, 2, 0, 1, vec![]).is_some());
    assert!(NIfTI1Data::from_cells(65535, 65535, 65535, 65535, vec![0; 4]).is_none());
}

#[test]
fn indices_outside_the_extents_are_outside_the_grid() {
    let grid = counting_grid(2, 3, 4, 1);
    assert!(grid.contains(0, 3, 2, 1));
    assert!(!grid.contains(1, 0, 0, 0));
    assert!(!grid.contains(0, 4, 0, 0));
    assert!(!grid.contains(0, 0, 3, 0));
    assert!(!grid.contains(0, 0, 0, 2));
}

#[test]
fn setting_an_element_changes_that_element_only() {
    let mut grid = counting_grid(2, 3, 4, 1);
    let before = grid.cells().clone();
    grid.set(0, 2, 1, 1, 0xDEAD_BEEF);
    let place = (2 * 3 + 1) * 2 + 1;
    assert_eq!(grid.get(0, 2, 1, 1), 0xDEAD_BEEF);
    for (i, &c) in grid.cells().iter().enumerate() {
        if i != place {
            assert_eq!(c, before[i]);
        }
    }
}
