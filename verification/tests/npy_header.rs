use polyvoice::clusterer::PldaError;
use polyvoice::npy::{
    matrix_dims, npy_dtype, npy_layout, parse_npy_header, parse_npy_header_text, NpyDtype,
};

/// An NPY file of `version` with header text `text` and `data` after it.
fn npy(version: u8, text: &str, data: &[u8]) -> Vec<u8> {
    let mut b = vec![0x93, b'N', b'U', b'M', b'P', b'Y', version, 0];
    let n = text.len();
    if version >= 2 {
        b.extend_from_slice(&(n as u32).to_le_bytes());
    } else {
        b.extend_from_slice(&(n as u16).to_le_bytes());
    }
    b.extend_from_slice(text.as_bytes());
    b.extend_from_slice(data);
    b
}

fn io_detail(r: Result<impl std::fmt::Debug, PldaError>) -> String {
    match r {
        Err(PldaError::Io { path, detail }) => {
            assert_eq!(path, "p.npy");
            detail
        }
        other => panic!("expected an io error, got {other:?}"),
    }
}

#[test]
fn npy_header_reads_descr_shape_and_offset() {
    let text = "{'descr': '<f4', 'fortran_order': False, 'shape': (3, 4), }      \n";
    let bytes = npy(1, text, &[0u8; 48]);
    let h = parse_npy_header(&bytes, "p.npy").unwrap();
    assert_eq!(h.descr, "<f4");
    assert_eq!(h.shape, vec![3, 4]);
    assert_eq!(h.data_offset, 10 + text.len());
    let l = npy_layout(&bytes, "p.npy").unwrap();
    assert_eq!(l.dtype, NpyDtype::F4);
    assert_eq!(l.count, 12);
}

#[test]
fn npy_version_two_uses_a_four_byte_length() {
    let text = "{\"descr\": \"<f8\", \"fortran_order\": False, \"shape\": (5,), }\n";
    let bytes = npy(2, text, &[0u8; 44]);
    let h = parse_npy_header(&bytes, "p.npy").unwrap();
    assert_eq!(h.descr, "<f8");
    assert_eq!(h.shape, vec![5]);
    assert_eq!(h.data_offset, 12 + text.len());
    // 44 bytes hold five whole 8-byte elements.
    assert_eq!(npy_layout(&bytes, "p.npy").unwrap().count, 5);
}

#[test]
fn npy_scalar_shape_is_empty_and_junk_pieces_are_skipped() {
    let h = parse_npy_header_text("{'descr': '<i8', 'fortran_order': False, 'shape': (), }", 7, "p.npy").unwrap();
    assert!(h.shape.is_empty());
    assert_eq!(h.data_offset, 7);
    let h = parse_npy_header_text("{'descr':'<f4','shape':( 2 , x, +3,-1,,99999999999999999999999)}", 0, "p.npy").unwrap();
    assert_eq!(h.shape, vec![2, 3]);
}

#[test]
fn npy_refusals_name_their_cause() {
    assert_eq!(io_detail(parse_npy_header(&b"\x93NUMPX\x01\x00\x00\x00".to_vec(), "p.npy")), "not an NPY file");
    assert_eq!(io_detail(parse_npy_header(&b"\x93NUMPY\x01\x00".to_vec(), "p.npy")), "not an NPY file");
    let mut cut = npy(1, "{'descr': '<f4', 'shape': (1,), }", &[]);
    cut.truncate(cut.len() - 1);
    assert_eq!(io_detail(parse_npy_header(&cut, "p.npy")), "truncated NPY header");
    let bad = npy(1, "{'descr': '<f4', 'shape': (1,), }", &[]);
    let mut bad = bad;
    bad[12] = 0xff;
    assert_eq!(io_detail(parse_npy_header(&bad, "p.npy")), "non-utf8 NPY header");
    assert_eq!(io_detail(parse_npy_header(&npy(1, "{'shape': (1,), }", &[]), "p.npy")), "no descr in NPY header");
    assert_eq!(
        io_detail(parse_npy_header(&npy(1, "{'descr': '<f4', 'fortran_order': True, 'shape': (1,), }", &[]), "p.npy")),
        "fortran-order NPY unsupported"
    );
    assert_eq!(io_detail(parse_npy_header(&npy(1, "{'descr': '<f4', }", &[]), "p.npy")), "no shape in NPY header");
}

#[test]
fn npy_element_types() {
    assert_eq!(npy_dtype("<f4", "p.npy").unwrap(), NpyDtype::F4);
    assert_eq!(npy_dtype("<f8", "p.npy").unwrap().width(), 8);
    assert_eq!(npy_dtype("<i8", "p.npy").unwrap(), NpyDtype::I8);
    assert_eq!(io_detail(npy_dtype(">f4", "p.npy")), "unsupported NPY dtype >f4 (expected <f4, <f8 or <i8)");
    let bytes = npy(1, "{'descr': '|u1', 'fortran_order': False, 'shape': (3,), }", &[1, 2, 3]);
    assert_eq!(io_detail(npy_layout(&bytes, "p.npy")), "unsupported NPY dtype |u1 (expected <f4, <f8 or <i8)");
}

#[test]
fn matrices_need_two_dimensions() {
    assert_eq!(matrix_dims(&vec![3, 4]).unwrap(), (3, 4));
    match matrix_dims(&vec![5]) {
        Err(PldaError::Shape { name, expected, actual }) => {
            assert_eq!(name, "matrix");
            assert_eq!(expected, "2-D");
            assert_eq!(actual, "[5]");
        }
        other => panic!("{other:?}"),
    }
    match matrix_dims(&vec![1, 2, 3]).unwrap_err() {
        PldaError::Shape { actual, .. } => assert_eq!(actual, "[1, 2, 3]"),
        other => panic!("{other:?}"),
    }
    match matrix_dims(&vec![]).unwrap_err() {
        PldaError::Shape { actual, .. } => assert_eq!(actual, "[]"),
        other => panic!("{other:?}"),
    }
}
