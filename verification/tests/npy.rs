use pocket_tts_deploy::npy::{
    check_header_fits, checked_product, count_elements, parse_npy, read_dtype, read_header, Dtype,
    NpyArray, NpyError,
};

fn npy(header: &[u8], data: &[u8]) -> Vec<u8> {
    let mut b = vec![0x93, b'N', b'U', b'M', b'P', b'Y', 1, 0];
    b.extend_from_slice(&(header.len() as u16).to_le_bytes());
    b.extend_from_slice(header);
    b.extend_from_slice(data);
    b
}

fn header(descr: &str, fortran: &str, shape: &str) -> Vec<u8> {
    format!("{{'descr': '{descr}', 'fortran_order': {fortran}, 'shape': {shape}, }}   \n").into_bytes()
}

fn bits(v: &[f32]) -> Vec<u32> {
    v.iter().map(|x| x.to_bits()).collect()
}

fn read(b: &[u8]) -> Result<NpyArray, NpyError> {
    assert!(check_header_fits(b));
    parse_npy(b)
}

fn message(b: &[u8]) -> String {
    match read(b) {
        Ok(_) => panic!("an array was read"),
        Err(e) => e.message(),
    }
}

#[test]
fn floats_are_read_with_their_shape() {
    let mut data = Vec::new();
    for x in [1.5f32, -2.0, 0.0, f32::NAN, 3.25, 1e-30] {
        data.extend_from_slice(&x.to_le_bytes());
    }
    match read(&npy(&header("<f4", "False", "(2, 3)"), &data)) {
        Ok(NpyArray::F32(v, s)) => {
            assert_eq!(v, bits(&[1.5, -2.0, 0.0, f32::NAN, 3.25, 1e-30]));
            assert_eq!(s, vec![2, 3]);
        }
        _ => panic!("no floats"),
    }
}

#[test]
fn halves_are_widened() {
    let data = [0x00, 0x3c, 0x00, 0xc0, 0x01, 0x00];
    match read(&npy(&header("|f2", "False", "(3,)"), &data)) {
        Ok(NpyArray::F32(v, s)) => {
            assert_eq!(v, bits(&[1.0, -2.0, 5.9604645e-8]));
            assert_eq!(s, vec![3]);
        }
        _ => panic!("no floats"),
    }
}

#[test]
fn integers_are_read_signed() {
    let mut data = Vec::new();
    for x in [5i64, -1, i64::MIN, i64::MAX] {
        data.extend_from_slice(&x.to_le_bytes());
    }
    match read(&npy(&header("=i8", "False", "(4,)"), &data)) {
        Ok(NpyArray::I64(v, s)) => {
            assert_eq!(v, vec![5, -1, i64::MIN, i64::MAX]);
            assert_eq!(s, vec![4]);
        }
        _ => panic!("no integers"),
    }
    let mut data = Vec::new();
    for x in [7i32, -7, i32::MIN] {
        data.extend_from_slice(&x.to_le_bytes());
    }
    match read(&npy(&header("<i4", "False", "(3,)"), &data)) {
        Ok(NpyArray::I64(v, _)) => assert_eq!(v, vec![7, -7, i32::MIN as i64]),
        _ => panic!("no integers"),
    }
}

#[test]
fn a_scalar_has_one_element() {
    match read(&npy(&header("<i8", "False", "()"), &126i64.to_le_bytes())) {
        Ok(NpyArray::I64(v, s)) => {
            assert_eq!(v, vec![126]);
            assert!(s.is_empty());
        }
        _ => panic!("no integers"),
    }
}

#[test]
fn a_shape_of_nothing_still_reads_an_element() {
    match read(&npy(&header("<i8", "False", "(0,)"), &9i64.to_le_bytes())) {
        Ok(NpyArray::I64(v, s)) => {
            assert_eq!(v, vec![9]);
            assert_eq!(s, vec![0]);
        }
        _ => panic!("no integers"),
    }
    assert_eq!(message(&npy(&header("<i8", "False", "(0,)"), &[])), "npy i64 truncated");
}

#[test]
fn data_behind_the_array_is_left_alone() {
    let data = [1, 0, 0, 0, 2, 0, 0, 0, 3];
    match read(&npy(&header("<i4", "False", "(2,)"), &data)) {
        Ok(NpyArray::I64(v, _)) => assert_eq!(v, vec![1, 2]),
        _ => panic!("no integers"),
    }
}

#[test]
fn every_error_has_its_input() {
    assert_eq!(message(&[0x93, b'N', b'U', b'M', b'P', b'Y', 1, 0, 0, 0]), "npy too short");
    assert_eq!(message(b"\x93NUMPX\x01\x00\x00\x00\x00"), "bad npy magic");
    assert_eq!(message(&npy(&[0xff, 0xfe], &[])), "npy header utf8");
    assert_eq!(message(&npy(b"{'shape': (1,)}", &[0; 8])), "npy descr");
    assert_eq!(message(&npy(b"{'descr': '<f4', }", &[0; 8])), "npy shape");
    assert_eq!(message(&npy(b"{'descr': '<f4', 'shape': (x,)}", &[0; 8])), "npy dim");
    assert_eq!(
        message(&npy(&header("<f4", "True", "(2, 2)"), &[0; 16])),
        "fortran-order npy not supported"
    );
    assert_eq!(message(&npy(&header("<f4", "False", "(2,)"), &[0; 7])), "npy f32 truncated");
    assert_eq!(message(&npy(&header("<f2", "False", "(2,)"), &[0; 3])), "npy f16 truncated");
    assert_eq!(message(&npy(&header("<i8", "False", "(2,)"), &[0; 15])), "npy i64 truncated");
    assert_eq!(message(&npy(&header("<i4", "False", "(2,)"), &[0; 7])), "npy i32 truncated");
    assert_eq!(message(&npy(&header("|u1", "False", "(2,)"), &[0; 2])), "unsupported npy dtype: |u1");
    assert_eq!(message(&npy(&header(">f4", "False", "(1,)"), &[0; 4])), "unsupported npy dtype: >f4");
    assert_eq!(message(&npy(&header("|i4", "False", "(1,)"), &[0; 4])), "unsupported npy dtype: |i4");
}

#[test]
fn one_dimension_has_no_order() {
    match read(&npy(&header("<i4", "True", "(1,)"), &[4, 0, 0, 0])) {
        Ok(NpyArray::I64(v, _)) => assert_eq!(v, vec![4]),
        _ => panic!("no integers"),
    }
}

#[test]
fn a_header_that_overruns_the_file_is_told() {
    let b = [0x93, b'N', b'U', b'M', b'P', b'Y', 1, 0, 200, 0, b'{'];
    assert!(!check_header_fits(&b));
    assert!(check_header_fits(&b[..10]));
    let mut c = b;
    c[5] = b'X';
    assert!(check_header_fits(&c));
}

#[test]
fn headers_are_read_wherever_their_keys_stand() {
    let h = match read_header("{'shape': (3, 4), 'fortran_order': False, 'descr': '<f4'}") {
        Ok(h) => h,
        Err(_) => panic!("no header"),
    };
    assert_eq!(h.shape, vec![3, 4]);
    assert_eq!(h.descr, "<f4'}");
    let h = match read_header("'descr':  '<f4' ,'shape':(1)") {
        Ok(h) => h,
        Err(_) => panic!("no header"),
    };
    assert_eq!(h.descr, "<f4");
    assert_eq!(h.shape, vec![1]);
}

#[test]
fn shapes_multiply_until_they_no_longer_fit() {
    assert_eq!(checked_product(&[2, 1, 256, 16, 64]), Some(524288));
    assert_eq!(checked_product(&[]), Some(1));
    assert_eq!(checked_product(&[usize::MAX, 2]), None);
    assert_eq!(checked_product(&[usize::MAX, 2, 0]), Some(0));
    assert_eq!(count_elements(&[0, 5]), Some(1));
    assert_eq!(count_elements(&[3, 5]), Some(15));
    assert_eq!(
        message(&npy(&header("<f4", "False", "(18446744073709551615, 2)"), &[0; 8])),
        "npy f32 truncated"
    );
}

#[test]
fn element_types_have_three_spellings_but_one() {
    for d in ["<f4", "=f4", "|f4"] {
        assert!(matches!(read_dtype(d), Some(Dtype::F32)));
    }
    for d in ["<f2", "=f2", "|f2"] {
        assert!(matches!(read_dtype(d), Some(Dtype::F16)));
    }
    for d in ["<i8", "=i8", "|i8"] {
        assert!(matches!(read_dtype(d), Some(Dtype::I64)));
    }
    for d in ["<i4", "=i4"] {
        assert!(matches!(read_dtype(d), Some(Dtype::I32)));
    }
    assert!(read_dtype("|i4").is_none());
    assert!(read_dtype("").is_none());
    assert_eq!(Dtype::F32.width(), 4);
    assert_eq!(Dtype::F16.width(), 2);
    assert_eq!(Dtype::I64.width(), 8);
    assert_eq!(Dtype::I32.width(), 4);
}

#[test]
fn errors_tell_what_lies_behind_them() {
    let cause = |b: &[u8]| match read(b) {
        Ok(_) => panic!("an array was read"),
        Err(e) => e.cause(),
    };
    for header in [&[0xff, 0xfe][..], &[b'a', 0xe2, 0x82][..]] {
        let std_text = std::str::from_utf8(header).unwrap_err().to_string();
        assert_eq!(cause(&npy(header, &[0])), Some(std_text));
    }
    for (dims, token) in [("(x,)", "x"), ("(1, 99999999999999999999, y)", "99999999999999999999")] {
        let header = format!("{{'descr': '<f4', 'shape': {dims}}}");
        let std_text = token.parse::<usize>().unwrap_err().to_string();
        assert_eq!(cause(&npy(header.as_bytes(), &[0; 8])), Some(std_text));
    }
    assert_eq!(cause(&npy(b"{}", &[0; 8])), None);
}
