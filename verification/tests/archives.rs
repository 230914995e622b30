use pocket_tts_deploy::dump::{
    check_complete, load_dump, npz_f32, npz_i64, pad_cache, parse_npy, DumpError, DUMP_LAYERS,
};
use pocket_tts_deploy::half::QUIET_NAN;
use pocket_tts_deploy::npz::{open_npz, read_npz, read_npz_f32, read_npz_i64, NpzArchive, NpzError};
use pocket_tts_deploy::npy::NpyArray;
use pocket_tts_deploy::voice::{load_voice, sign_shape};
use std::io::Write;

fn array(descr: &str, shape: &str, data: &[u8]) -> Vec<u8> {
    let header = format!("{{'descr': '{descr}', 'fortran_order': False, 'shape': {shape}, }}\n");
    let mut b = vec![0x93, b'N', b'U', b'M', b'P', b'Y', 1, 0];
    b.extend_from_slice(&(header.len() as u16).to_le_bytes());
    b.extend_from_slice(header.as_bytes());
    b.extend_from_slice(data);
    b
}

fn floats(shape: &str, v: &[f32]) -> Vec<u8> {
    let data: Vec<u8> = v.iter().flat_map(|x| x.to_le_bytes()).collect();
    array("<f4", shape, &data)
}

fn ints(shape: &str, v: &[i64]) -> Vec<u8> {
    let data: Vec<u8> = v.iter().flat_map(|x| x.to_le_bytes()).collect();
    array("<i8", shape, &data)
}

fn bits(v: &[f32]) -> Vec<u32> {
    v.iter().map(|x| x.to_bits()).collect()
}

fn archive_of(members: &[(&str, Vec<u8>)], method: zip::CompressionMethod) -> Vec<u8> {
    let mut w = zip::ZipWriter::new(std::io::Cursor::new(Vec::new()));
    for (name, bytes) in members {
        let options = zip::write::SimpleFileOptions::default().compression_method(method);
        w.start_file(*name, options).unwrap();
        w.write_all(bytes).unwrap();
    }
    w.finish().unwrap().into_inner()
}

fn npz(members: &[(&str, Vec<u8>)]) -> NpzArchive {
    open_npz(archive_of(members, zip::CompressionMethod::Deflated)).unwrap()
}

#[test]
fn members_come_back_as_they_were_written() {
    let members = [("a.npy", floats("(2,)", &[1.0, -0.5])), ("b.npy", ints("(1,)", &[-3]))];
    for method in [zip::CompressionMethod::Stored, zip::CompressionMethod::Deflated] {
        let mut z = open_npz(archive_of(&members, method)).unwrap();
        assert_eq!(read_npz_f32(&mut z, "a").unwrap(), (bits(&[1.0, -0.5]), vec![2]));
        assert_eq!(read_npz_i64(&mut z, "b").unwrap(), (vec![-3], vec![1]));
        assert_eq!(read_npz_f32(&mut z, "a").unwrap(), (bits(&[1.0, -0.5]), vec![2]));
        assert!(matches!(read_npz(&mut z, "b"), Ok(NpyArray::I64(..))));
    }
}

#[test]
fn bytes_that_are_no_archive_are_refused() {
    for bytes in [Vec::new(), b"not a zip file".to_vec()] {
        let theirs = zip::ZipArchive::new(std::io::Cursor::new(bytes.clone())).err().unwrap();
        match open_npz(bytes) {
            Err(e) => {
                assert!(matches!(e, NpzError::BadArchive(_)));
                assert_eq!(e.message(), theirs.to_string());
                assert!(e.cause().is_none());
            }
            Ok(_) => panic!("an archive was opened"),
        }
    }
}

#[test]
fn archive_errors_name_what_is_wrong() {
    let mut overrun = array("<f4", "(1,)", &[0; 4]);
    overrun[9] = 1;
    let mut z = npz(&[
        ("f.npy", floats("(1,)", &[2.0])),
        ("i.npy", ints("(1,)", &[2])),
        ("bad.npy", vec![0; 20]),
        ("long.npy", overrun),
    ]);
    assert_eq!(read_npz_f32(&mut z, "x").unwrap_err().message(), "npz missing: x.npy");
    assert_eq!(read_npz_i64(&mut z, "x").unwrap_err().message(), "npz missing: x.npy");
    assert_eq!(
        read_npz_i64(&mut z, "x").unwrap_err().cause(),
        Some("specified file not found in archive".to_string())
    );
    assert_eq!(read_npz_f32(&mut z, "i").unwrap_err().message(), "i is not f32");
    assert_eq!(read_npz_i64(&mut z, "f").unwrap_err().message(), "f is not i64");
    assert_eq!(read_npz_f32(&mut z, "bad").unwrap_err().message(), "bad npy magic");
    assert!(matches!(read_npz_f32(&mut z, "long"), Err(NpzError::HeaderOverrun(_))));
    assert_eq!(
        read_npz_f32(&mut z, "long").unwrap_err().message(),
        "npy header overrun: long.npy"
    );
}

#[test]
fn damaged_members_cannot_be_read() {
    let data: Vec<u8> = vec![7; 64];
    let mut bytes = archive_of(&[("a.npy", data)], zip::CompressionMethod::Stored);
    let at = bytes.windows(8).position(|w| w == [7; 8]).unwrap();
    bytes[at] = 8;
    let mut z = open_npz(bytes.clone()).unwrap();
    assert_eq!(read_npz_f32(&mut z, "a").unwrap_err().message(), "Invalid checksum");
    let mut z = open_npz(bytes).unwrap();
    let e = npz_f32(&mut z, "a").unwrap_err();
    assert!(matches!(e, DumpError::Unreadable(_)));
    assert_eq!(e.message(), "Invalid checksum");
}

#[test]
fn a_voice_shares_one_position() {
    let mut z = npz(&[
        ("off0.npy", ints("(1,)", &[126])),
        ("cache0.npy", floats("(1, 2)", &[1.0, 2.0])),
        ("cache1.npy", array("<f2", "(2,)", &[0x00, 0x3c, 0x00, 0x40])),
    ]);
    let v = load_voice(&mut z, 2).unwrap();
    assert_eq!(v.offs, vec![126, 126]);
    assert_eq!(v.caches, vec![bits(&[1.0, 2.0]), bits(&[1.0, 2.0])]);
    assert_eq!(v.shapes, vec![vec![1, 2], vec![2]]);
    assert_eq!(load_voice(&mut z, 3).unwrap_err().message(), "npz missing: cache2.npy");
    let none = load_voice(&mut z, 0).unwrap();
    assert!(none.offs.is_empty());
}

#[test]
fn a_voice_without_position_is_refused() {
    let mut z = npz(&[("cache0.npy", floats("(1,)", &[1.0]))]);
    assert_eq!(load_voice(&mut z, 1).unwrap_err().message(), "npz missing: off0.npy");
    let mut z = npz(&[("off0.npy", floats("(1,)", &[1.0]))]);
    assert_eq!(load_voice(&mut z, 0).unwrap_err().message(), "off0 is not i64");
    let mut z = npz(&[("off0.npy", ints("(1,)", &[1])), ("cache0.npy", ints("(1,)", &[1]))]);
    assert_eq!(load_voice(&mut z, 1).unwrap_err().message(), "cache0 is not f32");
}

#[test]
fn dimensions_turn_signed() {
    assert_eq!(sign_shape(&[2, 1, 256]), vec![2, 1, 256]);
    assert_eq!(sign_shape(&[usize::MAX]), vec![usize::MAX as i64]);
}

#[test]
fn dumps_hold_floats_or_integers() {
    let b = floats("(3,)", &[1.0, 2.0, 3.0]);
    assert!(check_complete(&b));
    assert_eq!(parse_npy(&b).unwrap(), (bits(&[1.0, 2.0, 3.0]), vec![], vec![3]));
    let b = ints("()", &[42]);
    assert!(check_complete(&b));
    assert_eq!(parse_npy(&b).unwrap(), (vec![], vec![42], vec![]));
    for d in ["=f4", "|f4"] {
        assert!(parse_npy(&array(d, "(1,)", &[0; 4])).is_ok());
    }
    for d in ["=i8", "|i8"] {
        assert!(parse_npy(&array(d, "(1,)", &[0; 8])).is_ok());
    }
}

#[test]
fn dumps_know_no_other_type() {
    let mut z = npz(&[
        ("half.npy", array("<f2", "(1,)", &[0; 2])),
        ("int.npy", array("<i4", "(1,)", &[0; 4])),
        ("nodescr.npy", array("", "(1,)", &[])[..10].to_vec()),
    ]);
    assert_eq!(npz_f32(&mut z, "half").unwrap_err().message(), "unsupported dtype <f2");
    assert_eq!(npz_i64(&mut z, "int").unwrap_err().message(), "unsupported dtype <i4");
    assert_eq!(
        npz_i64(&mut z, "none").unwrap_err().message(),
        "specified file not found in archive"
    );
    assert!(matches!(npz_i64(&mut z, "nodescr"), Err(DumpError::Incomplete(_))));
    assert_eq!(npz_i64(&mut z, "nodescr").unwrap_err().message(), "npy incomplete: nodescr.npy");
}

#[test]
fn dump_headers_need_their_keys() {
    let file = |header: &[u8]| {
        let mut b = vec![0x93, b'N', b'U', b'M', b'P', b'Y', 1, 0];
        b.extend_from_slice(&(header.len() as u16).to_le_bytes());
        b.extend_from_slice(header);
        b
    };
    let mut z = npz(&[
        ("a.npy", file(b"{}")),
        ("b.npy", file(b"{'descr': '<f4'}")),
        ("c.npy", file(b"{'descr': '<f4', 'shape': (y)}")),
        ("d.npy", file(&[0xc0, 0x80])),
        ("e.npy", b"NUMPY!".to_vec()),
    ]);
    assert_eq!(npz_f32(&mut z, "a").unwrap_err().message(), "descr");
    assert_eq!(npz_f32(&mut z, "b").unwrap_err().message(), "shape");
    assert_eq!(npz_f32(&mut z, "c").unwrap_err().message(), "invalid digit found in string");
    assert_eq!(
        npz_f32(&mut z, "d").unwrap_err().message(),
        std::str::from_utf8(&[0xc0, 0x80]).unwrap_err().to_string()
    );
    assert_eq!(npz_f32(&mut z, "e").unwrap_err().message(), "bad npy magic");
}

#[test]
fn incomplete_dumps_are_told() {
    assert!(!check_complete(&[]));
    assert!(!check_complete(b"\x93NUMPY\x01\x00"));
    assert!(check_complete(b"NUMPY?"));
    let b = floats("(4,)", &[0.0; 4]);
    assert!(check_complete(&b));
    assert!(!check_complete(&b[..b.len() - 1]));
    let huge = array("<i8", "(18446744073709551615, 3)", &[0; 8]);
    assert!(!check_complete(&huge));
}

#[test]
fn reading_one_kind_of_a_dump_leaves_the_other_empty() {
    let mut z = npz(&[("f.npy", floats("(1,)", &[2.0])), ("i.npy", ints("(1,)", &[2]))]);
    assert_eq!(npz_f32(&mut z, "i").unwrap(), (vec![], vec![1]));
    assert_eq!(npz_i64(&mut z, "f").unwrap(), Vec::<i64>::new());
    assert_eq!(npz_f32(&mut z, "f").unwrap(), (bits(&[2.0]), vec![1]));
    assert_eq!(npz_i64(&mut z, "i").unwrap(), vec![2]);
}

/// The compact cache of `l` positions whose elements count up.
fn compact(l: usize) -> Vec<u32> {
    (0..(2 * l * 1024) as u32).collect()
}

#[test]
fn padding_lays_both_halves_out() {
    for l in [0usize, 1, 3, 255, 256] {
        let c = compact(l);
        let full = pad_cache(&c, u32::MAX);
        assert_eq!(full.len(), 2 * 256 * 16 * 64);
        for k in 0..2 {
            for t in 0..256 {
                for h in 0..16 {
                    for dd in 0..64 {
                        let got = full[((k * 256 + t) * 16 + h) * 64 + dd];
                        if t < l {
                            assert_eq!(got, c[((k * l + t) * 16 + h) * 64 + dd]);
                        } else {
                            assert_eq!(got, u32::MAX);
                        }
                    }
                }
            }
        }
    }
}

fn compact_npy(l: usize) -> Vec<u8> {
    let data: Vec<u8> = compact(l).iter().flat_map(|x| x.to_le_bytes()).collect();
    array("<f4", &format!("(2, 1, {l}, 16, 64)"), &data)
}

#[test]
fn a_dump_gives_every_layer_its_own_position() {
    assert_eq!(DUMP_LAYERS, 24);
    let mut z = npz(&[
        ("off0.npy", ints("(1,)", &[2])),
        ("cache0.npy", compact_npy(2)),
        ("off1.npy", ints("(1,)", &[5])),
        ("cache1.npy", compact_npy(1)),
    ]);
    let v = load_dump(&mut z, 2).unwrap();
    assert_eq!(v.offs, vec![2, 5]);
    assert_eq!(v.caches[0], pad_cache(&compact(2), QUIET_NAN));
    assert_eq!(v.caches[1], pad_cache(&compact(1), QUIET_NAN));
    assert!(f32::from_bits(v.caches[0][2 * 1024]).is_nan());
    assert_eq!(
        load_dump(&mut z, 3).unwrap_err().message(),
        "specified file not found in archive"
    );
}

#[test]
fn a_dump_that_does_not_fit_is_refused() {
    let mut z = npz(&[("off0.npy", ints("(1,)", &[2])), ("cache0.npy", compact_npy(257))]);
    let e = load_dump(&mut z, 1).unwrap_err();
    assert!(matches!(e, DumpError::TooLong(_)));
    assert_eq!(e.message(), "cache0 is longer than the context");
    let mut z = npz(&[("off0.npy", floats("(1,)", &[2.0])), ("cache0.npy", compact_npy(1))]);
    let e = load_dump(&mut z, 1).unwrap_err();
    assert!(matches!(e, DumpError::NoOffset(_)));
    assert_eq!(e.message(), "off0 holds no offset");
}
