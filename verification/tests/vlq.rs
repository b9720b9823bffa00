use rimd::util::ByteSource;
use rimd::reader::SMFReader;
use rimd::writer::SMFWriter;
use rimd::SMFError;

#[test]
fn vwrite() {
    let mut vec1 = Vec::new();
    SMFWriter::write_vtime(127, &mut vec1);
    assert!(vec1[0] == 0x7f);

    vec1.clear();
    SMFWriter::write_vtime(255, &mut vec1);
    assert!(vec1[0] == 0x81);
    assert!(vec1[1] == 0x7f);

    vec1.clear();
    SMFWriter::write_vtime(32768, &mut vec1);
    assert!(vec1[0] == 0x82);
    assert!(vec1[1] == 0x80);
    assert!(vec1[2] == 0x00);
}

#[test]
fn vlq_encode_known_values() {
    assert_eq!(SMFWriter::vtime_to_vec(0), vec![0x00]);
    assert_eq!(SMFWriter::vtime_to_vec(127), vec![0x7F]);
    assert_eq!(SMFWriter::vtime_to_vec(128), vec![0x81, 0x00]);
    assert_eq!(SMFWriter::vtime_to_vec(16383), vec![0xFF, 0x7F]);
    assert_eq!(SMFWriter::vtime_to_vec(16384), vec![0x81, 0x80, 0x00]);
}

#[test]
fn vlq_round_trip() {
    let values: [u64; 10] = [
        0,
        1,
        127,
        128,
        16383,
        16384,
        0x0FFF_FFFF,
        0x1000_0000,
        0x7FFF_FFFF_FFFF_FFFF,
        123_456_789,
    ];
    for &v in values.iter() {
        let encoded = SMFWriter::vtime_to_vec(v);
        let len = encoded.len();
        let mut src = ByteSource::new(encoded);
        let got = SMFReader::read_vtime(&mut src).unwrap();
        assert_eq!(got, v);
        assert_eq!(src.pos, len);
    }
}

#[test]
fn vlq_rejects_overlong_input() {
    // ten continuation-flagged bytes never terminate a quantity
    let bytes = vec![0x80u8; 10];
    let mut src = ByteSource::new(bytes);
    match SMFReader::read_vtime(&mut src) {
        Err(SMFError::InvalidSMFFile(m)) => assert_eq!(m, "Variable length value too long"),
        other => panic!("expected a structural error, got {:?}", other),
    }
}

#[test]
fn vlq_rejects_truncated_input() {
    let bytes = vec![0x80u8, 0x80];
    let mut src = ByteSource::new(bytes);
    match SMFReader::read_vtime(&mut src) {
        Err(SMFError::Error(_)) => {}
        other => panic!("expected an underlying read error, got {:?}", other),
    }
}

#[test]
fn vlq_accepts_nonminimal_zero() {
    let bytes = vec![0x80u8, 0x00];
    let mut src = ByteSource::new(bytes);
    assert_eq!(SMFReader::read_vtime(&mut src).unwrap(), 0);
    assert_eq!(src.pos, 2);
}
