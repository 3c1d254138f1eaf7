use quircs::{Code, DataType, DecodeError, EccLevel, Eci, Point};

#[test]
fn point_clear_resets_both_coordinates() {
    let mut p = Point { x: 3, y: -4 };
    p.clear();
    assert_eq!(p, Point { x: 0, y: 0 });
}

#[test]
fn code_clear_blanks_the_bitmap() {
    let mut c = Code::default();
    c.size = 21;
    c.cell_bitmap[5] = 0xff;
    c.corners[2] = Point { x: 1, y: 2 };
    c.clear();
    assert_eq!(c.size, 0);
    assert!(c.cell_bitmap.iter().all(|b| *b == 0));
    assert!(c.corners.iter().all(|p| *p == Point { x: 0, y: 0 }));
}

#[test]
fn the_version_of_the_library() {
    assert_eq!(quircs::version(), "0.10.0");
}

#[test]
fn levels_kinds_and_encodings_have_their_numbers() {
    let levels = [EccLevel::M, EccLevel::L, EccLevel::H, EccLevel::Q];
    for (n, l) in levels.iter().enumerate() {
        assert_eq!(EccLevel::from_i32(n as i32), Some(*l));
        assert_eq!(l.to_i32(), n as i32);
    }
    assert_eq!(EccLevel::from_i32(4), None);
    assert_eq!(EccLevel::from_i32(-1), None);
    assert_eq!(EccLevel::default(), EccLevel::M);
    let kinds = [
        (1, DataType::Numeric, "numeric"),
        (2, DataType::Alpha, "alpha"),
        (4, DataType::Byte, "byte"),
        (7, DataType::Eci, "eci"),
        (8, DataType::Kanji, "kanji"),
    ];
    for (n, k, name) in kinds {
        assert_eq!(DataType::from_i32(n), Some(k));
        assert_eq!(k.to_i32(), n);
        assert_eq!(k.to_string(), name);
    }
    for n in [0, 3, 5, 6, 9, -1] {
        assert_eq!(DataType::from_i32(n), None);
    }
    let encodings = [
        (1, Eci::Iso8859_1),
        (2, Eci::Ibm437),
        (4, Eci::Iso8859_2),
        (11, Eci::Iso8859_9),
        (13, Eci::Windows874),
        (15, Eci::Iso8859_13),
        (17, Eci::Iso8859_15),
        (20, Eci::ShiftJis),
        (26, Eci::Utf8),
    ];
    for (n, e) in encodings {
        assert_eq!(Eci::from_u32(n), Some(e));
        assert_eq!(e.to_u32(), n);
    }
    for n in [0, 3, 12, 14, 16, 18, 19, 21, 25, 27, 899] {
        assert_eq!(Eci::from_u32(n), None);
    }
}

#[test]
fn errors_have_their_messages() {
    assert_eq!(DecodeError::InvalidGridSize.to_string(), "Invalid grid size");
    assert_eq!(DecodeError::InvalidVersion.to_string(), "Invalid version");
    assert_eq!(DecodeError::DataEcc.to_string(), "Format data ECC failure");
    assert_eq!(DecodeError::FormatEcc.to_string(), "ECC failure");
    assert_eq!(DecodeError::UnknownDataType.message(), "Unknown data type");
    assert_eq!(DecodeError::DataOverflow.message(), "Data overflow");
    assert_eq!(DecodeError::DataUnderflow.message(), "Data underflow");
}

#[test]
fn default_data_is_empty() {
    let d = quircs::Data::default();
    assert_eq!(d.version, 0);
    assert_eq!(d.ecc_level, quircs::EccLevel::M);
    assert_eq!(d.mask, 0);
    assert_eq!(d.data_type, None);
    assert!(d.payload.is_empty());
    assert_eq!(d.eci, None);
    assert_eq!(quircs::Point::default(), Point { x: 0, y: 0 });
    assert_eq!(quircs::Region::default().count, 0);
    assert_eq!(quircs::RsParams::new(3, 2, 1), quircs::RsParams { bs: 3, dw: 2, ns: 1 });
}
