use netweevil::wkb::{parse_wkb_linestring, dimensions, parse_geopackage_lines, Cursor, WkbError, NAN_BITS};

fn bits(points: &[[f64; 3]]) -> Vec<[u64; 3]> {
    points.iter().map(|p| [p[0].to_bits(), p[1].to_bits(), p[2].to_bits()]).collect()
}

#[test]
fn parses_geopackage_linestring_z() {
    let mut blob = b"GP\0\x01".to_vec();
    blob.extend_from_slice(&4326_i32.to_le_bytes());
    blob.push(1);
    blob.extend_from_slice(&1002_u32.to_le_bytes());
    blob.extend_from_slice(&2_u32.to_le_bytes());
    for value in [114.0_f64, 22.0, 5.0, 114.1, 22.1, 9.0] {
        blob.extend_from_slice(&value.to_le_bytes());
    }
    let geometry = parse_geopackage_lines(&blob).expect("geometry");
    assert_eq!(geometry.srs_id, 4326);
    assert_eq!(geometry.lines, vec![bits(&[[114.0, 22.0, 5.0], [114.1, 22.1, 9.0]])]);
}

#[test]
fn parses_big_endian_multilinestrings_without_z() {
    let mut blob = b"GP\0\x00".to_vec();
    blob.extend_from_slice(&4326_i32.to_be_bytes());
    blob.push(0);
    blob.extend_from_slice(&5_u32.to_be_bytes());
    blob.extend_from_slice(&2_u32.to_be_bytes());
    for line in [[1.0_f64, 2.0], [3.0, 4.0]] {
        blob.push(0);
        blob.extend_from_slice(&2_u32.to_be_bytes());
        blob.extend_from_slice(&1_u32.to_be_bytes());
        for value in line {
            blob.extend_from_slice(&value.to_be_bytes());
        }
    }
    let geometry = parse_geopackage_lines(&blob).expect("geometry");
    assert_eq!(geometry.srs_id, 4326);
    assert_eq!(
        geometry.lines,
        vec![vec![[1.0_f64.to_bits(), 2.0_f64.to_bits(), NAN_BITS]], vec![[3.0_f64.to_bits(), 4.0_f64.to_bits(), NAN_BITS]]]
    );
}

#[test]
fn rejects_malformed_blobs() {
    assert_eq!(parse_geopackage_lines(b"XP\0\x01\0\0\0\0").err(), Some(WkbError::InvalidHeader));
    assert_eq!(parse_geopackage_lines(b"GP\x01\x01\0\0\0\0").err(), Some(WkbError::UnsupportedVersion(1)));
    assert_eq!(parse_geopackage_lines(b"GP\0\x0b\0\0\0\0").err(), Some(WkbError::InvalidEnvelope(5)));
    assert_eq!(parse_geopackage_lines(b"GP\0\x03\0\0\0\0").err(), Some(WkbError::TruncatedEnvelope));
    let empty = parse_geopackage_lines(b"GP\0\x11\xe6\x10\0\0").expect("empty geometry");
    assert_eq!(empty.srs_id, 4326);
    assert!(empty.lines.is_empty());
    let mut point = b"GP\0\x01\0\0\0\0".to_vec();
    point.push(1);
    point.extend_from_slice(&1_u32.to_le_bytes());
    assert_eq!(parse_geopackage_lines(&point).err(), Some(WkbError::UnsupportedGeometryType(1)));
    let mut short = b"GP\0\x01\0\0\0\0".to_vec();
    short.push(1);
    short.extend_from_slice(&2_u32.to_le_bytes());
    short.extend_from_slice(&3_u32.to_le_bytes());
    assert_eq!(parse_geopackage_lines(&short).err(), Some(WkbError::TruncatedCoordinates));
    let mut trailing = b"GP\0\x01\0\0\0\0".to_vec();
    trailing.push(1);
    trailing.extend_from_slice(&2_u32.to_le_bytes());
    trailing.extend_from_slice(&0_u32.to_le_bytes());
    trailing.push(7);
    assert_eq!(parse_geopackage_lines(&trailing).err(), Some(WkbError::TrailingBytes));
    let mut order = b"GP\0\x01\0\0\0\0".to_vec();
    order.push(2);
    assert_eq!(parse_geopackage_lines(&order).err(), Some(WkbError::InvalidByteOrder(2)));
}

#[test]
fn reads_type_codes_and_cursor_values() {
    assert_eq!(dimensions(1002), (2, true, false, false));
    assert_eq!(dimensions(3005), (5, true, true, false));
    assert_eq!(dimensions(0xa000_0002), (2, true, false, true));
    let bytes = [1_u8, 2, 0, 0, 0, 9];
    let mut cursor = Cursor::new(&bytes);
    assert_eq!(cursor.read_u8(), Ok(1));
    assert_eq!(cursor.read_u32(true), Ok(2));
    assert_eq!(cursor.remaining(), 1);
    assert_eq!(cursor.read_array::<2>().err(), Some(WkbError::Truncated));
    assert_eq!(cursor.read_array::<1>(), Ok([9]));
    assert_eq!(cursor.read_u8().err(), Some(WkbError::Truncated));
}

fn wkb_linestring(points: &[(f64, f64)]) -> Vec<u8> {
    let mut bytes = vec![1_u8];
    bytes.extend_from_slice(&2_u32.to_le_bytes());
    bytes.extend_from_slice(&(points.len() as u32).to_le_bytes());
    for (lon, lat) in points {
        bytes.extend_from_slice(&lon.to_le_bytes());
        bytes.extend_from_slice(&lat.to_le_bytes());
    }
    bytes
}

fn as_coordinates(points: Option<Vec<(u64, u64)>>) -> Option<Vec<(f64, f64)>> {
    points.map(|points| points.into_iter().map(|(lon, lat)| (f64::from_bits(lon), f64::from_bits(lat))).collect())
}

#[test]
fn parses_wkb_linestrings_in_both_byte_orders() {
    let little = wkb_linestring(&[(6.5, 53.2), (6.6, 53.3)]);
    assert_eq!(as_coordinates(parse_wkb_linestring(&little)), Some(vec![(6.5, 53.2), (6.6, 53.3)]));

    let mut big = vec![0_u8];
    big.extend_from_slice(&2_u32.to_be_bytes());
    big.extend_from_slice(&2_u32.to_be_bytes());
    for value in [6.5_f64, 53.2, 6.6, 53.3] {
        big.extend_from_slice(&value.to_be_bytes());
    }
    assert_eq!(as_coordinates(parse_wkb_linestring(&big)), Some(vec![(6.5, 53.2), (6.6, 53.3)]));

    // A WKB point is not a usable segment geometry.
    let mut point = vec![1_u8];
    point.extend_from_slice(&1_u32.to_le_bytes());
    point.extend_from_slice(&6.5_f64.to_le_bytes());
    point.extend_from_slice(&53.2_f64.to_le_bytes());
    assert_eq!(parse_wkb_linestring(&point), None);
}

#[test]
fn wkb_linestrings_skip_srid_and_z_and_refuse_missing_bytes() {
    let mut ewkb = vec![1_u8];
    ewkb.extend_from_slice(&(2_u32 | 0x2000_0000 | 0x8000_0000).to_le_bytes());
    ewkb.extend_from_slice(&4326_u32.to_le_bytes());
    ewkb.extend_from_slice(&2_u32.to_le_bytes());
    for value in [1.0_f64, 2.0, 9.0, 3.0, 4.0] {
        ewkb.extend_from_slice(&value.to_le_bytes());
    }
    assert_eq!(as_coordinates(parse_wkb_linestring(&ewkb)), Some(vec![(1.0, 2.0), (3.0, 4.0)]));
    let mut short = wkb_linestring(&[(1.0, 2.0), (3.0, 4.0)]);
    short.truncate(short.len() - 1);
    assert_eq!(parse_wkb_linestring(&short), None);
    assert_eq!(parse_wkb_linestring(&[2, 0, 0, 0, 0]), None);
    assert_eq!(parse_wkb_linestring(&wkb_linestring(&[])), Some(Vec::new()));
}
