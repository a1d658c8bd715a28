use newflasher::ta::{
    is_blacklisted, parse_hex_string, parse_trim_area, trim_area_commands, write_ta_command,
    BootConfigUnit, BootConfigUnitBuilder, TaError, TrimArea, TrimAreaParser,
};
use newflasher::types::ByteVec;

fn lines(text: &str) -> Vec<String> {
    text.lines().map(|l| l.to_string()).collect()
}

fn unit(unit: usize, data: &[u8]) -> BootConfigUnit {
    BootConfigUnit { unit, data: ByteVec::from_slice(data) }
}

fn parse(text: &str) -> Result<TrimArea, TaError> {
    parse_trim_area(&lines(text)).expect("no line aborts")
}

#[test]
fn ta_single_unit_files() {
    let auto_boot = "// auto boot\n02\n00000907 0001 00\n";
    assert_eq!(parse(auto_boot), Ok(TrimArea::new(2, vec![unit(0x907, &[0x0])])));

    let customer = "02\n0000087B 0007 63 30 30 31 35 32 36\n";
    assert_eq!(
        parse(customer),
        Ok(TrimArea::new(2, vec![unit(0x87B, &[0x63, 0x30, 0x30, 0x31, 0x35, 0x32, 0x36])]))
    );

    let demo = "02\n00000A1E 0000\n";
    assert_eq!(parse(demo), Ok(TrimArea::new(2, vec![unit(0xA1E, &[])])));
    // a unit of size zero keeps its place among the others
    let mixed = "02\n00000907 0001 00\n00000A1E 0000\n0000091A 0001 00\n";
    assert_eq!(
        parse(mixed),
        Ok(TrimArea::new(2, vec![unit(0x907, &[0]), unit(0xA1E, &[]), unit(0x91A, &[0])]))
    );
}

#[test]
fn ta_unit_data_over_several_lines() {
    let text = "// two lines of data\n\n60\n000009A9 0004 01 02\n  03 04  \n00000907 0001 FF\n";
    assert_eq!(
        parse(text),
        Ok(TrimArea::new(60, vec![unit(0x9A9, &[1, 2, 3, 4]), unit(0x907, &[0xff])]))
    );
}

#[test]
fn ta_wide_unit_size() {
    let text = "02\n00000907 00000002 AB CD\n";
    assert_eq!(parse(text), Ok(TrimArea::new(2, vec![unit(0x907, &[0xab, 0xcd])])));
}

#[test]
fn ta_blacklisted_units() {
    assert!(is_blacklisted(0x7D3));
    assert!(is_blacklisted(0x1046B));
    assert!(!is_blacklisted(0x907));
    // a blacklisted unit spread over lines is dropped
    let text = "02\n000007DA 0002 01\n02\n00000907 0001 00\n";
    assert_eq!(parse(text), Ok(TrimArea::new(2, vec![unit(0x907, &[0])])));
    // on a single line it is kept
    let text = "02\n000007DA 0001 01\n";
    assert_eq!(parse(text), Ok(TrimArea::new(2, vec![unit(0x7DA, &[1])])));
}

#[test]
fn ta_errors() {
    assert_eq!(parse("2\n"), Err(TaError::InvalidPartition));
    assert_eq!(parse("02\n0907\n"), Err(TaError::InvalidUnit));
    assert_eq!(parse("02\n0000090G 0001 00\n"), Err(TaError::InvalidUnitNumber));
    assert_eq!(parse("02\n00000907 00G1 00\n"), Err(TaError::InvalidUnitSize));
    assert_eq!(parse("02\n00000907 0001 0\n"), Err(TaError::InvalidUnitData));
    assert_eq!(parse("02\n00000907 0001 00 01\n"), Err(TaError::CorruptedUnit));
    assert_eq!(parse("// nothing\n\n"), Err(TaError::PartitionNotFound));
    assert_eq!(parse("ab\n"), Err(TaError::PartitionNotFound));
}

#[test]
fn ta_lines_that_would_index_out_of_bounds() {
    // the unit line is too short for its size field
    assert!(parse_trim_area(&lines("02\n0000090700\n")).is_none());
    // the data offset lies past the end of the line
    assert!(parse_trim_area(&lines("02\n00000907 0001\n")).is_none());
    let mut parser = TrimAreaParser::new();
    assert_eq!(parser.feed_line("02"), Ok(()));
    assert!(parser.would_abort("00000907 0001"));
    assert!(!parser.would_abort("00000907 0001 00"));
    assert_eq!(parser.feed_line("00000907 0001 00"), Ok(()));
    assert_eq!(parser.finish(), Ok(TrimArea::new(2, vec![unit(0x907, &[0])])));
}

#[test]
fn hex_strings() {
    assert_eq!(parse_hex_string("00 ff 7A").map(|b| b.into_vec()), Ok(vec![0, 0xff, 0x7a]));
    assert_eq!(parse_hex_string("+5").map(|b| b.into_vec()), Ok(vec![5]));
    assert_eq!(parse_hex_string("").map(|b| b.into_vec()), Err(TaError::InvalidUnitData));
    assert_eq!(parse_hex_string("00  01").map(|b| b.into_vec()), Err(TaError::InvalidUnitData));
    assert_eq!(parse_hex_string("00 ").map(|b| b.into_vec()), Err(TaError::InvalidUnitData));
    assert_eq!(parse_hex_string("-1").map(|b| b.into_vec()), Err(TaError::InvalidUnitData));
}

#[test]
fn builder_collects_data() {
    let mut b = BootConfigUnitBuilder::new();
    b.unit = Some(7);
    b.append(ByteVec::from_slice(&[1]));
    b.append(ByteVec::from_slice(&[2]));
    let u = b.build();
    assert_eq!(u, unit(7, &[1, 2]));
    let mut b = BootConfigUnitBuilder::new();
    b.size = Some(3);
    b.clear();
    assert_eq!(b.size, None);
}

#[test]
fn write_ta_commands() {
    assert_eq!(write_ta_command(2, 10100), b"Write-TA:2:10100".to_vec());
    let ta = TrimArea::new(2, vec![unit(0x907, &[0]), unit(2475, &[1])]);
    assert_eq!(
        trim_area_commands(&ta),
        vec![b"Write-TA:2:2311".to_vec(), b"Write-TA:2:2475".to_vec()]
    );
}

#[test]
fn hex_lines_read_back_as_their_bytes() {
    for bytes in [vec![0u8], vec![0x63, 0x30, 0xff], (0..=255u8).collect::<Vec<u8>>()] {
        let lower = bytes.iter().map(|x| format!("{:02x}", x)).collect::<Vec<_>>().join(" ");
        let upper = bytes.iter().map(|x| format!("{:02X}", x)).collect::<Vec<_>>().join(" ");
        assert_eq!(parse_hex_string(&lower).map(|b| b.into_vec()), Ok(bytes.clone()));
        assert_eq!(parse_hex_string(&upper).map(|b| b.into_vec()), Ok(bytes.clone()));
    }
}

#[test]
fn default_unit_builder_is_empty() {
    let b = BootConfigUnitBuilder::default();
    assert_eq!(b.unit, None);
    assert_eq!(b.size, None);
    assert!(b.data.is_empty());
}
