use atomas::catalog::{parse_element_line, ColorChannel, LineOutcome};
use atomas::elements::{ElementType, Id};

fn entry(line: &str) -> (Id, String, (u8, u8, u8)) {
    match parse_element_line(line) {
        Ok(LineOutcome::Entry(e)) => {
            assert_eq!(e.element_type, ElementType::Periodic(1));
            (e.id, e.name, e.rgb)
        }
        other => panic!("not an entry: {:?}", other),
    }
}

#[test]
fn reads_plain_and_padded_lines() {
    assert_eq!(entry(r"H\-Hydrogen\-255,255,255"), (Id::Single('H'), "Hydrogen".to_string(), (255, 255, 255)));
    assert_eq!(entry(" He \\- Helium \\- 217, 255 ,\t255 "), (Id::Double('H', 'e'), "Helium".to_string(), (217, 255, 255)));
    assert_eq!(entry("C\\-Carbon\\-+7,0,007"), (Id::Single('C'), "Carbon".to_string(), (7, 0, 7)));
}

#[test]
fn unicode_whitespace_is_trimmed() {
    assert_eq!(entry("\u{2003}O\\-Oxygen\u{00a0}\\-1,2,3"), (Id::Single('O'), "Oxygen".to_string(), (1, 2, 3)));
}

#[test]
fn skipped_shapes() {
    assert!(matches!(parse_element_line("   "), Ok(LineOutcome::Blank)));
    assert!(matches!(parse_element_line(""), Ok(LineOutcome::Blank)));
    assert!(matches!(parse_element_line(r"H\-Hydrogen"), Ok(LineOutcome::MissingParts)));
    assert!(matches!(parse_element_line("H-Hydrogen-1,2,3"), Ok(LineOutcome::MissingParts)));
    assert!(matches!(parse_element_line(r"H\-Hydrogen\-255,255"), Ok(LineOutcome::BadColorFormat)));
    assert!(matches!(parse_element_line(r"Abc\-Thing\-1,2,3"), Ok(LineOutcome::BadSymbol)));
}

#[test]
fn bad_components_name_the_first_bad_channel() {
    assert_eq!(parse_element_line(r"H\-Hydrogen\-256,0,0").err(), Some(ColorChannel::Red));
    assert_eq!(parse_element_line(r"H\-Hydrogen\-0,-1,x").err(), Some(ColorChannel::Green));
    assert_eq!(parse_element_line(r"H\-Hydrogen\-0,1,x").err(), Some(ColorChannel::Blue));
    assert_eq!(parse_element_line(r"H\-Hydrogen\-+,1,2").err(), Some(ColorChannel::Red));
    assert_eq!(parse_element_line(r"H\-Hydrogen\-1 2,1,2").err(), Some(ColorChannel::Red));
}

#[test]
fn extra_parts_are_ignored() {
    assert_eq!(entry(r"N\-Nitrogen\-1,2,3\-extra"), (Id::Single('N'), "Nitrogen".to_string(), (1, 2, 3)));
}
