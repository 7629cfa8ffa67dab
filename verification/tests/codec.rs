//! Round-trip and error behavior of the XML codec.

use pose2d::schema::{SchemaBone, SchemaData, SchemaImage, SchemaView};
use pose2d::text::is_decimal_bytes;

fn bone(label: &str, name: &str, x: &str, y: &str) -> SchemaBone {
    SchemaBone {
        label: label.as_bytes().to_vec(),
        name: name.as_bytes().to_vec(),
        x: x.as_bytes().to_vec(),
        y: y.as_bytes().to_vec(),
    }
}

fn two_view_doc() -> SchemaData {
    let v1 = SchemaView {
        name: b"V1".to_vec(),
        images: vec![
            SchemaImage { file: b"I1.png".to_vec() },
            SchemaImage { file: b"I2.png".to_vec() },
        ],
        bones: vec![bone("B1", "hip", "0.5", "0.25")],
    };
    let v2 = SchemaView {
        name: b"V2".to_vec(),
        images: vec![],
        bones: vec![bone("B2", "knee", "0.1", "0.9"), bone("B3", "foot", "0", "1")],
    };
    SchemaData { views: vec![v1, v2] }
}

#[test]
fn encode_two_views_exact_bytes() {
    let doc = two_view_doc();
    let bytes = doc.serialize();
    let expected = format!(
        "\u{feff}<Views>\n\t<View name=\"V1\">\n\t\t<Image file=\"I1.png\"/>\n\t\t<Image file=\"I2.png\"/>\n\t\t<Bone label=\"B1\" name=\"hip\" x=\"0.5\" y=\"0.25\"/>\n\t</View>\n\t<View name=\"V2\">\n\t\t<Bone label=\"B2\" name=\"knee\" x=\"0.1\" y=\"0.9\"/>\n\t\t<Bone label=\"B3\" name=\"foot\" x=\"0\" y=\"1\"/>\n\t</View>\n</Views>"
    );
    assert_eq!(bytes, expected.as_bytes().to_vec());
}

#[test]
fn decode_encode_reproduces_bytes() {
    // encode, decode, encode again: the bytes come back unchanged
    let doc = two_view_doc();
    let bytes = doc.serialize();
    let decoded = SchemaData::deserialize(&bytes).unwrap();
    let bytes2 = decoded.serialize();
    assert_eq!(bytes, bytes2);
}

#[test]
fn decode_encode_decode_preserves_order() {
    // V1 (images I1,I2; bone B1), V2 (bones B2,B3) through a full cycle
    let doc = two_view_doc();
    let d1 = SchemaData::deserialize(&doc.serialize()).unwrap();
    let d2 = SchemaData::deserialize(&d1.serialize()).unwrap();
    assert_eq!(d2.views.len(), 2);
    assert_eq!(d2.views[0].name, b"V1".to_vec());
    assert_eq!(d2.views[0].images.len(), 2);
    assert_eq!(d2.views[0].images[0].file, b"I1.png".to_vec());
    assert_eq!(d2.views[0].images[1].file, b"I2.png".to_vec());
    assert_eq!(d2.views[0].bones.len(), 1);
    assert_eq!(d2.views[0].bones[0].label, b"B1".to_vec());
    assert_eq!(d2.views[0].bones[0].name, b"hip".to_vec());
    assert_eq!(d2.views[0].bones[0].x, b"0.5".to_vec());
    assert_eq!(d2.views[0].bones[0].y, b"0.25".to_vec());
    assert_eq!(d2.views[1].name, b"V2".to_vec());
    assert_eq!(d2.views[1].images.len(), 0);
    assert_eq!(d2.views[1].bones.len(), 2);
    assert_eq!(d2.views[1].bones[0].label, b"B2".to_vec());
    assert_eq!(d2.views[1].bones[1].label, b"B3".to_vec());
    assert_eq!(d2.views[1].bones[1].x, b"0".to_vec());
    assert_eq!(d2.views[1].bones[1].y, b"1".to_vec());
}

#[test]
fn empty_root_decodes_to_zero_views() {
    let doc = SchemaData::deserialize(&b"<Views></Views>".to_vec()).unwrap();
    assert_eq!(doc.views.len(), 0);
}

#[test]
fn zero_view_doc_encodes_to_empty_root_with_bom() {
    let doc = SchemaData { views: vec![] };
    let bytes = doc.serialize();
    assert_eq!(bytes, "\u{feff}<Views></Views>".as_bytes().to_vec());
    let back = SchemaData::deserialize(&bytes).unwrap();
    assert_eq!(back.views.len(), 0);
}

#[test]
fn non_numeric_bone_coordinate_is_fatal() {
    let text = b"<Views><View name=\"a\"><Bone label=\"b\" name=\"n\" x=\"abc\" y=\"0\"/></View></Views>".to_vec();
    assert!(SchemaData::deserialize(&text).is_err());
}

#[test]
fn bone_outside_view_context_is_fatal() {
    let text = b"<Views><Bone label=\"b\" name=\"n\" x=\"0\" y=\"0\"/></Views>".to_vec();
    assert!(SchemaData::deserialize(&text).is_err());
}

#[test]
fn image_outside_view_context_is_fatal() {
    let text = b"<Views><Image file=\"f.png\"/></Views>".to_vec();
    assert!(SchemaData::deserialize(&text).is_err());
}

#[test]
fn unbalanced_tags_are_fatal() {
    assert!(SchemaData::deserialize(&b"<Views><View name=\"a\"></Views>".to_vec()).is_err());
    assert!(SchemaData::deserialize(&b"<Views>".to_vec()).is_err());
    assert!(SchemaData::deserialize(&b"<Views".to_vec()).is_err());
}

#[test]
fn decode_error_reports_byte_offset() {
    let text = b"<Views><View name=\"a\"><Bone label=\"b\" name=\"n\" x=\"abc\" y=\"0\"/></View></Views>".to_vec();
    let err = match SchemaData::deserialize(&text) {
        Err(e) => e,
        Ok(_) => panic!("expected a decode error"),
    };
    assert!(err.offset <= text.len());
}

#[test]
fn unknown_elements_and_attributes_are_ignored() {
    let text = b"<Views junk=\"1\"><Meta/><View name=\"a\" extra=\"x\"><Stray/></View></Views>"
        .to_vec();
    let doc = SchemaData::deserialize(&text).unwrap();
    assert_eq!(doc.views.len(), 1);
    assert_eq!(doc.views[0].name, b"a".to_vec());
    assert_eq!(doc.views[0].bones.len(), 0);
    assert_eq!(doc.views[0].images.len(), 0);
}

#[test]
fn missing_view_name_is_empty() {
    let doc = SchemaData::deserialize(&b"<Views><View></View></Views>".to_vec()).unwrap();
    assert_eq!(doc.views.len(), 1);
    assert_eq!(doc.views[0].name, b"".to_vec());
}

#[test]
fn missing_bone_coordinates_default_to_zero() {
    let text = b"<Views><View name=\"a\"><Bone label=\"b\"/></View></Views>".to_vec();
    let doc = SchemaData::deserialize(&text).unwrap();
    assert_eq!(doc.views[0].bones[0].x, b"0".to_vec());
    assert_eq!(doc.views[0].bones[0].y, b"0".to_vec());
}

#[test]
fn coordinate_text_round_trips_without_reformatting() {
    let v = SchemaView {
        name: b"v".to_vec(),
        images: vec![],
        bones: vec![bone("b", "n", "0.10", "1e-3")],
    };
    let doc = SchemaData { views: vec![v] };
    let back = SchemaData::deserialize(&doc.serialize()).unwrap();
    assert_eq!(back.views[0].bones[0].x, b"0.10".to_vec());
    assert_eq!(back.views[0].bones[0].y, b"1e-3".to_vec());
}

#[test]
fn special_characters_in_names_are_escaped_and_restored() {
    let v = SchemaView {
        name: b"a&b<c>\"d'e".to_vec(),
        images: vec![SchemaImage { file: b"x&y.png".to_vec() }],
        bones: vec![],
    };
    let doc = SchemaData { views: vec![v] };
    let bytes = doc.serialize();
    let back = SchemaData::deserialize(&bytes).unwrap();
    assert_eq!(back.views[0].name, b"a&b<c>\"d'e".to_vec());
    assert_eq!(back.views[0].images[0].file, b"x&y.png".to_vec());
}

#[test]
fn whitespace_between_elements_is_ignored() {
    let text = b"<Views>\r\n  <View name=\"a\">\r\n  </View>\r\n</Views>".to_vec();
    let doc = SchemaData::deserialize(&text).unwrap();
    assert_eq!(doc.views.len(), 1);
}

#[test]
fn bad_entity_in_attribute_is_fatal() {
    let text = b"<Views><View name=\"a&bogus;\"></View></Views>".to_vec();
    assert!(SchemaData::deserialize(&text).is_err());
}

#[test]
fn decimal_text_validation() {
    assert!(is_decimal_bytes(&b"0".to_vec()));
    assert!(is_decimal_bytes(&b"-0.5".to_vec()));
    assert!(is_decimal_bytes(&b"+.5".to_vec()));
    assert!(is_decimal_bytes(&b"5.".to_vec()));
    assert!(is_decimal_bytes(&b"1e5".to_vec()));
    assert!(is_decimal_bytes(&b"1.25E-7".to_vec()));
    assert!(!is_decimal_bytes(&b"".to_vec()));
    assert!(!is_decimal_bytes(&b".".to_vec()));
    assert!(!is_decimal_bytes(&b"abc".to_vec()));
    assert!(!is_decimal_bytes(&b"1.2.3".to_vec()));
    assert!(!is_decimal_bytes(&b"1e".to_vec()));
}
