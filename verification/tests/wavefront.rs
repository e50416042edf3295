use isotope::lexing::{parse_decimal, split_on, split_tokens};
use isotope::mtl::{MtlAction, MtlError, MtlKeyword, MtlReader};
use isotope::obj::{FaceVertex, ObjAction, ObjError, ObjReader};

fn toks(line: &str) -> Vec<Vec<u8>> {
    split_tokens(line.as_bytes())
}

#[test]
fn tokens_are_whitespace_separated() {
    assert_eq!(toks("  v 1.0  2\t3 \r"), vec![b"v".to_vec(), b"1.0".to_vec(), b"2".to_vec(), b"3".to_vec()]);
    assert!(toks("").is_empty());
    assert!(toks(" \t ").is_empty());
    assert_eq!(split_on(b"1//3", b'/'), vec![b"1".to_vec(), Vec::new(), b"3".to_vec()]);
    assert_eq!(split_on(b"", b'/'), vec![Vec::<u8>::new()]);
}

#[test]
fn tokens_split_on_unicode_whitespace_like_std() {
    let lines = [
        "v\u{a0}1.0\u{3000}2\u{2009}3",
        "f 1/2/3\u{85}4\u{1680}5\u{2028}6\u{2029}7\u{202f}8\u{205f}9\u{200a}10\u{2000}11",
        "usemtl caf\u{e9} \u{2019}x\u{2030}",
        "\u{b}\u{c}a\u{a0}\u{a0}b ",
    ];
    for line in lines {
        let expected: Vec<Vec<u8>> = line.split_whitespace().map(|t| t.as_bytes().to_vec()).collect();
        assert_eq!(toks(line), expected);
    }
    assert_eq!(toks("v\u{a0}1"), vec![b"v".to_vec(), b"1".to_vec()]);
}

#[test]
fn decimal_numbers_parse_like_std() {
    assert_eq!(parse_decimal(b"123", u64::MAX), Some(123));
    assert_eq!(parse_decimal(b"+7", u64::MAX), Some(7));
    assert_eq!(parse_decimal(b"007", u64::MAX), Some(7));
    assert_eq!(parse_decimal(b"", u64::MAX), None);
    assert_eq!(parse_decimal(b"+", u64::MAX), None);
    assert_eq!(parse_decimal(b"-1", u64::MAX), None);
    assert_eq!(parse_decimal(b"12a", u64::MAX), None);
    assert_eq!(parse_decimal(b"4294967295", u32::MAX as u64), Some(4294967295));
    assert_eq!(parse_decimal(b"4294967296", u32::MAX as u64), None);
    assert_eq!(parse_decimal(b"18446744073709551615", u64::MAX), Some(u64::MAX));
    assert_eq!(parse_decimal(b"18446744073709551616", u64::MAX), None);
    for s in ["0", "42", "+9", "99999999999999999999", "1_0", " 1"] {
        assert_eq!(parse_decimal(s.as_bytes(), u64::MAX), s.parse::<u64>().ok());
    }
}

fn read(reader: &mut ObjReader, line: &str) -> Result<ObjAction, ObjError> {
    let t = toks(line);
    assert!(reader.can_read_line(&t));
    reader.read_line(&t)
}

#[test]
fn obj_meshes_are_built_from_faces() {
    let mut reader = ObjReader::new();
    assert!(matches!(read(&mut reader, "mtllib cube.mtl"), Ok(ObjAction::MaterialLibrary { ref path }) if path == b"cube.mtl"));
    reader.materials_loaded(vec![b"Blue".to_vec(), b"Red".to_vec(), b"Red".to_vec()]);

    match read(&mut reader, "o Cube") {
        Ok(ObjAction::Object { finished, label, material }) => {
            assert!(finished.is_none());
            assert_eq!(label, b"Cube".to_vec());
            assert_eq!(material, None);
        }
        _ => panic!("expected an object"),
    }
    reader.object_found(false);

    for line in ["v 0 0 0", "v 1 0 0", "v 0 1 0"] {
        assert!(matches!(read(&mut reader, line), Ok(ObjAction::Position)));
    }
    assert!(matches!(read(&mut reader, "vt 0 0"), Ok(ObjAction::TexCoord)));
    assert!(matches!(read(&mut reader, "vn 0 0 1"), Ok(ObjAction::Normal)));
    assert!(matches!(read(&mut reader, "usemtl Red"), Ok(ObjAction::Nothing)));
    assert!(matches!(read(&mut reader, "# a comment"), Ok(ObjAction::Nothing)));
    assert!(matches!(read(&mut reader, "f 1/1/1 2/1/1 3/1/1"), Ok(ObjAction::Nothing)));
    assert!(matches!(read(&mut reader, "f 3/1/1 2/1/1"), Ok(ObjAction::Nothing)));

    match read(&mut reader, "o Other") {
        Ok(ObjAction::Object { finished: Some(mesh), label, material }) => {
            assert_eq!(mesh.label, b"Cube".to_vec());
            assert_eq!(
                mesh.vertices,
                vec![
                    FaceVertex { position: 0, uv: 0, normal: 0 },
                    FaceVertex { position: 1, uv: 0, normal: 0 },
                    FaceVertex { position: 2, uv: 0, normal: 0 },
                    FaceVertex { position: 2, uv: 0, normal: 0 },
                    FaceVertex { position: 1, uv: 0, normal: 0 },
                ]
            );
            assert_eq!(mesh.indices, vec![0, 1, 2, 3, 4]);
            assert_eq!(label, b"Other".to_vec());
            assert_eq!(material, Some(1));
        }
        _ => panic!("expected the finished cube"),
    }
    // `Other` is already shared: its vertex and face lines are skipped
    reader.object_found(true);
    assert!(matches!(read(&mut reader, "v 5 5 5"), Ok(ObjAction::Nothing)));
    assert!(matches!(read(&mut reader, "f 9/9/9"), Ok(ObjAction::Nothing)));
    assert!(matches!(read(&mut reader, "usemtl Missing"), Ok(ObjAction::Nothing)));
    assert!(reader.finish().is_none());
}

#[test]
fn obj_face_errors() {
    let mut reader = ObjReader::new();
    for line in ["v 0 0 0", "vt 0 0", "vn 0 0 1"] {
        _ = read(&mut reader, line);
    }
    // an index that is no number fails the line
    assert_eq!(read(&mut reader, "f x/1/1").err(), Some(ObjError::InvalidIndex));
    assert_eq!(read(&mut reader, "f 1//1").err(), Some(ObjError::InvalidIndex));
    // index 0, an index past the vertices read, or a missing field cannot be read
    assert!(!reader.can_read_line(&toks("f 0/1/1")));
    assert!(!reader.can_read_line(&toks("f 2/1/1")));
    assert!(!reader.can_read_line(&toks("f 1/1")));
    assert!(!reader.can_read_line(&toks("o")));
    assert!(!reader.can_read_line(&toks("v 1 2")));
    assert!(reader.can_read_line(&toks("f 1/1/1 1/1/1")));
    // without an object the face is read and dropped
    assert!(matches!(read(&mut reader, "f 1/1/1"), Ok(ObjAction::Nothing)));
    assert!(reader.finish().is_none());
}

fn read_mtl(reader: &mut MtlReader, line: &str) -> Result<MtlAction, MtlError> {
    let t = toks(line);
    assert!(reader.can_read_line(&t));
    reader.read_line(&t)
}

#[test]
fn mtl_materials_and_properties() {
    let mut reader = MtlReader::new();
    assert!(matches!(
        read_mtl(&mut reader, "Ns 10"),
        Ok(MtlAction::Property { keyword: MtlKeyword::SpecularFocus, has_target: false })
    ));
    assert_eq!(read_mtl(&mut reader, "illum 2").err(), Some(MtlError::NoCurrentMaterial));

    match read_mtl(&mut reader, "newmtl Red") {
        Ok(MtlAction::NewMaterial { finish_current, label }) => {
            assert!(!finish_current);
            assert_eq!(label, b"Red".to_vec());
        }
        _ => panic!("expected a material"),
    }
    reader.material_found(false);
    assert!(matches!(
        read_mtl(&mut reader, "Kd 1 0 0"),
        Ok(MtlAction::Property { keyword: MtlKeyword::Diffuse, has_target: true })
    ));
    assert!(matches!(read_mtl(&mut reader, "illum 2"), Ok(MtlAction::Illumination(2))));
    assert_eq!(read_mtl(&mut reader, "illum two").err(), Some(MtlError::InvalidNumber));
    assert!(matches!(
        read_mtl(&mut reader, "map_Kd red.png"),
        Ok(MtlAction::Texture { ref name, has_target: true }) if name == b"red.png"
    ));
    assert!(!reader.can_read_line(&toks("Ka 1 1")));

    match read_mtl(&mut reader, "newmtl Blue") {
        Ok(MtlAction::NewMaterial { finish_current, label }) => {
            assert!(finish_current);
            assert_eq!(label, b"Blue".to_vec());
        }
        _ => panic!("expected a material"),
    }
    reader.material_found(true);
    assert!(matches!(read_mtl(&mut reader, "Ka 1 1"), Ok(MtlAction::Nothing)));
    assert!(!reader.finish());
}
