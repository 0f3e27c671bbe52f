use microcad_parser::lang_type::{ListType, MapKeyType, MapType, Type, TypeList, TypeParseError};

#[test]
fn list_type() {
    let ty = Type::parse_str("[int]").unwrap();
    assert_eq!(ty.to_string(), "[int]");
    assert_eq!(ty, Type::List(ListType::from_type(Type::Integer)));
}

#[test]
fn map_type() {
    let ty = Type::parse_str("[int => string]").unwrap();
    assert_eq!(ty.to_string(), "[int => string]");
    assert_eq!(
        ty,
        Type::Mapping(MapType::from_types(MapKeyType::Integer, Type::String))
    );
}

#[test]
fn scalar_type() {
    assert_eq!(Type::parse_str("scalar").unwrap(), Type::Scalar);
}

#[test]
fn nested_type_roundtrip() {
    let t = Type::List(ListType::from_type(Type::Mapping(MapType::from_types(
        MapKeyType::Bool,
        Type::List(ListType::from_type(Type::Vec3)),
    ))));
    let text = t.to_text();
    assert_eq!(text, "[[bool => [vec3]]]");
    assert_eq!(Type::parse_str(&text).unwrap(), t);
}

#[test]
fn spaces_between_parts() {
    assert_eq!(
        Type::parse_str(" [ length ] ").unwrap(),
        Type::List(ListType::from_type(Type::Length))
    );
}

#[test]
fn parse_errors() {
    assert!(matches!(Type::parse_str(""), Err(TypeParseError::UnexpectedEnd)));
    assert!(matches!(Type::parse_str("[int"), Err(TypeParseError::UnexpectedEnd)));
    assert!(matches!(Type::parse_str("[int)"), Err(TypeParseError::UnexpectedChar(4))));
    assert!(matches!(Type::parse_str("int int"), Err(TypeParseError::TrailingInput(4))));
    match Type::parse_str("number") {
        Err(TypeParseError::UnknownType(n)) => assert_eq!(n, "number"),
        _ => panic!("expected unknown type"),
    }
    match Type::parse_str("[scalar => int]") {
        Err(TypeParseError::Type(microcad_parser::lang_type::TypeError::InvalidMapKeyType(n))) => {
            assert_eq!(n, "scalar")
        }
        _ => panic!("expected invalid map key"),
    }
}

#[test]
fn common_type() {
    assert_eq!(TypeList::from_types(vec![]).common_type(), None);
    assert_eq!(
        TypeList::from_types(vec![Type::Integer, Type::Integer]).common_type(),
        Some(Type::Integer)
    );
    assert_eq!(
        TypeList::from_types(vec![Type::Integer, Type::Scalar]).common_type(),
        None
    );
}

#[test]
fn list_of() {
    let l = Type::List(ListType::from_type(Type::Angle));
    assert!(l.is_list_of(&Type::Angle));
    assert!(!l.is_list_of(&Type::Scalar));
    assert!(!Type::Angle.is_list_of(&Type::Angle));
}
