use microcad_parser::call::{CallArgumentValue, CallArgumentValueList};
use microcad_parser::format_spec::{parse_u32, FormatSpec, FormatSpecPart};
use microcad_parser::identifier::{Identifier, QualifiedName};
use microcad_parser::lang_type::{ListType, Ty, Type};
use microcad_parser::parameter::{Parameter, ParameterList, ParameterValue, ParameterValueList, TypeCheckResult};
use microcad_parser::parse_error::ParseError;
use microcad_parser::symbols::EvalError;

#[derive(Clone, Debug, PartialEq)]
enum Value {
    Integer(i64),
    Scalar(f64),
}

impl Ty for Value {
    fn spec_ty(&self) -> Type {
        self.ty()
    }

    fn ty(&self) -> Type {
        match self {
            Value::Integer(_) => Type::Integer,
            Value::Scalar(_) => Type::Scalar,
        }
    }
}

fn ident(s: &str) -> Identifier {
    Identifier::new(s)
}

fn param(name: &str, ty: Type, default: Option<Value>) -> ParameterValue<Value> {
    ParameterValue::new(ident(name), Some(ty), default)
}

fn arg(name: Option<&str>, value: Value) -> CallArgumentValue<Value> {
    CallArgumentValue::new(name.map(ident), value)
}

#[test]
fn call_get_matching_arguments() {
    // module my_module(foo: Integer, bar: Integer, baz: Scalar = 4.0)
    let param_values = ParameterValueList::new(vec![
        param("foo", Type::Integer, None),
        param("bar", Type::Integer, None),
        param("baz", Type::Scalar, Some(Value::Scalar(4.0))),
    ]);

    // my_module(1, bar = 2, baz = 3.0)
    let call_values = CallArgumentValueList::new(vec![
        arg(None, Value::Integer(1)),
        arg(Some("foo"), Value::Integer(2)),
        arg(Some("baz"), Value::Scalar(3.0)),
    ]);

    let arg_map = call_values.get_matching_arguments(&param_values).unwrap();

    assert_eq!(arg_map.get(&ident("foo")).unwrap(), &Value::Integer(2));
    assert_eq!(arg_map.get(&ident("bar")).unwrap(), &Value::Integer(1));
    assert_eq!(arg_map.get(&ident("baz")).unwrap(), &Value::Scalar(3.0));
}

#[test]
fn call_get_matching_arguments_missing() {
    let param_values = ParameterValueList::new(vec![
        param("foo", Type::Integer, None),
        param("bar", Type::Integer, None),
        param("baz", Type::Scalar, Some(Value::Scalar(4.0))),
    ]);
    let call_values = CallArgumentValueList::new(vec![
        arg(None, Value::Integer(1)),
        arg(Some("baz"), Value::Scalar(3.0)),
    ]);

    let arg_map = call_values.get_matching_arguments(&param_values);

    if let Err(EvalError::MissingArguments(missing)) = arg_map {
        assert_eq!(missing.len(), 1);
        assert_eq!(missing.get(0).as_str(), "bar");
    } else {
        panic!("Expected MissingArguments error");
    }
}

#[test]
fn unexpected_argument() {
    let param_values = ParameterValueList::new(vec![param("foo", Type::Integer, None)]);
    let call_values = CallArgumentValueList::new(vec![arg(Some("qux"), Value::Integer(1))]);
    match call_values.get_matching_arguments(&param_values) {
        Err(EvalError::UnexpectedArgument(name)) => assert_eq!(name.as_str(), "qux"),
        _ => panic!("expected an unexpected argument"),
    }
}

#[test]
fn defaults_and_positional_types() {
    let param_values = ParameterValueList::new(vec![
        param("a", Type::Scalar, None),
        param("b", Type::Integer, Some(Value::Integer(7))),
    ]);
    // An integer does not fit `a`; the scalar after it does.
    let call_values = CallArgumentValueList::new(vec![
        arg(None, Value::Integer(5)),
        arg(None, Value::Scalar(2.5)),
    ]);
    let m = call_values.get_matching_arguments(&param_values).unwrap();
    assert_eq!(m.len(), 2);
    assert_eq!(m.get(&ident("a")).unwrap(), &Value::Scalar(2.5));
    assert_eq!(m.get(&ident("b")).unwrap(), &Value::Integer(7));
}

#[test]
fn named_argument_of_wrong_type_leaves_parameter_missing() {
    let param_values = ParameterValueList::new(vec![param("a", Type::Scalar, None)]);
    let call_values = CallArgumentValueList::new(vec![arg(Some("a"), Value::Integer(1))]);
    match call_values.get_matching_arguments(&param_values) {
        Err(EvalError::MissingArguments(l)) => assert_eq!(l.get(0).as_str(), "a"),
        _ => panic!("expected missing arguments"),
    }
}

#[test]
fn last_named_argument_counts() {
    let mut list = CallArgumentValueList::new(vec![]);
    list.push(arg(Some("a"), Value::Integer(1)));
    list.push(arg(Some("a"), Value::Integer(2)));
    assert_eq!(list.len(), 2);
    assert_eq!(list.get_by_name(&ident("a")).unwrap().value, Value::Integer(2));
    assert!(list.get_by_name(&ident("b")).is_none());
}

#[test]
fn parameter_type_check() {
    let p: ParameterValue<Value> = param("x", Type::Integer, None);
    assert!(matches!(p.type_check(&Type::Integer), TypeCheckResult::Matches));
    let list_of_int = Type::List(ListType::from_type(Type::Integer));
    assert!(matches!(p.type_check(&list_of_int), TypeCheckResult::List));
    match p.type_check(&Type::Scalar) {
        TypeCheckResult::Mismatch(EvalError::ParameterTypeMismatch(n, s, t)) => {
            assert_eq!(n.as_str(), "x");
            assert!(s == Type::Integer);
            assert!(t == Type::Scalar);
        }
        _ => panic!("expected a mismatch"),
    }
    let any: ParameterValue<Value> = ParameterValue::new(ident("y"), None, None);
    assert!(any.type_matches(&Type::Scalar));
    assert!(matches!(any.type_check(&Type::String), TypeCheckResult::Matches));
}

#[test]
fn parameter_list_push_get_remove() {
    let mut list: ParameterValueList<Value> = ParameterValueList::new(vec![]);
    assert!(list.is_empty());
    assert!(list.push(param("a", Type::Integer, None)).is_ok());
    assert!(list.push(param("b", Type::Scalar, None)).is_ok());
    match list.push(param("a", Type::Scalar, None)) {
        Err(ParseError::DuplicateParameter(n)) => assert_eq!(n.as_str(), "a"),
        _ => panic!("expected a duplicate"),
    }
    assert_eq!(list.len(), 2);
    assert!(list.get(&ident("b")).unwrap().specified_type == Some(Type::Scalar));
    list.remove(&ident("a"));
    assert_eq!(list.len(), 1);
    assert!(list.get(&ident("a")).is_none());
    assert_eq!(list.at(0).name.as_str(), "b");
}

#[test]
fn format_spec_parts() {
    let spec = FormatSpec::from_parts(&vec![
        FormatSpecPart::Precision(".3".to_string()),
        FormatSpecPart::LeadingZeros("05".to_string()),
    ]);
    assert_eq!(spec, FormatSpec { precision: Some(3), leading_zeros: Some(5) });
    let none = FormatSpec::from_parts(&vec![]);
    assert_eq!(none, FormatSpec::default());
    let later = FormatSpec::from_parts(&vec![
        FormatSpecPart::Precision(".1".to_string()),
        FormatSpecPart::Precision(".12".to_string()),
    ]);
    assert_eq!(later.precision, Some(12));
    assert_eq!(later.leading_zeros, None);
}

#[test]
fn parse_u32_as_std() {
    for s in ["0", "42", "+7", "4294967295", "4294967296", "", "+", "-1", "1a", " 1", "007"] {
        let chars: Vec<char> = s.chars().collect();
        assert_eq!(parse_u32(&chars), s.parse::<u32>().ok(), "{s}");
    }
}

#[test]
fn qualified_name_in_error() {
    let q = QualifiedName::from_str("a.b");
    let e = EvalError::SymbolNotFound(q);
    assert!(matches!(e, EvalError::SymbolNotFound(_)));
}

#[test]
fn parameter_eval_with_default() {
    // `a: int = 1` keeps its type.
    let p: Parameter<&str> = Parameter::new(ident("a"), Some(Type::Integer), Some("1"));
    let v = p.eval_with(Some(Value::Integer(1))).unwrap();
    assert_eq!(v.name.as_str(), "a");
    assert!(v.specified_type == Some(Type::Integer));
    assert_eq!(v.default_value, Some(Value::Integer(1)));
    // `b = 2.0` takes the default's type.
    let q: Parameter<&str> = Parameter::new(ident("b"), None, Some("2.0"));
    let w = q.eval_with(Some(Value::Scalar(2.0))).unwrap();
    assert!(w.specified_type == Some(Type::Scalar));
    // `c: int = 2.0` is refused.
    let r: Parameter<&str> = Parameter::new(ident("c"), Some(Type::Integer), Some("2.0"));
    match r.eval_with(Some(Value::Scalar(2.0))) {
        Err(EvalError::ParameterTypeMismatch(n, t, u)) => {
            assert_eq!(n.as_str(), "c");
            assert!(t == Type::Integer);
            assert!(u == Type::Scalar);
        }
        _ => panic!("expected a mismatch"),
    }
    // `d` has neither type nor default.
    let s: Parameter<&str> = Parameter::new(ident("d"), None, None);
    let x = s.eval_with::<Value>(None).unwrap();
    assert!(x.specified_type.is_none());
    assert!(x.default_value.is_none());
}

#[test]
fn parameter_list_eval_with() {
    let mut list: ParameterList<&str> = ParameterList::new(vec![]);
    assert!(list.push(Parameter::new(ident("a"), Some(Type::Integer), None)).is_ok());
    assert!(list.push(Parameter::new(ident("b"), None, Some("4.0"))).is_ok());
    assert!(matches!(
        list.push(Parameter::new(ident("a"), None, None)),
        Err(ParseError::DuplicateParameter(_))
    ));
    assert_eq!(list.len(), 2);
    let values = list.eval_with(vec![None, Some(Value::Scalar(4.0))]).unwrap();
    assert_eq!(values.len(), 2);
    assert!(values.at(1).specified_type == Some(Type::Scalar));

    let bad: ParameterList<&str> = ParameterList::new(vec![
        Parameter::new(ident("x"), Some(Type::Scalar), Some("1")),
        Parameter::new(ident("y"), Some(Type::Integer), Some("1.0")),
    ]);
    match bad.eval_with(vec![Some(Value::Integer(1)), Some(Value::Scalar(1.0))]) {
        Err(EvalError::ParameterTypeMismatch(n, _, _)) => assert_eq!(n.as_str(), "x"),
        _ => panic!("expected the first mismatch"),
    }
}

#[test]
fn parameter_list_with_repeated_names() {
    // The index finds the last parameter of a name.
    let mut list = ParameterValueList::new(vec![
        param("a", Type::Integer, None),
        param("a", Type::Scalar, None),
    ]);
    assert_eq!(list.len(), 2);
    assert!(list.get(&ident("a")).unwrap().specified_type == Some(Type::Scalar));
    assert!(!list.is_empty());
    assert!(matches!(list.push(param("a", Type::String, None)), Err(ParseError::DuplicateParameter(_))));
    // Removing by name takes the indexed one; the other stays, unindexed.
    list.remove(&ident("a"));
    assert_eq!(list.len(), 1);
    assert!(list.at(0).specified_type == Some(Type::Integer));
    assert!(list.get(&ident("a")).is_none());
    assert!(list.is_empty());
    assert!(list.push(param("a", Type::String, None)).is_ok());
    assert_eq!(list.len(), 2);
    assert!(list.get(&ident("a")).unwrap().specified_type == Some(Type::String));
}

#[test]
fn repeated_parameter_bound_by_name() {
    let param_values = ParameterValueList::new(vec![
        param("a", Type::Integer, None),
        param("a", Type::Integer, None),
    ]);
    let call_values = CallArgumentValueList::new(vec![arg(Some("a"), Value::Integer(3))]);
    let m = call_values.get_matching_arguments(&param_values).unwrap();
    assert_eq!(m.len(), 1);
    assert_eq!(m.get(&ident("a")).unwrap(), &Value::Integer(3));
}

#[test]
fn defined_parameter_list_keeps_repeated_names() {
    let list: ParameterList<&str> = ParameterList::new(vec![
        Parameter::new(ident("a"), None, None),
        Parameter::new(ident("a"), None, None),
    ]);
    assert_eq!(list.len(), 2);
}
