//! The types of µcad values and their textual form.
//!
//! A type is written as a name (`int`, `scalar`, `string`, ...), as `[T]` for a
//! list of `T`, or as `[K => V]` for a map from keys of type `K` to values of
//! type `V`; white space may stand between the parts.  [`Type::to_text`]
//! writes a type and [`Type::parse_str`] reads one back.
use crate::identifier::Identifier;
use crate::text::{chars_of, push_char, string_of, sub_chars};
use vstd::prelude::*;

verus! {

/// The type of a value.
#[derive(Debug)]
pub enum Type {
    Integer,
    Scalar,
    String,
    Color,
    Length,
    Angle,
    Vec2,
    Vec3,
    Vec4,
    Bool,
    List(ListType),
    Mapping(MapType),
}

/// The type of a list, by the type of its elements.
#[derive(Debug)]
pub struct ListType(pub Box<Type>);

/// The types that can be keys of a map.
#[derive(Debug, Clone, Copy, PartialEq, Eq, Structural)]
pub enum MapKeyType {
    Integer,
    Bool,
    String,
}

/// The type of a map: its key type and its value type.
#[derive(Debug)]
pub struct MapType(pub MapKeyType, pub Box<Type>);

/// Errors about types.
#[derive(Debug)]
pub enum TypeError {
    /// The type, written as text, cannot be the key of a map.
    InvalidMapKeyType(String),
    /// A field name occurs twice.
    DuplicatedMapField(Identifier),
}

/// Why a text is not a type.
#[derive(Debug)]
pub enum TypeParseError {
    /// The text ends where a type or a bracket is due.
    UnexpectedEnd,
    /// A character that no type can hold at this place, by its index.
    UnexpectedChar(usize),
    /// A name that is no type.
    UnknownType(String),
    /// The key type of a map cannot be a key.
    Type(TypeError),
    /// Text after a complete type, from this index.
    TrailingInput(usize),
}

/// The mathematical value of a [`TypeParseError`].
pub enum ParseFailure {
    UnexpectedEnd,
    UnexpectedChar(int),
    UnknownType(Seq<char>),
    InvalidMapKeyType(Seq<char>),
    DuplicatedMapField(Seq<char>),
    TrailingInput(int),
}

impl View for TypeParseError {
    type V = ParseFailure;

    open spec fn view(&self) -> ParseFailure {
        match self {
            TypeParseError::UnexpectedEnd => ParseFailure::UnexpectedEnd,
            TypeParseError::UnexpectedChar(i) => ParseFailure::UnexpectedChar(*i as int),
            TypeParseError::UnknownType(n) => ParseFailure::UnknownType(n@),
            TypeParseError::Type(TypeError::InvalidMapKeyType(n)) => ParseFailure::InvalidMapKeyType(n@),
            TypeParseError::Type(TypeError::DuplicatedMapField(n)) => ParseFailure::DuplicatedMapField(n@),
            TypeParseError::TrailingInput(i) => ParseFailure::TrailingInput(*i as int),
        }
    }
}

/// Whether two types are the same.
fn type_equals(a: &Type, b: &Type) -> (r: bool)
    ensures
        r == (*a == *b),
    decreases a,
{
    match (a, b) {
        (Type::Integer, Type::Integer) => true,
        (Type::Scalar, Type::Scalar) => true,
        (Type::String, Type::String) => true,
        (Type::Color, Type::Color) => true,
        (Type::Length, Type::Length) => true,
        (Type::Angle, Type::Angle) => true,
        (Type::Vec2, Type::Vec2) => true,
        (Type::Vec3, Type::Vec3) => true,
        (Type::Vec4, Type::Vec4) => true,
        (Type::Bool, Type::Bool) => true,
        (Type::List(x), Type::List(y)) => type_equals(&x.0, &y.0),
        (Type::Mapping(x), Type::Mapping(y)) => x.0 == y.0 && type_equals(&x.1, &y.1),
        _ => false,
    }
}

impl PartialEq for Type {
    fn eq(&self, other: &Type) -> (r: bool) {
        type_equals(self, other)
    }
}

impl vstd::std_specs::cmp::PartialEqSpecImpl for Type {
    open spec fn obeys_eq_spec() -> bool {
        true
    }

    open spec fn eq_spec(&self, other: &Type) -> bool {
        *self == *other
    }
}

impl Eq for Type {
}

/// A value that has a type.
pub trait Ty {
    /// The type of this value.
    spec fn spec_ty(&self) -> Type;

    /// The type of this value.
    fn ty(&self) -> (t: Type)
        ensures
            t == self.spec_ty(),
    ;
}

// ---------------------------------------------------------------------------
// The text of a type
// ---------------------------------------------------------------------------

/// The name of a type that has one.
pub open spec fn base_name(t: Type) -> Seq<char> {
    match t {
        Type::Integer => seq!['i', 'n', 't'],
        Type::Scalar => seq!['s', 'c', 'a', 'l', 'a', 'r'],
        Type::String => seq!['s', 't', 'r', 'i', 'n', 'g'],
        Type::Color => seq!['c', 'o', 'l', 'o', 'r'],
        Type::Length => seq!['l', 'e', 'n', 'g', 't', 'h'],
        Type::Angle => seq!['a', 'n', 'g', 'l', 'e'],
        Type::Vec2 => seq!['v', 'e', 'c', '2'],
        Type::Vec3 => seq!['v', 'e', 'c', '3'],
        Type::Vec4 => seq!['v', 'e', 'c', '4'],
        Type::Bool => seq!['b', 'o', 'o', 'l'],
        _ => Seq::empty(),
    }
}

/// The type that a key type stands for.
pub open spec fn key_type(k: MapKeyType) -> Type {
    match k {
        MapKeyType::Integer => Type::Integer,
        MapKeyType::Bool => Type::Bool,
        MapKeyType::String => Type::String,
    }
}

/// The key type that a type stands for, if it can be a key.
pub open spec fn as_key(t: Type) -> Option<MapKeyType> {
    match t {
        Type::Integer => Some(MapKeyType::Integer),
        Type::Bool => Some(MapKeyType::Bool),
        Type::String => Some(MapKeyType::String),
        _ => None,
    }
}

/// The text of a type: its name, `[T]` for a list, `[K => V]` for a map.
pub open spec fn type_text(t: Type) -> Seq<char>
    decreases t,
{
    match t {
        Type::List(l) => seq!['['] + type_text(*l.0) + seq![']'],
        Type::Mapping(m) => seq!['['] + base_name(key_type(m.0)) + seq![' ', '=', '>', ' '] + type_text(
            *m.1,
        ) + seq![']'],
        _ => base_name(t),
    }
}

// ---------------------------------------------------------------------------
// Reading a type
// ---------------------------------------------------------------------------

/// White space between the parts of a type.
pub open spec fn is_space(c: char) -> bool {
    c == ' ' || c == '\t' || c == '\r' || c == '\n'
}

/// A character of a type name.
pub open spec fn is_name_char(c: char) -> bool {
    ('a' <= c && c <= 'z') || ('A' <= c && c <= 'Z') || ('0' <= c && c <= '9') || c == '_'
}

/// The index of the first character at or after `i` that is not white space.
pub open spec fn skip_space(s: Seq<char>, i: int) -> int
    decreases s.len() - i,
{
    if 0 <= i < s.len() && is_space(s[i]) {
        skip_space(s, i + 1)
    } else {
        i
    }
}

/// The index just after the run of name characters that starts at `i`.
pub open spec fn name_end(s: Seq<char>, i: int) -> int
    decreases s.len() - i,
{
    if 0 <= i < s.len() && is_name_char(s[i]) {
        name_end(s, i + 1)
    } else {
        i
    }
}

/// The type with this name.
pub open spec fn named_type(n: Seq<char>) -> Option<Type> {
    if n == base_name(Type::Integer) {
        Some(Type::Integer)
    } else if n == base_name(Type::Scalar) {
        Some(Type::Scalar)
    } else if n == base_name(Type::String) {
        Some(Type::String)
    } else if n == base_name(Type::Color) {
        Some(Type::Color)
    } else if n == base_name(Type::Length) {
        Some(Type::Length)
    } else if n == base_name(Type::Angle) {
        Some(Type::Angle)
    } else if n == base_name(Type::Vec2) {
        Some(Type::Vec2)
    } else if n == base_name(Type::Vec3) {
        Some(Type::Vec3)
    } else if n == base_name(Type::Vec4) {
        Some(Type::Vec4)
    } else if n == base_name(Type::Bool) {
        Some(Type::Bool)
    } else {
        None
    }
}

pub proof fn lemma_skip_space(s: Seq<char>, i: int)
    ensures
        skip_space(s, i) >= i,
        i <= s.len() ==> skip_space(s, i) <= s.len(),
        forall|j: int| i <= j < skip_space(s, i) ==> is_space(#[trigger] s[j]),
        0 <= skip_space(s, i) < s.len() ==> !is_space(s[skip_space(s, i)]),
    decreases s.len() - i,
{
    if 0 <= i < s.len() && is_space(s[i]) {
        lemma_skip_space(s, i + 1);
    }
}

pub proof fn lemma_name_end(s: Seq<char>, i: int)
    ensures
        name_end(s, i) >= i,
        i <= s.len() ==> name_end(s, i) <= s.len(),
        forall|j: int| i <= j < name_end(s, i) ==> is_name_char(#[trigger] s[j]),
        0 <= name_end(s, i) < s.len() ==> !is_name_char(s[name_end(s, i)]),
    decreases s.len() - i,
{
    if 0 <= i < s.len() && is_name_char(s[i]) {
        lemma_name_end(s, i + 1);
    }
}

/// Reads a type that starts at index `i`, after optional white space; gives
/// the type and the index just after it.
pub open spec fn parse_type_at(s: Seq<char>, i: int) -> Result<(Type, int), ParseFailure>
    decreases s.len() - i,
{
    if i < 0 {
        Err(ParseFailure::UnexpectedEnd)
    } else {
        let p = skip_space(s, i);
        proof {
            lemma_skip_space(s, i);
        }
        if p >= s.len() {
            Err(ParseFailure::UnexpectedEnd)
        } else if s[p] == '[' {
            match parse_type_at(s, p + 1) {
                Err(e) => Err(e),
                Ok((first, j0)) => {
                    let j = skip_space(s, j0);
                    if j <= p {
                        Err(ParseFailure::UnexpectedEnd)
                    } else if j >= s.len() {
                        Err(ParseFailure::UnexpectedEnd)
                    } else if s[j] == ']' {
                        Ok((Type::List(ListType(Box::new(first))), j + 1))
                    } else if s[j] == '=' && j + 1 < s.len() && s[j + 1] == '>' {
                        match as_key(first) {
                            None => Err(ParseFailure::InvalidMapKeyType(type_text(first))),
                            Some(k) => match parse_type_at(s, j + 2) {
                                Err(e) => Err(e),
                                Ok((second, m0)) => {
                                    let m = skip_space(s, m0);
                                    if m < 0 || m >= s.len() {
                                        Err(ParseFailure::UnexpectedEnd)
                                    } else if s[m] == ']' {
                                        Ok((Type::Mapping(MapType(k, Box::new(second))), m + 1))
                                    } else {
                                        Err(ParseFailure::UnexpectedChar(m))
                                    }
                                },
                            },
                        }
                    } else {
                        Err(ParseFailure::UnexpectedChar(j))
                    }
                },
            }
        } else {
            let e = name_end(s, p);
            if e == p {
                Err(ParseFailure::UnexpectedChar(p))
            } else {
                match named_type(s.subrange(p, e)) {
                    Some(t) => Ok((t, e)),
                    None => Err(ParseFailure::UnknownType(s.subrange(p, e))),
                }
            }
        }
    }
}

/// Reads a whole text as one type, white space around it allowed.
pub open spec fn parse_type(s: Seq<char>) -> Result<Type, ParseFailure> {
    match parse_type_at(s, 0) {
        Err(e) => Err(e),
        Ok((t, j)) => if skip_space(s, j) == s.len() {
            Ok(t)
        } else {
            Err(ParseFailure::TrailingInput(skip_space(s, j)))
        },
    }
}

/// White space before a type does not change what is read.
proof fn lemma_parse_after_space(s: Seq<char>, i: int)
    requires
        0 <= i < s.len(),
        is_space(s[i]),
    ensures
        parse_type_at(s, i) == parse_type_at(s, i + 1),
{
    assert(skip_space(s, i) == skip_space(s, i + 1));
}

/// A type that is read ends after where it starts, within the text.
pub proof fn lemma_parse_advances(s: Seq<char>, i: int)
    ensures
        parse_type_at(s, i) matches Ok((_, j)) ==> i < j <= s.len(),
    decreases s.len() - i,
{
    if i >= 0 {
        let p = skip_space(s, i);
        lemma_skip_space(s, i);
        if p < s.len() {
            if s[p] == '[' {
                lemma_parse_advances(s, p + 1);
                if let Ok((first, j0)) = parse_type_at(s, p + 1) {
                    let j = skip_space(s, j0);
                    lemma_skip_space(s, j0);
                    if j > p && j < s.len() && s[j] == '=' && j + 1 < s.len() && s[j + 1] == '>' {
                        lemma_parse_advances(s, j + 2);
                        if let Ok((second, m0)) = parse_type_at(s, j + 2) {
                            lemma_skip_space(s, m0);
                        }
                    }
                }
            } else {
                lemma_name_end(s, p);
            }
        }
    }
}

// ---------------------------------------------------------------------------
// Laws
// ---------------------------------------------------------------------------

/// Every type text starts with a character that is no white space.
proof fn lemma_text_start(t: Type)
    ensures
        type_text(t).len() > 0,
        !is_space(type_text(t)[0]),
        type_text(t)[0] == '[' || is_name_char(type_text(t)[0]),
        type_text(t)[0] == '[' <==> (t is List || t is Mapping),
{
}

/// Reading the text of a type, where it stands at index `i` and no name
/// character follows it, gives the type back and ends just after the text.
proof fn lemma_parse_text_at(t: Type, s: Seq<char>, i: int)
    requires
        0 <= i,
        i + type_text(t).len() <= s.len(),
        s.subrange(i, i + type_text(t).len()) == type_text(t),
        i + type_text(t).len() < s.len() ==> !is_name_char(s[i + type_text(t).len()]),
    ensures
        parse_type_at(s, i) == Ok::<(Type, int), ParseFailure>((t, i + type_text(t).len())),
    decreases t,
{
    let n = type_text(t).len();
    lemma_text_start(t);
    assert(s[i] == type_text(t)[0]);
    assert(skip_space(s, i) == i);
    match t {
        Type::List(l) => {
            let inner = *l.0;
            let it = type_text(inner);
            assert(type_text(t) == seq!['['] + it + seq![']']);
            assert(s.subrange(i + 1, i + 1 + it.len()) =~= it) by {
                assert forall|k: int| 0 <= k < it.len() implies s.subrange(i + 1, i + 1 + it.len())[k]
                    == it[k] by {
                    assert(s[i + 1 + k] == s.subrange(i, i + n)[1 + k]);
                }
            }
            assert(s[i + 1 + it.len()] == s.subrange(i, i + n)[(1 + it.len()) as int]);
            lemma_parse_text_at(inner, s, i + 1);
            lemma_text_start(inner);
            let j = i + 1 + it.len();
            assert(s[j] == ']');
            assert(skip_space(s, j) == j);
            assert(t == Type::List(ListType(Box::new(inner))));
            assert(parse_type_at(s, i + 1) == Ok::<(Type, int), ParseFailure>((inner, j)));
            assert(j < s.len());
            assert(j > i);
            assert(type_text(t).len() == it.len() + 2);
            assert(parse_type_at(s, i) == Ok::<(Type, int), ParseFailure>((t, j + 1)));
            assert(parse_type_at(s, i) == Ok::<(Type, int), ParseFailure>((t, i + type_text(t).len())));
        },
        Type::Mapping(m) => {
            let k = m.0;
            let kt = key_type(k);
            let v = *m.1;
            let ktext = type_text(kt);
            let vt = type_text(v);
            assert(type_text(t) == seq!['['] + ktext + seq![' ', '=', '>', ' '] + vt + seq![']']);
            assert(s.subrange(i + 1, i + 1 + ktext.len()) =~= ktext) by {
                assert forall|q: int| 0 <= q < ktext.len() implies s.subrange(i + 1, i + 1 + ktext.len())[q]
                    == ktext[q] by {
                    assert(s[i + 1 + q] == s.subrange(i, i + n)[1 + q]);
                }
            }
            let a = i + 1 + ktext.len();
            assert(s[a] == s.subrange(i, i + n)[(1 + ktext.len()) as int]);
            assert(s[a + 1] == s.subrange(i, i + n)[(2 + ktext.len()) as int]);
            assert(s[a + 2] == s.subrange(i, i + n)[(3 + ktext.len()) as int]);
            assert(s[a + 3] == s.subrange(i, i + n)[(4 + ktext.len()) as int]);
            lemma_parse_name_at(kt, s, i + 1);
            assert(s[a] == ' ');
            assert(skip_space(s, a + 1) == a + 1);
            assert(skip_space(s, a) == a + 1);
            assert(s.subrange(a + 4, a + 4 + vt.len()) =~= vt) by {
                assert forall|q: int| 0 <= q < vt.len() implies s.subrange(a + 4, a + 4 + vt.len())[q]
                    == vt[q] by {
                    assert(s[a + 4 + q] == s.subrange(i, i + n)[5 + ktext.len() + q]);
                }
            }
            assert(s[a + 4 + vt.len()] == s.subrange(i, i + n)[(5 + ktext.len() + vt.len()) as int]);
            lemma_parse_text_at(v, s, a + 4);
            lemma_text_start(v);
            assert(s[a + 3] == ' ');
            assert(skip_space(s, a + 3) == a + 4);
            lemma_parse_after_space(s, a + 3);
            assert(as_key(kt) == Some(k));
            assert(skip_space(s, a + 4 + vt.len()) == a + 4 + vt.len());
            assert(type_text(t).len() == ktext.len() + vt.len() + 6);
            assert(parse_type_at(s, i) == Ok::<(Type, int), ParseFailure>((t, i + type_text(t).len())));
        },
        _ => {
            lemma_parse_name_at(t, s, i);
        },
    }
}

/// Reading a type name, where it stands at index `i` and no name character
/// follows it.
proof fn lemma_parse_name_at(t: Type, s: Seq<char>, i: int)
    requires
        !(t is List || t is Mapping),
        0 <= i,
        i + type_text(t).len() <= s.len(),
        s.subrange(i, i + type_text(t).len()) == type_text(t),
        i + type_text(t).len() < s.len() ==> !is_name_char(s[i + type_text(t).len()]),
    ensures
        parse_type_at(s, i) == Ok::<(Type, int), ParseFailure>((t, i + type_text(t).len())),
{
    let n = type_text(t).len();
    lemma_text_start(t);
    assert(s[i] == type_text(t)[0]);
    assert(skip_space(s, i) == i);
    lemma_name_end(s, i);
    assert forall|q: int| i <= q < i + n implies is_name_char(#[trigger] s[q]) by {
        assert(s[q] == s.subrange(i, i + n)[q - i]);
    }
    lemma_name_end_run(s, i, i + n);
    assert(s.subrange(i, i + n) == base_name(t));
}

/// A run of name characters ended by a non-name character, or the end.
proof fn lemma_name_end_run(s: Seq<char>, i: int, e: int)
    requires
        0 <= i <= e <= s.len(),
        forall|q: int| i <= q < e ==> is_name_char(#[trigger] s[q]),
        e < s.len() ==> !is_name_char(s[e]),
    ensures
        name_end(s, i) == e,
    decreases e - i,
{
    if i < e {
        lemma_name_end_run(s, i + 1, e);
    }
}

/// Reading the text of a type gives that type back.
pub proof fn lemma_parse_type_text(t: Type)
    ensures
        parse_type(type_text(t)) == Ok::<Type, ParseFailure>(t),
{
    let s = type_text(t);
    assert(s.subrange(0, s.len() as int) =~= s);
    lemma_parse_text_at(t, s, 0);
}

// ---------------------------------------------------------------------------
// Executable functions
// ---------------------------------------------------------------------------

impl MapKeyType {
    /// The key type that `t` stands for, or an error where `t` cannot be a
    /// map key.
    pub fn from_type(t: &Type) -> (r: Result<MapKeyType, TypeError>)
        ensures
            r matches Ok(k) ==> as_key(*t) == Some(k),
            r matches Err(e) ==> as_key(*t) is None && (e matches TypeError::InvalidMapKeyType(n)
                && n@ == type_text(*t)),
    {
        match t {
            Type::Integer => Ok(MapKeyType::Integer),
            Type::Bool => Ok(MapKeyType::Bool),
            Type::String => Ok(MapKeyType::String),
            _ => Err(TypeError::InvalidMapKeyType(t.to_text())),
        }
    }

    /// The type that this key type stands for.
    pub fn to_type(&self) -> (t: Type)
        ensures
            t == key_type(*self),
    {
        match self {
            MapKeyType::Integer => Type::Integer,
            MapKeyType::Bool => Type::Bool,
            MapKeyType::String => Type::String,
        }
    }
}

impl ListType {
    /// The list type with elements of type `t`.
    pub fn from_type(t: Type) -> (l: ListType)
        ensures
            *l.0 == t,
    {
        ListType(Box::new(t))
    }
}

impl Ty for ListType {
    open spec fn spec_ty(&self) -> Type {
        *self.0
    }

    /// The type of the elements.
    fn ty(&self) -> (t: Type) {
        self.0.copy()
    }
}

impl MapType {
    /// The map type with keys of type `key` and values of type `value`.
    pub fn from_types(key: MapKeyType, value: Type) -> (m: MapType)
        ensures
            m.0 == key,
            *m.1 == value,
    {
        MapType(key, Box::new(value))
    }
}

/// A name of a type as a `String`.
fn name_string(t: &Type) -> (s: String)
    requires
        !(t is List || t is Mapping),
    ensures
        s@ == base_name(*t),
{
    let v: Vec<char> = match t {
        Type::Integer => vec!['i', 'n', 't'],
        Type::Scalar => vec!['s', 'c', 'a', 'l', 'a', 'r'],
        Type::String => vec!['s', 't', 'r', 'i', 'n', 'g'],
        Type::Color => vec!['c', 'o', 'l', 'o', 'r'],
        Type::Length => vec!['l', 'e', 'n', 'g', 't', 'h'],
        Type::Angle => vec!['a', 'n', 'g', 'l', 'e'],
        Type::Vec2 => vec!['v', 'e', 'c', '2'],
        Type::Vec3 => vec!['v', 'e', 'c', '3'],
        Type::Vec4 => vec!['v', 'e', 'c', '4'],
        _ => vec!['b', 'o', 'o', 'l'],
    };
    assert(v@ =~= base_name(*t));
    string_of(&v)
}

/// The type named `n`.
fn type_named(n: &Vec<char>) -> (r: Option<Type>)
    ensures
        r == named_type(n@),
{
    let names: [Type; 10] = [
        Type::Integer,
        Type::Scalar,
        Type::String,
        Type::Color,
        Type::Length,
        Type::Angle,
        Type::Vec2,
        Type::Vec3,
        Type::Vec4,
        Type::Bool,
    ];
    let mut k: usize = 0;
    while k < 10
        invariant
            k <= 10,
            names@ == seq![
                Type::Integer,
                Type::Scalar,
                Type::String,
                Type::Color,
                Type::Length,
                Type::Angle,
                Type::Vec2,
                Type::Vec3,
                Type::Vec4,
                Type::Bool,
            ],
            forall|q: int| 0 <= q < k ==> n@ != base_name(#[trigger] names@[q]),
        decreases 10 - k,
    {
        let candidate = name_string(&names[k]);
        if crate::text::chars_eq(n, &chars_of(candidate.as_str())) {
            let t = names[k].copy();
            return Some(t);
        }
        k = k + 1;
    }
    None
}

impl Type {
    /// A copy of this type.
    pub fn copy(&self) -> (t: Type)
        ensures
            t == *self,
        decreases self,
    {
        match self {
            Type::Integer => Type::Integer,
            Type::Scalar => Type::Scalar,
            Type::String => Type::String,
            Type::Color => Type::Color,
            Type::Length => Type::Length,
            Type::Angle => Type::Angle,
            Type::Vec2 => Type::Vec2,
            Type::Vec3 => Type::Vec3,
            Type::Vec4 => Type::Vec4,
            Type::Bool => Type::Bool,
            Type::List(l) => Type::List(ListType(Box::new(l.0.copy()))),
            Type::Mapping(m) => Type::Mapping(MapType(m.0, Box::new(m.1.copy()))),
        }
    }

    /// The text of this type: its name, `[T]` for a list, `[K => V]` for a
    /// map.
    pub fn to_text(&self) -> (s: String)
        ensures
            s@ == type_text(*self),
        decreases self,
    {
        match self {
            Type::List(l) => {
                let mut s = String::new();
                push_char(&mut s, '[');
                s.append(l.0.to_text().as_str());
                push_char(&mut s, ']');
                assert(s@ =~= seq!['['] + type_text(*l.0) + seq![']']);
                s
            },
            Type::Mapping(m) => {
                let mut s = String::new();
                push_char(&mut s, '[');
                s.append(name_string(&m.0.to_type()).as_str());
                push_char(&mut s, ' ');
                push_char(&mut s, '=');
                push_char(&mut s, '>');
                push_char(&mut s, ' ');
                s.append(m.1.to_text().as_str());
                push_char(&mut s, ']');
                assert(s@ =~= seq!['['] + base_name(key_type(m.0)) + seq![' ', '=', '>', ' ']
                    + type_text(*m.1) + seq![']']);
                s
            },
            _ => name_string(self),
        }
    }

    /// The same as [`Type::to_text`].
    pub fn to_string(&self) -> (s: String)
        ensures
            s@ == type_text(*self),
    {
        self.to_text()
    }

    /// Whether this is the type of lists of `ty`.
    pub fn is_list_of(&self, ty: &Type) -> (r: bool)
        ensures
            r == (*self matches Type::List(l) && *l.0 == *ty),
    {
        match self {
            Type::List(l) => *l.0 == *ty,
            _ => false,
        }
    }

    /// Reads a type from text; white space may stand around it and between
    /// its parts.
    pub fn parse_str(s: &str) -> (r: Result<Type, TypeParseError>)
        ensures
            r matches Ok(t) ==> parse_type(s@) == Ok::<Type, ParseFailure>(t),
            r matches Err(e) ==> parse_type(s@) == Err::<Type, ParseFailure>(e@),
    {
        let v = chars_of(s);
        match parse_at(&v, 0) {
            Err(e) => Err(e),
            Ok((t, j)) => {
                proof {
                    lemma_parse_advances(v@, 0);
                }
                let k = skip_spaces(&v, j);
                if k == v.len() {
                    Ok(t)
                } else {
                    Err(TypeParseError::TrailingInput(k))
                }
            },
        }
    }
}

/// The index of the first character at or after `i` that is not white space.
fn skip_spaces(v: &Vec<char>, i: usize) -> (r: usize)
    requires
        i <= v.len(),
    ensures
        r == skip_space(v@, i as int),
        i <= r <= v.len(),
{
    let mut k = i;
    while k < v.len() && (v[k] == ' ' || v[k] == '\t' || v[k] == '\r' || v[k] == '\n')
        invariant
            i <= k <= v.len(),
            skip_space(v@, i as int) == skip_space(v@, k as int),
        decreases v.len() - k,
    {
        k = k + 1;
    }
    k
}

/// Reads a type that starts at index `i`, after optional white space.
fn parse_at(v: &Vec<char>, i: usize) -> (r: Result<(Type, usize), TypeParseError>)
    requires
        i <= v.len(),
    ensures
        r matches Ok((t, j)) ==> parse_type_at(v@, i as int) == Ok::<(Type, int), ParseFailure>(
            (t, j as int),
        ),
        r matches Err(e) ==> parse_type_at(v@, i as int) == Err::<(Type, int), ParseFailure>(e@),
    decreases v.len() - i,
{
    let p = skip_spaces(v, i);
    if p >= v.len() {
        return Err(TypeParseError::UnexpectedEnd);
    }
    if v[p] == '[' {
        proof {
            lemma_parse_advances(v@, p + 1);
        }
        let (first, j0) = parse_at(v, p + 1)?;
        let j = skip_spaces(v, j0);
        if j >= v.len() {
            return Err(TypeParseError::UnexpectedEnd);
        }
        if v[j] == ']' {
            return Ok((Type::List(ListType(Box::new(first))), j + 1));
        }
        if v[j] == '=' && j + 1 < v.len() && v[j + 1] == '>' {
            let k = match MapKeyType::from_type(&first) {
                Ok(k) => k,
                Err(e) => return Err(TypeParseError::Type(e)),
            };
            proof {
                lemma_parse_advances(v@, j + 2);
            }
            let (second, m0) = parse_at(v, j + 2)?;
            let m = skip_spaces(v, m0);
            if m >= v.len() {
                return Err(TypeParseError::UnexpectedEnd);
            }
            if v[m] == ']' {
                return Ok((Type::Mapping(MapType(k, Box::new(second))), m + 1));
            }
            return Err(TypeParseError::UnexpectedChar(m));
        }
        Err(TypeParseError::UnexpectedChar(j))
    } else {
        let mut e = p;
        while e < v.len() && (('a' <= v[e] && v[e] <= 'z') || ('A' <= v[e] && v[e] <= 'Z') || (
        '0' <= v[e] && v[e] <= '9') || v[e] == '_')
            invariant
                p <= e <= v.len(),
                name_end(v@, p as int) == name_end(v@, e as int),
            decreases v.len() - e,
        {
            e = e + 1;
        }
        if e == p {
            return Err(TypeParseError::UnexpectedChar(p));
        }
        let name = sub_chars(v, p, e);
        match type_named(&name) {
            Some(t) => Ok((t, e)),
            None => Err(TypeParseError::UnknownType(string_of(&name))),
        }
    }
}

/// A list of types, as the elements of a list value have them.
pub struct TypeList(pub Vec<Type>);

impl TypeList {
    /// The list of these types.
    pub fn from_types(types: Vec<Type>) -> (l: TypeList)
        ensures
            l.0@ == types@,
    {
        TypeList(types)
    }

    /// The one type that all the types are, if there is one: `None` for no
    /// types or for two different ones.
    pub fn common_type(&self) -> (r: Option<Type>)
        ensures
            r matches Some(t) ==> self.0@.len() > 0 && forall|i: int|
                0 <= i < self.0@.len() ==> self.0@[i] == t,
            r is None ==> self.0@.len() == 0 || exists|i: int|
                0 <= i < self.0@.len() && #[trigger] self.0@[i] != self.0@[0],
    {
        if self.0.len() == 0 {
            return None;
        }
        let first = &self.0[0];
        for i in 1..self.0.len()
            invariant
                self.0@.len() > 0,
                *first == self.0@[0],
                forall|k: int| 0 <= k < i ==> self.0@[k] == *first,
        {
            if self.0[i] != *first {
                return None;
            }
        }
        Some(first.copy())
    }
}

} // verus!
