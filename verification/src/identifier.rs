//! Identifiers, lists of distinct identifiers, and qualified names.
use crate::text::{chars_of, find_char, first_index, lemma_first_index, lemma_first_index_at, string_of, sub_chars};
use vstd::prelude::*;

verus! {

/// A name in µcad source.
#[derive(Debug, Clone, Default, Hash)]
pub struct Identifier(String);

impl View for Identifier {
    type V = Seq<char>;

    closed spec fn view(&self) -> Seq<char> {
        self.0@
    }
}

/// Whether a symbol can be seen from outside its module.
#[derive(Debug, Clone, Copy, PartialEq, Eq, Structural)]
pub enum Visibility {
    Private,
    Public,
}

/// The visibility of a name: private where it starts with `_`.
pub open spec fn visibility_of(name: Seq<char>) -> Visibility {
    if name.len() > 0 && name[0] == '_' {
        Visibility::Private
    } else {
        Visibility::Public
    }
}

impl Identifier {
    /// The identifier with the text `s`.
    pub fn new(s: &str) -> (i: Identifier)
        ensures
            i@ == s@,
    {
        Identifier(String::from_str(s))
    }

    /// The identifier with the text `s`.
    pub fn from_string(s: String) -> (i: Identifier)
        ensures
            i@ == s@,
    {
        Identifier(s)
    }

    /// Every identifier starting with `_` is private.
    pub fn visibility(self) -> (v: Visibility)
        ensures
            v == visibility_of(self@),
    {
        let n = self.0.as_str().unicode_len();
        if n > 0 && self.0.as_str().get_char(0) == '_' {
            Visibility::Private
        } else {
            Visibility::Public
        }
    }

    /// The text of this identifier.
    pub fn as_str(&self) -> (s: &str)
        ensures
            s@ == self@,
    {
        self.0.as_str()
    }

    /// The text of this identifier.
    pub fn to_string(&self) -> (s: String)
        ensures
            s@ == self@,
    {
        self.0.clone()
    }

    /// A copy of this identifier.
    pub fn copy(&self) -> (i: Identifier)
        ensures
            i == *self,
            i@ == self@,
    {
        Identifier(self.0.clone())
    }
}

impl PartialEq for Identifier {
    fn eq(&self, other: &Identifier) -> (r: bool) {
        self.0 == other.0
    }
}

impl vstd::std_specs::cmp::PartialEqSpecImpl for Identifier {
    open spec fn obeys_eq_spec() -> bool {
        true
    }

    open spec fn eq_spec(&self, other: &Identifier) -> bool {
        self@ == other@
    }
}

impl Eq for Identifier {
}

/// Identifiers compare by their text, and that comparison is an equivalence.
pub proof fn lemma_identifier_key_law()
    ensures
        crate::ord_map::key_law::<Identifier>(),
{
}

/// The texts of a sequence of identifiers.
pub open spec fn names(v: Seq<Identifier>) -> Seq<Seq<char>> {
    v.map_values(|i: Identifier| i@)
}

/// Why an identifier cannot join a list.
#[derive(Debug)]
pub enum IdentifierListError {
    /// The list holds this identifier already.
    DuplicateIdentifier(Identifier),
}

/// A list of identifiers, used e.g. for multiple variable declarations.
/// It cannot contain duplicates.
#[derive(Debug)]
pub struct IdentifierList(Vec<Identifier>);

impl View for IdentifierList {
    type V = Seq<Seq<char>>;

    closed spec fn view(&self) -> Seq<Seq<char>> {
        names(self.0@)
    }
}

impl IdentifierList {
    #[verifier::type_invariant]
    closed spec fn distinct(self) -> bool {
        names(self.0@).no_duplicates()
    }

    /// The empty list.
    pub fn new() -> (l: IdentifierList)
        ensures
            l@ == Seq::<Seq<char>>::empty(),
    {
        let l = IdentifierList(Vec::new());
        assert(names(l.0@) =~= Seq::<Seq<char>>::empty());
        l
    }

    /// The number of identifiers.
    pub fn len(&self) -> (n: usize)
        ensures
            n == self@.len(),
    {
        self.0.len()
    }

    /// Whether the list is empty.
    pub fn is_empty(&self) -> (r: bool)
        ensures
            r == (self@.len() == 0),
    {
        self.0.len() == 0
    }

    /// The identifier at index `i`.
    pub fn get(&self, i: usize) -> (r: &Identifier)
        requires
            i < self@.len(),
        ensures
            r@ == self@[i as int],
    {
        &self.0[i]
    }

    /// Whether the list holds an identifier with the text of `ident`.
    pub fn contains(&self, ident: &Identifier) -> (r: bool)
        ensures
            r == self@.contains(ident@),
    {
        for k in 0..self.0.len()
            invariant
                forall|q: int| 0 <= q < k ==> self@[q] != ident@,
        {
            if self.0[k] == *ident {
                assert(self@[k as int] == ident@);
                return true;
            }
        }
        false
    }

    /// Adds `ident` at the end, unless the list holds it already.
    pub fn push(&mut self, ident: Identifier) -> (r: Result<(), IdentifierListError>)
        ensures
            old(self)@.contains(ident@) ==> final(self)@ == old(self)@ && (r matches Err(
                IdentifierListError::DuplicateIdentifier(d),
            ) && d@ == ident@),
            !old(self)@.contains(ident@) ==> final(self)@ == old(self)@.push(ident@) && r is Ok,
            final(self)@.no_duplicates(),
    {
        proof {
            use_type_invariant(&*self);
        }
        if self.contains(&ident) {
            Err(IdentifierListError::DuplicateIdentifier(ident))
        } else {
            let ghost before = names(self.0@);
            let mut items: Vec<Identifier> = Vec::new();
            std::mem::swap(&mut items, &mut self.0);
            items.push(ident);
            assert(names(items@) =~= before.push(ident@));
            self.0 = items;
            Ok(())
        }
    }

    /// Adds the identifiers of `other` in order, and stops with an error at
    /// the first one that the list holds already.
    pub fn extend(&mut self, other: IdentifierList) -> (r: Result<(), IdentifierListError>)
        ensures
            extend_stop(old(self)@, other@) is None ==> r is Ok && final(self)@ == old(self)@
                + other@,
            extend_stop(old(self)@, other@) matches Some(k) ==> (r matches Err(
                IdentifierListError::DuplicateIdentifier(d),
            ) && d@ == other@[k] && final(self)@ == old(self)@ + other@.take(k)),
            final(self)@.no_duplicates(),
    {
        proof {
            use_type_invariant(&*self);
            use_type_invariant(&other);
        }
        let ghost start = self@;
        let ghost others = other@;
        let items = other.0;
        assert(names(items@) == others);
        for k in 0..items.len()
            invariant
                names(items@) == others,
                extend_stop(start, others) == extend_stop_from(start, others, k as int),
                start == old(self)@,
                others == other@,
                self@ == start + others.take(k as int),
                self@.no_duplicates(),
        {
            let ident = items[k].copy();
            assert(ident@ == others[k as int]);
            assert(others.take(k + 1) =~= others.take(k as int).push(others[k as int]));
            match self.push(ident) {
                Ok(()) => {},
                Err(e) => {
                    assert(extend_stop_from(start, others, k as int) == Some(k as int));
                    return Err(e);
                },
            }
        }
        assert(others.take(others.len() as int) =~= others);
        Ok(())
    }

    /// The identifiers, separated by `, `.
    pub fn to_string(&self) -> (s: String)
        ensures
            s@ == join(self@, seq![',', ' ']),
    {
        proof {
            reveal_strlit(", ");
        }
        assert(", "@ =~= seq![',', ' ']);
        join_identifiers(&self.0, ", ")
    }
}

/// Where extending `list` by `others` stops: the index of the first
/// identifier of `others` that `list`, with the identifiers before it, holds.
pub open spec fn extend_stop(list: Seq<Seq<char>>, others: Seq<Seq<char>>) -> Option<int> {
    extend_stop_from(list, others, 0)
}

/// [`extend_stop`] looking from index `k` of `others` on.
pub open spec fn extend_stop_from(list: Seq<Seq<char>>, others: Seq<Seq<char>>, k: int) -> Option<int>
    decreases others.len() - k,
{
    if k < 0 || k >= others.len() {
        None
    } else if (list + others.take(k)).contains(others[k]) {
        Some(k)
    } else {
        extend_stop_from(list, others, k + 1)
    }
}

/// The parts separated by `sep`.
pub open spec fn join(parts: Seq<Seq<char>>, sep: Seq<char>) -> Seq<char>
    decreases parts.len(),
{
    if parts.len() == 0 {
        Seq::empty()
    } else if parts.len() == 1 {
        parts[0]
    } else {
        join(parts.drop_last(), sep) + sep + parts.last()
    }
}

/// The texts of `parts`, separated by `sep`.
fn join_identifiers(parts: &Vec<Identifier>, sep: &str) -> (s: String)
    ensures
        s@ == join(names(parts@), sep@),
{
    let mut s = String::new();
    for k in 0..parts.len()
        invariant
            s@ == join(names(parts@).take(k as int), sep@),
    {
        let ghost ns = names(parts@);
        assert(ns.take(k + 1).drop_last() =~= ns.take(k as int));
        if k > 0 {
            s.append(sep);
        } else {
            assert(ns.take(0) =~= Seq::<Seq<char>>::empty());
        }
        s.append(parts[k].as_str());
        assert(ns.take(k + 1).last() == parts@[k as int]@);
        assert(s@ =~= join(ns.take(k + 1), sep@));
    }
    assert(names(parts@).take(parts.len() as int) =~= names(parts@));
    s
}

// ---------------------------------------------------------------------------
// Qualified names
// ---------------------------------------------------------------------------

/// A qualified name: identifiers separated by `.`, e.g. `a.b.c`.
#[derive(Debug, Clone, Default)]
pub struct QualifiedName(Vec<Identifier>);

impl View for QualifiedName {
    type V = Seq<Seq<char>>;

    closed spec fn view(&self) -> Seq<Seq<char>> {
        names(self.0@)
    }
}

/// The separator of a qualified name.
pub open spec fn path_sep() -> Seq<char> {
    seq!['.']
}

/// `s` split at each `.`, as `str::split('.')` splits it.
pub open spec fn split_path(s: Seq<char>) -> Seq<Seq<char>>
    decreases s.len(),
{
    match first_index(s, '.') {
        Some(i) => {
            proof {
                lemma_first_index(s, '.');
            }
            seq![s.take(i)] + split_path(s.skip(i + 1))
        },
        None => seq![s],
    }
}

impl QualifiedName {
    /// The qualified name made of `parts`.
    pub fn new(parts: Vec<Identifier>) -> (q: QualifiedName)
        ensures
            q@ == names(parts@),
    {
        QualifiedName(parts)
    }

    /// The number of identifiers.
    pub fn len(&self) -> (n: usize)
        ensures
            n == self@.len(),
    {
        self.0.len()
    }

    /// The identifier at index `i`.
    pub fn get(&self, i: usize) -> (r: &Identifier)
        requires
            i < self@.len(),
        ensures
            r@ == self@[i as int],
    {
        &self.0[i]
    }

    /// A copy of this name.
    pub fn copy(&self) -> (q: QualifiedName)
        ensures
            q@ == self@,
    {
        let mut parts: Vec<Identifier> = Vec::new();
        for i in 0..self.0.len()
            invariant
                names(parts@) == names(self.0@).take(i as int),
        {
            let ghost before = names(parts@);
            parts.push(self.0[i].copy());
            assert(names(parts@) =~= before.push(self.0@[i as int]@));
            assert(names(self.0@).take(i + 1) =~= names(self.0@).take(i as int).push(self.0@[i as int]@));
        }
        assert(names(self.0@).take(self.0.len() as int) =~= names(self.0@));
        QualifiedName(parts)
    }

    /// The qualified name written as `s`: the parts between `.`.
    pub fn from_str(s: &str) -> (q: QualifiedName)
        ensures
            q@ == split_path(s@),
    {
        let v = chars_of(s);
        let mut parts: Vec<Identifier> = Vec::new();
        let mut start: usize = 0;
        assert(v@.skip(0) =~= v@);
        loop
            invariant
                v@ == s@,
                start <= v.len(),
                split_path(v@) == names(parts@) + split_path(v@.skip(start as int)),
            decreases v.len() - start,
        {
            let rest = sub_chars(&v, start, v.len());
            assert(rest@ =~= v@.skip(start as int));
            proof {
                lemma_first_index(rest@, '.');
            }
            match find_char(&rest, '.') {
                Some(i) => {
                    let part = Identifier::from_string(string_of(&sub_chars(&rest, 0, i)));
                    let ghost before = names(parts@);
                    parts.push(part);
                    assert(names(parts@) =~= before.push(rest@.take(i as int)));
                    assert(rest@.skip(i + 1) =~= v@.skip(start + i + 1));
                    assert(names(parts@) + split_path(v@.skip(start + i + 1)) =~= before + (seq![
                        rest@.take(i as int),
                    ] + split_path(rest@.skip(i + 1))));
                    start = start + i + 1;
                },
                None => {
                    let part = Identifier::from_string(string_of(&rest));
                    let ghost before = names(parts@);
                    parts.push(part);
                    assert(names(parts@) =~= before.push(rest@));
                    assert(split_path(rest@) == seq![rest@]);
                    assert(names(parts@) =~= before + split_path(rest@));
                    assert(split_path(v@) == names(parts@));
                    let ghost ps = parts@;
                    let q = QualifiedName(parts);
                    assert(q@ == names(ps));
                    return q;
                },
            }
        }
    }

    /// The identifiers, separated by `.`.
    pub fn to_string(&self) -> (s: String)
        ensures
            s@ == join(self@, path_sep()),
    {
        let sep = String::from_str(".");
        proof {
            reveal_strlit(".");
        }
        assert(sep@ =~= path_sep());
        join_identifiers(&self.0, sep.as_str())
    }
}

// ---------------------------------------------------------------------------
// Laws of qualified names
// ---------------------------------------------------------------------------

/// `join` from the front.
proof fn lemma_join_front(first: Seq<char>, rest: Seq<Seq<char>>, sep: Seq<char>)
    requires
        rest.len() > 0,
    ensures
        join(seq![first] + rest, sep) == first + sep + join(rest, sep),
    decreases rest.len(),
{
    let p = seq![first] + rest;
    if rest.len() == 1 {
        assert(p.drop_last() =~= seq![first]);
        assert(p.last() == rest[0]);
        assert(join(seq![first], sep) == first);
        assert(join(rest, sep) == rest[0]);
        assert(join(p, sep) == join(p.drop_last(), sep) + sep + p.last());
    } else {
        lemma_join_front(first, rest.drop_last(), sep);
        assert(p.drop_last() =~= seq![first] + rest.drop_last());
        assert(p.last() == rest.last());
        assert(join(p, sep) == join(p.drop_last(), sep) + sep + p.last());
        assert(join(rest, sep) == join(rest.drop_last(), sep) + sep + rest.last());
        assert(join(p, sep) =~= first + sep + join(rest, sep));
    }
}

/// Writing the parts of a text split at `.` gives the text back.
pub proof fn lemma_join_split(s: Seq<char>)
    ensures
        join(split_path(s), path_sep()) == s,
    decreases s.len(),
{
    lemma_first_index(s, '.');
    match first_index(s, '.') {
        Some(i) => {
            lemma_join_split(s.skip(i + 1));
            let rest = split_path(s.skip(i + 1));
            lemma_split_nonempty(s.skip(i + 1));
            lemma_join_front(s.take(i), rest, path_sep());
            assert(s.take(i) + path_sep() + s.skip(i + 1) =~= s);
        },
        None => {},
    }
}

/// Splitting gives at least one part.
pub proof fn lemma_split_nonempty(s: Seq<char>)
    ensures
        split_path(s).len() >= 1,
    decreases s.len(),
{
    lemma_first_index(s, '.');
}

/// Whether no part holds a `.`.
pub open spec fn dot_free(parts: Seq<Seq<char>>) -> bool {
    forall|i: int, j: int| 0 <= i < parts.len() && 0 <= j < parts[i].len() ==> parts[i][j] != '.'
}

/// Splitting the written form of a qualified name gives its parts back,
/// where it has at least one part and no part holds a `.`.
pub proof fn lemma_split_join(parts: Seq<Seq<char>>)
    requires
        parts.len() >= 1,
        dot_free(parts),
    ensures
        split_path(join(parts, path_sep())) == parts,
    decreases parts.len(),
{
    let first = parts[0];
    if parts.len() == 1 {
        assert(join(parts, path_sep()) == first);
        lemma_first_index(first, '.');
        if let Some(i) = first_index(first, '.') {
            assert(first[i] == '.');
        }
    } else {
        let rest = parts.drop_first();
        assert(parts =~= seq![first] + rest);
        lemma_join_front(first, rest, path_sep());
        let s = join(parts, path_sep());
        let n = first.len() as int;
        assert(s == first + path_sep() + join(rest, path_sep()));
        assert forall|j: int| 0 <= j < n implies s[j] == first[j] && s[j] != '.' by {}
        assert(s[n] == '.');
        lemma_first_index_at(s, '.', n);
        assert forall|i: int, j: int| 0 <= i < rest.len() && 0 <= j < rest[i].len() implies rest[i][j] != '.' by {
            assert(rest[i] == parts[i + 1]);
        }
        lemma_split_join(rest);
        assert(s.take(n) =~= first);
        assert(s.skip(n + 1) =~= join(rest, path_sep()));
        assert(split_path(s) =~= seq![first] + rest);
    }
}

} // verus!
