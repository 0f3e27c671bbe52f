//! `use` statements: what they import, and how they add symbols to the
//! context of an evaluation.
use crate::identifier::{Identifier, QualifiedName};
use crate::parse_error::ParseError;
use crate::symbols::{Context, EvalError, SymbolKind, SymbolView, full_matches, lemma_full_matches_extend, symbol_views};
use vstd::prelude::*;

verus! {

/// Import as alias: `use a as b`.
#[derive(Debug)]
pub struct UseAlias(pub QualifiedName, pub Identifier);

/// A `use` statement.
#[derive(Debug)]
pub enum UseStatement {
    /// Import symbols given as qualified names: `use a, b`
    Use(Vec<QualifiedName>),
    /// Import specific symbol from a module: `use a,b from c`
    UseFrom(Vec<QualifiedName>, QualifiedName),
    /// Import all symbols from a module: `use * from a, b`
    UseAll(Vec<QualifiedName>),
    /// Import as alias: `use a as b`
    UseAlias(UseAlias),
}

/// The parts of a `use` statement as its grammar delivers them.
#[derive(Debug)]
pub enum UsePart {
    /// A list of qualified names.
    QualifiedNameList(Vec<QualifiedName>),
    /// One qualified name.
    QualifiedName(QualifiedName),
    /// The `*` of `use * from ...`.
    QualifiedNameAll,
    /// An alias `a as b`.
    UseAlias(UseAlias),
}

/// The texts of a sequence of qualified names.
pub open spec fn qualified_views(v: Seq<QualifiedName>) -> Seq<Seq<Seq<char>>> {
    v.map_values(|q: QualifiedName| q@)
}

/// Why a `use` statement could not be evaluated.
pub enum UseFailure {
    /// No symbol has the qualified name.
    NotFound(Seq<Seq<char>>),
    /// The qualified name names a symbol that is no module.
    NotModule(Seq<Seq<char>>),
}

/// The context after adding the symbols `ms`.
pub open spec fn add_all(ctx: Seq<SymbolView>, ms: Seq<SymbolView>) -> Seq<SymbolView> {
    ctx + ms
}

/// The context after adding the members of each of the modules `ms`, in
/// order, and whether all of them were modules: at the first that is not,
/// the adding stops.
pub open spec fn add_members(ctx: Seq<SymbolView>, ms: Seq<SymbolView>) -> (Seq<SymbolView>, bool)
    decreases ms.len(),
{
    if ms.len() == 0 {
        (ctx, true)
    } else {
        let (c, ok) = add_members(ctx, ms.drop_last());
        if !ok {
            (c, false)
        } else if ms.last().kind != SymbolKind::Module {
            (c, false)
        } else {
            (c + ms.last().members, true)
        }
    }
}

/// `use a, b`: for each name in turn, the symbols it names in the context
/// as it stands are added; a name that names none stops the evaluation.
pub open spec fn use_names(ctx: Seq<SymbolView>, names: Seq<Seq<Seq<char>>>) -> (Seq<SymbolView>, Option<UseFailure>)
    decreases names.len(),
{
    if names.len() == 0 {
        (ctx, None)
    } else {
        let (c, e) = use_names(ctx, names.drop_last());
        if e is Some {
            (c, e)
        } else {
            let ms = full_matches(c, names.last());
            if ms.len() == 0 {
                (c, Some(UseFailure::NotFound(names.last())))
            } else {
                (add_all(c, ms), None)
            }
        }
    }
}

/// `use * from a, b`: for each name in turn, the members of the modules it
/// names in the context as it stands are added; a name that names none, or
/// names a symbol that is no module, stops the evaluation.
pub open spec fn use_all(ctx: Seq<SymbolView>, names: Seq<Seq<Seq<char>>>) -> (Seq<SymbolView>, Option<UseFailure>)
    decreases names.len(),
{
    if names.len() == 0 {
        (ctx, None)
    } else {
        let (c, e) = use_all(ctx, names.drop_last());
        if e is Some {
            (c, e)
        } else {
            let ms = full_matches(c, names.last());
            if ms.len() == 0 {
                (c, Some(UseFailure::NotFound(names.last())))
            } else {
                let (c2, ok) = add_members(c, ms);
                if ok {
                    (c2, None)
                } else {
                    (c2, Some(UseFailure::NotModule(names.last())))
                }
            }
        }
    }
}

/// The failure of a `use` statement that an evaluation error stands for.
pub open spec fn failure_of(e: EvalError) -> Option<UseFailure> {
    match e {
        EvalError::SymbolNotFound(q) => Some(UseFailure::NotFound(q@)),
        EvalError::ExpectedModule(q) => Some(UseFailure::NotModule(q@)),
        _ => None,
    }
}

impl UseStatement {
    /// The statement that the parts `first` and `second` form:
    /// `a, b from c`, `a, b`, `* from a, b`, or an alias.
    pub fn from_parts(first: UsePart, second: Option<UsePart>) -> (r: Result<UseStatement, ParseError>)
        ensures
            match (first, second) {
                (UsePart::QualifiedNameList(ns), Some(UsePart::QualifiedName(from))) => r == Ok::<
                    UseStatement,
                    ParseError,
                >(UseStatement::UseFrom(ns, from)),
                (UsePart::QualifiedNameList(ns), None) => r == Ok::<UseStatement, ParseError>(
                    UseStatement::Use(ns),
                ),
                (UsePart::QualifiedNameAll, Some(UsePart::QualifiedNameList(ns))) => r == Ok::<
                    UseStatement,
                    ParseError,
                >(UseStatement::UseAll(ns)),
                (UsePart::UseAlias(a), _) => r == Ok::<UseStatement, ParseError>(UseStatement::UseAlias(a)),
                _ => r == Err::<UseStatement, ParseError>(ParseError::InvalidUseStatement),
            },
    {
        match (first, second) {
            (UsePart::QualifiedNameList(ns), Some(UsePart::QualifiedName(from))) => Ok(
                UseStatement::UseFrom(ns, from),
            ),
            (UsePart::QualifiedNameList(ns), None) => Ok(UseStatement::Use(ns)),
            (UsePart::QualifiedNameAll, Some(UsePart::QualifiedNameList(ns))) => Ok(UseStatement::UseAll(ns)),
            (UsePart::UseAlias(a), _) => Ok(UseStatement::UseAlias(a)),
            _ => Err(ParseError::InvalidUseStatement),
        }
    }

    /// Evaluates `use a, b` and `use * from a, b`: adds to the context the
    /// symbols the names stand for, or the members of the modules they stand
    /// for.  At the first name that names nothing, or a symbol that is no
    /// module where a module is wanted, the evaluation stops with an error,
    /// and what was added before stays.
    pub fn eval(&self, context: &mut Context) -> (r: Result<(), EvalError>)
        requires
            self is Use || self is UseAll,
        ensures
            self matches UseStatement::Use(ns) ==> {
                let (c, e) = use_names(old(context)@, qualified_views(ns@));
                &&& final(context)@ == c
                &&& r is Ok <==> e is None
                &&& r matches Err(err) ==> e == failure_of(err)
            },
            self matches UseStatement::UseAll(ns) ==> {
                let (c, e) = use_all(old(context)@, qualified_views(ns@));
                &&& final(context)@ == c
                &&& r is Ok <==> e is None
                &&& r matches Err(err) ==> e == failure_of(err)
            },
    {
        match self {
            UseStatement::Use(names) => {
                let ghost qs = qualified_views(names@);
                let ghost start = context@;
                assert(qs.take(0) =~= Seq::<Seq<Seq<char>>>::empty());
                for i in 0..names.len()
                    invariant
                        self is Use,
                        self->Use_0@ == names@,
                        start == old(context)@,
                        qs == qualified_views(names@),
                        use_names(start, qs.take(i as int)) == (context@, None::<UseFailure>),
                {
                    assert(qs.take(i + 1).drop_last() =~= qs.take(i as int));
                    assert(qs.take(i + 1).last() == names@[i as int]@);
                    let symbols = match names[i].get_symbols(context) {
                        Ok(s) => s,
                        Err(e) => {
                            proof {
                                lemma_use_names_stops(start, qs, i as int + 1);
                            }
                            return Err(e);
                        },
                    };
                    let ghost before = context@;
                    for k in 0..symbols.len()
                        invariant
                            context@ == before + symbol_views(symbols@).take(k as int),
                    {
                        assert(symbol_views(symbols@).take(k + 1) =~= symbol_views(symbols@).take(
                            k as int,
                        ).push(symbols@[k as int]@));
                        context.add_symbol(symbols[k].copy());
                    }
                    assert(symbol_views(symbols@).take(symbols.len() as int) =~= symbol_views(symbols@));
                }
                assert(qs.take(names.len() as int) =~= qs);
                Ok(())
            },
            UseStatement::UseAll(names) => {
                let ghost qs = qualified_views(names@);
                let ghost start = context@;
                assert(qs.take(0) =~= Seq::<Seq<Seq<char>>>::empty());
                for i in 0..names.len()
                    invariant
                        self is UseAll,
                        self->UseAll_0@ == names@,
                        start == old(context)@,
                        qs == qualified_views(names@),
                        use_all(start, qs.take(i as int)) == (context@, None::<UseFailure>),
                {
                    assert(qs.take(i + 1).drop_last() =~= qs.take(i as int));
                    assert(qs.take(i + 1).last() == names@[i as int]@);
                    let symbols = match names[i].get_symbols(context) {
                        Ok(s) => s,
                        Err(e) => {
                            proof {
                                lemma_use_all_stops(start, qs, i as int + 1);
                            }
                            return Err(e);
                        },
                    };
                    let ghost before = context@;
                    let ghost ms = symbol_views(symbols@);
                    assert(ms.take(0) =~= Seq::<SymbolView>::empty());
                    for k in 0..symbols.len()
                        invariant
                            self is UseAll,
                            self->UseAll_0@ == names@,
                            start == old(context)@,
                            i < names@.len(),
                            qs == qualified_views(names@),
                            use_all(start, qs.take(i as int)) == (before, None::<UseFailure>),
                            qs.take(i + 1).drop_last() == qs.take(i as int),
                            qs.take(i + 1).last() == names@[i as int]@,
                            ms == full_matches(before, names@[i as int]@),
                            ms.len() > 0,
                            ms == symbol_views(symbols@),
                            add_members(before, ms.take(k as int)) == (context@, true),
                    {
                        assert(ms.take(k + 1).drop_last() =~= ms.take(k as int));
                        assert(ms.take(k + 1).last() == symbols@[k as int]@);
                        let symbol = &symbols[k];
                        if symbol.kind != SymbolKind::Module {
                            proof {
                                lemma_add_members_stops(before, ms, k as int + 1);
                                lemma_use_all_stops(start, qs, i as int + 1);
                            }
                            return Err(EvalError::ExpectedModule(names[i].copy()));
                        }
                        let ghost c0 = context@;
                        let ghost mv = symbol@.members;
                        assert(mv =~= symbol_views(symbol.members@));
                        for j in 0..symbol.members.len()
                            invariant
                                mv == symbol_views(symbol.members@),
                                context@ == c0 + mv.take(j as int),
                        {
                            assert(mv.take(j + 1) =~= mv.take(j as int).push(symbol.members@[j as int]@));
                            context.add_symbol(symbol.members[j].copy());
                        }
                        assert(mv.take(symbol.members.len() as int) =~= mv);
                    }
                    assert(ms.take(symbols.len() as int) =~= ms);
                }
                assert(qs.take(names.len() as int) =~= qs);
                Ok(())
            },
            _ => Ok(()),
        }
    }
}

/// Once `use a, b` stops, the names after change nothing.
proof fn lemma_use_names_stops(ctx: Seq<SymbolView>, names: Seq<Seq<Seq<char>>>, n: int)
    requires
        0 <= n <= names.len(),
        use_names(ctx, names.take(n)).1 is Some,
    ensures
        use_names(ctx, names) == use_names(ctx, names.take(n)),
    decreases names.len() - n,
{
    if n < names.len() {
        assert(names.take(n + 1).drop_last() =~= names.take(n));
        lemma_use_names_stops(ctx, names, n + 1);
    } else {
        assert(names.take(n) =~= names);
    }
}

/// Once `use * from a, b` stops, the names after change nothing.
proof fn lemma_use_all_stops(ctx: Seq<SymbolView>, names: Seq<Seq<Seq<char>>>, n: int)
    requires
        0 <= n <= names.len(),
        use_all(ctx, names.take(n)).1 is Some,
    ensures
        use_all(ctx, names) == use_all(ctx, names.take(n)),
    decreases names.len() - n,
{
    if n < names.len() {
        assert(names.take(n + 1).drop_last() =~= names.take(n));
        lemma_use_all_stops(ctx, names, n + 1);
    } else {
        assert(names.take(n) =~= names);
    }
}

/// Once adding members stops at a symbol that is no module, the symbols
/// after change nothing.
proof fn lemma_add_members_stops(ctx: Seq<SymbolView>, ms: Seq<SymbolView>, n: int)
    requires
        0 <= n <= ms.len(),
        !add_members(ctx, ms.take(n)).1,
    ensures
        add_members(ctx, ms) == add_members(ctx, ms.take(n)),
    decreases ms.len() - n,
{
    if n < ms.len() {
        assert(ms.take(n + 1).drop_last() =~= ms.take(n));
        lemma_add_members_stops(ctx, ms, n + 1);
    } else {
        assert(ms.take(n) =~= ms);
    }
}

/// Whether the context `c` holds every member of `m`.
pub open spec fn holds_members(c: Seq<SymbolView>, m: SymbolView) -> bool {
    forall|t: int| 0 <= t < m.members.len() ==> c.contains(#[trigger] m.members[t])
}

/// What a context holds, a context that extends it holds too.
proof fn lemma_holds_extend(c: Seq<SymbolView>, d: Seq<SymbolView>, m: SymbolView)
    requires
        holds_members(c, m),
        c.is_prefix_of(d),
    ensures
        holds_members(d, m),
{
    assert forall|t: int| 0 <= t < m.members.len() implies d.contains(#[trigger] m.members[t]) by {
        let x = m.members[t];
        let k = choose|k: int| 0 <= k < c.len() && c[k] == x;
        assert(d[k] == c[k]);
    }
}

/// Adding the members of modules keeps what the context held and, where
/// all of them are modules, leaves the members of each in the context.
proof fn lemma_add_members_holds(ctx: Seq<SymbolView>, ms: Seq<SymbolView>)
    ensures
        ctx.is_prefix_of(add_members(ctx, ms).0),
        add_members(ctx, ms).1 ==> forall|j: int|
            0 <= j < ms.len() ==> (#[trigger] ms[j]).kind == SymbolKind::Module && holds_members(add_members(ctx, ms).0, ms[j]),
    decreases ms.len(),
{
    if ms.len() > 0 {
        let d = ms.drop_last();
        lemma_add_members_holds(ctx, d);
        let (c, ok) = add_members(ctx, d);
        if ok && ms.last().kind == SymbolKind::Module {
            let c2 = c + ms.last().members;
            assert(c.is_prefix_of(c2));
            assert forall|j: int| 0 <= j < ms.len() implies (#[trigger] ms[j]).kind == SymbolKind::Module && holds_members(
                c2,
                ms[j],
            ) by {
                if j < d.len() {
                    assert(ms[j] == d[j]);
                    lemma_holds_extend(c, c2, d[j]);
                } else {
                    let m = ms.last();
                    assert(ms[j] == m);
                    assert forall|t: int| 0 <= t < m.members.len() implies c2.contains(#[trigger] m.members[t]) by {
                        assert(c2[c.len() + t] == m.members[t]);
                    }
                }
            }
        }
    }
}

/// After `use * from n1, ..., nk` succeeds, the context still holds all it
/// held, every symbol that any of the names `ni` names in it is a module,
/// and the members of each of these modules are in the context: for every
/// name, not only the first.
pub proof fn lemma_use_all_adds_members(ctx: Seq<SymbolView>, names: Seq<Seq<Seq<char>>>)
    requires
        use_all(ctx, names).1 is None,
    ensures
        ctx.is_prefix_of(use_all(ctx, names).0),
        forall|i: int, j: int|
            0 <= i < names.len() && 0 <= j < full_matches(ctx, names[i]).len() ==> (#[trigger] full_matches(
                ctx,
                names[i],
            )[j]).kind == SymbolKind::Module && holds_members(use_all(ctx, names).0, full_matches(ctx, names[i])[j]),
    decreases names.len(),
{
    if names.len() > 0 {
        let d = names.drop_last();
        let (c0, e0) = use_all(ctx, d);
        lemma_use_all_adds_members(ctx, d);
        let q = names.last();
        let ms = full_matches(c0, q);
        lemma_add_members_holds(c0, ms);
        let c = use_all(ctx, names).0;
        assert(c == add_members(c0, ms).0);
        assert(ctx.is_prefix_of(c)) by {
            assert forall|k: int| 0 <= k < ctx.len() implies c[k] == ctx[k] by {
                assert(c0[k] == ctx[k]);
            }
        }
        let extra = c0.skip(ctx.len() as int);
        assert(ctx + extra =~= c0);
        assert forall|i: int, j: int|
            0 <= i < names.len() && 0 <= j < full_matches(ctx, names[i]).len() implies (#[trigger] full_matches(
                ctx,
                names[i],
            )[j]).kind == SymbolKind::Module && holds_members(c, full_matches(ctx, names[i])[j]) by {
            if i < d.len() {
                assert(names[i] == d[i]);
                lemma_holds_extend(c0, c, full_matches(ctx, d[i])[j]);
            } else {
                assert(names[i] == q);
                lemma_full_matches_extend(ctx, extra, q);
                assert(full_matches(ctx, q)[j] == ms[j]);
            }
        }
    }
}

/// After `use n1, ..., nk` succeeds, the context still holds all it held,
/// and every symbol that any of the names names in it is in the context.
pub proof fn lemma_use_names_adds_symbols(ctx: Seq<SymbolView>, names: Seq<Seq<Seq<char>>>)
    requires
        use_names(ctx, names).1 is None,
    ensures
        ctx.is_prefix_of(use_names(ctx, names).0),
        forall|i: int, j: int|
            0 <= i < names.len() && 0 <= j < full_matches(ctx, names[i]).len() ==> use_names(ctx, names).0.contains(
                #[trigger] full_matches(ctx, names[i])[j],
            ),
    decreases names.len(),
{
    if names.len() > 0 {
        let d = names.drop_last();
        let (c0, e0) = use_names(ctx, d);
        lemma_use_names_adds_symbols(ctx, d);
        let q = names.last();
        let ms = full_matches(c0, q);
        let c = use_names(ctx, names).0;
        assert(c == c0 + ms);
        assert(ctx.is_prefix_of(c)) by {
            assert forall|k: int| 0 <= k < ctx.len() implies c[k] == ctx[k] by {
                assert(c0[k] == ctx[k]);
            }
        }
        let extra = c0.skip(ctx.len() as int);
        assert(ctx + extra =~= c0);
        assert forall|i: int, j: int|
            0 <= i < names.len() && 0 <= j < full_matches(ctx, names[i]).len() implies c.contains(
                #[trigger] full_matches(ctx, names[i])[j],
            ) by {
            let x = full_matches(ctx, names[i])[j];
            if i < d.len() {
                assert(names[i] == d[i]);
                assert(c0.contains(x));
                let k = choose|k: int| 0 <= k < c0.len() && c0[k] == x;
                assert(c[k] == c0[k]);
            } else {
                assert(names[i] == q);
                lemma_full_matches_extend(ctx, extra, q);
                assert(c[c0.len() + j] == ms[j]);
            }
        }
    }
}

} // verus!
