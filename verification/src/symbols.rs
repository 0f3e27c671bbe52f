//! Symbols, the table of symbols that an evaluation sees, and the lookup of
//! qualified names in it.
//!
//! A module symbol holds the symbols defined in its body; a qualified name
//! `a.b.c` names every symbol `c` in a module `b` in a module `a` that the
//! context holds.
use crate::identifier::{Identifier, IdentifierList, QualifiedName};
use crate::lang_type::Type;
use crate::ord_map::OrdMapItem;
use vstd::prelude::*;

verus! {

/// What a symbol stands for.
#[derive(Debug, Clone, Copy, PartialEq, Eq, Structural)]
pub enum SymbolKind {
    /// A module; its members are the symbols of its body.
    Module,
    Function,
    BuiltinFunction,
    BuiltinModule,
    Value,
}

/// A named symbol, with the symbols it holds where it is a module.
#[derive(Debug)]
pub struct Symbol {
    pub kind: SymbolKind,
    pub name: Identifier,
    pub members: Vec<Symbol>,
}

/// The mathematical value of a [`Symbol`].
pub struct SymbolView {
    pub kind: SymbolKind,
    pub name: Seq<char>,
    pub members: Seq<SymbolView>,
}

/// The value of a symbol: its kind, its name's text, and the values of its
/// members.
pub open spec fn symbol_view(s: Symbol) -> SymbolView
    decreases s,
{
    SymbolView {
        kind: s.kind,
        name: s.name@,
        members: Seq::new(
            s.members@.len(),
            |i: int|
                {
                    if 0 <= i < s.members@.len() {
                        proof {
                            assert(decreases_to!(s => s.members));
                            assert(decreases_to!(s.members => s.members@));
                            assert(decreases_to!(s.members@ => s.members@[i]));
                        }
                        symbol_view(s.members@[i])
                    } else {
                        arbitrary()
                    }
                },
        ),
    }
}

impl View for Symbol {
    type V = SymbolView;

    open spec fn view(&self) -> SymbolView {
        symbol_view(*self)
    }
}

/// The values of a sequence of symbols.
pub open spec fn symbol_views(v: Seq<Symbol>) -> Seq<SymbolView> {
    v.map_values(|s: Symbol| s@)
}

/// The symbols of `list` named `name`.
pub open spec fn named(list: Seq<SymbolView>, name: Seq<char>) -> Seq<SymbolView> {
    list.filter(|m: SymbolView| m.name == name)
}

/// The members of `s` named `name`; a symbol that is no module has none.
pub open spec fn members_named(s: SymbolView, name: Seq<char>) -> Seq<SymbolView> {
    if s.kind == SymbolKind::Module {
        named(s.members, name)
    } else {
        Seq::empty()
    }
}

/// The values of a sequence of references to symbols.
pub open spec fn ref_views(v: Seq<&Symbol>) -> Seq<SymbolView> {
    v.map_values(|s: &Symbol| s@)
}

/// Filtering a sequence with one more symbol at the end.
proof fn lemma_named_push(list: Seq<SymbolView>, x: SymbolView, name: Seq<char>)
    ensures
        named(list.push(x), name) == if x.name == name {
            named(list, name).push(x)
        } else {
            named(list, name)
        },
{
    reveal(Seq::filter);
    assert(list.push(x).drop_last() =~= list);
    assert(list.push(x).last() == x);
}

impl Symbol {
    /// A symbol without members.
    pub fn new(kind: SymbolKind, name: Identifier) -> (s: Symbol)
        ensures
            s@.kind == kind,
            s@.name == name@,
            s@.members == Seq::<SymbolView>::empty(),
    {
        let s = Symbol { kind, name, members: Vec::new() };
        assert(s@.members =~= Seq::<SymbolView>::empty());
        s
    }

    /// A module symbol with the given members.
    pub fn module(name: Identifier, members: Vec<Symbol>) -> (s: Symbol)
        ensures
            s@.kind == SymbolKind::Module,
            s@.name == name@,
            s@.members == symbol_views(members@),
    {
        let s = Symbol { kind: SymbolKind::Module, name, members };
        assert(s@.members.len() == s.members@.len());
        assert(forall|i: int| 0 <= i < s.members@.len() ==> s@.members[i] == s.members@[i]@);
        assert(s@.members =~= symbol_views(s.members@));
        s
    }

    /// A copy of this symbol and all it holds.
    pub fn copy(&self) -> (s: Symbol)
        ensures
            s@ == self@,
        decreases self,
    {
        let mut members: Vec<Symbol> = Vec::new();
        for i in 0..self.members.len()
            invariant
                symbol_views(members@) == symbol_views(self.members@).take(i as int),
        {
            proof {
                assert(decreases_to!(self => self.members));
                assert(decreases_to!(self.members => self.members@));
                assert(decreases_to!(self.members@ => self.members@[i as int]));
            }
            let m = self.members[i].copy();
            let ghost before = symbol_views(members@);
            members.push(m);
            assert(symbol_views(members@) =~= before.push(m@));
            assert(symbol_views(self.members@).take(i + 1) =~= symbol_views(self.members@).take(
                i as int,
            ).push(self.members@[i as int]@));
        }
        assert(symbol_views(self.members@).take(self.members.len() as int) =~= symbol_views(
            self.members@,
        ));
        let s = Symbol { kind: self.kind, name: self.name.copy(), members };
        assert(s@.members =~= symbol_views(members@));
        assert(self@.members =~= symbol_views(self.members@));
        s
    }

    /// The members of this symbol named `name`; a symbol that is no module
    /// has none.
    pub fn get_symbols(&self, name: &Identifier) -> (r: Vec<&Symbol>)
        ensures
            ref_views(r@) == members_named(self@, name@),
    {
        let mut out: Vec<&Symbol> = Vec::new();
        if self.kind != SymbolKind::Module {
            assert(ref_views(out@) =~= Seq::<SymbolView>::empty());
            return out;
        }
        let ghost ms = self@.members;
        assert(ms =~= symbol_views(self.members@));
        for i in 0..self.members.len()
            invariant
                ms == symbol_views(self.members@),
                ref_views(out@) == named(ms.take(i as int), name@),
        {
            assert(ms.take(i + 1) =~= ms.take(i as int).push(self.members@[i as int]@));
            proof {
                lemma_named_push(ms.take(i as int), self.members@[i as int]@, name@);
            }
            if self.members[i].name == *name {
                let ghost before = ref_views(out@);
                out.push(&self.members[i]);
                assert(ref_views(out@) =~= before.push(self.members@[i as int]@));
            }
        }
        assert(ms.take(self.members.len() as int) =~= ms);
        out
    }
}

impl OrdMapItem<Identifier> for Symbol {
    open spec fn key(&self) -> Option<Identifier> {
        Some(self.name)
    }

    fn name(&self) -> (r: Option<Identifier>) {
        Some(self.name.copy())
    }
}

/// The symbols that an evaluation sees.
pub struct Context {
    symbols: Vec<Symbol>,
}

impl View for Context {
    type V = Seq<SymbolView>;

    closed spec fn view(&self) -> Seq<SymbolView> {
        symbol_views(self.symbols@)
    }
}

/// The symbols of `ctx` named `name`.
pub open spec fn context_named(ctx: Seq<SymbolView>, name: Seq<char>) -> Seq<SymbolView> {
    named(ctx, name)
}

impl Context {
    /// A context without symbols.
    pub fn new() -> (c: Context)
        ensures
            c@ == Seq::<SymbolView>::empty(),
    {
        let c = Context { symbols: Vec::new() };
        assert(c@ =~= Seq::<SymbolView>::empty());
        c
    }

    /// Adds a symbol.
    pub fn add_symbol(&mut self, symbol: Symbol)
        ensures
            final(self)@ == old(self)@.push(symbol@),
    {
        self.symbols.push(symbol);
        assert(self@ =~= old(self)@.push(symbol@));
    }

    /// The symbols named `name`.
    pub fn find_symbols(&self, name: &Identifier) -> (r: Vec<&Symbol>)
        ensures
            ref_views(r@) == context_named(self@, name@),
    {
        let mut out: Vec<&Symbol> = Vec::new();
        let ghost ms = self@;
        for i in 0..self.symbols.len()
            invariant
                ms == self@,
                ref_views(out@) == context_named(ms.take(i as int), name@),
        {
            assert(ms.take(i + 1) =~= ms.take(i as int).push(self.symbols@[i as int]@));
            proof {
                lemma_named_push(ms.take(i as int), self.symbols@[i as int]@, name@);
            }
            if self.symbols[i].name == *name {
                let ghost before = ref_views(out@);
                out.push(&self.symbols[i]);
                assert(ref_views(out@) =~= before.push(self.symbols@[i as int]@));
            }
        }
        assert(ms.take(self.symbols.len() as int) =~= ms);
        out
    }
}

// ---------------------------------------------------------------------------
// Looking up qualified names
// ---------------------------------------------------------------------------

/// The visits of a walk along the qualified name `q`: each symbol of `list`,
/// found for the part `index`, with its depth, each followed by the visits
/// of its members named by the next part.
pub open spec fn visit_list(q: Seq<Seq<char>>, list: Seq<SymbolView>, index: int) -> Seq<(SymbolView, int)>
    decreases q.len() - index, list.len(),
{
    if index < 0 || index >= q.len() || list.len() == 0 {
        Seq::empty()
    } else {
        let s = list[0];
        seq![(s, index)] + visit_list(q, members_named(s, q[index + 1]), index + 1) + visit_list(
            q,
            list.drop_first(),
            index,
        )
    }
}

/// The visits of a walk along `q` that starts at the symbols of the context.
pub open spec fn visits(ctx: Seq<SymbolView>, q: Seq<Seq<char>>) -> Seq<(SymbolView, int)> {
    if q.len() == 0 {
        Seq::empty()
    } else {
        visit_list(q, context_named(ctx, q[0]), 0)
    }
}

/// The symbols that the whole of `q` names: those visited at its last part.
pub open spec fn full_matches(ctx: Seq<SymbolView>, q: Seq<Seq<char>>) -> Seq<SymbolView> {
    at_depth(visits(ctx, q), q.len() - 1)
}

/// The symbols of the visits at depth `d`, in order.
pub open spec fn at_depth(vs: Seq<(SymbolView, int)>, d: int) -> Seq<SymbolView>
    decreases vs.len(),
{
    if vs.len() == 0 {
        Seq::empty()
    } else if vs.last().1 == d {
        at_depth(vs.drop_last(), d).push(vs.last().0)
    } else {
        at_depth(vs.drop_last(), d)
    }
}

/// A walk over two lists is the walk over the first, then over the second.
proof fn lemma_visit_concat(q: Seq<Seq<char>>, a: Seq<SymbolView>, b: Seq<SymbolView>, index: int)
    requires
        0 <= index < q.len(),
    ensures
        visit_list(q, a + b, index) == visit_list(q, a, index) + visit_list(q, b, index),
    decreases a.len(),
{
    if a.len() == 0 {
        assert(a + b =~= b);
        assert(visit_list(q, a, index) =~= Seq::<(SymbolView, int)>::empty());
        assert(visit_list(q, a + b, index) =~= visit_list(q, a, index) + visit_list(q, b, index));
    } else {
        assert((a + b).drop_first() =~= a.drop_first() + b);
        assert((a + b)[0] == a[0]);
        lemma_visit_concat(q, a.drop_first(), b, index);
        assert(visit_list(q, a + b, index) =~= visit_list(q, a, index) + visit_list(q, b, index));
    }
}

/// The symbols of `list` named `name` have that name.
proof fn lemma_named_have_name(list: Seq<SymbolView>, name: Seq<char>)
    ensures
        forall|i: int| 0 <= i < named(list, name).len() ==> (#[trigger] named(list, name)[i]).name == name,
{
    assert forall|i: int| 0 <= i < named(list, name).len() implies (#[trigger] named(list, name)[i]).name
        == name by {
        list.lemma_filter_pred(|m: SymbolView| m.name == name, i);
    }
}

/// Each symbol that a walk along `q` visits at the part `d` has the name
/// `q[d]`, where the walk starts at symbols named by its part `index`.
proof fn lemma_visit_names(q: Seq<Seq<char>>, list: Seq<SymbolView>, index: int)
    requires
        forall|i: int| 0 <= i < list.len() ==> (#[trigger] list[i]).name == q[index],
    ensures
        forall|k: int|
            0 <= k < visit_list(q, list, index).len() ==> {
                let v = #[trigger] visit_list(q, list, index)[k];
                0 <= v.1 < q.len() && v.0.name == q[v.1]
            },
    decreases q.len() - index, list.len(),
{
    if index < 0 || index >= q.len() || list.len() == 0 {
    } else {
        let s = list[0];
        let inner = members_named(s, q[index + 1]);
        if s.kind == SymbolKind::Module {
            lemma_named_have_name(s.members, q[index + 1]);
        }
        lemma_visit_names(q, inner, index + 1);
        assert forall|i: int| 0 <= i < list.drop_first().len() implies (#[trigger] list.drop_first()[i]).name
            == q[index] by {
            assert(list.drop_first()[i] == list[i + 1]);
        }
        lemma_visit_names(q, list.drop_first(), index);
        let a = seq![(s, index)];
        let b = visit_list(q, inner, index + 1);
        let c = visit_list(q, list.drop_first(), index);
        assert(visit_list(q, list, index) == a + b + c);
        assert forall|k: int| 0 <= k < (a + b + c).len() implies {
            let v = #[trigger] (a + b + c)[k];
            0 <= v.1 < q.len() && v.0.name == q[v.1]
        } by {
            if k < a.len() {
            } else if k < a.len() + b.len() {
                assert((a + b + c)[k] == b[k - a.len()]);
            } else {
                assert((a + b + c)[k] == c[k - a.len() - b.len()]);
            }
        }
    }
}

/// Where each visit's symbol has the name of the part it was found for, the
/// symbols that `at_depth` picks at depth `d` have the name `q[d]`.
proof fn lemma_at_depth_named(vs: Seq<(SymbolView, int)>, q: Seq<Seq<char>>, d: int)
    requires
        forall|k: int| 0 <= k < vs.len() ==> 0 <= (#[trigger] vs[k]).1 < q.len() && vs[k].0.name == q[vs[k].1],
    ensures
        forall|i: int| 0 <= i < at_depth(vs, d).len() ==> (#[trigger] at_depth(vs, d)[i]).name == q[d],
    decreases vs.len(),
{
    if vs.len() > 0 {
        assert forall|k: int| 0 <= k < vs.drop_last().len() implies 0 <= (#[trigger] vs.drop_last()[k]).1 < q.len()
            && vs.drop_last()[k].0.name == q[vs.drop_last()[k].1] by {
            assert(vs.drop_last()[k] == vs[k]);
        }
        lemma_at_depth_named(vs.drop_last(), q, d);
        let r = at_depth(vs, d);
        let p = at_depth(vs.drop_last(), d);
        assert(vs.last() == vs[vs.len() - 1]);
        if vs.last().1 == d {
            assert(r == p.push(vs.last().0));
            assert forall|i: int| 0 <= i < r.len() implies (#[trigger] r[i]).name == q[d] by {
                if i < p.len() {
                    assert(r[i] == p[i]);
                }
            }
        } else {
            assert(r == p);
        }
    }
}

/// Every symbol that a qualified name names has the name of the qualified
/// name's last part.
pub proof fn lemma_full_matches_named(ctx: Seq<SymbolView>, q: Seq<Seq<char>>)
    requires
        q.len() > 0,
    ensures
        forall|i: int| 0 <= i < full_matches(ctx, q).len() ==> (#[trigger] full_matches(ctx, q)[i]).name == q.last(),
{
    lemma_named_have_name(ctx, q[0]);
    lemma_visit_names(q, context_named(ctx, q[0]), 0);
    let vs = visits(ctx, q);
    assert(vs == visit_list(q, context_named(ctx, q[0]), 0));
    lemma_at_depth_named(vs, q, q.len() - 1);
}

/// The symbols that `at_depth` picks from two sequences of visits one
/// after the other are those it picks from each.
proof fn lemma_at_depth_concat(a: Seq<(SymbolView, int)>, b: Seq<(SymbolView, int)>, d: int)
    ensures
        at_depth(a + b, d) == at_depth(a, d) + at_depth(b, d),
    decreases b.len(),
{
    if b.len() == 0 {
        assert(a + b =~= a);
        assert(at_depth(a, d) + at_depth(b, d) =~= at_depth(a, d));
    } else {
        lemma_at_depth_concat(a, b.drop_last(), d);
        assert((a + b).drop_last() =~= a + b.drop_last());
        assert((a + b).last() == b.last());
        if b.last().1 == d {
            assert(at_depth(a, d) + at_depth(b, d) =~= (at_depth(a, d) + at_depth(b.drop_last(), d)).push(b.last().0));
        }
    }
}

/// Symbols added to a context come after those it named before: what a
/// qualified name names in a context, it names first in any context that
/// extends it.
pub proof fn lemma_full_matches_extend(ctx: Seq<SymbolView>, extra: Seq<SymbolView>, q: Seq<Seq<char>>)
    ensures
        full_matches(ctx, q).is_prefix_of(full_matches(ctx + extra, q)),
{
    if q.len() > 0 {
        let pred = |m: SymbolView| m.name == q[0];
        Seq::filter_distributes_over_add(ctx, extra, pred);
        assert(context_named(ctx + extra, q[0]) == context_named(ctx, q[0]) + context_named(extra, q[0]));
        lemma_visit_concat(q, context_named(ctx, q[0]), context_named(extra, q[0]), 0);
        let va = visit_list(q, context_named(ctx, q[0]), 0);
        let vb = visit_list(q, context_named(extra, q[0]), 0);
        lemma_at_depth_concat(va, vb, q.len() - 1);
    } else {
        assert(full_matches(ctx, q) =~= Seq::<SymbolView>::empty());
    }
}

/// Why a name could not be evaluated.
#[derive(Debug)]
pub enum EvalError {
    /// No symbol has this qualified name.
    SymbolNotFound(QualifiedName),
    /// The qualified name names a symbol that is no module, where only
    /// modules may stand.
    ExpectedModule(QualifiedName),
    /// The parameter of this name has the first type; an argument for it
    /// has the second.
    ParameterTypeMismatch(Identifier, Type, Type),
    /// A call names an argument that is no parameter.
    UnexpectedArgument(Identifier),
    /// A call gives no value for these parameters, which have no default.
    MissingArguments(IdentifierList),
}

/// The visit of a symbol: a copy of it, and the index of the part of the name
/// that found it.
pub open spec fn visit_views(v: Seq<(Symbol, usize)>) -> Seq<(SymbolView, int)> {
    v.map_values(|p: (Symbol, usize)| (p.0@, p.1 as int))
}

impl QualifiedName {
    /// Visits all symbols along the qualified name, starting from the symbols
    /// of the context: each symbol found for a part, with the index of that
    /// part, in the order of a walk that follows each symbol into its members
    /// before it goes on to the next.
    pub fn visit_symbols(&self, context: &Context) -> (r: Vec<(Symbol, usize)>)
        ensures
            visit_views(r@) == visits(context@, self@),
    {
        let mut out: Vec<(Symbol, usize)> = Vec::new();
        assert(visit_views(out@) =~= Seq::<(SymbolView, int)>::empty());
        self._visit_symbols(None, 0, context, &mut out);
        if self.len() == 0 {
            assert(visits(context@, self@) =~= Seq::<(SymbolView, int)>::empty());
        }
        out
    }

    /// Visits the symbols found for the part `index`: those of the context,
    /// or the members of `root`.
    fn _visit_symbols(&self, root: Option<&Symbol>, index: usize, context: &Context, out: &mut Vec<(Symbol, usize)>)
        requires
            index == 0 <==> root is None,
        ensures
            index < self@.len() ==> visit_views(final(out)@) == visit_views(old(out)@) + visit_list(
                self@,
                match root {
                    Some(r) => members_named(r@, self@[index as int]),
                    None => context_named(context@, self@[index as int]),
                },
                index as int,
            ),
            index >= self@.len() ==> final(out)@ == old(out)@,
        decreases self@.len() - index,
    {
        if index >= self.len() {
            return;
        }
        let ident = self.get(index);
        let new_symbols = match root {
            Some(r) => r.get_symbols(ident),
            None => context.find_symbols(ident),
        };
        let ghost cands = ref_views(new_symbols@);
        let n = self.len();
        let ghost start = visit_views(out@);
        assert(cands.take(0) =~= Seq::<SymbolView>::empty());
        for k in 0..new_symbols.len()
            invariant
                index < self@.len(),
                n == self@.len(),
                cands == ref_views(new_symbols@),
                visit_views(out@) == start + visit_list(self@, cands.take(k as int), index as int),
        {
            let symbol = new_symbols[k];
            let ghost before = visit_views(out@);
            out.push((symbol.copy(), index));
            assert(visit_views(out@) =~= before.push((symbol@, index as int)));
            proof {
                assert(symbol@ == cands[k as int]);
            }
            let ghost mid = visit_views(out@);
            self._visit_symbols(Some(symbol), index + 1, context, out);
            proof {
                let one = seq![cands[k as int]];
                assert(cands.take(k + 1) =~= cands.take(k as int) + one);
                lemma_visit_concat(self@, cands.take(k as int), one, index as int);
                assert(one.drop_first() =~= Seq::<SymbolView>::empty());
                let inner = visit_list(self@, members_named(cands[k as int], self@[index + 1]), index + 1);
                if index + 1 < self@.len() {
                    assert(visit_views(out@) == mid + inner);
                } else {
                    assert(inner =~= Seq::<(SymbolView, int)>::empty());
                    assert(visit_views(out@) =~= mid + inner);
                }
                assert(visit_list(self@, one.drop_first(), index as int) =~= Seq::<(SymbolView, int)>::empty());
                assert(visit_list(self@, one, index as int) =~= seq![(cands[k as int], index as int)] + inner);
                assert(visit_views(out@) =~= start + visit_list(self@, cands.take(k + 1), index as int));
            }
        }
        assert(cands.take(new_symbols.len() as int) =~= cands);
    }

    /// The symbols that the whole qualified name names; an error where there
    /// is none.
    pub fn get_symbols(&self, context: &Context) -> (r: Result<Vec<Symbol>, EvalError>)
        ensures
            r matches Ok(v) ==> symbol_views(v@) == full_matches(context@, self@) && v@.len() > 0,
            r matches Err(EvalError::SymbolNotFound(q)) ==> q@ == self@ && full_matches(context@, self@).len() == 0,
            r matches Err(e) ==> e is SymbolNotFound,
    {
        let visited = self.visit_symbols(context);
        let mut symbols: Vec<Symbol> = Vec::new();
        let ghost vs = visit_views(visited@);
        let ghost last = self@.len() - 1;
        for i in 0..visited.len()
            invariant
                vs == visit_views(visited@),
                last == self@.len() - 1,
                symbol_views(symbols@) == at_depth(vs.take(i as int), last),
        {
            let (ref symbol, depth) = visited[i];
            assert(vs.take(i + 1).drop_last() =~= vs.take(i as int));
            assert(vs.take(i + 1).last() == (symbol@, depth as int));
            if self.len() > 0 && depth == self.len() - 1 {
                let ghost before = symbol_views(symbols@);
                symbols.push(symbol.copy());
                assert(symbol_views(symbols@) =~= before.push(symbol@));
            }
        }
        assert(vs.take(visited.len() as int) =~= vs);
        if symbols.len() == 0 {
            return Err(EvalError::SymbolNotFound(self.copy()));
        }
        Ok(symbols)
    }
}

} // verus!
