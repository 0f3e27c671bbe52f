//! Character-level text handling shared by the line oriented readers of this crate.
//!
//! Text is modelled as `Seq<char>`, the view of `String` and `&str`.  The spec
//! functions here state what std's `trim`, `lines`, `split_once` and friends
//! do, and the executable functions compute them on `Vec<char>`.
use vstd::prelude::*;

verus! {

// ---------------------------------------------------------------------------
// Specifications
// ---------------------------------------------------------------------------

/// The Unicode `White_Space` property, which `char::is_whitespace` tests.
pub open spec fn is_ws(c: char) -> bool {
    ||| c == '\t'
    ||| c == '\n'
    ||| c == '\u{0B}'
    ||| c == '\u{0C}'
    ||| c == '\r'
    ||| c == ' '
    ||| c == '\u{85}'
    ||| c == '\u{A0}'
    ||| c == '\u{1680}'
    ||| ('\u{2000}' <= c && c <= '\u{200A}')
    ||| c == '\u{2028}'
    ||| c == '\u{2029}'
    ||| c == '\u{202F}'
    ||| c == '\u{205F}'
    ||| c == '\u{3000}'
}

/// `s` with its leading white space removed (`str::trim_start`).
pub open spec fn trim_start(s: Seq<char>) -> Seq<char>
    decreases s.len(),
{
    if s.len() > 0 && is_ws(s[0]) {
        trim_start(s.drop_first())
    } else {
        s
    }
}

/// `s` with its trailing white space removed (`str::trim_end`).
pub open spec fn trim_end(s: Seq<char>) -> Seq<char>
    decreases s.len(),
{
    if s.len() > 0 && is_ws(s.last()) {
        trim_end(s.drop_last())
    } else {
        s
    }
}

/// `s` with white space removed at both ends (`str::trim`).
pub open spec fn trim(s: Seq<char>) -> Seq<char> {
    trim_end(trim_start(s))
}

/// The index of the first `c` in `s`, if there is one.
pub open spec fn first_index(s: Seq<char>, c: char) -> Option<int>
    decreases s.len(),
{
    if s.len() == 0 {
        None
    } else if s[0] == c {
        Some(0)
    } else {
        match first_index(s.drop_first(), c) {
            Some(i) => Some(i + 1),
            None => None,
        }
    }
}

/// The text before the first `c` and the text after it; where `s` holds no
/// `c`, all of `s` and nothing.
pub open spec fn take_until(s: Seq<char>, c: char) -> (Seq<char>, Seq<char>) {
    match first_index(s, c) {
        Some(i) => (s.take(i), s.skip(i + 1)),
        None => (s, Seq::empty()),
    }
}

/// `str::split_once` with a `char` pattern.
pub open spec fn split_once(s: Seq<char>, c: char) -> Option<(Seq<char>, Seq<char>)> {
    match first_index(s, c) {
        Some(i) => Some((s.take(i), s.skip(i + 1))),
        None => None,
    }
}

/// `s` without one trailing carriage return.
pub open spec fn strip_cr(s: Seq<char>) -> Seq<char> {
    if s.len() > 0 && s.last() == '\r' {
        s.drop_last()
    } else {
        s
    }
}

/// The lines of `s` as `str::lines` yields them: split at `\n`, a `\r` just
/// before a `\n` removed, and no empty line after a final `\n`.
pub open spec fn lines(s: Seq<char>) -> Seq<Seq<char>>
    decreases s.len(),
{
    if s.len() == 0 {
        Seq::empty()
    } else {
        match first_index(s, '\n') {
            Some(i) => {
                proof {
                    lemma_first_index(s, '\n');
                }
                seq![strip_cr(s.take(i))] + lines(s.skip(i + 1))
            },
            None => seq![s],
        }
    }
}

/// The texts held by a sequence of character vectors.
pub open spec fn views(v: Seq<Vec<char>>) -> Seq<Seq<char>> {
    v.map_values(|l: Vec<char>| l@)
}

/// The decimal digit for `d < 10`.
pub open spec fn digit_char(d: nat) -> char {
    ((d + 48) as u8) as char
}

/// The decimal representation of `n`, without leading zeros.
pub open spec fn decimal(n: nat) -> Seq<char>
    decreases n,
{
    if n < 10 {
        seq![digit_char(n)]
    } else {
        decimal(n / 10).push(digit_char(n % 10))
    }
}

/// `n` copies of `s`, one after the other.
pub open spec fn repeat(s: Seq<char>, n: nat) -> Seq<char>
    decreases n,
{
    if n == 0 {
        Seq::empty()
    } else {
        repeat(s, (n - 1) as nat) + s
    }
}

// ---------------------------------------------------------------------------
// Lemmas
// ---------------------------------------------------------------------------

/// `first_index` finds the first occurrence, and only that one.
pub proof fn lemma_first_index(s: Seq<char>, c: char)
    ensures
        first_index(s, c) matches Some(i) ==> 0 <= i < s.len() && s[i] == c && forall|j: int|
            0 <= j < i ==> s[j] != c,
        first_index(s, c) is None ==> forall|j: int| 0 <= j < s.len() ==> s[j] != c,
    decreases s.len(),
{
    if s.len() > 0 && s[0] != c {
        lemma_first_index(s.drop_first(), c);
        assert forall|j: int| 1 <= j < s.len() implies s[j] == s.drop_first()[j - 1] by {}
    }
}

/// A first occurrence, found by a scan, is what `first_index` gives.
pub proof fn lemma_first_index_at(s: Seq<char>, c: char, i: int)
    requires
        0 <= i <= s.len(),
        forall|j: int| 0 <= j < i ==> s[j] != c,
        i < s.len() ==> s[i] == c,
    ensures
        i < s.len() ==> first_index(s, c) == Some(i),
        i == s.len() ==> first_index(s, c) is None,
    decreases s.len(),
{
    if s.len() > 0 && i > 0 {
        lemma_first_index_at(s.drop_first(), c, i - 1);
    }
}

/// `trim_start` removes a prefix.
pub proof fn lemma_trim_start_suffix(s: Seq<char>)
    ensures
        exists|k: int| 0 <= k <= s.len() && trim_start(s) == s.skip(k) && forall|j: int|
            0 <= j < k ==> is_ws(#[trigger] s[j]),
    decreases s.len(),
{
    if s.len() > 0 && is_ws(s[0]) {
        lemma_trim_start_suffix(s.drop_first());
        let k = choose|k: int|
            0 <= k <= s.drop_first().len() && trim_start(s.drop_first()) == s.drop_first().skip(k)
                && forall|j: int| 0 <= j < k ==> is_ws(#[trigger] s.drop_first()[j]);
        assert(s.drop_first().skip(k) =~= s.skip(k + 1));
        assert forall|j: int| 0 <= j < k + 1 implies is_ws(#[trigger] s[j]) by {
            if j > 0 {
                assert(s[j] == s.drop_first()[j - 1]);
            }
        }
    } else {
        assert(s.skip(0) =~= s);
    }
}

/// Skipping `i` white space characters at the front does not change the trim.
pub proof fn lemma_trim_start_skip(s: Seq<char>, i: int)
    requires
        0 <= i <= s.len(),
        forall|j: int| 0 <= j < i ==> is_ws(s[j]),
    ensures
        trim_start(s) == trim_start(s.skip(i)),
    decreases i,
{
    if i > 0 {
        assert(s.skip(1) =~= s.drop_first());
        lemma_trim_start_skip(s.drop_first(), i - 1);
        assert(s.drop_first().skip(i - 1) =~= s.skip(i));
    } else {
        assert(s.skip(0) =~= s);
    }
}

/// Dropping `i` white space characters at the back does not change the trim.
pub proof fn lemma_trim_end_take(s: Seq<char>, i: int)
    requires
        0 <= i <= s.len(),
        forall|j: int| i <= j < s.len() ==> is_ws(s[j]),
    ensures
        trim_end(s) == trim_end(s.take(i)),
    decreases s.len() - i,
{
    if i < s.len() {
        assert(s.take(s.len() - 1) =~= s.drop_last());
        lemma_trim_end_take(s.drop_last(), i);
        assert(s.drop_last().take(i) =~= s.take(i));
    } else {
        assert(s.take(i) =~= s);
    }
}

// ---------------------------------------------------------------------------
// Executable functions
// ---------------------------------------------------------------------------

/// Appends one character to a `String`.
///
/// Trusted: a call of `String::push`, whose documentation says that it
/// appends the given `char` to the end of the string.
#[verifier::external_body]
pub(crate) fn push_char(s: &mut String, c: char)
    ensures
        final(s)@ == old(s)@.push(c),
{
    s.push(c);
}

/// The characters of `s`.
pub fn chars_of(s: &str) -> (v: Vec<char>)
    ensures
        v@ == s@,
{
    let n = s.unicode_len();
    let mut v: Vec<char> = Vec::new();
    for i in 0..n
        invariant
            n == s@.len(),
            v@ == s@.take(i as int),
    {
        v.push(s.get_char(i));
        assert(s@.take(i + 1) =~= s@.take(i as int).push(s@[i as int]));
    }
    assert(s@.take(n as int) =~= s@);
    v
}

/// A `String` holding the characters of `v`.
pub fn string_of(v: &Vec<char>) -> (s: String)
    ensures
        s@ == v@,
{
    let mut s = String::new();
    for i in 0..v.len()
        invariant
            s@ == v@.take(i as int),
    {
        push_char(&mut s, v[i]);
        assert(v@.take(i + 1) =~= v@.take(i as int).push(v@[i as int]));
    }
    assert(v@.take(v.len() as int) =~= v@);
    s
}

/// The characters of `v` from index `from` up to, not including, `to`.
pub fn sub_chars(v: &Vec<char>, from: usize, to: usize) -> (r: Vec<char>)
    requires
        from <= to <= v.len(),
    ensures
        r@ == v@.subrange(from as int, to as int),
{
    let mut r: Vec<char> = Vec::new();
    let mut i = from;
    while i < to
        invariant
            from <= i <= to <= v.len(),
            r@ == v@.subrange(from as int, i as int),
        decreases to - i,
    {
        r.push(v[i]);
        assert(v@.subrange(from as int, i + 1) =~= v@.subrange(from as int, i as int).push(
            v@[i as int],
        ));
        i = i + 1;
    }
    r
}

/// Appends the characters of `w` to `v`.
pub fn append_chars(v: &mut Vec<char>, w: &Vec<char>)
    ensures
        final(v)@ == old(v)@ + w@,
{
    for i in 0..w.len()
        invariant
            v@ == old(v)@ + w@.take(i as int),
    {
        v.push(w[i]);
        assert(w@.take(i + 1) =~= w@.take(i as int).push(w@[i as int]));
    }
    assert(w@.take(w.len() as int) =~= w@);
}

/// Whether `c` is white space (`char::is_whitespace`).
pub fn is_whitespace(c: char) -> (r: bool)
    ensures
        r == is_ws(c),
{
    c == '\t' || c == '\n' || c == '\u{0B}' || c == '\u{0C}' || c == '\r' || c == ' ' || c
        == '\u{85}' || c == '\u{A0}' || c == '\u{1680}' || ('\u{2000}' <= c && c <= '\u{200A}')
        || c == '\u{2028}' || c == '\u{2029}' || c == '\u{202F}' || c == '\u{205F}' || c
        == '\u{3000}'
}

/// The characters of `v` without white space at either end.
pub fn trim_chars(v: &Vec<char>) -> (r: Vec<char>)
    ensures
        r@ == trim(v@),
{
    let mut i: usize = 0;
    while i < v.len() && is_whitespace(v[i])
        invariant
            i <= v.len(),
            forall|j: int| 0 <= j < i ==> is_ws(v@[j]),
        decreases v.len() - i,
    {
        i = i + 1;
    }
    proof {
        lemma_trim_start_skip(v@, i as int);
        if i < v.len() {
            assert(v@.skip(i as int)[0] == v@[i as int]);
        }
        assert(trim_start(v@.skip(i as int)) == v@.skip(i as int));
    }
    let mut e: usize = v.len();
    while e > i && is_whitespace(v[e - 1])
        invariant
            i <= e <= v.len(),
            forall|j: int| e <= j < v.len() ==> is_ws(v@[j]),
        decreases e,
    {
        e = e - 1;
    }
    proof {
        let t = v@.skip(i as int);
        let k = (e - i) as int;
        assert forall|j: int| k <= j < t.len() implies is_ws(t[j]) by {
            assert(t[j] == v@[j + i]);
        }
        lemma_trim_end_take(t, k);
        assert(t.take(k) =~= v@.subrange(i as int, e as int));
        if k > 0 {
            assert(t.take(k).last() == v@[e - 1]);
        }
    }
    sub_chars(v, i, e)
}

/// The characters of `v` without white space at the front.
pub fn trim_start_chars(v: &Vec<char>) -> (r: Vec<char>)
    ensures
        r@ == trim_start(v@),
{
    let mut i: usize = 0;
    while i < v.len() && is_whitespace(v[i])
        invariant
            i <= v.len(),
            forall|j: int| 0 <= j < i ==> is_ws(v@[j]),
        decreases v.len() - i,
    {
        i = i + 1;
    }
    proof {
        lemma_trim_start_skip(v@, i as int);
        if i < v.len() {
            assert(v@.skip(i as int)[0] == v@[i as int]);
        }
        assert(v@.skip(i as int) =~= v@.subrange(i as int, v@.len() as int));
    }
    sub_chars(v, i, v.len())
}

/// Whether `a` and `b` hold the same characters.
pub fn chars_eq(a: &Vec<char>, b: &Vec<char>) -> (r: bool)
    ensures
        r == (a@ == b@),
{
    if a.len() != b.len() {
        return false;
    }
    let mut i: usize = 0;
    while i < a.len()
        invariant
            a.len() == b.len(),
            i <= a.len(),
            forall|j: int| 0 <= j < i ==> a@[j] == b@[j],
        decreases a.len() - i,
    {
        if a[i] != b[i] {
            return false;
        }
        i = i + 1;
    }
    assert(a@ =~= b@);
    true
}

/// Whether `v` begins with `p`.
pub fn starts_with_chars(v: &Vec<char>, p: &Vec<char>) -> (r: bool)
    ensures
        r == p@.is_prefix_of(v@),
{
    if p.len() > v.len() {
        return false;
    }
    let mut i: usize = 0;
    while i < p.len()
        invariant
            p.len() <= v.len(),
            i <= p.len(),
            forall|j: int| 0 <= j < i ==> p@[j] == v@[j],
        decreases p.len() - i,
    {
        if p[i] != v[i] {
            assert(!(p@ =~= v@.subrange(0, p@.len() as int)));
            return false;
        }
        i = i + 1;
    }
    assert(p@ =~= v@.subrange(0, p@.len() as int));
    true
}

/// The index of the first `c` in `v`, if there is one.
pub fn find_char(v: &Vec<char>, c: char) -> (r: Option<usize>)
    ensures
        r matches Some(i) ==> i < v.len() && first_index(v@, c) == Some(i as int),
        r is None ==> first_index(v@, c) is None,
{
    let mut i: usize = 0;
    while i < v.len()
        invariant
            i <= v.len(),
            forall|j: int| 0 <= j < i ==> v@[j] != c,
        decreases v.len() - i,
    {
        if v[i] == c {
            proof {
                lemma_first_index_at(v@, c, i as int);
            }
            return Some(i);
        }
        i = i + 1;
    }
    proof {
        lemma_first_index_at(v@, c, i as int);
    }
    None
}

/// The text before the first `c` in `v` and the text after it.
pub fn take_until_chars(v: &Vec<char>, c: char) -> (r: (Vec<char>, Vec<char>))
    ensures
        (r.0@, r.1@) == take_until(v@, c),
{
    proof {
        lemma_first_index(v@, c);
    }
    match find_char(v, c) {
        Some(i) => (sub_chars(v, 0, i), sub_chars(v, i + 1, v.len())),
        None => {
            let r = sub_chars(v, 0, v.len());
            assert(v@.subrange(0, v@.len() as int) =~= v@);
            (r, Vec::new())
        },
    }
}

/// `str::split_once` at the first `c`.
pub fn split_once_chars(v: &Vec<char>, c: char) -> (r: Option<(Vec<char>, Vec<char>)>)
    ensures
        r matches Some(p) ==> split_once(v@, c) == Some((p.0@, p.1@)),
        r is None ==> split_once(v@, c) is None,
{
    proof {
        lemma_first_index(v@, c);
    }
    match find_char(v, c) {
        Some(i) => Some((sub_chars(v, 0, i), sub_chars(v, i + 1, v.len()))),
        None => None,
    }
}

/// The lines of `v`, as `str::lines` yields them.
pub fn lines_of(v: &Vec<char>) -> (r: Vec<Vec<char>>)
    ensures
        views(r@) == lines(v@),
{
    let mut out: Vec<Vec<char>> = Vec::new();
    let mut start: usize = 0;
    assert(v@.skip(0) =~= v@);
    assert(views(out@) =~= Seq::<Seq<char>>::empty());
    while start < v.len()
        invariant
            start <= v.len(),
            lines(v@) == views(out@) + lines(v@.skip(start as int)),
        decreases v.len() - start,
    {
        let rest = sub_chars(v, start, v.len());
        assert(rest@ =~= v@.skip(start as int));
        proof {
            lemma_first_index(rest@, '\n');
        }
        match find_char(&rest, '\n') {
            Some(i) => {
                let mut line = sub_chars(&rest, 0, i);
                if line.len() > 0 && line[line.len() - 1] == '\r' {
                    line.pop();
                }
                proof {
                    assert(line@ == strip_cr(rest@.take(i as int)));
                    assert(rest@.skip(i + 1) =~= v@.skip(start + i + 1));
                }
                let ghost old_out = views(out@);
                out.push(line);
                assert(views(out@) =~= old_out.push(line@));
                assert(views(out@) + lines(v@.skip(start + i + 1)) =~= old_out + (seq![
                    strip_cr(rest@.take(i as int)),
                ] + lines(rest@.skip(i + 1))));
                start = start + i + 1;
            },
            None => {
                let ghost old_out = views(out@);
                out.push(rest);
                assert(views(out@) =~= old_out.push(rest@));
                assert(v@.skip(v.len() as int) =~= Seq::<char>::empty());
                assert(lines(v@.skip(v.len() as int)) =~= Seq::<Seq<char>>::empty());
                assert(views(out@) + lines(v@.skip(v.len() as int)) =~= old_out + seq![
                    rest@,
                ]);
                start = v.len();
            },
        }
    }
    assert(v@.skip(start as int) =~= Seq::<char>::empty());
    assert(views(out@) + lines(v@.skip(start as int)) =~= views(out@));
    out
}

/// The decimal digit character for `d`.
pub fn digit(d: usize) -> (c: char)
    requires
        d < 10,
    ensures
        c == digit_char(d as nat),
{
    ((d as u8) + 48) as char
}

/// The decimal representation of `n`.
pub fn decimal_string(n: usize) -> (s: String)
    ensures
        s@ == decimal(n as nat),
    decreases n,
{
    if n < 10 {
        let mut s = String::new();
        push_char(&mut s, digit(n));
        assert(s@ =~= seq![digit_char(n as nat)]);
        s
    } else {
        let mut s = decimal_string(n / 10);
        push_char(&mut s, digit(n % 10));
        s
    }
}

/// `n` copies of four spaces.
pub fn indentation(n: usize) -> (s: String)
    ensures
        s@ == repeat("    "@, n as nat),
{
    let mut s = String::new();
    for i in 0..n
        invariant
            s@ == repeat("    "@, i as nat),
    {
        s.append("    ");
    }
    s
}

} // verus!
