//! Tests taken from the µcad listings of markdown documents.
//!
//! A listing opens with a line that starts with ` ```µcad `; where that line
//! names the test after a comma (` ```µcad,name `), the lines up to the next
//! line ` ``` ` become the input of a generated test function of that name.
use crate::text::{chars_of, chars_eq, split_once, split_once_chars, starts_with_chars, string_of, take_until, take_until_chars};
use vstd::prelude::*;

verus! {

/// The test function that `generate_test` writes for one listing, with the
/// line break that ends it.
pub open spec fn md_test_text(name: Seq<char>, listing: Seq<char>) -> Seq<char> {
    "\n        #[test]\n        fn "@ + name + "() {\n            let input = r#\"\n"@ + listing
        + "\"#;\n        }\n    \n"@
}

/// The test function named `test_name` for the listing `listing`, as the
/// lines it takes in a generated source file.
pub fn generate_test(test_name: &str, listing: &str) -> (s: String)
    ensures
        s@ == md_test_text(test_name@, listing@),
{
    let mut s = String::from_str("\n        #[test]\n        fn ");
    s.append(test_name);
    s.append("() {\n            let input = r#\"\n");
    s.append(listing);
    s.append("\"#;\n        }\n    \n");
    s
}

/// Where a scan of a markdown document stands: the name of the open listing,
/// if there is one, the lines of the listing read so far, and the tests
/// written so far.
pub struct MdScan {
    pub name: Option<Seq<char>>,
    pub listing: Seq<char>,
    pub out: Seq<char>,
}

/// The line that opens a µcad listing starts with this.
pub open spec fn listing_open() -> Seq<char> {
    "```µcad"@
}

/// The line that closes a listing.
pub open spec fn listing_close() -> Seq<char> {
    "```"@
}

/// The second of the comma separated parts of `line`, where it has a comma.
pub open spec fn listing_name(line: Seq<char>) -> Option<Seq<char>> {
    match split_once(line, ',') {
        Some(parts) => Some(take_until(parts.1, ',').0),
        None => None,
    }
}

/// The scan after one more line.
///
/// An opening line starts a new listing, and names it where it holds a name
/// (else the name of the listing before stays); a closing line writes the
/// test of a named listing and ends it; any other line belongs to the listing
/// while one is named.
pub open spec fn md_step(st: MdScan, line: Seq<char>) -> MdScan {
    if listing_open().is_prefix_of(line) {
        MdScan {
            name: match listing_name(line) {
                Some(n) => Some(n),
                None => st.name,
            },
            listing: Seq::empty(),
            out: st.out,
        }
    } else if line == listing_close() {
        match st.name {
            Some(n) => MdScan { name: None, listing: st.listing, out: st.out + md_test_text(n, st.listing) },
            None => st,
        }
    } else if st.name is Some {
        MdScan { name: st.name, listing: st.listing + line + "\n"@, out: st.out }
    } else {
        st
    }
}

/// The scan of a whole document, given by its lines.
pub open spec fn md_scan(lines: Seq<Seq<char>>) -> MdScan
    decreases lines.len(),
{
    if lines.len() == 0 {
        MdScan { name: None, listing: Seq::empty(), out: Seq::empty() }
    } else {
        md_step(md_scan(lines.drop_last()), lines.last())
    }
}

/// The texts of a sequence of strings.
pub open spec fn string_views(v: Seq<String>) -> Seq<Seq<char>> {
    v.map_values(|s: String| s@)
}

/// The text of an optional string.
pub open spec fn opt_view(o: Option<String>) -> Option<Seq<char>> {
    match o {
        Some(s) => Some(s@),
        None => None,
    }
}

/// The tests of all named µcad listings of a markdown document, given by its
/// lines, one after the other in the order of the document.
pub fn generate_tests_for_md_lines(lines: &Vec<String>) -> (out: String)
    ensures
        out@ == md_scan(string_views(lines@)).out,
{
    let open = chars_of("```µcad");
    let close = chars_of("```");
    let mut out = String::new();
    let mut listing = String::new();
    let mut test_name: Option<String> = None;
    let ghost ls = string_views(lines@);
    assert(ls.take(0) =~= Seq::<Seq<char>>::empty());
    for i in 0..lines.len()
        invariant
            ls == string_views(lines@),
            open@ == listing_open(),
            close@ == listing_close(),
            md_scan(ls.take(i as int)) == (MdScan { name: opt_view(test_name), listing: listing@, out: out@ }),
    {
        let line = chars_of(lines[i].as_str());
        assert(ls.take(i + 1).drop_last() =~= ls.take(i as int));
        assert(ls.take(i + 1).last() == line@);
        if starts_with_chars(&line, &open) {
            listing = String::new();
            match split_once_chars(&line, ',') {
                Some((_, rest)) => {
                    let (tok, _) = take_until_chars(&rest, ',');
                    test_name = Some(string_of(&tok));
                },
                None => {},
            }
        } else if chars_eq(&line, &close) {
            if let Some(n) = &test_name {
                let t = generate_test(n.as_str(), listing.as_str());
                out.append(t.as_str());
                test_name = None;
            }
        } else if test_name.is_some() {
            listing.append(lines[i].as_str());
            listing.append("\n");
        }
    }
    assert(ls.take(lines.len() as int) =~= ls);
    out
}

/// A line that opens no µcad listing leaves a scan with no open listing
/// as it is.
proof fn lemma_md_step_idle(st: MdScan, line: Seq<char>)
    requires
        st.name is None,
        !listing_open().is_prefix_of(line),
    ensures
        md_step(st, line) == st,
{
}

/// After a closing line, the lines up to the next opening line belong to no
/// listing: whatever they hold, they add nothing to the tests.
pub proof fn lemma_md_outside_listings(before: Seq<Seq<char>>, after: Seq<Seq<char>>)
    requires
        forall|i: int| 0 <= i < after.len() ==> !listing_open().is_prefix_of(#[trigger] after[i]),
    ensures
        md_scan(before.push(listing_close()) + after).out == md_scan(before.push(listing_close())).out,
        md_scan(before.push(listing_close()) + after).name is None,
    decreases after.len(),
{
    let a = before.push(listing_close());
    assert(a.drop_last() =~= before);
    assert(!listing_open().is_prefix_of(listing_close())) by {
        reveal_strlit("```µcad");
        reveal_strlit("```");
    }
    if after.len() == 0 {
        assert(a + after =~= a);
    } else {
        let d = after.drop_last();
        lemma_md_outside_listings(before, d);
        assert((a + after).drop_last() =~= a + d);
        assert((a + after).last() == after.last());
        assert(after.last() == after[after.len() - 1]);
        lemma_md_step_idle(md_scan(a + d), after.last());
    }
}

/// The lines of a listing as its text: each line followed by a line break.
pub open spec fn listing_text(body: Seq<Seq<char>>) -> Seq<char>
    decreases body.len(),
{
    if body.len() == 0 {
        Seq::empty()
    } else {
        listing_text(body.drop_last()) + body.last() + "\n"@
    }
}

/// While a named listing is open, its lines are gathered and nothing is
/// written.
proof fn lemma_md_inside_listing(before: Seq<Seq<char>>, open: Seq<char>, body: Seq<Seq<char>>)
    requires
        listing_open().is_prefix_of(open),
        listing_name(open) is Some,
        forall|i: int|
            0 <= i < body.len() ==> !listing_open().is_prefix_of(#[trigger] body[i]) && body[i] != listing_close(),
    ensures
        md_scan(before.push(open) + body) == (MdScan {
            name: listing_name(open),
            listing: listing_text(body),
            out: md_scan(before).out,
        }),
    decreases body.len(),
{
    let a = before.push(open);
    assert(a.drop_last() =~= before);
    if body.len() == 0 {
        assert(a + body =~= a);
    } else {
        let d = body.drop_last();
        lemma_md_inside_listing(before, open, d);
        assert((a + body).drop_last() =~= a + d);
        assert((a + body).last() == body.last());
        assert(body.last() == body[body.len() - 1]);
    }
}

/// A named µcad listing yields exactly one test: the one of its name, whose
/// input is the lines between its opening and its closing line, each with
/// its line break; the tests written before stay as they are, and after the
/// closing line no listing is open.
pub proof fn lemma_md_listing_test(before: Seq<Seq<char>>, open: Seq<char>, body: Seq<Seq<char>>)
    requires
        listing_open().is_prefix_of(open),
        listing_name(open) is Some,
        forall|i: int|
            0 <= i < body.len() ==> !listing_open().is_prefix_of(#[trigger] body[i]) && body[i] != listing_close(),
    ensures
        md_scan((before.push(open) + body).push(listing_close())).out == md_scan(before).out + md_test_text(
            listing_name(open)->Some_0,
            listing_text(body),
        ),
        md_scan((before.push(open) + body).push(listing_close())).name is None,
{
    lemma_md_inside_listing(before, open, body);
    let a = (before.push(open) + body).push(listing_close());
    assert(a.drop_last() =~= before.push(open) + body);
    assert(!listing_open().is_prefix_of(listing_close())) by {
        reveal_strlit("```µcad");
        reveal_strlit("```");
    }
}

} // verus!
