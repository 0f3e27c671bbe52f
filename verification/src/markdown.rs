//! Tests from the named µcad code blocks of markdown documents, ordered into
//! a [`Tree`] of modules that follows the documents' paths.
//!
//! A code block ` ```µcad,name ` in the document `doc/intro.md` gives the test
//! `name` in the module `intro` inside the module `doc`.
use crate::identifier::join;
use crate::md_test::string_views;
use crate::text::{chars_of, chars_eq, string_of, take_until, take_until_chars};
use crate::tree::{Tree, TreeView, tree_insert, tree_insertable};
use vstd::prelude::*;

verus! {

/// A µcad code block of a markdown document: the name that follows ` ```µcad,`
/// and the code, where the block has them.
#[derive(Debug)]
pub struct CodeBlock {
    pub name: Option<String>,
    pub code: Option<String>,
}

/// The name and the code of a code block, as text.
pub type CodeBlockView = (Option<Seq<char>>, Option<Seq<char>>);

impl View for CodeBlock {
    type V = CodeBlockView;

    open spec fn view(&self) -> CodeBlockView {
        (
            match self.name {
                Some(n) => Some(n@),
                None => None,
            },
            match self.code {
                Some(c) => Some(c@),
                None => None,
            },
        )
    }
}

/// The values of a sequence of code blocks.
pub open spec fn block_views(bs: Seq<CodeBlock>) -> Seq<CodeBlockView> {
    bs.map_values(|b: CodeBlock| b@)
}

/// Whether the `regex` crate builds a regular expression from `pattern`.
pub uninterp spec fn regex_compiles(pattern: Seq<char>) -> bool;

/// For each match of the regular expression `pattern` in `content`, in the
/// order of the text, the texts of its groups named `first` and `second`,
/// where they took part in the match.
pub uninterp spec fn regex_named_groups(
    pattern: Seq<char>,
    content: Seq<char>,
    first: Seq<char>,
    second: Seq<char>,
) -> Seq<CodeBlockView>;

/// The groups named `first` and `second` of each match of `pattern` in
/// `content`; `None` where `pattern` is no regular expression.
///
/// Trusted: calls the `regex` crate's `Regex::new` on `pattern`, then
/// `Regex::captures_iter` on `content`, and takes the groups `first` and
/// `second` of each match.  Whether the pattern builds is named
/// `regex_compiles` of the pattern, and the groups are named
/// `regex_named_groups` of the four texts; nothing more is stated of them.
#[verifier::external_body]
fn named_groups(pattern: &str, content: &str, first: &str, second: &str) -> (r: Option<Vec<CodeBlock>>)
    ensures
        r is Some <==> regex_compiles(pattern@),
        r matches Some(bs) ==> block_views(bs@) == regex_named_groups(pattern@, content@, first@, second@),
{
    match regex::Regex::new(pattern) {
        Ok(reg) => Some(
            reg.captures_iter(content).map(
                |cap| CodeBlock {
                    name: cap.name(first).map(|m| m.as_str().to_string()),
                    code: cap.name(second).map(|m| m.as_str().to_string()),
                },
            ).collect(),
        ),
        Err(_) => None,
    }
}

/// The pattern of a µcad code block: three backticks and `µcad` in any case
/// of `cad`, optionally a comma and a name of word characters, `.` and `#`,
/// a line break, the code up to the next backtick, and three backticks.
pub open spec fn code_block_pattern() -> Seq<char> {
    "```µ[Cc][Aa][Dd](,(?<name>[\\.#\\w]+))?\\n(?<code>[^`]*)+```"@
}

/// The µcad code blocks of `content`: the groups `name` and `code` of each
/// match of the code block pattern.
pub open spec fn md_code_blocks(content: Seq<char>) -> Seq<CodeBlockView> {
    regex_named_groups(code_block_pattern(), content, "name"@, "code"@)
}

/// The module names of a document's path: its parts other than `..`, each
/// up to its first `.`.
pub open spec fn module_parts(components: Seq<Seq<char>>) -> Seq<Seq<char>>
    decreases components.len(),
{
    if components.len() == 0 {
        Seq::empty()
    } else {
        let rest = module_parts(components.drop_last());
        if components.last() == ".."@ {
            rest
        } else {
            rest.push(take_until(components.last(), '.').0)
        }
    }
}

/// The module path of a document: its module names separated by `.`.
pub open spec fn doc_path(components: Seq<Seq<char>>) -> Seq<char> {
    join(module_parts(components), "."@)
}

/// The module path, separated by `.`, for the document whose path has the
/// parts `components`: a part `..` is left out, and each other part ends
/// before its first `.`, so that `doc/intro.md` gives `doc.intro`.
pub fn md_module_path(components: &Vec<String>) -> (s: String)
    ensures
        s@ == doc_path(string_views(components@)),
{
    let dotdot = chars_of("..");
    let ghost cs = string_views(components@);
    let mut s = String::new();
    let mut count: usize = 0;
    assert(cs.take(0) =~= Seq::<Seq<char>>::empty());
    for i in 0..components.len()
        invariant
            cs == string_views(components@),
            dotdot@ == ".."@,
            s@ == join(module_parts(cs.take(i as int)), "."@),
            count == module_parts(cs.take(i as int)).len(),
            count <= i,
    {
        let c = chars_of(components[i].as_str());
        assert(cs.take(i + 1).drop_last() =~= cs.take(i as int));
        assert(cs.take(i + 1).last() == c@);
        if !chars_eq(&c, &dotdot) {
            let (stem, _) = take_until_chars(&c, '.');
            let ghost parts = module_parts(cs.take(i as int));
            assert(parts.push(stem@).drop_last() =~= parts);
            if count > 0 {
                s.append(".");
            } else {
                assert(parts.push(stem@) =~= seq![stem@]);
            }
            s.append(string_of(&stem).as_str());
            count = count + 1;
        }
    }
    assert(cs.take(components.len() as int) =~= cs);
    s
}

/// The path under which a test named `name` of a document with the module
/// path `module` goes.
pub open spec fn test_path(module: Seq<char>, name: Seq<char>) -> Seq<char> {
    if module.len() == 0 {
        name
    } else {
        module + "."@ + name
    }
}

/// The tree with the tests of the named code blocks among `blocks`
/// inserted, one after the other, under the module path `module`; none where
/// one of them cannot be inserted.
pub open spec fn insert_blocks(v: TreeView, module: Seq<char>, blocks: Seq<CodeBlockView>) -> Option<TreeView>
    decreases blocks.len(),
{
    if blocks.len() == 0 {
        Some(v)
    } else {
        match insert_blocks(v, module, blocks.drop_last()) {
            None => None,
            Some(w) => match blocks.last() {
                (Some(name), Some(code)) => {
                    let path = test_path(module, name);
                    if tree_insertable(w, path) {
                        Some(tree_insert(w, path, code))
                    } else {
                        None
                    }
                },
                _ => Some(w),
            },
        }
    }
}

/// Inserts the tests of the named code blocks among `blocks`, in their
/// order, under the module path `doc_path`.  Where one of them cannot be
/// inserted, because a name on its path is that of a test, the tree stays as
/// it was and the result is `false`.
pub fn insert_code_blocks(tree: &mut Tree, doc_path: &str, blocks: &Vec<CodeBlock>) -> (ok: bool)
    ensures
        insert_blocks(old(tree)@, doc_path@, block_views(blocks@)) matches Some(w) ==> ok && final(tree)@
            == w,
        insert_blocks(old(tree)@, doc_path@, block_views(blocks@)) is None ==> !ok && final(tree)@ == old(
            tree,
        )@,
{
    let ghost bs = block_views(blocks@);
    let mut work = tree.copy();
    assert(bs.take(0) =~= Seq::<CodeBlockView>::empty());
    for i in 0..blocks.len()
        invariant
            bs == block_views(blocks@),
            insert_blocks(tree@, doc_path@, bs.take(i as int)) == Some(work@),
    {
        assert(bs.take(i + 1).drop_last() =~= bs.take(i as int));
        assert(bs.take(i + 1).last() == blocks@[i as int]@);
        let b = &blocks[i];
        if let (Some(name), Some(code)) = (&b.name, &b.code) {
            let mut path = String::new();
            if doc_path.unicode_len() == 0 {
                path.append(name.as_str());
            } else {
                path.append(doc_path);
                path.append(".");
                path.append(name.as_str());
            }
            if !work.can_insert(path.as_str()) {
                proof {
                    lemma_insert_blocks_none(tree@, doc_path@, bs, i as int + 1);
                }
                assert(bs.take(blocks.len() as int) =~= bs);
                return false;
            }
            work.insert(path.as_str(), code.clone());
        }
    }
    assert(bs.take(blocks.len() as int) =~= bs);
    *tree = work;
    true
}

/// Once a block cannot be inserted, the blocks after it change nothing.
proof fn lemma_insert_blocks_none(v: TreeView, module: Seq<char>, bs: Seq<CodeBlockView>, n: int)
    requires
        0 <= n <= bs.len(),
        insert_blocks(v, module, bs.take(n)) is None,
    ensures
        insert_blocks(v, module, bs) is None,
    decreases bs.len() - n,
{
    if n < bs.len() {
        assert(bs.take(n + 1).drop_last() =~= bs.take(n));
        lemma_insert_blocks_none(v, module, bs, n + 1);
    } else {
        assert(bs.take(n) =~= bs);
    }
}

/// Reads the µcad code blocks of a markdown document, whose path has the
/// parts `components` and whose text is `md_content`, and inserts the tests
/// of the named ones into `tree` under the document's module path.  Where
/// one of them cannot be inserted, the tree stays as it was and the result
/// is `false`; so it is where the code block pattern does not build.
pub fn generate_tests_for_md_file(tree: &mut Tree, components: &Vec<String>, md_content: &str) -> (ok: bool)
    ensures
        !regex_compiles(code_block_pattern()) ==> !ok && final(tree)@ == old(tree)@,
        regex_compiles(code_block_pattern()) ==> (insert_blocks(
            old(tree)@,
            doc_path(string_views(components@)),
            md_code_blocks(md_content@),
        ) matches Some(w) ==> ok && final(tree)@ == w),
        regex_compiles(code_block_pattern()) ==> (insert_blocks(
            old(tree)@,
            doc_path(string_views(components@)),
            md_code_blocks(md_content@),
        ) is None ==> !ok && final(tree)@ == old(tree)@),
{
    let path = md_module_path(components);
    match named_groups("```µ[Cc][Aa][Dd](,(?<name>[\\.#\\w]+))?\\n(?<code>[^`]*)+```", md_content, "name", "code") {
        Some(blocks) => insert_code_blocks(tree, path.as_str(), &blocks),
        None => false,
    }
}

} // verus!
