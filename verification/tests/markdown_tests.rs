use microcad_parser::markdown::{generate_tests_for_md_file, insert_code_blocks, md_module_path, CodeBlock};
use microcad_parser::md_test::{generate_test, generate_tests_for_md_lines};
use microcad_parser::tree::Tree;

fn lines(text: &str) -> Vec<String> {
    text.lines().map(|l| l.to_string()).collect()
}

#[test]
fn generate_test_template() {
    let t = generate_test("first", "circle(1mm);\n");
    assert_eq!(
        t,
        "\n        #[test]\n        fn first() {\n            let input = r#\"\ncircle(1mm);\n\"#;\n        }\n    \n"
    );
}

#[test]
fn md_lines_named_listing() {
    let md = "# Title\n```µcad,circle\ncircle(1mm);\nrect(2mm);\n```\ntext\n";
    let out = generate_tests_for_md_lines(&lines(md));
    assert_eq!(out, generate_test("circle", "circle(1mm);\nrect(2mm);\n"));
}

#[test]
fn md_lines_unnamed_listing_is_skipped() {
    let md = "```µcad\ncircle(1mm);\n```\n```µcad,b,extra\nx\n```\n";
    let out = generate_tests_for_md_lines(&lines(md));
    assert_eq!(out, generate_test("b", "x\n"));
}

#[test]
fn md_lines_other_languages_ignored() {
    let md = "```rust\nfn main() {}\n```\n";
    assert_eq!(generate_tests_for_md_lines(&lines(md)), "");
}

#[test]
fn module_path_of_document() {
    let parts = vec!["..".to_string(), "doc".to_string(), "intro.md".to_string()];
    assert_eq!(md_module_path(&parts), "doc.intro");
    assert_eq!(md_module_path(&vec![]), "");
    assert_eq!(md_module_path(&vec!["a.b.c".to_string()]), "a");
}

#[test]
fn tree_insert_and_code() {
    let mut tree = Tree::new();
    assert!(tree.can_insert("a.t"));
    tree.insert("a.t", "x".to_string());
    tree.insert("top", "y".to_string());
    let code = tree.to_rust_code();
    let test_a = "#[test]\n#[allow(non_snake_case)]\nfn r#t() {\n    use crate::{language::document::Document,parser};\n    let _ = parser::Parser::parse_rule_or_panic::<Document>(\n        parser::Rule::document,\n        r#\"\nx\"#\n    );\n}";
    let test_top = "#[test]\n#[allow(non_snake_case)]\nfn r#top() {\n    use crate::{language::document::Document,parser};\n    let _ = parser::Parser::parse_rule_or_panic::<Document>(\n        parser::Rule::document,\n        r#\"\ny\"#\n    );\n}";
    let module_a = format!("#[allow(non_snake_case)]\n\nmod r#a {{\n{}\n}}", test_a);
    assert_eq!(code, format!("{}\n{}\n", module_a, test_top));
}

#[test]
fn tree_insert_replaces_same_name() {
    let mut tree = Tree::new();
    tree.insert("m.t", "old".to_string());
    tree.insert("m.t", "new".to_string());
    match &tree {
        Tree::Root(children) => {
            assert_eq!(children.len(), 1);
            match &children[0] {
                Tree::Module(name, inner) => {
                    assert_eq!(name, "m");
                    assert_eq!(inner.len(), 1);
                    match &inner[0] {
                        Tree::Test(n, c) => {
                            assert_eq!(n, "t");
                            assert_eq!(c, "new");
                        }
                        _ => panic!("expected a test"),
                    }
                }
                _ => panic!("expected a module"),
            }
        }
        _ => panic!("expected the root"),
    }
}

#[test]
fn tree_cannot_insert_below_test() {
    let mut tree = Tree::new();
    tree.insert("t", "x".to_string());
    assert!(!tree.can_insert("t.u"));
    assert!(tree.can_insert("t"));
    let leaf = Tree::Test("t".to_string(), "x".to_string());
    assert!(!leaf.can_insert("u"));
}

#[test]
fn tree_copy_is_equal_code() {
    let mut tree = Tree::new();
    tree.insert("a.b.c", "code".to_string());
    let copy = tree.copy();
    assert_eq!(copy.to_rust_code(), tree.to_rust_code());
}

#[test]
fn markdown_code_blocks_into_tree() {
    let mut tree = Tree::new();
    let parts = vec!["doc".to_string(), "intro.md".to_string()];
    let md = "Text\n```µcad,first\ncircle(1mm);\n```\nmore\n```µCAD\nnot named\n```\n";
    assert!(generate_tests_for_md_file(&mut tree, &parts, md));
    let mut expected = Tree::new();
    expected.insert("doc.intro.first", "circle(1mm);\n".to_string());
    assert_eq!(tree.to_rust_code(), expected.to_rust_code());
}

#[test]
fn markdown_conflicting_block_leaves_tree() {
    let mut tree = Tree::new();
    tree.insert("doc", "x".to_string());
    let before = tree.to_rust_code();
    let parts = vec!["doc".to_string()];
    let md = "```µcad,first\ncircle(1mm);\n```\n";
    assert!(!generate_tests_for_md_file(&mut tree, &parts, md));
    assert_eq!(tree.to_rust_code(), before);
}

#[test]
fn insert_blocks_without_module() {
    let mut tree = Tree::new();
    let blocks = vec![
        CodeBlock { name: Some("a".to_string()), code: Some("1".to_string()) },
        CodeBlock { name: None, code: Some("2".to_string()) },
        CodeBlock { name: Some("b".to_string()), code: Some("3".to_string()) },
    ];
    assert!(insert_code_blocks(&mut tree, "", &blocks));
    let mut expected = Tree::new();
    expected.insert("a", "1".to_string());
    expected.insert("b", "3".to_string());
    assert_eq!(tree.to_rust_code(), expected.to_rust_code());
}

#[test]
fn tree_insert_keeps_other_tests() {
    let mut one = Tree::new();
    one.insert("a.t", "x".to_string());
    one.insert("a.u", "y".to_string());
    one.insert("b", "z".to_string());
    let mut two = Tree::new();
    two.insert("a.t", "x".to_string());
    two.insert("a.u", "y".to_string());
    two.insert("b", "z".to_string());
    two.insert("a.u", "w".to_string());
    let code_one = one.to_rust_code();
    let code_two = two.to_rust_code();
    assert!(code_one.contains("r#\"\nx\"#") && code_two.contains("r#\"\nx\"#"));
    assert!(code_two.contains("r#\"\nz\"#"));
    assert!(code_two.contains("r#\"\nw\"#") && !code_two.contains("r#\"\ny\"#"));
}
