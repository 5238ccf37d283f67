use midencrypto::felt::Felt;
use midencrypto::formatting::document;
use midencrypto::formatting::document::{character, flatten, indent, nl, split, text, Document};
use midencrypto::formatting::hex::{DisplayHex, ToHex};
use midencrypto::formatting::print::{pretty_print, PrettyPrint};
use midencrypto::merkle::path::MerklePath;
use midencrypto::merkle::text::{path_to_text, tree_to_text, word_to_hex};
use midencrypto::merkle::tree::MerkleTree;
use midencrypto::rescue::digest::RpoDigest;

#[test]
fn plain_documents_print_their_text() {
    let doc = document::concat(text(String::from("hello")), text(String::from(" world")));
    assert_eq!(pretty_print(&doc, 80), "hello world");
    let doc = indent(4, flatten(doc));
    assert_eq!(pretty_print(&doc, 2), "hello world");
}

#[test]
fn empty_parts_are_dropped() {
    let doc = document::concat(Document::Empty, character('x'));
    assert!(matches!(doc, Document::Char('x', 1)));
    assert!(document::concat(Document::Empty, Document::Empty).is_empty());
    assert!(indent(2, Document::Empty).is_empty());
    assert!(matches!(character('\n'), Document::Newline));
}

#[test]
fn leading_newline() {
    assert!(nl().has_leading_newline());
    assert!(text(String::from("\nabc")).has_leading_newline());
    assert!(!text(String::from("abc")).has_leading_newline());
    assert!(document::concat(Document::Empty, nl()).has_leading_newline());
}

#[test]
fn lists_break_when_too_wide() {
    let items = vec![String::from("a"), String::from("b")];
    assert_eq!(items.to_pretty_string(), "[a, b]");
    let doc = items.render();
    assert_eq!(pretty_print(&doc, 3), "[\n    a,\n    b\n]");
}

#[test]
fn split_joins_lines() {
    let doc = split("a\nb\nc");
    assert_eq!(pretty_print(&doc, 80), "ab\nc\n");
    assert!(split("").is_empty());
    let doc = split("x\r\ny");
    assert_eq!(pretty_print(&doc, 80), "xy\n");
}

#[test]
fn hex_display() {
    let bytes = [0xabu8, 0x01];
    let h = DisplayHex::new(&bytes);
    assert_eq!(h.to_hex(), "ab01");
    assert_eq!(h.to_hex_with_prefix(), "0xab01");
}

#[test]
fn word_and_path_text() {
    let w = [Felt::new(1), Felt::zero(), Felt::zero(), Felt::zero()];
    let hex = word_to_hex(w);
    assert_eq!(hex.len(), 64);
    assert!(hex.starts_with("0100000000000000"));
    let path = MerklePath::new(vec![RpoDigest::new(w), RpoDigest::new(w)]);
    let t = path_to_text(&path);
    assert_eq!(t, format!("[{hex}, {hex}]"));
    assert_eq!(path_to_text(&MerklePath::new(vec![])), "[]");
}

#[test]
fn tree_text_lists_levels() {
    let leaves: Vec<[Felt; 4]> = (0..4).map(|i| [Felt::new(i), Felt::zero(), Felt::zero(), Felt::zero()]).collect();
    let tree = MerkleTree::new(&leaves).unwrap();
    let t = tree_to_text(&tree).unwrap();
    let lines: Vec<&str> = t.lines().collect();
    assert_eq!(lines.len(), 1 + 2 + 4);
    assert_eq!(lines[0], word_to_hex(tree.root().to_felts()));
    assert!(lines[1].starts_with("  ") && !lines[1].starts_with("   "));
    assert!(lines[3].starts_with("    "));
}
