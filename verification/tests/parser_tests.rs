use sysctl_conf::{SysctlConfig, SysctlError};
use sysctl_conf::TreeNode;

fn tree_eq(a: &TreeNode, b: &TreeNode) -> bool {
    match (a, b) {
        (TreeNode::Leaf(x), TreeNode::Leaf(y)) => x == y,
        (TreeNode::Object(xs), TreeNode::Object(ys)) => {
            xs.len() == ys.len()
                && xs.iter().zip(ys.iter()).all(|((ka, ca), (kb, cb))| ka == kb && tree_eq(ca, cb))
        }
        _ => false,
    }
}

fn child<'a>(t: &'a TreeNode, name: &str) -> &'a TreeNode {
    match t {
        TreeNode::Object(cs) => {
            for (k, c) in cs {
                if k == name {
                    return c;
                }
            }
            panic!("missing child {}", name);
        }
        _ => panic!("not an object"),
    }
}

fn leaf(t: &TreeNode) -> &str {
    match t {
        TreeNode::Leaf(s) => s.as_str(),
        _ => panic!("not a leaf"),
    }
}

#[test]
fn parse_basic_entries() {
    let mut c = SysctlConfig::new();
    c.parse("net.ipv4.ip_forward = 1\nkernel.hostname = box\n").unwrap();
    assert_eq!(c.len(), 2);
    assert_eq!(c.get("net.ipv4.ip_forward").unwrap().as_str(), "1");
    assert_eq!(c.get("kernel.hostname").unwrap().as_str(), "box");
    assert!(c.get("missing").is_none());
}

#[test]
fn parse_last_write_wins() {
    let mut c = SysctlConfig::new();
    c.parse("key = first\nkey = second\n").unwrap();
    assert_eq!(c.len(), 1);
    assert_eq!(c.get("key").unwrap().as_str(), "second");
}

#[test]
fn parse_skips_blank_and_comment_lines() {
    let mut c = SysctlConfig::new();
    c.parse("   \n# a comment\n\t\nkey = v\n").unwrap();
    assert_eq!(c.len(), 1);
    assert_eq!(c.get("key").unwrap().as_str(), "v");
}

#[test]
fn parse_reports_line_without_equals() {
    let mut c = SysctlConfig::new();
    let r = c.parse("a = 1\nbad line\nb = 2\n");
    match r {
        Err(SysctlError::Parse { line, message }) => {
            assert_eq!(line, 2);
            assert_eq!(message, "invalid format, expected 'key=value'");
        }
        _ => panic!("expected a parse error"),
    }
    // the failed parse leaves the table untouched: not even line 1 landed
    assert!(c.is_empty());
    assert!(c.get("a").is_none());
    assert!(c.get("b").is_none());
}

#[test]
fn parse_rejects_empty_key() {
    let mut c = SysctlConfig::new();
    let r = c.parse("=value");
    match r {
        Err(SysctlError::Parse { line, message }) => {
            assert_eq!(line, 1);
            assert_eq!(message, "empty key not allowed");
        }
        _ => panic!("expected a parse error"),
    }
}

#[test]
fn parse_allows_empty_value() {
    let mut c = SysctlConfig::new();
    c.parse("key =\n").unwrap();
    assert_eq!(c.get("key").unwrap().as_str(), "");
}

#[test]
fn parse_splits_on_first_equals_only() {
    let mut c = SysctlConfig::new();
    c.parse("key = a=b=c\n").unwrap();
    assert_eq!(c.get("key").unwrap().as_str(), "a=b=c");
}

#[test]
fn parse_trims_key_and_value() {
    let mut c = SysctlConfig::new();
    c.parse("  spaced.key   =   some value  \n").unwrap();
    assert_eq!(c.get("spaced.key").unwrap().as_str(), "some value");
}

#[test]
fn parse_error_keeps_earlier_table() {
    let mut c = SysctlConfig::new();
    c.parse("a = 1\n").unwrap();
    let r = c.parse("no equals here");
    assert!(r.is_err());
    assert_eq!(c.len(), 1);
    assert_eq!(c.get("a").unwrap().as_str(), "1");
}

#[test]
fn parse_empty_input() {
    let mut c = SysctlConfig::new();
    c.parse("").unwrap();
    assert!(c.is_empty());
}

#[test]
fn parse_crlf_line_endings() {
    let mut c = SysctlConfig::new();
    c.parse("a = 1\r\nb = 2\r\n").unwrap();
    assert_eq!(c.len(), 2);
    assert_eq!(c.get("a").unwrap().as_str(), "1");
    assert_eq!(c.get("b").unwrap().as_str(), "2");
}

#[test]
fn parse_indented_comment_is_skipped() {
    let mut c = SysctlConfig::new();
    c.parse("   # indented comment = looks like a pair\n").unwrap();
    assert!(c.is_empty());
}

#[test]
fn set_get_and_sizes() {
    let mut c = SysctlConfig::new();
    assert!(c.is_empty());
    assert_eq!(c.len(), 0);
    c.set("x".to_string(), "1".to_string());
    c.set("y".to_string(), "2".to_string());
    c.set("x".to_string(), "3".to_string());
    assert_eq!(c.len(), 2);
    assert!(!c.is_empty());
    assert_eq!(c.get("x").unwrap().as_str(), "3");
    let keys = c.keys();
    assert_eq!(keys.len(), 2);
    assert!(keys.iter().any(|k| k.as_str() == "x"));
    assert!(keys.iter().any(|k| k.as_str() == "y"));
    let pairs = c.iter();
    assert_eq!(pairs.len(), 2);
    assert!(pairs.iter().any(|(k, v)| k == "x" && v == "3"));
}

#[test]
fn tree_nests_dotted_keys() {
    let mut c = SysctlConfig::new();
    c.set("a.b".to_string(), "1".to_string());
    c.set("a.c".to_string(), "2".to_string());
    let t = c.to_tree();
    let a = child(&t, "a");
    assert_eq!(leaf(child(a, "b")), "1");
    assert_eq!(leaf(child(a, "c")), "2");
    match a {
        TreeNode::Object(cs) => assert_eq!(cs.len(), 2),
        _ => panic!("expected an object"),
    }
}

#[test]
fn tree_rebuild_is_deterministic() {
    let mut c = SysctlConfig::new();
    c.set("a.b".to_string(), "1".to_string());
    c.set("a.c".to_string(), "2".to_string());
    let t1 = c.to_tree();
    let t2 = c.to_tree();
    assert!(tree_eq(&t1, &t2));
}

#[test]
fn tree_prefix_collision_last_wins() {
    // a leaf in the way of a deeper path is replaced by an object
    let mut c = SysctlConfig::new();
    c.set("a".to_string(), "x".to_string());
    c.set("a.b".to_string(), "1".to_string());
    let t = c.to_tree();
    assert_eq!(leaf(child(child(&t, "a"), "b")), "1");

    // and a later plain key overwrites the subtree
    let mut d = SysctlConfig::new();
    d.set("a.b".to_string(), "1".to_string());
    d.set("a".to_string(), "x".to_string());
    let u = d.to_tree();
    assert_eq!(leaf(child(&u, "a")), "x");
}

#[test]
fn tree_paths_independent_of_write_order() {
    // with non-colliding keys, what each path leads to does not depend on
    // the order the pairs were written in
    let mut c1 = SysctlConfig::new();
    c1.set("a.b".to_string(), "1".to_string());
    c1.set("a.c".to_string(), "2".to_string());
    c1.set("d".to_string(), "3".to_string());
    let mut c2 = SysctlConfig::new();
    c2.set("d".to_string(), "3".to_string());
    c2.set("a.c".to_string(), "2".to_string());
    c2.set("a.b".to_string(), "1".to_string());
    let t1 = c1.to_tree();
    let t2 = c2.to_tree();
    for (path, want) in [(["a", "b"].as_slice(), "1"), (["a", "c"].as_slice(), "2")] {
        let mut n1 = &t1;
        let mut n2 = &t2;
        for seg in path {
            n1 = child(n1, seg);
            n2 = child(n2, seg);
        }
        assert_eq!(leaf(n1), want);
        assert_eq!(leaf(n2), want);
    }
    assert_eq!(leaf(child(&t1, "d")), "3");
    assert_eq!(leaf(child(&t2, "d")), "3");
}

#[test]
fn tree_single_segment_key() {
    let mut c = SysctlConfig::new();
    c.set("plain".to_string(), "v".to_string());
    let t = c.to_tree();
    assert_eq!(leaf(child(&t, "plain")), "v");
}
