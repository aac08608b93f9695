use runt::splitter::split;

/// Splits `content` and hands back the header lines and the body's
/// lines, both as strings.
fn buf(content: &[u8]) -> (Vec<String>, Vec<String>) {
    let (left, right) = split(content);

    let left = left
        .into_iter()
        .map(|l| String::from_utf8(l).unwrap())
        .collect::<Vec<String>>();
    let right = String::from_utf8(right)
        .unwrap()
        .lines()
        .map(String::from)
        .collect::<Vec<String>>();

    (left, right)
}

#[test]
fn empty() {
    let res = buf(b"");

    let left = res.0;
    let right = res.1;

    assert!(left.is_empty());
    assert!(right.is_empty());
}

#[test]
fn trim() {
    let res = buf(b"#! hello\\\n#               my-command foo bar\n    This is the body\n");

    let left = res.0.join(" ");
    let right = res.1.join(" ");

    assert_eq!("my-command foo bar", left);
    assert_eq!("    This is the body", right);
}

#[test]
fn no_head() {
    let res = buf(b"#! hello\\\nThis is the body\n");

    let left = res.0;
    let right = res.1.join(" ");

    assert!(left.is_empty());
    assert_eq!("This is the body", right);
}

#[test]
fn no_tail() {
    let res = buf(b"#! hello\\\n# my-command foo bar\n#   wee\n");

    let left = res.0.join(" ");
    let right = res.1;

    assert_eq!("my-command foo bar wee", left);
    assert!(right.is_empty());
}

#[test]
fn multi_head() {
    let res = buf(b"#! hello\\\n# my-command foo bar\n#   wee\nThis is the body\n");

    let left = res.0.join(" ");
    let right = res.1.join(" ");

    assert_eq!("my-command foo bar wee", left);
    assert_eq!("This is the body", right);
}

#[test]
fn multi_tail() {
    let res = buf(b"#! hello\n# my-command foo bar\nThis is the body\nThis is another part of it\n");

    let left = res.0.join(" ");
    let right = res.1.join(" ");

    assert_eq!("my-command foo bar", left);
    assert_eq!("This is the body This is another part of it", right);
}

#[test]
fn multi_head_tail() {
    let res = buf(
        b"#! hello\\\n# my-command foo bar\n#   wee\nThis is the body\nThis is another part of it\n",
    );

    let left = res.0.join(" ");
    let right = res.1.join(" ");

    assert_eq!("my-command foo bar wee", left);
    assert_eq!("This is the body This is another part of it", right);
}

#[test]
fn blank_first_line_only() {
    let (head, body) = split(b"\n");
    assert!(head.is_empty());
    assert_eq!(body, b"");
}

#[test]
fn header_and_body_exact() {
    let (head, body) = split(b"#!x\n# my-command foo bar\n#   wee\nThis is the body\n");
    let joined = head
        .iter()
        .map(|l| String::from_utf8(l.clone()).unwrap())
        .collect::<Vec<String>>()
        .join(" ");
    assert_eq!(joined, "my-command foo bar wee");
    assert_eq!(body, b"This is the body\n");
}

#[test]
fn first_content_line_not_comment() {
    let (head, body) = split(b"#!x\nThis is the body\n");
    assert!(head.is_empty());
    assert_eq!(body, b"This is the body\n");
}

#[test]
fn multi_line_body_exact() {
    let (head, body) = split(b"#!x\n# my-command foo bar\nLine1\nLine2\n");
    let joined = head
        .iter()
        .map(|l| String::from_utf8(l.clone()).unwrap())
        .collect::<Vec<String>>()
        .join(" ");
    assert_eq!(joined, "my-command foo bar");
    assert_eq!(body, b"Line1\nLine2\n");
}

#[test]
fn re_split_same_bytes_same_result() {
    let (_, body) = split(b"#!x\n# outer-command\nrun: me\n# inner-command\npayload\n");
    assert_eq!(body, b"run: me\n# inner-command\npayload\n");

    let first = split(&body);
    let second = split(&body);
    assert_eq!(first.0, second.0);
    assert_eq!(first.1, second.1);
    assert_eq!(first.0, vec![b"inner-command".to_vec()]);
    assert_eq!(first.1, b"payload\n");
}

#[test]
fn bare_marker_line_keeps_empty_entry() {
    let (head, body) = split(b"#!x\n#\nbody\n");
    assert_eq!(head, vec![Vec::<u8>::new()]);
    assert_eq!(body, b"body\n");
}

#[test]
fn marker_run_and_one_blank_run_stripped() {
    let (head, body) = split(b"#!x\n### cmd\n# \t #x\nrest");
    assert_eq!(head, vec![b"cmd".to_vec(), b"#x".to_vec()]);
    assert_eq!(body, b"rest");
}

#[test]
fn last_header_line_without_newline() {
    let (head, body) = split(b"#!x\n# cmd");
    assert_eq!(head, vec![b"cmd".to_vec()]);
    assert_eq!(body, b"");
}

#[test]
fn body_without_trailing_newline() {
    let (head, body) = split(b"#!x\nabc");
    assert!(head.is_empty());
    assert_eq!(body, b"abc");
}

#[test]
fn body_bytes_preserved_exactly() {
    let mut input = b"#!x\n# cmd\n".to_vec();
    let payload = vec![0xffu8, 0x00, 0x7f, 0x0a, 0xfe];
    input.extend_from_slice(&payload);
    let (head, body) = split(&input);
    assert_eq!(head, vec![b"cmd".to_vec()]);
    assert_eq!(body, payload);
}

#[test]
fn body_is_the_exact_byte_suffix() {
    let input = b"#!x\n# a\n#  b\nBody line\nrest".to_vec();
    let (head, body) = split(&input);
    assert_eq!(head, vec![b"a".to_vec(), b"b".to_vec()]);
    assert_eq!(body, b"Body line\nrest");
    let cut = input.len() - body.len();
    assert_eq!(&input[cut..], &body[..]);
}

#[test]
fn totally_empty_input() {
    let (head, body) = split(b"");
    assert!(head.is_empty());
    assert_eq!(body, b"");
}
