use buildomat_at_home::frontmatter::frontmatter_text;

#[test]
fn marked_header_lines() {
    let script = "#!/bin/bash\n#:\n#: name = \"build\"\n# plain comment\n#:#: skip_clone = true\n\nset -o errexit\n#: late = 1\n";
    assert_eq!(frontmatter_text(script), "\n name = \"build\"\n skip_clone = true");
}

#[test]
fn crlf_lines() {
    assert_eq!(frontmatter_text("#: a = 1\r\n#: b = 2\r\necho\r\n"), " a = 1\n b = 2");
}

#[test]
fn no_header() {
    assert_eq!(frontmatter_text("echo hi\n#: name = \"x\"\n"), "");
    assert_eq!(frontmatter_text(""), "");
}
