use buildomat_at_home::artefacts::{artefacts, artefacts_from_nodes};

#[test]
fn code_link_gives_artefact() {
    assert_eq!(
        artefacts("see [`bin`](http://x/a) and plain text"),
        vec![("bin".to_string(), "http://x/a".to_string())]
    );
}

#[test]
fn plain_text_link_is_ignored() {
    assert_eq!(artefacts("see [bin](http://x/a) and plain text"), vec![]);
}

#[test]
fn links_kept_in_document_order() {
    let summary = "# Artefacts\n\n* [`out/a.tar.gz`](https://h/1)\n* [notes](https://h/2)\n* [`out/b`](https://h/3)\n";
    assert_eq!(
        artefacts(summary),
        vec![
            ("out/a.tar.gz".to_string(), "https://h/1".to_string()),
            ("out/b".to_string(), "https://h/3".to_string()),
        ]
    );
}

#[test]
fn nodes_choose_code_links() {
    let nodes = vec![
        None,
        Some(("u1".to_string(), Some("c1".to_string()))),
        Some(("u2".to_string(), None)),
        Some(("u3".to_string(), Some("c3".to_string()))),
    ];
    assert_eq!(
        artefacts_from_nodes(&nodes),
        vec![("c1".to_string(), "u1".to_string()), ("c3".to_string(), "u3".to_string())]
    );
}
