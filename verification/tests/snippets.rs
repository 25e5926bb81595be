use typoena::snippets::{is_blank_source, RawBody, RawSnippet, Snippets};

#[test]
fn entries_become_snippets_with_joined_bodies_and_bare_stops() {
    let entries = vec![
        RawSnippet {
            name: "Book notes".into(),
            prefix: "booknotes".into(),
            body: RawBody::Lines(vec!["# ${1:Titre}".into(), "## $2".into()]),
            description: String::new(),
        },
        RawSnippet {
            name: "Link".into(),
            prefix: "link".into(),
            body: RawBody::Text("[$1]($2)$0".into()),
            description: "Inline link".into(),
        },
    ];
    let s = Snippets::from_entries(&entries).0;
    assert_eq!(s.len(), 2);
    assert_eq!(s[0].name, "Book notes");
    assert_eq!(s[0].prefix, "booknotes");
    assert_eq!(s[0].body, "# $1\n## $2");
    assert_eq!(s[0].description, "");
    assert_eq!(s[1].name, "Link");
    assert_eq!(s[1].body, "[$1]($2)$0");
    assert_eq!(s[1].description, "Inline link");
}

#[test]
fn a_blank_snippet_file_means_no_snippets() {
    assert!(is_blank_source(""));
    assert!(is_blank_source(" \n\t"));
    assert!(!is_blank_source("{}"));
    assert!(Snippets::default().0.is_empty());
}

/// The snippet file read the way the host reads it: a blank file is no
/// snippets, otherwise a JSON object keyed by display name (walked in name
/// order), each body a string or an array of lines.
fn parse(src: &str) -> Result<Snippets, serde_json::Error> {
    if is_blank_source(src) {
        return Ok(Snippets::default());
    }
    let v: serde_json::Value = serde_json::from_str(src)?;
    let mut entries = Vec::new();
    if let serde_json::Value::Object(map) = v {
        for (name, s) in map {
            let field = |k: &str| s.get(k).and_then(|x| x.as_str()).unwrap_or("").to_string();
            let body = match s.get("body") {
                Some(serde_json::Value::Array(lines)) => RawBody::Lines(
                    lines.iter().map(|l| l.as_str().unwrap_or("").to_string()).collect(),
                ),
                Some(serde_json::Value::String(t)) => RawBody::Text(t.clone()),
                _ => RawBody::Text(String::new()),
            };
            entries.push(RawSnippet {
                name,
                prefix: field("prefix"),
                body,
                description: field("description"),
            });
        }
    }
    Ok(Snippets::from_entries(&entries))
}

#[test]
fn parse_snippets_reads_zed_json_string_and_array_bodies() {
    let json = r###"{
        "Link": { "prefix": "link", "body": "[$1]($2)$0", "description": "Inline link" },
        "Book notes": { "prefix": "booknotes", "body": ["# ${1:Titre}", "## $2"] }
    }"###;
    let s = parse(json).unwrap().0;
    assert_eq!(s.len(), 2);
    assert_eq!(s[0].name, "Book notes");
    assert_eq!(s[0].prefix, "booknotes");
    assert_eq!(s[0].body, "# $1\n## $2");
    assert_eq!(s[0].description, "");
    assert_eq!(s[1].name, "Link");
    assert_eq!(s[1].body, "[$1]($2)$0");
    assert_eq!(s[1].description, "Inline link");
}

#[test]
fn parse_snippets_empty_and_malformed() {
    assert!(parse("{}").unwrap().0.is_empty());
    assert!(parse("").unwrap().0.is_empty());
    assert!(parse(" \n\t").unwrap().0.is_empty());
    assert!(parse("{ not json").is_err());
}
