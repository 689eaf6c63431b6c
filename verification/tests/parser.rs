use ruulang::parser::assembler::ParserAssemble;
use ruulang::parser::lexer::{lex, TokenKind};
use ruulang::parser::parse_location::IdentifierKind;
use ruulang::parser::parser_constructs::ParserStatement;
use ruulang::parser::ruulang_ast::RuuLangFile;
use ruulang::parser::schema_ast::RuuLangSchema;
use ruulang::parser::serialize::RuuLangSerialize;
use ruulang::utils::error::{ParseError, RuuLangError};

const SAMPLE: &str = "/* A user. */
entity User {
    /* The posts of a user. */
    posts: Post { :public(a, \"b\") }
    owns: Post;
    read.self;
    write;
}

entity Post {
    author: User;
    read.post;
}

/* Shared. */
fragment Common for User {
    read.self;
    posts {
        read.post;
    }
}

/* Entry. */
@User {
    posts:cached {
        read.post;
        #Details;
        author {
            *
        }
    }
}
";

fn read(src: &str) -> (RuuLangSchema, RuuLangFile) {
    ParserStatement::parse(src).unwrap().assemble()
}

fn texts(v: &[String]) -> Vec<&str> {
    v.iter().map(|s| s.as_str()).collect()
}

#[test]
fn lexer_splits_the_text_into_tokens() {
    let tokens = lex("ab_1 { } /* c */ \"s t\" @ #.,;:()*".as_bytes()).unwrap();
    let kinds: Vec<TokenKind> = tokens.iter().map(|t| t.kind).collect();
    assert_eq!(
        kinds,
        vec![
            TokenKind::Word,
            TokenKind::LeftBrace,
            TokenKind::RightBrace,
            TokenKind::Comment,
            TokenKind::Str,
            TokenKind::At,
            TokenKind::Hash,
            TokenKind::Dot,
            TokenKind::Comma,
            TokenKind::Semicolon,
            TokenKind::Colon,
            TokenKind::LeftParen,
            TokenKind::RightParen,
            TokenKind::Star,
        ]
    );
    assert_eq!((tokens[0].start, tokens[0].end), (0, 4));
    assert_eq!((tokens[3].start, tokens[3].end), (9, 16));
    assert_eq!((tokens[4].start, tokens[4].end), (17, 22));
}

#[test]
fn lexer_reports_where_no_token_starts() {
    assert_eq!(lex("ab $".as_bytes()), Err(3));
    assert_eq!(lex("a /* open".as_bytes()), Err(2));
    assert_eq!(lex("a \"open".as_bytes()), Err(2));
    assert_eq!(lex("a / b".as_bytes()), Err(2));
    assert_eq!(lex("".as_bytes()), Ok(vec![]));
}

#[test]
fn sample_is_read_in_declaration_order() {
    let (schema, file) = read(SAMPLE);
    assert_eq!(schema.entities.len(), 2);
    assert_eq!(file.entities.len(), 2);
    assert_eq!(file.fragments.len(), 1);
    assert_eq!(file.entrypoints.len(), 1);
    assert_eq!(schema.entities[0].data.name.data.value, "User");
    assert_eq!(schema.entities[1].data.name.data.value, "Post");
    assert_eq!(schema.entities[0].data.name.data.kind, IdentifierKind::Entity);
}

#[test]
fn entity_members_are_read() {
    let (schema, _) = read(SAMPLE);
    let user = &schema.entities[0].data;
    assert_eq!(user.relationships.len(), 2);
    let posts = &user.relationships[0];
    assert_eq!(posts.data.relationship_name.data.value, "posts");
    assert_eq!(posts.data.relationship_name.data.kind, IdentifierKind::Rule);
    assert_eq!(posts.data.entity_name.data.value, "Post");
    assert_eq!(posts.data.attributes.len(), 1);
    assert_eq!(posts.data.attributes[0].data.name.data.value, "public");
    assert_eq!(posts.data.attributes[0].data.name.data.kind, IdentifierKind::Attribute);
    assert_eq!(texts(&posts.data.attributes[0].data.arguments), vec!["a", "\"b\""]);
    assert_eq!(user.relationships[1].data.relationship_name.data.value, "owns");
    assert_eq!(user.relationships[1].data.attributes.len(), 0);
    assert_eq!(user.grants.len(), 2);
    assert_eq!(texts(&user.grants[0].data.grant), vec!["read", "self"]);
    assert_eq!(texts(&user.grants[1].data.grant), vec!["write"]);
}

#[test]
fn comments_become_documentation() {
    let (schema, file) = read(SAMPLE);
    assert_eq!(schema.entities[0].docstring, Some(" A user. ".to_string()));
    assert_eq!(
        schema.entities[0].data.relationships[0].docstring,
        Some(" The posts of a user. ".to_string())
    );
    assert_eq!(schema.entities[0].data.relationships[1].docstring, None);
    assert_eq!(schema.entities[1].docstring, None);
    assert_eq!(file.fragments[0].docstring, Some(" Shared. ".to_string()));
    assert_eq!(file.entrypoints[0].docstring, Some(" Entry. ".to_string()));
}

#[test]
fn comments_without_a_declaration_stay_statements() {
    let statements = ParserStatement::parse("/* a */ entity A { } /* b */ /* c */").unwrap();
    assert_eq!(statements.len(), 3);
    assert!(matches!(&statements[0], ParserStatement::Entity(e) if e.docstring == Some(" a ".to_string())));
    assert!(matches!(&statements[1], ParserStatement::Comment(c) if c == "/* b */"));
    assert!(matches!(&statements[2], ParserStatement::Comment(c) if c == "/* c */"));
}

#[test]
fn rules_are_read_as_a_tree() {
    let (_, file) = read(SAMPLE);
    let entrypoint = &file.entrypoints[0].data;
    assert_eq!(entrypoint.entrypoint.data.value, "User");
    assert_eq!(entrypoint.rules.len(), 1);
    let posts = &entrypoint.rules[0].data;
    assert_eq!(posts.relationship.data.value, "posts");
    assert_eq!(posts.attributes.len(), 1);
    assert_eq!(posts.attributes[0].data.name.data.value, "cached");
    assert_eq!(posts.attributes[0].data.arguments.len(), 0);
    assert_eq!(posts.grants.len(), 1);
    assert_eq!(texts(&posts.grants[0].data.grant), vec!["read", "post"]);
    assert_eq!(posts.include_fragments.len(), 1);
    assert_eq!(posts.include_fragments[0].data.value, "Details");
    assert_eq!(posts.include_fragments[0].data.kind, IdentifierKind::Fragment);
    assert_eq!(posts.rules.len(), 1);
    let author = &posts.rules[0].data;
    assert_eq!(author.relationship.data.value, "author");
    assert_eq!(author.rules.len(), 1);
    assert_eq!(author.rules[0].data.relationship.data.value, "*");
    let fragment = &file.fragments[0].data;
    assert_eq!(fragment.name.data.value, "Common");
    assert_eq!(fragment.for_entity.data.value, "User");
    assert_eq!(fragment.grants.len(), 1);
    assert_eq!(fragment.rules.len(), 1);
}

#[test]
fn nodes_carry_their_byte_ranges() {
    let src = "@User { posts { read.other; } }";
    let (_, file) = read(src);
    let entrypoint = &file.entrypoints[0];
    assert_eq!(entrypoint.loc, Some((0, src.len())));
    assert_eq!(entrypoint.data.entrypoint.loc, Some((1, 5)));
    let rule = &entrypoint.data.rules[0];
    assert_eq!(rule.loc, Some((8, 29)));
    assert_eq!(rule.data.relationship.loc, Some((8, 13)));
    let grant = &rule.data.grants[0];
    assert_eq!(grant.loc, Some((16, 26)));
    assert_eq!(&src[16..26], "read.other");
    assert_eq!(entrypoint.file_name, None);
}

#[test]
fn parse_errors_name_their_place() {
    assert!(matches!(
        ParserStatement::parse("entity User { $ }"),
        Err(ParseError::InvalidToken { location: 14 })
    ));
    assert!(matches!(
        ParserStatement::parse("entity User {"),
        Err(ParseError::UnrecognizedEof { location: 13 })
    ));
    assert!(matches!(
        ParserStatement::parse("entity { }"),
        Err(ParseError::UnrecognizedToken { start: 7, end: 8 })
    ));
    assert!(matches!(
        ParserStatement::parse("@User { read.self; }"),
        Err(ParseError::UnrecognizedToken { start: 8, end: 12 })
    ));
    assert!(matches!(
        ParserStatement::parse("fragment F for User { #G; }"),
        Err(ParseError::UnrecognizedToken { start: 22, end: 23 })
    ));
    assert!(matches!(
        ParserStatement::parse("fragment F User { }"),
        Err(ParseError::UnrecognizedToken { start: 11, end: 15 })
    ));
    assert!(matches!(
        ParserStatement::parse("hello"),
        Err(ParseError::UnrecognizedToken { start: 0, end: 5 })
    ));
}

#[test]
fn parse_errors_become_pipeline_errors() {
    assert!(matches!(
        RuuLangError::from(ParseError::InvalidToken { location: 3 }),
        RuuLangError::RuuLangParseError(3)
    ));
    assert!(matches!(
        RuuLangError::from(ParseError::UnrecognizedEof { location: 4 }),
        RuuLangError::RuuLangParseError(4)
    ));
    assert!(matches!(
        RuuLangError::from(ParseError::UnrecognizedToken { start: 5, end: 9 }),
        RuuLangError::RuuLangParseError(5)
    ));
    assert!(matches!(
        RuuLangError::from(ParseError::ExtraToken { start: 6, end: 9 }),
        RuuLangError::RuuLangParseError(6)
    ));
    assert!(matches!(
        RuuLangError::from(ParseError::User { error: "bad".to_string() }),
        RuuLangError::Other(m) if m == "bad"
    ));
}

#[test]
fn empty_text_is_an_empty_file() {
    let (schema, file) = read("");
    assert_eq!(schema.entities.len(), 0);
    assert_eq!(file.entrypoints.len(), 0);
    assert_eq!(file.fragments.len(), 0);
    assert_eq!(file.entities.len(), 0);
}

#[test]
fn rule_serializes_as_source_text() {
    let (_, file) = read(SAMPLE);
    let rule = &file.entrypoints[0].data.rules[0].data;
    assert_eq!(
        rule.ruulang_serialize(0),
        "posts:cached {\n    read.post;\n\n    #Details;\n\n    author {\n        *\n    }\n}\n"
    );
    assert_eq!(rule.rules[0].data.rules[0].data.ruulang_serialize(2), "        *\n");
}

#[test]
fn attribute_serializes_with_its_arguments() {
    let (schema, _) = read(SAMPLE);
    let attribute = &schema.entities[0].data.relationships[0].data.attributes[0].data;
    assert_eq!(attribute.ruulang_serialize(0), ":public(a, \"b\")");
}

#[test]
fn file_serializes_as_source_text() {
    let (_, file) = read(SAMPLE);
    let text = file.ruulang_serialize(0);
    let expected = "entity User {
    posts: Post { :public(a, \"b\") }
    owns: Post;
    read.self;
    write;
}

entity Post {
    author: User;
    read.post;
}

fragment Common for User {
    read.self;

    posts {
        read.post;
    }
}


@User {
    posts:cached {
        read.post;

        #Details;

        author {
            *
        }
    }
}
";
    assert_eq!(text, expected);
}

fn same_rules(a: &[ruulang::parser::parse_location::Parsed<ruulang::parser::ruulang_ast::Rule>], b: &[ruulang::parser::parse_location::Parsed<ruulang::parser::ruulang_ast::Rule>]) -> bool {
    a.len() == b.len()
        && a.iter().zip(b.iter()).all(|(x, y)| {
            x.data.ruulang_serialize(0) == y.data.ruulang_serialize(0)
                && x.data.relationship.data.value == y.data.relationship.data.value
                && x.data.grants.len() == y.data.grants.len()
                && x.data.include_fragments.len() == y.data.include_fragments.len()
                && same_rules(&x.data.rules, &y.data.rules)
        })
}

#[test]
fn serialized_text_reads_back_the_same() {
    let (schema, file) = read(SAMPLE);
    let text = file.ruulang_serialize(0);
    let (schema2, file2) = read(&text);
    assert_eq!(schema.entities.len(), schema2.entities.len());
    for (a, b) in schema.entities.iter().zip(schema2.entities.iter()) {
        assert_eq!(a.data.ruulang_serialize(0), b.data.ruulang_serialize(0));
        assert_eq!(a.data.name.data.value, b.data.name.data.value);
        assert_eq!(a.data.relationships.len(), b.data.relationships.len());
        assert_eq!(a.data.grants.len(), b.data.grants.len());
    }
    assert_eq!(file.fragments.len(), file2.fragments.len());
    for (a, b) in file.fragments.iter().zip(file2.fragments.iter()) {
        assert_eq!(a.data.name.data.value, b.data.name.data.value);
        assert_eq!(a.data.for_entity.data.value, b.data.for_entity.data.value);
        assert!(same_rules(&a.data.rules, &b.data.rules));
    }
    assert_eq!(file.entrypoints.len(), file2.entrypoints.len());
    for (a, b) in file.entrypoints.iter().zip(file2.entrypoints.iter()) {
        assert_eq!(a.data.entrypoint.data.value, b.data.entrypoint.data.value);
        assert!(same_rules(&a.data.rules, &b.data.rules));
    }
    assert_eq!(file2.ruulang_serialize(0), text);
}

#[test]
fn string_arguments_read_back_the_same() {
    let src = "entity A {\n    r: B { :x(\"s\", plain, \"caf\u{e9} \u{1f600}, (y)\") :lone(\"\") }\n}\n@A { r:x(\"a b\") { } }";
    let (_, file) = read(src);
    let attributes = &file.entities[0].data.relationships[0].data.attributes;
    assert_eq!(
        texts(&attributes[0].data.arguments),
        vec!["\"s\"", "plain", "\"caf\u{e9} \u{1f600}, (y)\""]
    );
    assert_eq!(texts(&attributes[1].data.arguments), vec!["\"\""]);
    let text = file.ruulang_serialize(0);
    assert!(text.contains(":x(\"s\", plain, \"caf\u{e9} \u{1f600}, (y)\")"));
    let (_, file2) = read(&text);
    let again = &file2.entities[0].data.relationships[0].data.attributes;
    assert_eq!(again.len(), 2);
    for (a, b) in attributes.iter().zip(again.iter()) {
        assert_eq!(a.data.name.data.value, b.data.name.data.value);
        assert_eq!(a.data.arguments, b.data.arguments);
    }
    let rule = &file2.entrypoints[0].data.rules[0];
    assert_eq!(texts(&rule.data.attributes[0].data.arguments), vec!["\"a b\""]);
    assert_eq!(file2.ruulang_serialize(0), text);
}

#[test]
fn equality_of_files_looks_at_what_they_say() {
    let (_, plain) = read("entity A { r: B { :x(\"s\", t) } read.a; }\n@A { r:x { read; #F; s { * } } }\nfragment F for A { read.a; }");
    let (_, spaced) = read("/* Doc. */\nentity   A {\n  /* More. */ r : B { :x( \"s\" , t ) }\n  read . a ;\n}\n\n\nfragment F for A { read.a; }\n/* Entry. */ @A { r :x { read; #F; s { * } } }");
    assert!(ruulang::parser::equality::file_equal(&plain, &spaced));
    assert!(ruulang::parser::equality::file_equal(&plain, &plain));
    assert_ne!(plain.entities[0].loc, spaced.entities[0].loc);
    assert_ne!(plain.entities[0].docstring, spaced.entities[0].docstring);
    let others = [
        "entity A { r: B { :x(\"s\", t) } read.a; }\n@A { r:x { read; #F; s { * } } }",
        "entity A { r: B { :x(t, \"s\") } read.a; }\n@A { r:x { read; #F; s { * } } }\nfragment F for A { read.a; }",
        "entity A { r: B { :x(\"s\", t) } read.b; }\n@A { r:x { read; #F; s { * } } }\nfragment F for A { read.a; }",
        "entity A { r: B { :x(\"s\", t) } read.a; }\n@A { r:x { read; #F; s { t { * } } } }\nfragment F for A { read.a; }",
        "entity A { r: B { :x(\"s\", t) } read.a; }\n@A { r:x { read; #G; s { * } } }\nfragment F for A { read.a; }",
        "entity A { r: C { :x(\"s\", t) } read.a; }\n@A { r:x { read; #F; s { * } } }\nfragment F for A { read.a; }",
    ];
    for other in others {
        let (_, file) = read(other);
        assert!(!ruulang::parser::equality::file_equal(&plain, &file), "{}", other);
        assert!(!ruulang::parser::equality::file_equal(&file, &plain), "{}", other);
    }
}

#[test]
fn serialized_text_reads_back_as_an_equal_file() {
    for src in [SAMPLE, "", "entity A { }", "@A { * }", "entity A { r: B { :x(\"caf\u{e9}\", y) :z } }\n@A { r:x(\"1 2\") { #F; r { a.b; } } }"] {
        let (_, file) = read(src);
        let text = file.ruulang_serialize(0);
        let (_, again) = read(&text);
        assert!(ruulang::parser::equality::file_equal(&file, &again), "{}", src);
    }
}
