use ruulang::parser::assembler::ParserAssemble;
use ruulang::parser::parse_location::Parsed;
use ruulang::parser::parser_constructs::ParserStatement;
use ruulang::parser::ruulang_ast::{Grant, RuuLangFile};
use ruulang::parser::schema_ast::Entity;
use ruulang::typechecker::tc_ast::TcEntity;
use ruulang::typechecker::typechecker::Typechecker;
use ruulang::utils::error::{Result, RuuLangError, TypecheckError};
use ruulang::utils::with_origin::WithOrigin;

struct Loaded {
    entities: Vec<WithOrigin<Parsed<Entity>>>,
    files: Vec<WithOrigin<Result<RuuLangFile>>>,
}

fn load(sources: &[(&str, &str)]) -> Loaded {
    let mut entities = Vec::new();
    let mut files = Vec::new();
    for (path, text) in sources {
        match ParserStatement::parse(text) {
            Ok(statements) => {
                let (schema, file) = statements.assemble();
                for e in schema.entities {
                    entities.push(WithOrigin::new(e, path.to_string()));
                }
                files.push(WithOrigin::new(Ok(file), path.to_string()));
            }
            Err(e) => files.push(WithOrigin::new(Err(RuuLangError::from(e)), path.to_string())),
        }
    }
    Loaded { entities, files }
}

fn check(sources: &[(&str, &str)], index: usize) -> Vec<(Option<(usize, usize)>, String)> {
    let loaded = load(sources);
    let typechecker = Typechecker::new(&loaded.entities, &loaded.files);
    let file = match &loaded.files[index].data {
        Ok(f) => f,
        Err(_) => panic!("file does not parse"),
    };
    typechecker
        .validate_file(file)
        .into_iter()
        .map(|e| match e {
            RuuLangError::TypecheckError(TypecheckError::GeneralError(p)) => (p.loc, p.data),
            _ => panic!("unexpected kind of error"),
        })
        .collect()
}

#[test]
fn missing_entity_is_reported_at_the_entrypoint() {
    let src = "@User { posts { } }";
    let found = check(&[("a.ruulang", src)], 0);
    assert_eq!(found.len(), 1);
    assert_eq!(found[0].1, "Unable to find entity name: User");
    let (start, end) = found[0].0.unwrap();
    assert!(start <= 1 && 5 <= end);
    assert_eq!((start, end), (0, src.len()));
}

#[test]
fn disallowed_grant_in_rule_is_reported_at_the_grant() {
    let src = "entity User { posts: Post; read.self; }\nentity Post { }\n@User { posts { read.other; } }";
    let found = check(&[("a.ruulang", src)], 0);
    assert_eq!(found.len(), 1);
    assert_eq!(found[0].1, "Invalid grant read.other");
    let (start, end) = found[0].0.unwrap();
    assert_eq!(&src[start..end], "read.other");
}

#[test]
fn fragment_resolves_for_its_entity_only() {
    let a = "entity User { friend: User; post: Post; }\nentity Post { }\nfragment F for User { }";
    let ok = "@User { friend { #F; } }";
    let bad = "@User { post { #F; } }";
    assert_eq!(check(&[("a.ruulang", a), ("b.ruulang", ok)], 1), vec![]);
    let found = check(&[("a.ruulang", a), ("b.ruulang", bad)], 1);
    assert_eq!(found.len(), 1);
    assert_eq!(found[0].1, "Unable to find fragment name: F for entity Post");
    let (start, end) = found[0].0.unwrap();
    assert_eq!(&bad[start..end], "F");
}

#[test]
fn wildcard_ends_the_check() {
    let src = "entity User { owns: Post; }\nentity Post { }\n@User { owns { * } }";
    assert_eq!(check(&[("a.ruulang", src)], 0), vec![]);
    let top = "entity User { }\n@User { * }";
    assert_eq!(check(&[("a.ruulang", top)], 0), vec![]);
}

#[test]
fn unknown_relationship_is_reported_at_the_rule_and_ends_the_subtree() {
    let src = "entity User { }\n@User { posts { nothing.here; deeper { } } }";
    let found = check(&[("a.ruulang", src)], 0);
    assert_eq!(found.len(), 1);
    assert_eq!(found[0].1, "Relationship posts not found for entity User");
    let (start, end) = found[0].0.unwrap();
    assert_eq!(&src[start..end], "posts { nothing.here; deeper { } }");
}

#[test]
fn unknown_target_is_reported_at_the_relationship() {
    let src = "entity User { posts: Post; }\n@User { posts { } }";
    let found = check(&[("a.ruulang", src)], 0);
    assert_eq!(found.len(), 1);
    assert_eq!(found[0].1, "Unable to find entity name: Post");
    let (start, end) = found[0].0.unwrap();
    assert_eq!(&src[start..end], "posts: Post;");
}

#[test]
fn fragment_grants_are_checked_against_its_entity() {
    let src = "entity User { read.self; }\nfragment F for User { read.self; read; write; }\nfragment G for Nobody { }";
    let found = check(&[("a.ruulang", src)], 0);
    assert_eq!(found.len(), 2);
    assert_eq!(found[0].1, "Entity User does not allow grant: write");
    let (start, end) = found[0].0.unwrap();
    assert_eq!(&src[start..end], "write");
    assert_eq!(found[1].1, "Unable to find entity name: Nobody");
}

#[test]
fn every_finding_is_reported() {
    let src = "entity User { posts: Post; }\nentity Post { read; }\n@User { posts { a; b; #X; #Y; posts { } } }\n@Ghost { }";
    let found = check(&[("a.ruulang", src)], 0);
    let messages: Vec<&str> = found.iter().map(|f| f.1.as_str()).collect();
    assert_eq!(
        messages,
        vec![
            "Invalid grant a",
            "Invalid grant b",
            "Unable to find fragment name: X for entity Post",
            "Unable to find fragment name: Y for entity Post",
            "Relationship posts not found for entity Post",
            "Unable to find entity name: Ghost",
        ]
    );
}

#[test]
fn entity_declared_in_several_files_is_merged() {
    let a = "entity X { r: A; read.a; }\nentity A { }\nentity B { }";
    let b = "entity X { r: B; s: B; read.b; }";
    let c = "@X { r { } s { } read; }";
    assert!(ParserStatement::parse(c).is_err());
    let c = "fragment F for X { read.a; read.b; read.c; }";
    let found = check(&[("a.ruulang", a), ("b.ruulang", b), ("c.ruulang", c)], 2);
    assert_eq!(found.len(), 1);
    assert_eq!(found[0].1, "Entity X does not allow grant: read.c");
}

#[test]
fn first_declaration_of_a_relationship_wins() {
    let mut entity = TcEntity::new("X".to_string());
    let a = load(&[("a.ruulang", "entity X { r: A; }"), ("b.ruulang", "entity X { r: B; }")]);
    let first = a.entities[0].data.data.relationships[0].clone();
    let second = a.entities[1].data.data.relationships[0].clone();
    assert!(entity.add_relationship(first));
    assert!(!entity.add_relationship(second));
    assert_eq!(entity.get_rule(&"r".to_string()).unwrap().data.entity_name.data.value, "A");
    assert!(entity.get_rule(&"s".to_string()).is_none());
    assert_eq!(entity.name, "X");
}

#[test]
fn entity_record_allows_prefixes_of_its_grants() {
    let mut entity = TcEntity::new("X".to_string());
    let grant = |parts: &[&str]| {
        Parsed::new(Grant::new(parts.iter().map(|p| p.to_string()).collect()), None, None, None)
    };
    entity.add_grant(grant(&["read", "self", "name"]));
    entity.add_grant(grant(&["read", "self", "name"]));
    let path = |parts: &[&str]| parts.iter().map(|p| p.to_string()).collect::<Vec<String>>();
    assert!(entity.allows_grant(&path(&["read"])));
    assert!(entity.allows_grant(&path(&["read", "self"])));
    assert!(entity.allows_grant(&path(&["read", "self", "name"])));
    assert!(!entity.allows_grant(&path(&["read", "self", "name", "first"])));
    assert!(!entity.allows_grant(&path(&["write"])));
    assert!(!entity.allows_grant(&path(&[])));
}

#[test]
fn relationships_are_tagged_with_their_file() {
    let src = "entity User { posts: Post; }\n@User { posts { } }";
    let loaded = load(&[("dir/a.ruulang", src)]);
    let typechecker = Typechecker::new(&loaded.entities, &loaded.files);
    let file = match &loaded.files[0].data {
        Ok(f) => f,
        Err(_) => panic!("file does not parse"),
    };
    let errors = typechecker.validate_file(file);
    match &errors[0] {
        RuuLangError::TypecheckError(TypecheckError::GeneralError(p)) => {
            assert_eq!(p.file_name, Some("dir/a.ruulang".to_string()));
        }
        _ => panic!("unexpected kind of error"),
    }
}

fn findings(errors: Vec<RuuLangError>) -> Vec<(Option<(usize, usize)>, String)> {
    errors
        .into_iter()
        .map(|e| match e {
            RuuLangError::TypecheckError(TypecheckError::GeneralError(p)) => (p.loc, p.data),
            _ => panic!("unexpected kind of error"),
        })
        .collect()
}

fn first_file(loaded: &Loaded) -> &RuuLangFile {
    match &loaded.files[0].data {
        Ok(f) => f,
        Err(_) => panic!("file does not parse"),
    }
}

#[test]
fn rule_with_unknown_relationship_gives_one_finding_at_the_rule() {
    let src = "entity User { }\n@User { posts { nothing.here; #Gone; deeper { } } }";
    let loaded = load(&[("a.ruulang", src)]);
    let typechecker = Typechecker::new(&loaded.entities, &loaded.files);
    let rule = &first_file(&loaded).entrypoints[0].data.rules[0];
    let scope = TcEntity::new("User".to_string());
    let found = findings(typechecker.validate_rule(&scope, rule));
    assert_eq!(found.len(), 1);
    assert_eq!(found[0].0, rule.loc);
    assert_eq!(found[0].1, "Relationship posts not found for entity User");
}

#[test]
fn rule_gives_one_finding_for_each_disallowed_grant() {
    let src = "entity User { posts: Post; }\nentity Post { read.body; }\n@User { posts { read; write.all; read.body; erase; } }";
    let loaded = load(&[("a.ruulang", src)]);
    let typechecker = Typechecker::new(&loaded.entities, &loaded.files);
    let rule = &first_file(&loaded).entrypoints[0].data.rules[0];
    let mut scope = TcEntity::new("User".to_string());
    assert!(scope.add_relationship(loaded.entities[0].data.data.relationships[0].clone()));
    let found = findings(typechecker.validate_rule(&scope, rule));
    assert_eq!(found.len(), 2);
    assert_eq!(found[0].0, rule.data.grants[1].loc);
    assert_eq!(found[0].1, "Invalid grant write.all");
    assert_eq!(found[1].0, rule.data.grants[3].loc);
    assert_eq!(found[1].1, "Invalid grant erase");
}

#[test]
fn rule_gives_a_finding_for_each_missing_fragment_and_checks_on() {
    let src = "entity User { posts: Post; }\nentity Post { }\nfragment F for Post { }\n@User { posts { #Gone; #F; #Lost; nowhere { } } }";
    let loaded = load(&[("a.ruulang", src)]);
    let typechecker = Typechecker::new(&loaded.entities, &loaded.files);
    let rule = &first_file(&loaded).entrypoints[0].data.rules[0];
    let mut scope = TcEntity::new("User".to_string());
    assert!(scope.add_relationship(loaded.entities[0].data.data.relationships[0].clone()));
    let found = findings(typechecker.validate_rule(&scope, rule));
    assert_eq!(found.len(), 3);
    assert_eq!(found[0].0, rule.data.include_fragments[0].loc);
    assert_eq!(found[0].1, "Unable to find fragment name: Gone for entity Post");
    assert_eq!(found[1].0, rule.data.include_fragments[2].loc);
    assert_eq!(found[1].1, "Unable to find fragment name: Lost for entity Post");
    assert_eq!(found[2].0, rule.data.rules[0].loc);
    assert_eq!(found[2].1, "Relationship nowhere not found for entity Post");
}
