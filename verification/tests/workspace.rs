use ruulang::config::config::{ConfigWorkspace, JsonCodegen, PythonCodegen, RuuLangConfig};
use ruulang::parser::serialize::RuuLangSerialize;
use ruulang::utils::error::{RuuLangError, TypecheckError};
use ruulang::workspace::workspace::{JsonTexts, Workspace};

const A: &str = "entity X { r: Y; read.a; }\nentity Y { }\n@X { r { } }";
const B: &str = "entity X { s: Y; read.b; }\nfragment F for X { read.b; }";

fn config(json: bool, python: bool) -> RuuLangConfig {
    RuuLangConfig {
        workspace: ConfigWorkspace { root: Some("/ws".to_string()) },
        json: Some(JsonCodegen { enabled: json }),
        python: Some(PythonCodegen { enabled: python }),
    }
}

fn workspace(sources: &[(&str, &str)]) -> Workspace {
    let mut ws = Workspace::new(config(true, true), "/ws".to_string());
    ws.reload(sources.iter().map(|(p, t)| (p.to_string(), t.to_string())).collect());
    ws
}

fn describe(ws: &Workspace) -> Vec<String> {
    let mut out = Vec::new();
    for name in ws.file_name_iter() {
        out.push(format!("source {} {:?}", name, ws.resolve_file(name)));
    }
    for e in ws.entities() {
        out.push(format!("entity {} {}", e.origin, e.data.data.ruulang_serialize(0)));
    }
    for f in ws.files() {
        match &f.data {
            Ok(file) => out.push(format!("file {} {}", f.origin, file.ruulang_serialize(0))),
            Err(e) => out.push(format!("file {} {:?}", f.origin, e)),
        }
    }
    out
}

#[test]
fn reload_reads_every_source() {
    let ws = workspace(&[("/ws/a.ruulang", A), ("/ws/b.ruulang", B), ("/ws/c.ruulang", "entity {")]);
    let names: Vec<&String> = ws.file_name_iter();
    assert_eq!(names, vec!["/ws/a.ruulang", "/ws/b.ruulang", "/ws/c.ruulang"]);
    assert_eq!(ws.resolve_file(&"/ws/b.ruulang".to_string()), Some(&B.to_string()));
    assert_eq!(ws.resolve_file(&"/ws/z.ruulang".to_string()), None);
    let origins: Vec<(&str, &str)> = ws
        .entities()
        .iter()
        .map(|e| (e.origin.as_str(), e.data.data.name.data.value.as_str()))
        .collect();
    assert_eq!(
        origins,
        vec![("/ws/a.ruulang", "X"), ("/ws/a.ruulang", "Y"), ("/ws/b.ruulang", "X")]
    );
    assert_eq!(ws.files().len(), 3);
    assert!(ws.resolve_schema(&"/ws/a.ruulang".to_string()).unwrap().data.is_ok());
    assert!(matches!(
        ws.resolve_schema(&"/ws/c.ruulang".to_string()).unwrap().data,
        Err(RuuLangError::RuuLangParseError(7))
    ));
    assert!(ws.resolve_schema(&"/ws/z.ruulang".to_string()).is_none());
}

#[test]
fn reload_takes_the_last_text_of_a_path() {
    let ws = workspace(&[("/ws/a.ruulang", A), ("/ws/a.ruulang", "entity Z { }")]);
    assert_eq!(ws.file_name_iter().len(), 1);
    assert_eq!(ws.entities().len(), 1);
    assert_eq!(ws.entities()[0].data.data.name.data.value, "Z");
}

#[test]
fn patch_removes_the_entities_of_the_patched_file_only() {
    let mut ws = workspace(&[("/ws/a.ruulang", A), ("/ws/b.ruulang", B)]);
    assert!(ws.patch_file(&"/ws/a.ruulang".to_string(), &"".to_string()).is_ok());
    let origins: Vec<(&str, &str)> = ws
        .entities()
        .iter()
        .map(|e| (e.origin.as_str(), e.data.data.name.data.value.as_str()))
        .collect();
    assert_eq!(origins, vec![("/ws/b.ruulang", "X")]);
    let a = ws.resolve_schema(&"/ws/a.ruulang".to_string()).unwrap();
    match &a.data {
        Ok(file) => {
            assert_eq!(file.entities.len(), 0);
            assert_eq!(file.entrypoints.len(), 0);
            assert_eq!(file.fragments.len(), 0);
        }
        Err(_) => panic!("the empty text parses"),
    }
    assert_eq!(ws.resolve_file(&"/ws/a.ruulang".to_string()), Some(&"".to_string()));
    assert_eq!(ws.files().len(), 2);
    assert_eq!(ws.files()[0].origin, "/ws/a.ruulang");
    match &ws.files()[1].data {
        Ok(file) => assert_eq!(file.fragments.len(), 1),
        Err(_) => panic!("b still parses"),
    }
}

#[test]
fn patch_of_the_last_file_is_like_a_reload() {
    let mut patched = workspace(&[("/ws/a.ruulang", A), ("/ws/b.ruulang", B)]);
    let _ = patched.patch_file(&"/ws/b.ruulang".to_string(), &"entity Q { }".to_string());
    let reloaded = workspace(&[("/ws/a.ruulang", A), ("/ws/b.ruulang", "entity Q { }")]);
    assert_eq!(describe(&patched), describe(&reloaded));
    let mut added = workspace(&[("/ws/a.ruulang", A)]);
    let _ = added.patch_file(&"/ws/b.ruulang".to_string(), &B.to_string());
    let both = workspace(&[("/ws/a.ruulang", A), ("/ws/b.ruulang", B)]);
    assert_eq!(describe(&added), describe(&both));
}

#[test]
fn patch_of_any_file_gives_every_file_what_a_reload_gives() {
    let mut patched = workspace(&[("/ws/a.ruulang", A), ("/ws/b.ruulang", B)]);
    let _ = patched.patch_file(&"/ws/a.ruulang".to_string(), &"entity Q { } entity {".to_string());
    let _ = patched.patch_file(&"/ws/a.ruulang".to_string(), &"entity Q { }".to_string());
    let reloaded = workspace(&[("/ws/a.ruulang", "entity Q { }"), ("/ws/b.ruulang", B)]);
    let mut left = describe(&patched);
    let mut right = describe(&reloaded);
    left.sort();
    right.sort();
    assert_eq!(left, right);
    assert_eq!(patched.files()[0].origin, "/ws/a.ruulang");
}

#[test]
fn typecheck_file_reports_what_is_wrong_with_the_file() {
    let ws = workspace(&[
        ("/ws/a.ruulang", A),
        ("/ws/b.ruulang", "@X { t { } }"),
        ("/ws/c.ruulang", "entity {"),
    ]);
    assert_eq!(ws.typecheck_file(&"/ws/a.ruulang".to_string()).len(), 0);
    let b = ws.typecheck_file(&"/ws/b.ruulang".to_string());
    assert_eq!(b.len(), 1);
    assert!(matches!(
        &b[0],
        RuuLangError::TypecheckError(TypecheckError::GeneralError(p))
            if p.data == "Relationship t not found for entity X"
    ));
    let c = ws.typecheck_file(&"/ws/c.ruulang".to_string());
    assert!(matches!(c.as_slice(), [RuuLangError::RuuLangParseError(7)]));
    let z = ws.typecheck_file(&"/ws/z.ruulang".to_string());
    assert!(matches!(
        z.as_slice(),
        [RuuLangError::FileNotFound(m)] if m == "File not found: /ws/z.ruulang"
    ));
}

#[test]
fn typecheck_reports_file_by_file() {
    let ws = workspace(&[
        ("/ws/a.ruulang", A),
        ("/ws/b.ruulang", "@X { t { } u { } }"),
        ("/ws/c.ruulang", "entity {"),
    ]);
    let report = ws.typecheck();
    let counts: Vec<(&str, usize)> = report.iter().map(|r| (r.origin.as_str(), r.data.len())).collect();
    assert_eq!(counts, vec![("/ws/a.ruulang", 0), ("/ws/b.ruulang", 2), ("/ws/c.ruulang", 1)]);
}

#[test]
fn files_are_told_apart_by_their_paths() {
    let ws = workspace(&[]);
    assert!(ws.contains_file(&"/ws/dir/a.ruulang".to_string()));
    assert!(ws.contains_file(&"/ws".to_string()));
    assert!(!ws.contains_file(&"/wsx/a.ruulang".to_string()));
    assert!(!ws.contains_file(&"/other/a.ruulang".to_string()));
    assert!(ws.file_is_ruulang_source(&"/ws/a.ruulang".to_string()));
    assert!(!ws.file_is_ruulang_source(&"/ws/a.ruu".to_string()));
    assert!(!ws.file_is_ruulang_source(&"/ws/ruulang".to_string()));
    assert!(!ws.file_is_ruulang_source(&"/ws/a.ruulang.bak".to_string()));
    assert_eq!(Workspace::output_path(&"/ws/a.b.ruulang".to_string(), "json"), "/ws/a.b.json");
    assert_eq!(Workspace::output_path(&"/ws/a".to_string(), "py"), "/ws/a.py");
}

#[test]
fn entities_and_fragments_are_found_by_name() {
    let ws = workspace(&[("/ws/a.ruulang", A), ("/ws/b.ruulang", B)]);
    let x = ws.entity_by_name(&"X".to_string()).unwrap();
    assert_eq!(x.origin, "/ws/a.ruulang");
    assert!(ws.entity_by_name(&"Q".to_string()).is_none());
    let f = ws.fragment_by_name_and_entity(&"F".to_string(), &"X".to_string()).unwrap();
    assert_eq!(f.data.grants.len(), 1);
    assert!(ws.fragment_by_name_and_entity(&"F".to_string(), &"Y".to_string()).is_none());
    assert!(ws.fragment_by_name_and_entity(&"G".to_string(), &"X".to_string()).is_none());
}

#[test]
fn artifacts_follow_the_configuration() {
    let texts = || Some(JsonTexts { pretty: "{\n}".to_string(), compact: "{}".to_string() });
    let sources = vec![("/ws/a.ruulang".to_string(), "entity A { }".to_string())];
    let mut both = Workspace::new(config(true, true), "/ws".to_string());
    both.reload(sources.clone());
    let out = both.compile_all(&vec![texts()]);
    assert_eq!(out.len(), 1);
    assert_eq!(
        out[0],
        vec![
            ("/ws/a.json".to_string(), "{\n}".to_string()),
            ("/ws/a.py".to_string(), "".to_string()),
        ]
    );
    let mut json_only = Workspace::new(config(true, false), "/ws".to_string());
    json_only.reload(sources.clone());
    assert_eq!(
        json_only.compile_one(&json_only.files()[0], &texts()),
        vec![("/ws/a.json".to_string(), "{\n}".to_string())]
    );
    let mut neither = Workspace::new(RuuLangConfig::default(), "/ws".to_string());
    neither.reload(sources.clone());
    assert_eq!(neither.compile_one(&neither.files()[0], &texts()), vec![]);
    assert_eq!(both.compile_one(&both.files()[0], &None), vec![]);
    let mut broken = Workspace::new(config(true, true), "/ws".to_string());
    broken.reload(vec![("/ws/a.ruulang".to_string(), "entity".to_string())]);
    assert_eq!(broken.compile_one(&broken.files()[0], &texts()), vec![]);
    assert!(broken.compile_one_python(&broken.files()[0], &"{}".to_string()).is_none());
}

fn messages(ws: &Workspace, path: &str) -> Vec<(Option<(usize, usize)>, Option<String>, String)> {
    ws.typecheck_file(&path.to_string())
        .into_iter()
        .map(|e| match e {
            RuuLangError::TypecheckError(TypecheckError::GeneralError(p)) => {
                (p.loc, p.file_name, p.data)
            }
            other => panic!("unexpected kind of error: {:?}", other),
        })
        .collect()
}

#[test]
fn patch_gives_the_diagnostics_of_a_reload_where_two_files_declare_one_relationship() {
    let a = "entity X { r: A; }\nentity A { seen; }";
    let b = "entity X { r: B; }\nentity B { kept; }";
    let c = "@X { r { seen; kept; } }";
    let reloaded = workspace(&[("/ws/a.ruulang", a), ("/ws/b.ruulang", b), ("/ws/c.ruulang", c)]);
    let mut patched = workspace(&[("/ws/a.ruulang", "entity Q { }"), ("/ws/b.ruulang", b), ("/ws/c.ruulang", c)]);
    let _ = patched.patch_file(&"/ws/a.ruulang".to_string(), &a.to_string());
    assert_eq!(patched.entities()[0].origin, "/ws/b.ruulang");
    assert_eq!(reloaded.entities()[0].origin, "/ws/a.ruulang");
    for path in ["/ws/a.ruulang", "/ws/b.ruulang", "/ws/c.ruulang"] {
        assert_eq!(messages(&patched, path), messages(&reloaded, path));
    }
    let found = messages(&reloaded, "/ws/c.ruulang");
    assert_eq!(found.len(), 1);
    assert_eq!(found[0].2, "Invalid grant kept");
}

#[test]
fn diagnostics_do_not_depend_on_the_order_of_files() {
    let a = "entity X { r: A; read.a; }\nentity A { seen; }";
    let b = "entity X { r: B; s: A; read.b; }\nentity B { kept; }";
    let c = "@X { r { seen; kept; } s { seen; } t { } }\nfragment F for X { read.a; read.b; read.c; }";
    let orders: Vec<Vec<(&str, &str)>> = vec![
        vec![("/ws/a.ruulang", a), ("/ws/b.ruulang", b), ("/ws/c.ruulang", c)],
        vec![("/ws/b.ruulang", b), ("/ws/a.ruulang", a), ("/ws/c.ruulang", c)],
        vec![("/ws/c.ruulang", c), ("/ws/b.ruulang", b), ("/ws/a.ruulang", a)],
    ];
    let first = messages(&workspace(&orders[0]), "/ws/c.ruulang");
    assert_eq!(
        first.iter().map(|m| m.2.as_str()).collect::<Vec<&str>>(),
        vec![
            "Entity X does not allow grant: read.c",
            "Invalid grant kept",
            "Relationship t not found for entity X",
        ]
    );
    for order in &orders {
        assert_eq!(messages(&workspace(order), "/ws/c.ruulang"), first);
    }
}
