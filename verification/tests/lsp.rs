use ruulang::config::config::{ConfigWorkspace, RuuLangConfig};
use ruulang::lsp::server::{hover, hover_at, locate, patch_and_notify, show_diagnostics};
use ruulang::lsp::utils::{
    get_line_prefix_sum, location_pair_to_range, location_to_position, position_to_location,
    Position, Range,
};
use ruulang::parser::descent::Descendable;
use ruulang::parser::parse_location::{Context, Parsed};
use ruulang::parser::ruulang_ast::Grant;
use ruulang::utils::error::{RuuLangError, TypecheckError};
use ruulang::workspace::workspace::Workspace;

const SRC: &str = "/* A user. */
entity User {
    /* Posts. */
    posts: Post { /* Attr doc. */ :public }
    friend: User;
    /* Self. */
    read.self;
}
entity Post { view; }
/* Frag. */
fragment Mine for User { read.self; }
@User {
    posts:public {
        view;
    }
    friend {
        #Mine;
    }
}
";

fn workspace() -> Workspace {
    let config = RuuLangConfig {
        workspace: ConfigWorkspace { root: Some("/ws".to_string()) },
        json: None,
        python: None,
    };
    let mut ws = Workspace::new(config, "/ws".to_string());
    ws.reload(vec![("/ws/a.ruulang".to_string(), SRC.to_string())]);
    ws
}

fn at(needle: &str, skip: usize) -> usize {
    SRC.find(needle).unwrap() + skip
}

#[test]
fn lines_begin_behind_line_feeds() {
    assert_eq!(get_line_prefix_sum(&"ab\ncd\n\nx".to_string()), vec![0, 3, 6, 7]);
    assert_eq!(get_line_prefix_sum(&"".to_string()), vec![0]);
    assert_eq!(get_line_prefix_sum(&"a\n".to_string()), vec![0, 2]);
    assert_eq!(get_line_prefix_sum(&"\u{e9}\nb".to_string()), vec![0, 3]);
}

#[test]
fn offsets_and_positions_convert_both_ways() {
    let sums = vec![0, 3, 6, 7];
    assert_eq!(location_to_position(&sums, 0), Position { line: 0, character: 0 });
    assert_eq!(location_to_position(&sums, 2), Position { line: 0, character: 2 });
    assert_eq!(location_to_position(&sums, 3), Position { line: 1, character: 0 });
    assert_eq!(location_to_position(&sums, 4), Position { line: 1, character: 1 });
    assert_eq!(location_to_position(&sums, 6), Position { line: 2, character: 0 });
    assert_eq!(location_to_position(&sums, 50), Position { line: 3, character: 43 });
    assert_eq!(position_to_location(&sums, &Position { line: 1, character: 1 }), 4);
    assert_eq!(position_to_location(&sums, &Position { line: 3, character: 0 }), 7);
    assert_eq!(
        location_pair_to_range(&"ab\ncd\n\nx".to_string(), 1, 4),
        Range {
            start: Position { line: 0, character: 1 },
            end: Position { line: 1, character: 1 },
        }
    );
}

#[test]
fn diagnostics_are_shown_at_their_places() {
    let contents = "ab\ncd\nef".to_string();
    let errors = vec![
        RuuLangError::TypecheckError(TypecheckError::GeneralError(Parsed::new_at_loc(
            (4, 7),
            "wrong".to_string(),
        ))),
        RuuLangError::TypecheckError(TypecheckError::GeneralError(Parsed::new(
            "nowhere".to_string(),
            None,
            None,
            None,
        ))),
        RuuLangError::RuuLangParseError(2),
        RuuLangError::FileNotFound("x".to_string()),
        RuuLangError::ConfigParseError("x".to_string()),
        RuuLangError::Other("x".to_string()),
    ];
    let shown = show_diagnostics(&contents, &errors);
    assert_eq!(shown.len(), 2);
    assert_eq!(shown[0].message, "wrong");
    assert_eq!(
        shown[0].range,
        Range {
            start: Position { line: 1, character: 1 },
            end: Position { line: 2, character: 1 },
        }
    );
    assert_eq!(shown[1].message, "Parse error");
    assert_eq!(
        shown[1].range,
        Range {
            start: Position { line: 0, character: 2 },
            end: Position { line: 1, character: 0 },
        }
    );
}

#[test]
fn descent_notes_the_nodes_around_a_position() {
    let ws = workspace();
    let schema = ws.resolve_schema(&"/ws/a.ruulang".to_string()).unwrap();
    let file = match &schema.data {
        Ok(f) => f,
        Err(_) => panic!("the sample parses"),
    };
    let offset = at("        view;", 9);
    let stack = file.descend_at((offset, offset)).unwrap();
    let names: Vec<Option<&str>> = stack.iter().map(|s| s.name.as_deref()).collect();
    assert_eq!(names, vec![None, Some("User"), Some("posts"), Some("view")]);
    assert!(matches!(stack[0].context, Context::Empty));
    assert!(matches!(stack[1].context, Context::Entrypoint(_)));
    assert!(matches!(stack[2].context, Context::Rule(_)));
    assert!(matches!(stack[3].context, Context::Grant(_)));
    let offset = at("    posts: Post {", 4);
    let stack = file.descend_at((offset, offset)).unwrap();
    let names: Vec<Option<&str>> = stack.iter().map(|s| s.name.as_deref()).collect();
    assert_eq!(names, vec![None, Some("User"), Some("posts"), Some("posts")]);
    assert!(matches!(stack[1].context, Context::Entity(_)));
    assert!(matches!(stack[2].context, Context::Relationship(_)));
    assert!(matches!(stack[3].context, Context::Identifier(_)));
    assert_eq!(stack[1].docstring, Some(&" A user. ".to_string()));
    assert_eq!(stack[2].docstring, Some(&" Posts. ".to_string()));
    assert!(file.descend_at((0, 0)).is_none());
    assert!(file.descend_at((SRC.len() + 5, SRC.len() + 5)).is_none());
    let entity = &file.entities[1];
    let inside = at("entity Post", 8);
    assert_eq!(entity.descend_at((inside, inside)).unwrap().len(), 2);
    assert!(entity.descend_at((0, 0)).is_none());
}

#[test]
fn hover_shows_what_stands_at_a_position() {
    let ws = workspace();
    let path = "/ws/a.ruulang".to_string();
    let user = "```ruulang\nentity User\n```\n\n A user. ";
    assert_eq!(hover_at(&ws, &path, at("@User", 2)), Some(user.to_string()));
    assert_eq!(hover_at(&ws, &path, at("entity User", 8)), Some(user.to_string()));
    assert_eq!(
        hover_at(&ws, &path, at("    posts:public {", 5)),
        Some("```ruulang\nentity User { posts -> Post; }\n```\n\n Posts. ".to_string())
    );
    assert_eq!(
        hover_at(&ws, &path, at("    posts:public {", 11)),
        Some("```ruulang\n posts:public\n```\n\n Attr doc. ".to_string())
    );
    assert_eq!(
        hover_at(&ws, &path, at("        view;", 9)),
        Some("```ruulang\nentity Post { view; }\n```\n\n".to_string())
    );
    assert_eq!(
        hover_at(&ws, &path, at("fragment Mine", 10)),
        Some("```ruulang\nfragment Mine for User\n```\n\n Frag. ".to_string())
    );
    assert_eq!(
        hover_at(&ws, &path, at("#Mine", 2)),
        Some("```ruulang\nfragment Mine for User\n```\n\n Frag. ".to_string())
    );
    assert_eq!(
        hover_at(&ws, &path, at("    read.self;\n}", 6)),
        Some("```ruulang\nentity User { read.self; }\n```\n\n Self. ".to_string())
    );
    assert_eq!(hover_at(&ws, &path, 0), None);
    assert_eq!(hover_at(&ws, &"/ws/z.ruulang".to_string(), 20), None);
}

#[test]
fn hover_takes_positions_in_lines() {
    let ws = workspace();
    let path = "/ws/a.ruulang".to_string();
    let line = SRC[..at("@User", 0)].matches('\n').count() as u32;
    let position = Position { line, character: 2 };
    assert_eq!(locate(&ws, &path, &position), Some(at("@User", 2)));
    assert_eq!(
        hover(&ws, &path, &position),
        Some("```ruulang\nentity User\n```\n\n A user. ".to_string())
    );
    assert_eq!(locate(&ws, &path, &Position { line: 1000, character: 0 }), None);
    assert_eq!(hover(&ws, &path, &Position { line: 1000, character: 0 }), None);
    assert_eq!(locate(&ws, &"/ws/z.ruulang".to_string(), &position), None);
}

#[test]
fn patching_tells_the_editor_what_is_wrong() {
    let mut ws = workspace();
    let path = "/ws/a.ruulang".to_string();
    let text = "entity User { }\n@User {\n  posts { }\n}".to_string();
    let shown = patch_and_notify(&mut ws, &path, &text, false).unwrap();
    assert_eq!(shown.len(), 1);
    assert_eq!(shown[0].message, "Relationship posts not found for entity User");
    assert_eq!(
        shown[0].range,
        Range {
            start: Position { line: 2, character: 2 },
            end: Position { line: 2, character: 11 },
        }
    );
    assert_eq!(ws.resolve_file(&path), Some(&text));
    let broken = "entity {".to_string();
    let shown = patch_and_notify(&mut ws, &path, &broken, false).unwrap();
    assert_eq!(shown.len(), 1);
    assert_eq!(shown[0].message, "Parse error");
    let outside = "/elsewhere/b.ruulang".to_string();
    assert!(patch_and_notify(&mut ws, &outside, &text, false).is_none());
    assert_eq!(ws.resolve_file(&outside), None);
    assert!(patch_and_notify(&mut ws, &outside, &text, true).is_some());
    assert_eq!(ws.resolve_file(&outside), Some(&text));
}

#[test]
fn descent_asks_that_a_node_holds_the_whole_range() {
    let grant = Parsed::new(Grant::new(vec!["view".to_string()]), Some((2, 5)), None, None);
    assert!(grant.descend_at((3, 7)).is_none());
    assert!(grant.descend_at((5, 6)).is_none());
    assert!(grant.descend_at((1, 3)).is_none());
    assert!(grant.descend_at((0, 9)).is_none());
    assert_eq!(grant.descend_at((3, 4)).unwrap().len(), 1);
    assert_eq!(grant.descend_at((2, 5)).unwrap().len(), 1);
    assert_eq!(grant.descend_at((2, 2)).unwrap().len(), 1);
    assert_eq!(grant.descend_at((5, 5)).unwrap().len(), 1);
}

#[test]
fn descent_stops_at_the_last_node_that_holds_the_range() {
    let ws = workspace();
    let schema = ws.resolve_schema(&"/ws/a.ruulang".to_string()).unwrap();
    let file = match &schema.data {
        Ok(f) => f,
        Err(_) => panic!("the sample parses"),
    };
    let start = at("        view;", 9);
    let inside = file.descend_at((start, start + 3)).unwrap();
    let names: Vec<Option<&str>> = inside.iter().map(|s| s.name.as_deref()).collect();
    assert_eq!(names, vec![None, Some("User"), Some("posts"), Some("view")]);
    let wider = file.descend_at((start, start + 9)).unwrap();
    let names: Vec<Option<&str>> = wider.iter().map(|s| s.name.as_deref()).collect();
    assert_eq!(names, vec![None, Some("User"), Some("posts")]);
    assert!(file.descend_at((start, SRC.len() + 1)).is_none());
}

#[test]
fn hover_shows_the_same_whatever_the_order_of_files() {
    let first = "/* From b. */\nentity X { r: X; }\n/* Late. */\nfragment F for X { }";
    let second = "/* From a. */\nentity X { s: X; }\n/* Early. */\nfragment F for X { }";
    let asking = "@X { s { #F; } }";
    let sources = |order: &[usize]| -> Vec<(String, String)> {
        let all = [
            ("/ws/b.ruulang", first),
            ("/ws/a.ruulang", second),
            ("/ws/c.ruulang", asking),
        ];
        order.iter().map(|i| (all[*i].0.to_string(), all[*i].1.to_string())).collect()
    };
    let config = || RuuLangConfig {
        workspace: ConfigWorkspace { root: Some("/ws".to_string()) },
        json: None,
        python: None,
    };
    let path = "/ws/c.ruulang".to_string();
    let mut shown = Vec::new();
    for order in [[0usize, 1, 2], [1, 0, 2], [2, 1, 0], [2, 0, 1]] {
        let mut ws = Workspace::new(config(), "/ws".to_string());
        ws.reload(sources(&order));
        shown.push((hover_at(&ws, &path, 1), hover_at(&ws, &path, 10)));
    }
    let mut patched = Workspace::new(config(), "/ws".to_string());
    patched.reload(sources(&[1, 0, 2]));
    let _ = patched.patch_file(&"/ws/a.ruulang".to_string(), &second.to_string());
    shown.push((hover_at(&patched, &path, 1), hover_at(&patched, &path, 10)));
    assert_eq!(shown[0].0, Some("```ruulang\nentity X\n```\n\n From a. ".to_string()));
    assert_eq!(shown[0].1, Some("```ruulang\nfragment F for X\n```\n\n Early. ".to_string()));
    for pair in &shown {
        assert_eq!(pair, &shown[0]);
    }
}
