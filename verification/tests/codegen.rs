use ruulang::codegen::codegen::{
    serialize_schema_and_file, Codegen, CodegenState, EntityMap, ImportKey,
};
use ruulang::codegen::codegen_helper::CodegenHelper;
use ruulang::codegen::codegen_utils::{_snake_case, camel_case, decompose};
use ruulang::codegen::python::{PythonCodegen, PythonImport};
use ruulang::codegen::python_imports::{from_section_text, import_section_text, keys_of, values_for};
use ruulang::config::config::{ConfigWorkspace, RuuLangConfig};
use ruulang::parser::assembler::ParserAssemble;
use ruulang::parser::parse_location::Parsed;
use ruulang::parser::parser_constructs::ParserStatement;
use ruulang::parser::ruulang_ast::RuuLangFile;
use ruulang::parser::schema_ast::Entity;
use ruulang::utils::order::{sort_texts, text_le_exec};
use ruulang::utils::with_origin::WithOrigin;

fn strings(parts: &[&str]) -> Vec<String> {
    parts.iter().map(|p| p.to_string()).collect()
}

#[test]
fn decompose_splits_at_case_and_separators() {
    assert_eq!(decompose("hello_world"), strings(&["hello", "world"]));
    assert_eq!(decompose("hello-world"), strings(&["hello", "world"]));
    assert_eq!(decompose("helloWorld"), strings(&["hello", "world"]));
    assert_eq!(decompose("HelloWorld"), strings(&["", "hello", "world"]));
    assert_eq!(decompose("a.b c"), strings(&["abc"]));
    assert_eq!(decompose("abc_"), strings(&["abc"]));
    assert_eq!(decompose(""), strings(&[]));
    assert_eq!(decompose("user2Name"), strings(&["user2", "name"]));
}

#[test]
fn camel_case_capitalizes_each_part() {
    assert_eq!(camel_case("hello_world"), "HelloWorld");
    assert_eq!(camel_case("HelloWorld"), "HelloWorld");
    assert_eq!(camel_case("user"), "User");
    assert_eq!(camel_case("my-file_name"), "MyFileName");
    assert_eq!(camel_case("__x"), "X");
    assert_eq!(camel_case(""), "");
}

#[test]
fn snake_case_joins_with_underscores() {
    assert_eq!(_snake_case("HelloWorld"), "hello_world");
    assert_eq!(_snake_case("helloWorld"), "hello_world");
    assert_eq!(_snake_case("hello-world"), "hello_world");
    assert_eq!(_snake_case("user"), "user");
    assert_eq!(_snake_case(""), "");
}

#[test]
fn texts_are_ordered_like_a_dictionary() {
    assert!(text_le_exec("a", "b"));
    assert!(!text_le_exec("b", "a"));
    assert!(text_le_exec("a", "a"));
    assert!(text_le_exec("", "a"));
    assert!(text_le_exec("ab", "abc"));
    assert!(!text_le_exec("abc", "ab"));
    assert!(text_le_exec("Z", "a"));
    assert_eq!(
        sort_texts(strings(&["pear", "apple", "fig", "apple", "Zoo"])),
        strings(&["Zoo", "apple", "apple", "fig", "pear"])
    );
    assert_eq!(sort_texts(vec![]), strings(&[]));
}

#[test]
fn helper_sets_tokens_apart_and_symbols_not() {
    let mut s = CodegenHelper::new("  ", "\n");
    s.write_token("foo");
    s.write_token("bar");
    s.write_symbol("(");
    s.write("x");
    s.write_symbol(")");
    assert_eq!(s.serialize(), "foo bar(x)");
}

#[test]
fn helper_indents_after_a_line_end() {
    let mut s = CodegenHelper::new("  ", ";\n");
    s.write_line(Some("a"));
    s.indent();
    s.write_line(Some("b"));
    s.indent();
    s.write_token("c");
    s.write_line(None);
    s.dedent();
    s.dedent();
    s.write_line(None);
    s.write("d");
    assert_eq!(s.serialize(), "a;\n  b;\n    c;\n;\nd");
}

#[test]
fn helper_runs_closures_inside_a_frame() {
    let s = CodegenHelper::new("  ", "\n");
    let s = s.with_parens(|mut s: CodegenHelper| {
        s.write("a");
        s
    });
    let s = s.with_duouble_quote(|mut s: CodegenHelper| {
        s.write("b");
        s
    });
    let mut s = s;
    s.write_line(None);
    let s = s.with_indent(|mut s: CodegenHelper| {
        s.write_line(Some("c"));
        s
    });
    let mut s = s;
    s.write("d");
    assert_eq!(s.serialize(), "(a)\"b\"\n  c\nd");
}

fn tagged(path: &str, text: &str) -> (Vec<WithOrigin<Parsed<Entity>>>, RuuLangFile) {
    let (schema, file) = ParserStatement::parse(text).unwrap().assemble();
    let entities = schema.entities.into_iter().map(|e| WithOrigin::new(e, path.to_string())).collect();
    (entities, file)
}

#[test]
fn state_keeps_each_import_once_and_code_in_order() {
    let mut a: CodegenState<PythonImport> = CodegenState::new();
    a.add_import(PythonImport::new_global("typing", "Literal"));
    a.add_import(PythonImport::new_global("typing", "Literal"));
    a.add_export("unused".to_string());
    a.write_code("one".to_string());
    let mut b: CodegenState<PythonImport> = CodegenState::new();
    b.add_import(PythonImport::new_global("typing", "Literal"));
    b.add_import(PythonImport::new_global_module("json"));
    b.write_code("two".to_string());
    let both = a.concat(b);
    let entities = Vec::new();
    let file = RuuLangFile { entrypoints: vec![], fragments: vec![], entities: vec![] };
    let origin = "/ws/x.ruulang".to_string();
    let name = "/ws/x.py".to_string();
    let config = config_with_root("/ws");
    let json = String::new();
    let generator = PythonCodegen::new(&origin, &name, &config, &entities, &file, &json);
    assert_eq!(
        both.stringify(&generator),
        "import json\n\nfrom typing import Literal\n\n\none\ntwo"
    );
    let empty: CodegenState<PythonImport> = CodegenState::new();
    assert_eq!(empty.stringify(&generator), "");
}

#[test]
fn entity_map_keeps_the_last_path_of_a_name() {
    let mut map = EntityMap::new();
    map.insert("User".to_string(), "/ws/a".to_string());
    map.insert("Post".to_string(), "/ws/b".to_string());
    map.insert("User".to_string(), "/ws/c".to_string());
    assert_eq!(map.get("User"), Some(&"/ws/c".to_string()));
    assert_eq!(map.get("Post"), Some(&"/ws/b".to_string()));
    assert_eq!(map.get("Nobody"), None);
}

#[test]
fn entity_map_names_the_first_file_in_dictionary_order() {
    let (one, _) = tagged("/ws/one.ruulang", "entity A { } entity B { }");
    let (two, _) = tagged("/ws/dir/two.tar.ruulang", "entity A { }");
    let (three, _) = tagged("/ws/three.ruulang", "entity A { } entity C { }");
    let orders: Vec<Vec<&Vec<WithOrigin<Parsed<Entity>>>>> = vec![
        vec![&one, &two, &three],
        vec![&three, &two, &one],
        vec![&two, &three, &one],
        vec![&three, &one, &two],
    ];
    for order in orders {
        let mut entities = Vec::new();
        for part in order {
            for e in part {
                entities.push(WithOrigin::new(e.data.clone(), e.origin.clone()));
            }
        }
        let map = ruulang::codegen::codegen::entity_map_of(&entities);
        assert_eq!(map.get("A"), Some(&"/ws/dir/two.tar".to_string()));
        assert_eq!(map.get("B"), Some(&"/ws/one".to_string()));
        assert_eq!(map.get("C"), Some(&"/ws/three".to_string()));
        assert_eq!(map.get("D"), None);
        let place = ruulang::codegen::codegen::find_representative(&entities, &"A".to_string());
        assert_eq!(entities[place.unwrap()].origin, "/ws/dir/two.tar.ruulang");
    }
}

#[test]
fn the_first_declaration_in_the_first_file_stands_for_an_entity() {
    let (mut entities, _) = tagged("/ws/b.ruulang", "entity X { r: B; } entity X { s: B; }");
    let (mut more, _) = tagged("/ws/a.ruulang", "entity Y { } entity X { t: A; } entity X { u: A; }");
    entities.append(&mut more);
    let find = |name: &str| ruulang::codegen::codegen::find_representative(&entities, &name.to_string());
    assert_eq!(find("X"), Some(3));
    assert_eq!(find("Y"), Some(2));
    assert_eq!(find("Z"), None);
}

#[test]
fn python_module_is_the_same_when_an_entity_is_declared_in_two_files() {
    let own_text = "entity User { likes: X; }\n@User { likes { } }";
    let origin = "/ws/user.ruulang".to_string();
    let name = "/ws/user.py".to_string();
    let config = config_with_root("/ws");
    let json = "{}".to_string();
    let (own, file) = tagged("/ws/user.ruulang", own_text);
    let (first, _) = tagged("/ws/a.ruulang", "entity X { r: User; seen; }");
    let (second, _) = tagged("/ws/b.ruulang", "entity X { s: User; kept; }");
    let orders: Vec<Vec<&Vec<WithOrigin<Parsed<Entity>>>>> = vec![
        vec![&own, &first, &second],
        vec![&own, &second, &first],
        vec![&second, &first, &own],
        vec![&first, &own, &second],
    ];
    let mut texts = Vec::new();
    for order in orders {
        let mut entities = Vec::new();
        for part in order {
            for e in part {
                entities.push(WithOrigin::new(e.data.clone(), e.origin.clone()));
            }
        }
        let generator =
            PythonCodegen::try_new(&origin, &name, &config, &entities, &file, &json).unwrap();
        texts.push(serialize_schema_and_file(&generator));
    }
    assert!(texts[0].contains("from a import XRRule\n"));
    assert!(texts[0].contains("    grants: tuple[tuple[Literal[\"seen\"]], ...]\n"));
    assert!(texts[0].contains("    rules: \"tuple[Universal | XRRule, ...]\"\n"));
    assert!(!texts[0].contains("XSRule"));
    for text in &texts {
        assert_eq!(text, &texts[0]);
    }
}

#[test]
fn import_sections_are_sorted_and_grouped() {
    assert_eq!(import_section_text(strings(&["os", "json"])), "import json\nimport os\n\n");
    assert_eq!(import_section_text(vec![]), "");
    let pairs = vec![
        ("typing".to_string(), "Literal".to_string()),
        ("ruu_runtime".to_string(), "registry".to_string()),
        ("ruu_runtime".to_string(), "Rule".to_string()),
    ];
    assert_eq!(keys_of(&pairs), strings(&["typing", "ruu_runtime"]));
    assert_eq!(values_for(&pairs, &"ruu_runtime".to_string()), strings(&["registry", "Rule"]));
    assert_eq!(
        from_section_text(&pairs),
        "from ruu_runtime import Rule, registry\nfrom typing import Literal\n\n"
    );
    assert_eq!(from_section_text(&vec![]), "");
}

fn config_with_root(root: &str) -> RuuLangConfig {
    RuuLangConfig { workspace: ConfigWorkspace { root: Some(root.to_string()) }, json: None, python: None }
}

#[test]
fn python_module_for_a_file() {
    let a = "entity User { posts: Post { :public } read.self; read.all; }\n@User { posts { } }\nfragment Mine for User { read.self; }";
    let b = "entity Post { author: User; view; }";
    let (mut entities, file) = tagged("/ws/models/user.ruulang", a);
    let (mut other, _) = tagged("/ws/models/sub/post.ruulang", b);
    entities.append(&mut other);
    let origin = "/ws/models/user.ruulang".to_string();
    let name = "/ws/models/user.py".to_string();
    let config = config_with_root("/ws");
    let json = "{\"entrypoints\":[]}".to_string();
    let generator = PythonCodegen::try_new(&origin, &name, &config, &entities, &file, &json).unwrap();
    let text = serialize_schema_and_file(&generator);
    let expected = "import json

from ruu_runtime import Attribute, Entrypoint, Fragment, Rule, Schema, Universal, registry
from typing import Literal

from models.sub.post import PostAuthorRule


@registry.register_attribute(\"User\", \"posts\", \"public\")
class UserPostsPublicAttr(Attribute):
    name: Literal[\"public\"]

@registry.register_relationship(\"User\", \"posts\", \"Post\")
class UserPostsRule(Rule):
    relationship: Literal[\"posts\"]
    grants: tuple[tuple[Literal[\"view\"]], ...]
    attributes: \"tuple[UserPostsPublicAttr, ...]\"
    rules: \"tuple[Universal | PostAuthorRule, ...]\"

@registry.bind
class UserEntrypoint(Entrypoint):
    entrypoint: Literal[\"User\"]
    rules: \"tuple[UserPostsRule, ...]\"

@registry.register_fragment(\"User\", \"Mine\")
class UserMineFragment(Fragment):
    grants: tuple[tuple[Literal[\"read\"], Literal[\"self\"]], ...]

@registry.bind
class UserSchema(Schema):
    entrypoints: \"tuple[UserEntrypoint, ...]\"
    fragments: \"tuple[UserMineFragment, ...]\"
    
    @classmethod
    def load_from_obj(cls):
        assert cls._registry
        cls._registry.update_annotations()
        
        result = cls.parse_obj(json.loads(\"\"\"
            {\"entrypoints\":[]}
        \"\"\"))
        
        result.register_globals()
        return result

schema = UserSchema.load_from_obj()
";
    assert_eq!(text, expected);
}

#[test]
fn python_module_without_entrypoints_and_fragments_has_no_footer() {
    let (entities, file) = tagged("/ws/a.ruulang", "entity A { b: B; }");
    let origin = "/ws/a.ruulang".to_string();
    let name = "/ws/a.py".to_string();
    let config = config_with_root("/ws");
    let json = "{}".to_string();
    let generator = PythonCodegen::try_new(&origin, &name, &config, &entities, &file, &json).unwrap();
    let text = serialize_schema_and_file(&generator);
    let expected = "from ruu_runtime import Rule, Universal, registry
from typing import Literal


@registry.register_relationship(\"A\", \"b\", \"B\")
class ABRule(Rule):
    relationship: Literal[\"b\"]
    grants: tuple[()]
    attributes: tuple[()]
    rules: tuple[Universal, ...]
";
    assert_eq!(text, expected);
}

#[test]
fn python_generator_needs_a_root_and_entities_below_it() {
    let (entities, file) = tagged("/elsewhere/a.ruulang", "entity A { }");
    let origin = "/ws/b.ruulang".to_string();
    let name = "/ws/b.py".to_string();
    let json = String::new();
    let config = config_with_root("/ws");
    assert!(PythonCodegen::try_new(&origin, &name, &config, &entities, &file, &json).is_none());
    let none = RuuLangConfig::default();
    let empty = Vec::new();
    assert!(PythonCodegen::try_new(&origin, &name, &none, &empty, &file, &json).is_none());
    assert!(PythonCodegen::try_new(&origin, &name, &config, &empty, &file, &json).is_some());
    let no_name = "/".to_string();
    assert!(PythonCodegen::try_new(&origin, &no_name, &config, &empty, &file, &json).is_none());
}

#[test]
fn python_imports_are_made_and_compared_by_value() {
    assert!(PythonImport::new_global("a", "b").same_as(&PythonImport::new_global("a", "b")));
    assert!(!PythonImport::new_global("a", "b").same_as(&PythonImport::new_global("a", "c")));
    assert!(!PythonImport::new_global("a", "b").same_as(&PythonImport::new_global_module("a")));
    assert!(PythonImport::new_global_module("a").same_as(&PythonImport::new_global_module("a")));
    assert!(!PythonImport::new_local("a", "b").same_as(&PythonImport::new_global("a", "b")));
    assert!(PythonImport::new_local("a", "b").same_as(&PythonImport::new_local("a", "b")));
    assert!(matches!(PythonImport::new_local("e", "v"), PythonImport::LocalImport((e, v)) if e == "e" && v == "v"));
}

#[test]
fn python_module_does_not_depend_on_the_order_of_files() {
    let a = "entity User { posts: Post; }\n@User { posts { } }";
    let b = "entity Post { author: User; view; }";
    let c = "entity Tag { post: Post; }";
    let origin = "/ws/user.ruulang".to_string();
    let name = "/ws/user.py".to_string();
    let config = config_with_root("/ws");
    let json = "{}".to_string();
    let (own, file) = tagged("/ws/user.ruulang", a);
    let (post, _) = tagged("/ws/dir/post.ruulang", b);
    let (tag, _) = tagged("/ws/tag.ruulang", c);
    let orders: Vec<Vec<&Vec<WithOrigin<Parsed<Entity>>>>> = vec![
        vec![&own, &post, &tag],
        vec![&tag, &post, &own],
        vec![&post, &own, &tag],
    ];
    let mut texts = Vec::new();
    for order in orders {
        let mut entities = Vec::new();
        for part in order {
            for e in part {
                entities.push(WithOrigin::new(e.data.clone(), e.origin.clone()));
            }
        }
        let generator =
            PythonCodegen::try_new(&origin, &name, &config, &entities, &file, &json).unwrap();
        texts.push(serialize_schema_and_file(&generator));
        texts.push(serialize_schema_and_file(&generator));
    }
    assert!(texts[0].contains("from dir.post import PostAuthorRule"));
    for text in &texts {
        assert_eq!(text, &texts[0]);
    }
}

#[test]
fn helper_joins_items_with_a_separator() {
    let mut s = CodegenHelper::new("  ", "\n");
    s.write_token("of");
    s.write_list(&strings(&["a", "b", "c"]), ", ");
    s.write_list(&strings(&[]), ", ");
    assert_eq!(s.serialize(), "of a, b, c");
}

#[test]
fn helper_lets_a_closure_write_each_item() {
    let mut s = CodegenHelper::new("  ", "\n");
    s.write_token("tuple");
    let s = s.with_parens(|s: CodegenHelper| {
        s.iter_and_join(&vec![1u32, 2, 3], " | ", |mut s: CodegenHelper, n: &u32| {
            s.write("Literal[");
            s.write(&n.to_string());
            s.write("]");
            s
        })
    });
    let s = s.iter_and_join(&Vec::<u32>::new(), ", ", |mut s: CodegenHelper, n: &u32| {
        s.write(&n.to_string());
        s
    });
    let s = s.iter_and_join(&strings(&["x"]), ", ", |mut s: CodegenHelper, t: &String| {
        s.write_symbol(";");
        s.write_token(t);
        s
    });
    assert_eq!(s.serialize(), "tuple(Literal[1] | Literal[2] | Literal[3]);x");
}

#[test]
fn text_does_not_depend_on_the_order_in_which_imports_were_added() {
    let (entities, file) = tagged("/ws/dir/post.ruulang", "entity Post { }");
    let origin = "/ws/x.ruulang".to_string();
    let name = "/ws/x.py".to_string();
    let config = config_with_root("/ws");
    let json = String::new();
    let generator = PythonCodegen::try_new(&origin, &name, &config, &entities, &file, &json).unwrap();
    let imports = || {
        vec![
            PythonImport::new_global("typing", "Literal"),
            PythonImport::new_global_module("json"),
            PythonImport::new_local("Post", "PostRule"),
            PythonImport::new_global("abc", "ABC"),
            PythonImport::new_global("typing", "Any"),
            PythonImport::new_global_module("enum"),
            PythonImport::new_local("Post", "PostAttr"),
        ]
    };
    let build = |order: &[usize], exports: &[&str]| {
        let mut state: CodegenState<PythonImport> = CodegenState::new();
        let mut all: Vec<Option<PythonImport>> = imports().into_iter().map(Some).collect();
        for i in order {
            state.add_import(all[*i].take().unwrap());
        }
        for e in exports {
            state.add_export(e.to_string());
        }
        state.write_code("code".to_string());
        state.stringify(&generator)
    };
    let first = build(&[0, 1, 2, 3, 4, 5, 6], &["b", "a"]);
    assert_eq!(
        first,
        "import enum\nimport json\n\nfrom abc import ABC\nfrom typing import Any, Literal\n\nfrom dir.post import PostAttr, PostRule\n\n\ncode"
    );
    assert_eq!(build(&[6, 5, 4, 3, 2, 1, 0], &["a", "b"]), first);
    assert_eq!(build(&[3, 0, 6, 1, 5, 2, 4], &["b", "a"]), first);
}
