//! The handler bookkeeping of a script runtime and the reading of a
//! handler's returned value.

use mdx_ext::ast::{kind_name, DirectiveKind};
use mdx_ext::runtime::handlers::{HandlerEntry, HandlerList, HandlerTable, Registration};
use mdx_ext::runtime::output::{output_from_return, FieldValue, PropsValue, ReturnedTable, ReturnedValue};
use mdx_ext::transform::normalize::normalize;
use mdx_ext::{DirectiveOutput, MarkdownEngine, RuntimeError, ScriptId};
use serde_json::Value;

fn dir(name: &str, key: u32) -> Registration<u32> {
    Registration::Directive { name: name.to_string(), key }
}

#[test]
fn handler_list_put_replaces_and_find_reads_back() {
    let mut l: HandlerList<u32> = HandlerList::new();
    assert!(l.put(HandlerEntry { name: "a".to_string(), key: 1, script: ScriptId(1) }).is_none());
    assert!(l.put(HandlerEntry { name: "b".to_string(), key: 2, script: ScriptId(1) }).is_none());
    let old = l.put(HandlerEntry { name: "a".to_string(), key: 3, script: ScriptId(2) }).unwrap();
    assert_eq!((old.key, old.script), (1, ScriptId(1)));
    let a = l.find("a").unwrap();
    assert_eq!((a.key, a.script), (3, ScriptId(2)));
    assert_eq!(l.find("b").unwrap().key, 2);
    assert!(l.find("c").is_none());
    let names: Vec<String> = l.descriptors().into_iter().map(|d| d.name).collect();
    assert_eq!(names, vec!["b".to_string(), "a".to_string()]);
    assert_eq!(l.take("b").unwrap().key, 2);
    assert!(l.take("b").is_none());
}

#[test]
fn load_registers_and_unload_reverses() {
    let mut t: HandlerTable<u32> = HandlerTable::new();
    assert_eq!(t.next_script_id(), 1);
    let s1 = t.allocate_script_id();
    assert_eq!(s1, ScriptId(1));
    let displaced = t.record_load(
        s1,
        vec![dir("x", 10), dir("y", 11), Registration::Link { namespace: "npc".to_string(), key: 12 }],
    );
    assert!(displaced.is_empty());
    assert_eq!(t.generation(), 1);
    assert_eq!(t.find_directive("x"), Some(&10));
    assert_eq!(t.find_link("npc"), Some(&12));
    assert_eq!(t.directive_descriptors().len(), 2);

    let s2 = t.allocate_script_id();
    assert_eq!(s2, ScriptId(2));
    let displaced = t.record_load(s2, vec![dir("x", 20), dir("x", 21)]);
    assert_eq!(displaced, vec![10, 20]);
    assert_eq!(t.find_directive("x"), Some(&21));

    // Unloading the first script takes only what it still owns: the handler
    // that the second script has registered under "x" since stays.
    let released = t.unload(s1).unwrap();
    assert_eq!(released, vec![11, 12]);
    assert_eq!(t.find_directive("x"), Some(&21));
    assert_eq!(t.find_directive("y"), None);
    assert_eq!(t.find_link("npc"), None);
    assert_eq!(t.generation(), 3);

    let err = t.unload(s1).unwrap_err();
    assert_eq!(err.message(), "script load failed: unknown script id ScriptId(1)");
    let released = t.unload(s2).unwrap();
    assert_eq!(released, vec![21]);
    assert_eq!(t.find_directive("x"), None);
    assert_eq!(t.generation(), 4);
}

fn table() -> ReturnedTable {
    ReturnedTable {
        ty: None,
        value: FieldValue::Missing,
        text: FieldValue::Missing,
        html: FieldValue::Missing,
        markdown: FieldValue::Missing,
        component: FieldValue::Missing,
        name: FieldValue::Missing,
        message: FieldValue::Missing,
        data: Err("no value".to_string()),
        props: PropsValue::Absent,
    }
}

fn err_of(r: Result<DirectiveOutput, RuntimeError>) -> String {
    r.unwrap_err().message()
}

#[test]
fn returned_scalars_become_text_or_errors() {
    assert!(matches!(output_from_return(ReturnedValue::Nil), Ok(DirectiveOutput::Text(s)) if s.is_empty()));
    assert!(matches!(output_from_return(ReturnedValue::Str("hi".to_string())), Ok(DirectiveOutput::Text(s)) if s == "hi"));
    assert_eq!(
        err_of(output_from_return(ReturnedValue::Other("boolean".to_string()))),
        "invalid return value: unsupported handler return type: boolean"
    );
    assert_eq!(
        err_of(output_from_return(ReturnedValue::Unreadable("bad utf8".to_string()))),
        "execution failed: bad utf8"
    );
}

#[test]
fn typed_tables_select_the_variant() {
    let mut t = table();
    t.ty = Some("HTML".to_string());
    t.value = FieldValue::Str("<b>x</b>".to_string());
    assert!(matches!(output_from_return(ReturnedValue::Table(t)), Ok(DirectiveOutput::Html(s)) if s == "<b>x</b>"));

    let mut t = table();
    t.ty = Some("markdown".to_string());
    assert_eq!(err_of(output_from_return(ReturnedValue::Table(t))), "invalid return value: missing field: value");

    let mut t = table();
    t.ty = Some("text".to_string());
    t.value = FieldValue::Other("number".to_string());
    assert_eq!(
        err_of(output_from_return(ReturnedValue::Table(t))),
        "invalid return value: field value must be a string, got number"
    );

    let mut t = table();
    t.ty = Some("data".to_string());
    t.data = Ok(Value::Number(42.into()));
    assert!(matches!(output_from_return(ReturnedValue::Table(t)), Ok(DirectiveOutput::Data(v)) if v == Value::Number(42.into())));

    let mut t = table();
    t.ty = Some("error".to_string());
    assert!(matches!(output_from_return(ReturnedValue::Table(t)), Ok(DirectiveOutput::Error { message }) if message.is_empty()));

    let mut t = table();
    t.ty = Some("component".to_string());
    t.name = FieldValue::Str("Alert".to_string());
    t.props = PropsValue::Object(vec![
        ("z".to_string(), Value::Bool(true)),
        ("a".to_string(), Value::Null),
    ]);
    match output_from_return(ReturnedValue::Table(t)) {
        Ok(DirectiveOutput::Component { name, props }) => {
            assert_eq!(name, "Alert");
            let keys: Vec<&str> = props.iter().iter().map(|(k, _)| k.as_str()).collect();
            assert_eq!(keys, vec!["a", "z"]);
        }
        other => panic!("{other:?}"),
    }

    let mut t = table();
    t.ty = Some("component".to_string());
    t.name = FieldValue::Str("Alert".to_string());
    t.props = PropsValue::NotObject;
    assert_eq!(err_of(output_from_return(ReturnedValue::Table(t))), "invalid return value: props must be a table/object");

    let mut t = table();
    t.ty = Some("Widget".to_string());
    assert_eq!(
        err_of(output_from_return(ReturnedValue::Table(t))),
        "invalid return value: unknown directive output type: widget"
    );
}

#[test]
fn untyped_tables_use_the_first_string_field() {
    let mut t = table();
    t.text = FieldValue::Other("table".to_string());
    t.markdown = FieldValue::Str("**m**".to_string());
    t.component = FieldValue::Str("C".to_string());
    assert!(matches!(output_from_return(ReturnedValue::Table(t)), Ok(DirectiveOutput::Markdown(s)) if s == "**m**"));

    let mut t = table();
    t.component = FieldValue::Str("C".to_string());
    assert!(matches!(output_from_return(ReturnedValue::Table(t)), Ok(DirectiveOutput::Component { name, .. }) if name == "C"));

    assert_eq!(
        err_of(output_from_return(ReturnedValue::Table(table()))),
        "invalid return value: table has no recognised directive-output discriminator"
    );
}

#[test]
fn kind_names_for_scripts() {
    assert_eq!(kind_name(DirectiveKind::Block), "block");
    assert_eq!(kind_name(DirectiveKind::Inline), "inline");
}

#[test]
fn normalizing_twice_changes_nothing() {
    let eng = MarkdownEngine::builder().build().unwrap();
    let mut doc = eng.parse("A *b* [[NS:x]] {{Dir}}\n\n:::BLOCK\n:::\n");
    let once = eng.render_debug(&doc);
    normalize(&mut doc);
    assert_eq!(eng.render_debug(&doc), once);
    assert!(once.contains("(ns-link \"ns\":\"x\""), "{once}");
    assert!(once.contains("(directive name=\"block\""), "{once}");
}

#[test]
fn a_failed_load_changes_nothing_and_a_finished_one_owns_its_names() {
    let mut t: HandlerTable<u32> = HandlerTable::new();
    let s1 = t.allocate_script_id();
    let err = t
        .complete_load(s1, Err(RuntimeError::Load("boom".to_string())))
        .unwrap_err();
    assert_eq!(err.message(), "script load failed: boom");
    assert_eq!(t.generation(), 0);
    assert_eq!(t.directive_descriptors().len(), 0);
    let s2 = t.allocate_script_id();
    assert_ne!(s1, s2);
    let displaced = t.complete_load(s2, Ok(vec![dir("a", 1), dir("b", 2)])).unwrap();
    assert!(displaced.is_empty());
    assert_eq!(t.generation(), 1);
    let d = t.directive_descriptors();
    assert_eq!(d.len(), 2);
    assert!(d.iter().all(|x| x.script == s2));
    assert_eq!(t.find_directive("a"), Some(&1));
}
