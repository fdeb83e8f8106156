use std::rc::Rc;

use sitegen::node::TemplateNode;
use sitegen::parse::{parse_block_content, parse_control_blocks, try_parse_control_blocks};
use sitegen::render::TemplateContext;
use sitegen::site::{with_page_defaults, GlobalContext, SiteValue};
use sitegen::string_map::StringMap;

fn s(x: &str) -> String {
    x.to_string()
}

#[test]
fn text_without_braces_is_not_substituted() {
    let mut m = StringMap::new();
    m.insert(s("title"), s("T"));
    m.insert(s("x"), s("y"));
    let out = TemplateNode::perform_substitutions_strings(s("title and x stay"), &m);
    assert_eq!(out, "title and x stay");
}

#[test]
fn placeholder_is_filled_with_value() {
    let out = TemplateNode::perform_substitutions_str(s("Hello, {{ name }}!"), "name", "World");
    assert_eq!(out, "Hello, World!");
}

#[test]
fn plain_text_parses_and_renders_to_itself() {
    let gc = GlobalContext::new("out");
    let node = parse_control_blocks("no tags here } {", &mut Vec::new());
    let ctx = Rc::new(TemplateContext::new(None));
    assert_eq!(node.render(&ctx, &gc, &mut Vec::new()).unwrap(), "no tags here } {");
    assert_eq!(node.render_fragment(&ctx), "no tags here } {");
    let empty = parse_control_blocks("", &mut Vec::new());
    match &*empty {
        TemplateNode::Composite(nodes) => assert!(nodes.is_empty()),
        _ => panic!("expected composite"),
    }
}

#[test]
fn block_content_reassembles() {
    let content = "inner text{{ endforeach }}after";
    let (inner, rest) = parse_block_content(content, "endforeach");
    assert_eq!(format!("{}{{{{ endforeach }}}}{}", inner, rest), content);
}

#[test]
fn front_matter_reads_back_through_context() {
    let mut fm = StringMap::new();
    fm.insert(s("title"), s("Page"));
    let mut ctx = TemplateContext::new(None);
    ctx.insert_string(s("title"), s("old"));
    ctx.insert_string(s("other"), s("kept"));
    ctx.add_front_matter(&fm);
    assert_eq!(ctx.get_string(&s("title")).unwrap(), "Page");
    assert_eq!(ctx.get_string(&s("other")).unwrap(), "kept");
}

#[test]
fn rendering_fragments_agrees_with_render() {
    let gc = GlobalContext::new("out");
    let node = parse_control_blocks("a{{ if x }}X{{ else }}Y{{ endif }}b{{ foreach l as i }}I{{ endforeach }}c", &mut Vec::new());
    let mut ctx = TemplateContext::new(None);
    ctx.insert_string(s("x"), s("1"));
    let ctx = Rc::new(ctx);
    assert_eq!(node.render(&ctx, &gc, &mut Vec::new()).unwrap(), node.render_fragment(&ctx));
    assert_eq!(node.render_fragment(&ctx), "aXbc");
}

#[test]
fn context_node_output_is_substituted() {
    let gc = GlobalContext::new("out");
    let mut ctx = TemplateContext::new(None);
    ctx.insert_node(s("list"), Rc::new(TemplateNode::StringContent(s("LIST"))));
    let layout = TemplateNode::new_layout(s("page"), StringMap::new(), s("<{{ list }}>"), None);
    assert_eq!(layout.render(&Rc::new(ctx), &gc, &mut Vec::new()).unwrap(), "<LIST>");
}

#[test]
fn tags_without_blocks_are_deleted() {
    let gc = GlobalContext::new("out");
    let node = parse_control_blocks("a{{ x }}b{{else}}c{{ endif }}d", &mut Vec::new());
    match &*node {
        TemplateNode::Composite(nodes) => {
            assert!(nodes.iter().all(|n| matches!(n, TemplateNode::StringContent(_))));
        }
        _ => panic!("expected composite"),
    }
    let ctx = Rc::new(TemplateContext::new(None));
    assert_eq!(node.render(&ctx, &gc, &mut Vec::new()).unwrap(), "abcd");
}

#[test]
fn closed_tags_always_parse() {
    assert!(try_parse_control_blocks("{{ if a }}{{ foreach l as i }}x{{ endforeach }}{{ else }}y{{ endif }}", &mut Vec::new()).is_some());
    assert!(try_parse_control_blocks("}} {{ a }} {{ b }}", &mut Vec::new()).is_some());
}

#[test]
fn parsed_text_nodes_are_non_empty_and_tag_free() {
    let node = parse_control_blocks("{{ if a }}{{ endif }}x{{ y }}", &mut Vec::new());
    match &*node {
        TemplateNode::Composite(nodes) => {
            assert_eq!(nodes.len(), 2);
            match &nodes[0] {
                TemplateNode::IfBlock { true_branch, false_branch, .. } => {
                    assert!(matches!(&**true_branch, TemplateNode::Composite(v) if v.is_empty()));
                    assert!(false_branch.is_none());
                }
                _ => panic!("expected if"),
            }
            assert!(matches!(&nodes[1], TemplateNode::StringContent(t) if t == "x"));
        }
        _ => panic!("expected composite"),
    }
}

#[test]
fn page_defaults_keep_existing_keys() {
    let mut fm = StringMap::new();
    fm.insert(s("a"), s("1"));
    let m = with_page_defaults(fm, Some(s("stem"))).unwrap();
    assert_eq!(m.len(), 3);
    assert_eq!(m.get(&s("a")).unwrap(), "1");
    assert_eq!(m.get(&s("layout")).unwrap(), "default");
    assert_eq!(m.get(&s("title")).unwrap(), "stem");
    let mut fm = StringMap::new();
    fm.insert(s("title"), s("T"));
    fm.insert(s("layout"), s("post"));
    let m = with_page_defaults(fm, None).unwrap();
    assert_eq!(m.get(&s("title")).unwrap(), "T");
    assert_eq!(m.get(&s("layout")).unwrap(), "post");
    assert!(with_page_defaults(StringMap::new(), None).is_none());
}

#[test]
fn page_layout_is_the_cached_one() {
    let mut gc = GlobalContext::new("out");
    let site = gc.get_layout("site", "s");
    let mut fm = StringMap::new();
    fm.insert(s("layout"), s("site"));
    assert!(Rc::ptr_eq(&gc.layout_for(&fm).unwrap(), &site));
    fm.insert(s("layout"), s("post"));
    assert!(gc.layout_for(&fm).is_none());
    assert!(gc.layout_for(&StringMap::new()).is_none());
}

#[test]
fn site_data_reads_back() {
    let mut gc = GlobalContext::new("out");
    gc.load_site_data_from_yaml_mapping(&vec![(s("a"), SiteValue::Bool(false)), (s("b"), SiteValue::Text(s("x")))]);
    gc.load_site_data_from_yaml_mapping(&vec![(s("a"), SiteValue::Text(s("y")))]);
    assert_eq!(gc.site_strings().get(&s("a")).unwrap(), "y");
    assert_eq!(gc.site_strings().get(&s("b")).unwrap(), "x");
}
