use std::rc::Rc;

use sitegen::node::TemplateNode;
use sitegen::parse::{parse_block_content, parse_control_blocks, parse_front_matter, try_parse_control_blocks};
use sitegen::render::{JsonItem, TemplateContext};
use sitegen::site::{build_page, file_path_stem, page_front_matter, parse_yaml_front_matter, GlobalContext, SiteValue};
use sitegen::string_map::StringMap;
use sitegen::text::{chars_of, replace_chars, split_words, string_of};

fn s(x: &str) -> String {
    x.to_string()
}

fn map(pairs: &[(&str, &str)]) -> StringMap {
    let mut m = StringMap::new();
    for (k, v) in pairs {
        m.insert(s(k), s(v));
    }
    m
}

fn text(x: &str) -> Rc<TemplateNode> {
    Rc::new(TemplateNode::StringContent(s(x)))
}

fn render_str(node: &TemplateNode, ctx: TemplateContext, gc: &GlobalContext) -> Option<String> {
    node.render(&Rc::new(ctx), gc, &mut Vec::new())
}

#[test]
fn replace_is_left_to_right_and_non_overlapping() {
    let out = replace_chars(&chars_of("aaaa"), &chars_of("aa"), &chars_of("b"));
    assert_eq!(string_of(&out), "bb");
    let out = replace_chars(&chars_of("xyz"), &chars_of("q"), &chars_of("b"));
    assert_eq!(string_of(&out), "xyz");
}

#[test]
fn words_split_on_whitespace() {
    let w = split_words(&chars_of("  foreach  items as\titem "));
    let w: Vec<String> = w.iter().map(|x| string_of(x)).collect();
    assert_eq!(w, vec!["foreach", "items", "as", "item"]);
    assert!(split_words(&chars_of("   ")).is_empty());
}

#[test]
fn string_map_reads_back_what_was_written() {
    let mut m = map(&[("a", "1"), ("b", "2")]);
    m.insert(s("a"), s("3"));
    assert_eq!(m.len(), 2);
    assert_eq!(m.get(&s("a")).unwrap(), "3");
    assert_eq!(m.get(&s("b")).unwrap(), "2");
    assert!(m.get(&s("c")).is_none());
    assert_eq!(m.key_at(0), "a");
}

#[test]
fn front_matter_is_split_and_trimmed() {
    let (fm, body) = parse_front_matter("---\ntitle: Hi\n---\n\n# Body\n");
    assert_eq!(fm, "title: Hi");
    assert_eq!(body, "# Body");
}

#[test]
fn front_matter_without_fence_is_all_body() {
    let (fm, body) = parse_front_matter("# Body\n---\n");
    assert_eq!(fm, "");
    assert_eq!(body, "# Body\n---\n");
    let (fm, body) = parse_front_matter("---\nno closing fence");
    assert_eq!(fm, "");
    assert_eq!(body, "---\nno closing fence");
}

#[test]
fn block_content_splits_at_end_tag() {
    let (inner, rest) = parse_block_content("a{{ endif }}b", "endif");
    assert_eq!(inner, "a");
    assert_eq!(rest, "b");
    let (inner, rest) = parse_block_content("a{{ endif }}", "endif");
    assert_eq!(inner, "a");
    assert_eq!(rest, "");
    let (inner, rest) = parse_block_content("no end", "endif");
    assert_eq!(inner, "no end");
    assert_eq!(rest, "");
}

#[test]
fn control_blocks_parse_into_nodes() {
    let n = parse_control_blocks("x{{ if a }}T{{ else }}F{{ endif }}y{{ other }}z", &mut Vec::new());
    match &*n {
        TemplateNode::Composite(nodes) => {
            assert_eq!(nodes.len(), 4);
            match &nodes[0] {
                TemplateNode::StringContent(t) => assert_eq!(t, "x"),
                _ => panic!("expected text"),
            }
            match &nodes[1] {
                TemplateNode::IfBlock { condition, false_branch, .. } => {
                    assert_eq!(condition, "a");
                    assert!(false_branch.is_some());
                }
                _ => panic!("expected if"),
            }
            match &nodes[3] {
                TemplateNode::StringContent(t) => assert_eq!(t, "z"),
                _ => panic!("expected text"),
            }
        }
        _ => panic!("expected composite"),
    }
}

#[test]
fn unclosed_tag_does_not_parse() {
    assert!(try_parse_control_blocks("a {{ b", &mut Vec::new()).is_none());
    assert!(try_parse_control_blocks("{{ if a }} {{ x {{ endif }} }}", &mut Vec::new()).is_none());
    assert!(try_parse_control_blocks("plain", &mut Vec::new()).is_some());
}

#[test]
fn substitution_replaces_all_placeholder_forms() {
    let out = TemplateNode::perform_substitutions_str(s("{{ t }}|{ t }|{{t}}|{t}|{{  t }}"), "t", "V");
    assert_eq!(out, "V|V|V|V|{{  t }}");
}

#[test]
fn substitution_of_map_goes_key_by_key() {
    let m = map(&[("a", "{{ b }}"), ("b", "B")]);
    let out = TemplateNode::perform_substitutions_strings(s("[{{ a }}]"), &m);
    assert_eq!(out, "[B]");
    let m2 = map(&[("b", "B"), ("a", "{{ b }}")]);
    let out2 = TemplateNode::perform_substitutions_strings(s("[{{ a }}]"), &m2);
    assert_eq!(out2, "[{{ b }}]");
}

#[test]
fn context_lookup_shadows_outer_levels() {
    let mut outer = TemplateContext::new(None);
    outer.insert_string(s("k"), s("outer"));
    outer.insert_string(s("only"), s("o"));
    let outer = Rc::new(outer);
    let mut inner = TemplateContext::new(Some(outer.clone()));
    inner.add_front_matter(&map(&[("k", "inner")]));
    assert_eq!(inner.get_string(&s("k")).unwrap(), "inner");
    assert_eq!(inner.get_string(&s("only")).unwrap(), "o");
    assert!(inner.get_string(&s("none")).is_none());
}

#[test]
fn if_block_renders_branch_by_condition() {
    let gc = GlobalContext::new("out");
    let node = TemplateNode::IfBlock { condition: s("c"), true_branch: text("yes"), false_branch: Some(text("no")) };
    let mut ctx = TemplateContext::new(None);
    assert_eq!(render_str(&node, TemplateContext::new(None), &gc).unwrap(), "no");
    ctx.insert_string(s("c"), s(""));
    assert_eq!(render_str(&node, ctx, &gc).unwrap(), "yes");
    let node2 = TemplateNode::IfBlock { condition: s("c"), true_branch: text("yes"), false_branch: None };
    assert_eq!(render_str(&node2, TemplateContext::new(None), &gc).unwrap(), "");
}

#[test]
fn foreach_renders_body_per_item() {
    let gc = GlobalContext::new("out");
    let body = Rc::new(TemplateNode::IfBlock { condition: s("name"), true_branch: text("N"), false_branch: Some(text("-")) });
    let node = TemplateNode::ForEachBlock { key: s("items"), item_name: s("item"), body };
    let mut ctx = TemplateContext::new(None);
    ctx.insert_json(s("items"), vec![JsonItem::Mapping(map(&[("name", "x")])), JsonItem::Other, JsonItem::Mapping(map(&[]))]);
    assert_eq!(render_str(&node, ctx, &gc).unwrap(), "N--");
    assert_eq!(render_str(&node, TemplateContext::new(None), &gc).unwrap(), "");
}

#[test]
fn func_renders_its_name() {
    let gc = GlobalContext::new("out");
    let node = TemplateNode::Func { name: s("uppercase"), args: vec![s("a")], block_content: None };
    assert_eq!(render_str(&node, TemplateContext::new(None), &gc).unwrap(), "uppercase");
}

#[test]
fn json_list_renders_titles_and_descriptions() {
    let gc = GlobalContext::new("out");
    let mut ctx = TemplateContext::new(None);
    ctx.insert_json(
        s("items"),
        vec![
            JsonItem::Mapping(map(&[("title", "T"), ("description", "D")])),
            JsonItem::Other,
            JsonItem::Mapping(map(&[("description", "only")])),
        ],
    );
    let ctx = Rc::new(ctx);
    let node = TemplateNode::StringContent(s(""));
    assert_eq!(
        node.render_json_list("items", &ctx, &gc),
        "<ul>\n<li><h3>T</h3><p>D</p></li>\n<li><p>only</p></li>\n</ul>"
    );
    assert_eq!(node.render_json_list("missing", &ctx, &gc), "");
}

#[test]
fn page_renders_into_its_layouts() {
    let mut gc = GlobalContext::new("out");
    let site = gc.get_layout("site", "<html>{{ content }}</html>");
    let default = gc.get_layout("default", "<body>{{ content }}</body>");
    assert!(Rc::ptr_eq(&gc.cached_layout("site").unwrap(), &site));
    let post = gc.get_layout("post", "---\nkind: post\n---\n<h1>{{ title }}</h1>{{ if draft }}DRAFT{{ endif }}<p>{ kind }</p>{{ content }}");
    match &*post {
        TemplateNode::Layout { parent: Some(p), .. } => assert!(Rc::ptr_eq(p, &default)),
        _ => panic!("expected layout with parent"),
    }
    let page = TemplateNode::new_page(s("a.md"), map(&[("title", "Hello")]), text("body"), s("out/a.html"), Some(post));
    let html = render_str(&page, TemplateContext::new(None), &gc).unwrap();
    // The outermost layout substitutes `content` from the context first, so
    // the inner layouts find no `{{ content }}` left to fill.
    assert_eq!(html, "<html>body</html>");
}

#[test]
fn page_renders_into_a_single_layout() {
    let gc = GlobalContext::new("out");
    let layout = TemplateNode::new_layout(
        s("post"),
        map(&[("kind", "post")]),
        s("<h1>{{ title }}</h1>{{ if draft }}DRAFT{{ endif }}<p>{ kind }</p>{{ content }}{{ unknown }}!"),
        None,
    );
    let page = TemplateNode::new_page(s("a.md"), map(&[("title", "Hello")]), text("body"), s("out/a.html"), Some(layout));
    let html = render_str(&page, TemplateContext::new(None), &gc).unwrap();
    assert_eq!(html, "<h1>Hello</h1><p>post</p>body!");
}

#[test]
fn site_strings_substitute_last() {
    let mut gc = GlobalContext::new("out");
    gc.load_site_data_from_yaml_mapping(&vec![(s("name"), SiteValue::Text(s("Site"))), (s("dark"), SiteValue::Bool(true))]);
    assert_eq!(gc.site_strings().get(&s("dark")).unwrap(), "true");
    let layout = gc.get_layout("site", "{{ name }}:{{ dark }}");
    assert_eq!(render_str(&layout, TemplateContext::new(None), &gc).unwrap(), "Site:true");
}

#[test]
fn layout_with_unclosed_tag_has_no_output() {
    let mut gc = GlobalContext::new("out");
    let layout = gc.get_layout("site", "a {{ b");
    assert!(render_str(&layout, TemplateContext::new(None), &gc).is_none());
}

#[test]
fn layout_parents_follow_names() {
    assert_eq!(GlobalContext::layout_parent_name("site"), None);
    assert_eq!(GlobalContext::layout_parent_name("default"), Some(s("site")));
    assert_eq!(GlobalContext::layout_parent_name("post"), Some(s("default")));
}

#[test]
fn second_get_layout_returns_cached() {
    let mut gc = GlobalContext::new("out");
    let a = gc.get_layout("site", "one");
    let b = gc.get_layout("site", "two");
    assert!(Rc::ptr_eq(&a, &b));
    match &*b {
        TemplateNode::Layout { content, .. } => assert_eq!(content, "one"),
        _ => panic!("expected layout"),
    }
}

#[test]
fn tree_text_lists_the_chain() {
    let mut gc = GlobalContext::new("out");
    gc.get_layout("site", "x");
    let d = gc.get_layout("default", "y");
    let page = TemplateNode::new_page(s("p.md"), StringMap::new(), text(""), s("o"), Some(d));
    assert_eq!(page.tree_text(0), "\u{1F4C4} p.md (Page)\n  \u{1F4E6} default (Layout)\n    \u{1F4E6} site (Layout)\n");
}

#[test]
fn yaml_front_matter_is_a_string_map() {
    let m = parse_yaml_front_matter("title: Hi\nlayout: post").unwrap();
    assert_eq!(m.get(&s("title")).unwrap(), "Hi");
    assert_eq!(m.get(&s("layout")).unwrap(), "post");
    assert!(parse_yaml_front_matter("").is_none());
    assert!(parse_yaml_front_matter("tags: [a, b]").is_none());
}

#[test]
fn page_front_matter_has_defaults() {
    let m = page_front_matter("./blog/first.md", "no front matter").unwrap();
    assert_eq!(m.get(&s("layout")).unwrap(), "default");
    assert_eq!(m.get(&s("title")).unwrap(), "first");
    let m = page_front_matter("x.md", "---\ntitle: T\nlayout: post\n---\nbody").unwrap();
    assert_eq!(m.get(&s("title")).unwrap(), "T");
    assert_eq!(m.get(&s("layout")).unwrap(), "post");
    assert!(page_front_matter("..", "body").is_none());
    assert!(page_front_matter("..", "---\ntitle: T\n---\nbody").is_some());
}

#[test]
fn file_path_stem_strips_base() {
    assert_eq!(file_path_stem(".", "./blog/a.md"), "blog/a.md");
    assert_eq!(file_path_stem("x", "blog/a.md"), "blog/a.md");
}

#[test]
fn build_page_converts_markdown() {
    let mut gc = GlobalContext::new("output");
    gc.get_layout("site", "{{ content }}");
    gc.get_layout("default", "{{ content }}");
    let mut log = Vec::new();
    let page = build_page("./blog/a.md", "---\ntitle: A\n---\n# Head", &gc, &mut log).unwrap();
    assert!(log.is_empty());
    match &*page {
        TemplateNode::Page { output_path, path, .. } => {
            assert_eq!(output_path, "output/blog/a.html");
            assert_eq!(path, "./blog/a.md");
        }
        _ => panic!("expected page"),
    }
    let html = render_str(&page, TemplateContext::new(None), &gc).unwrap();
    assert_eq!(html, "<h1>Head</h1>\n");
}

#[test]
fn front_matter_with_a_list_value_falls_back_to_defaults() {
    let doc = "---\ndate: 2021-04-11\ntitle: Evolution of a Resume\ntags: [career, resume, jekyll]\nlayout: post\n---\n\n- very limited much server side logic\n";
    let m = page_front_matter("./blog/_posts/2021-04-10-evolution-of-a-resume.md", doc).unwrap();
    assert_eq!(m.len(), 2);
    assert_eq!(m.get(&s("layout")).unwrap(), "default");
    assert_eq!(m.get(&s("title")).unwrap(), "2021-04-10-evolution-of-a-resume");
}

#[test]
fn stray_else_tags_are_reported() {
    let mut log = Vec::new();
    let n = parse_control_blocks("a{{ else }}b", &mut log);
    assert_eq!(log, vec![s("else")]);
    let ctx = Rc::new(TemplateContext::new(None));
    assert_eq!(n.render_fragment(&ctx), "ab");

    let mut log = Vec::new();
    parse_control_blocks("{{ foreach l as i }}x{{else}}y{{ endforeach }}{{ else }}", &mut log);
    assert_eq!(log, vec![s("else"), s("else")]);

    let mut log = Vec::new();
    parse_control_blocks("{{ if a }}T{{ else }}F{{ endif }}{{ else x }}", &mut log);
    assert!(log.is_empty());

    let mut log = Vec::new();
    parse_control_blocks("{{ if a }}T{{else}}F{{ endif }}", &mut log);
    assert_eq!(log, vec![s("else")]);

    let mut log = vec![s("earlier")];
    assert!(try_parse_control_blocks("{{ else }} {{ open", &mut log).is_none());
    assert_eq!(log, vec![s("earlier"), s("else")]);
}

#[test]
fn rendering_reports_stray_else_of_layout_output() {
    let mut gc = GlobalContext::new("output");
    let layout = gc.get_layout("site", "---\nx: \"{{ else }}\"\n---\nA{{ x }}B");
    let mut log = Vec::new();
    let out = layout.render(&Rc::new(TemplateContext::new(None)), &gc, &mut log);
    assert_eq!(out.unwrap(), "AB");
    assert_eq!(log, vec![s("else")]);
}

#[test]
fn building_a_page_reports_stray_else_of_its_html() {
    let mut gc = GlobalContext::new("output");
    gc.get_layout("site", "{{ content }}");
    gc.get_layout("default", "{{ content }}");
    let mut log = Vec::new();
    let page = build_page("./a.md", "---\ntitle: A\n---\nx {{else}} y", &gc, &mut log);
    assert!(page.is_some());
    assert_eq!(log, vec![s("else")]);
    let mut log = Vec::new();
    assert!(build_page("./a.md", "---\nlayout: missing\n---\n{{else}}", &gc, &mut log).is_none());
    assert!(log.is_empty());
}
