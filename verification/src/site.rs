//! The site: its strings, its layouts and the pages built from documents.
use std::rc::Rc;
use vstd::prelude::*;

use crate::node::{Template, TemplateNode};
use crate::parse::{
    log_view, parse_front_matter, parse_log, parse_template, split_front_matter,
    try_parse_control_blocks,
};
use crate::render::{assoc, opt_view};
use crate::string_map::{
    insert_all, keys_distinct, lemma_insert_all_into_empty, lookup, map_insert, pairs_view, Pairs,
    StringMap,
};
use crate::text::{chars_eq, chars_of};

verus! {

/// The string pairs of a YAML document that is a mapping from strings to
/// strings, in the order of their keys; `None` for any other document.
pub uninterp spec fn yaml_string_map(text: Seq<char>) -> Option<Pairs>;

/// The HTML of a Markdown document, with every Markdown extension on.
pub uninterp spec fn markdown_html(markdown: Seq<char>) -> Seq<char>;

/// The path `full` relative to `base`, when `base` is a prefix of it
/// component by component.
pub uninterp spec fn path_strip_prefix(base: Seq<char>, full: Seq<char>) -> Option<Seq<char>>;

/// The file name of a path without its extension, if it has a file name.
pub uninterp spec fn path_file_stem(path: Seq<char>) -> Option<Seq<char>>;

/// `rel` joined onto `base`.
pub uninterp spec fn path_join(base: Seq<char>, rel: Seq<char>) -> Seq<char>;

/// `path` with its extension set to `ext`.
pub uninterp spec fn path_with_extension(path: Seq<char>, ext: Seq<char>) -> Seq<char>;

/// `serde_yaml::from_str` into a map from strings to strings. The map is a
/// `BTreeMap`, so its pairs come out in the order of their keys and no key
/// occurs twice; the pairs themselves are named, not stated.
#[verifier::external_body]
fn yaml_pairs(text: &str) -> (res: Option<Vec<(String, String)>>)
    ensures
        match res {
            Some(v) => yaml_string_map(text@) == Some(pairs_view(v@)) && keys_distinct(
                pairs_view(v@),
            ),
            None => yaml_string_map(text@) is None,
        },
{
    serde_yaml::from_str::<std::collections::BTreeMap<String, String>>(text).ok().map(
        |m| m.into_iter().collect(),
    )
}

/// `pulldown_cmark::html::push_html` over `Parser::new_ext` with
/// `Options::all()`: the HTML of a Markdown document, named, not stated.
#[verifier::external_body]
fn markdown_to_html(markdown: &str) -> (res: String)
    ensures
        res@ == markdown_html(markdown@),
{
    let mut out = String::new();
    pulldown_cmark::html::push_html(
        &mut out,
        pulldown_cmark::Parser::new_ext(markdown, pulldown_cmark::Options::all()),
    );
    out
}

/// `Path::strip_prefix` on `full` with `base`: the remaining path as a
/// string, named, not stated.
#[verifier::external_body]
fn strip_path_prefix(base: &str, full: &str) -> (res: Option<String>)
    ensures
        opt_view(res) == path_strip_prefix(base@, full@),
{
    std::path::Path::new(full).strip_prefix(base).ok().map(|p| p.to_string_lossy().into_owned())
}

/// `Path::file_stem`: the file name without its extension, as a string,
/// named, not stated.
#[verifier::external_body]
fn file_stem(path: &str) -> (res: Option<String>)
    ensures
        opt_view(res) == path_file_stem(path@),
{
    std::path::Path::new(path).file_stem().map(|s| s.to_string_lossy().into_owned())
}

/// `PathBuf::join` of `rel` onto `base`: the joined path as a string,
/// named, not stated.
#[verifier::external_body]
fn join_path(base: &str, rel: &str) -> (res: String)
    ensures
        res@ == path_join(base@, rel@),
{
    std::path::PathBuf::from(base).join(rel).to_string_lossy().into_owned()
}

/// `PathBuf::with_extension`: `path` with its extension set to `ext`, as a
/// string, named, not stated. It panics when `ext` holds a path separator,
/// so such extensions are left out.
#[verifier::external_body]
fn with_extension(path: &str, ext: &str) -> (res: String)
    requires
        forall|i: int| 0 <= i < ext@.len() ==> ext@[i] != '/' && ext@[i] != '\\',
    ensures
        res@ == path_with_extension(path@, ext@),
{
    std::path::PathBuf::from(path).with_extension(ext).to_string_lossy().into_owned()
}

/// The front matter that a YAML text gives: none for an empty text,
/// otherwise its string pairs when it is a mapping from strings to strings.
pub open spec fn yaml_front_matter(text: Seq<char>) -> Option<Pairs> {
    if text.len() == 0 {
        None
    } else {
        yaml_string_map(text)
    }
}

/// Parses the front matter of a document (see [`yaml_front_matter`]).
pub fn parse_yaml_front_matter(front_matter: &str) -> (res: Option<StringMap>)
    ensures
        match res {
            Some(m) => yaml_front_matter(front_matter@) == Some(m@),
            None => yaml_front_matter(front_matter@) is None,
        },
{
    if front_matter.is_empty() {
        return None;
    }
    match yaml_pairs(front_matter) {
        Some(v) => {
            let mut m = StringMap::new();
            let n = v.len();
            let ghost pv = pairs_view(v@);
            assert(pv.take(0) =~= Seq::<(Seq<char>, Seq<char>)>::empty());
            for i in 0..n
                invariant
                    n == v@.len(),
                    pv == pairs_view(v@),
                    m@ == insert_all(Seq::empty(), pv.take(i as int)),
            {
                m.insert(v[i].0.clone(), v[i].1.clone());
                assert(pv.take(i + 1).drop_last() =~= pv.take(i as int));
            }
            assert(pv.take(n as int) =~= pv);
            proof {
                lemma_insert_all_into_empty(pv);
            }
            Some(m)
        },
        None => None,
    }
}

/// A value of the site data: a boolean or a string.
pub enum SiteValue {
    Bool(bool),
    Text(String),
}

impl View for SiteValue {
    type V = Seq<char>;

    /// The text a value stands for: `true`, `false` or the string itself.
    open spec fn view(&self) -> Seq<char> {
        match self {
            SiteValue::Bool(true) => seq!['t', 'r', 'u', 'e'],
            SiteValue::Bool(false) => seq!['f', 'a', 'l', 's', 'e'],
            SiteValue::Text(s) => s@,
        }
    }
}

/// The text pairs of site data.
pub open spec fn site_pairs(v: Seq<(String, SiteValue)>) -> Pairs {
    v.map_values(|e: (String, SiteValue)| (e.0@, e.1@))
}

pub open spec fn site_name() -> Seq<char> {
    seq!['s', 'i', 't', 'e']
}

pub open spec fn default_name() -> Seq<char> {
    seq!['d', 'e', 'f', 'a', 'u', 'l', 't']
}

pub open spec fn layout_key() -> Seq<char> {
    seq!['l', 'a', 'y', 'o', 'u', 't']
}

pub open spec fn title_key() -> Seq<char> {
    seq!['t', 'i', 't', 'l', 'e']
}

/// The layout that a layout is placed in: `site` has none, `default` is
/// placed in `site`, every other layout in `default`.
pub open spec fn layout_parent(name: Seq<char>) -> Option<Seq<char>> {
    if name != site_name() && name != default_name() {
        Some(default_name())
    } else if name == default_name() {
        Some(site_name())
    } else {
        None
    }
}

/// The layout named `name` read from the text `source`: its front matter
/// (none when it has none or it is not a mapping from strings to strings),
/// its body as content, and `parent`.
pub open spec fn layout_from_source(name: Seq<char>, source: Seq<char>, parent: Option<Template>) -> Template {
    let (fm_text, body) = split_front_matter(source);
    Template::Layout {
        name,
        front_matter: match yaml_front_matter(fm_text) {
            Some(p) => p,
            None => Seq::empty(),
        },
        content: body,
        parent: match parent {
            Some(p) => Some(Box::new(p)),
            None => None,
        },
    }
}

/// The front matter of a page with its defaults: layout `default` unless it
/// names one, and the file stem of its path as title unless it has one;
/// `None` when it has no title and its path no file stem.
pub open spec fn page_defaults(fm: Pairs, stem: Option<Seq<char>>) -> Option<Pairs> {
    let with_layout = if lookup(fm, layout_key()) is Some {
        fm
    } else {
        map_insert(fm, layout_key(), default_name())
    };
    if lookup(with_layout, title_key()) is Some {
        Some(with_layout)
    } else {
        match stem {
            Some(t) => Some(map_insert(with_layout, title_key(), t)),
            None => None,
        }
    }
}

/// The front matter of the page at `path` whose document is `content`.
pub open spec fn page_front_matter_spec(path: Seq<char>, content: Seq<char>) -> Option<Pairs> {
    let fm = match yaml_front_matter(split_front_matter(content).0) {
        Some(p) => p,
        None => Seq::empty(),
    };
    page_defaults(fm, path_file_stem(path))
}

/// `full` relative to `base` when `base` is a prefix of it, else `full`.
pub open spec fn path_stem_spec(base: Seq<char>, full: Seq<char>) -> Seq<char> {
    match path_strip_prefix(base, full) {
        Some(p) => p,
        None => full,
    }
}

/// Where the page at `path` is written: its path relative to the current
/// directory, under `base`, with the extension `html`.
pub open spec fn page_output_path(base: Seq<char>, path: Seq<char>) -> Seq<char> {
    path_with_extension(path_join(base, path_stem_spec(seq!['.'], path)), seq!['h', 't', 'm', 'l'])
}

/// The page at `path` whose document is `content`, placed in `layout`;
/// `None` when it has no front matter (see [`page_front_matter_spec`]) or
/// the HTML of its body holds a `{{` without a `}}` after it.
pub open spec fn page_spec(base: Seq<char>, path: Seq<char>, content: Seq<char>, layout: Template) -> Option<Template> {
    match page_front_matter_spec(path, content) {
        None => None,
        Some(fm) => match parse_template(markdown_html(split_front_matter(content).1)) {
            None => None,
            Some(n) => Some(
                Template::Page {
                    path,
                    front_matter: fm,
                    content_node: Box::new(n),
                    output_path: page_output_path(base, path),
                    parent: Some(Box::new(layout)),
                },
            ),
        },
    }
}

/// `full_path` relative to `base_path`, or `full_path` when `base_path` is
/// not a prefix of it.
pub fn file_path_stem(base_path: &str, full_path: &str) -> (res: String)
    ensures
        res@ == path_stem_spec(base_path@, full_path@),
{
    match strip_path_prefix(base_path, full_path) {
        Some(p) => p,
        None => full_path.to_owned(),
    }
}

/// What the whole site shares: where output goes, the layouts loaded so far
/// and the site's strings.
pub struct GlobalContext {
    output_base: String,
    layout_cache: Vec<(String, Rc<TemplateNode>)>,
    site_strings: StringMap,
}

impl GlobalContext {
    /// The site strings.
    pub closed spec fn site_model(&self) -> Pairs {
        self.site_strings@
    }

    /// The directory that output goes under.
    pub closed spec fn output_base_model(&self) -> Seq<char> {
        self.output_base@
    }

    /// The layouts loaded so far, by name, in loading order.
    pub closed spec fn layouts_model(&self) -> Seq<(Seq<char>, Template)> {
        self.layout_cache@.map_values(|e: (String, Rc<TemplateNode>)| (e.0@, (*e.1)@))
    }

    /// A site writing under `output_base`, with no layouts and no strings.
    pub fn new(output_base: &str) -> (res: Self)
        ensures
            res.output_base_model() == output_base@,
            res.layouts_model() == Seq::<(Seq<char>, Template)>::empty(),
            res.site_model() == Seq::<(Seq<char>, Seq<char>)>::empty(),
    {
        let res = GlobalContext {
            output_base: output_base.to_owned(),
            layout_cache: Vec::new(),
            site_strings: StringMap::new(),
        };
        assert(res.layouts_model() =~= Seq::<(Seq<char>, Template)>::empty());
        res
    }

    /// The site strings.
    pub fn site_strings(&self) -> (res: &StringMap)
        ensures
            res@ == self.site_model(),
    {
        &self.site_strings
    }

    /// The directory that output goes under.
    pub fn output_base(&self) -> (res: &String)
        ensures
            res@ == self.output_base_model(),
    {
        &self.output_base
    }

    /// The layout named `name`, if it is loaded.
    pub fn cached_layout(&self, name: &str) -> (res: Option<Rc<TemplateNode>>)
        ensures
            match res {
                Some(l) => assoc(self.layouts_model(), name@) == Some(l@),
                None => assoc(self.layouts_model(), name@) is None,
            },
    {
        let n = self.layout_cache.len();
        let ghost ls = self.layouts_model();
        let nc = chars_of(name);
        assert(ls.skip(0) =~= ls);
        for i in 0..n
            invariant
                n == self.layout_cache@.len(),
                ls == self.layouts_model(),
                nc@ == name@,
                assoc(ls, name@) == assoc(ls.skip(i as int), name@),
        {
            assert(ls.skip(i as int).drop_first() =~= ls.skip(i + 1));
            let kc = chars_of(self.layout_cache[i].0.as_str());
            if chars_eq(kc.as_slice(), nc.as_slice()) {
                return Some(self.layout_cache[i].1.clone());
            }
        }
        None
    }

    /// The loaded layout that a page's front matter names under `layout`;
    /// `None` when it names none or that layout is not loaded.
    pub fn layout_for(&self, front_matter: &StringMap) -> (res: Option<Rc<TemplateNode>>)
        ensures
            match lookup(front_matter@, layout_key()) {
                Some(name) => match res {
                    Some(l) => assoc(self.layouts_model(), name) == Some(l@),
                    None => assoc(self.layouts_model(), name) is None,
                },
                None => res is None,
            },
    {
        let layout_v: Vec<char> = vec!['l', 'a', 'y', 'o', 'u', 't'];
        assert(layout_v@ =~= layout_key());
        let key = crate::text::string_of(layout_v.as_slice());
        match front_matter.get(&key) {
            Some(name) => self.cached_layout(name.as_str()),
            None => None,
        }
    }

    /// The name of the layout that the layout `name` is placed in (see
    /// [`layout_parent`]).
    pub fn layout_parent_name(name: &str) -> (res: Option<String>)
        ensures
            opt_view(res) == layout_parent(name@),
    {
        let nc = chars_of(name);
        let site_v: Vec<char> = vec!['s', 'i', 't', 'e'];
        let default_v: Vec<char> = vec!['d', 'e', 'f', 'a', 'u', 'l', 't'];
        assert(site_v@ =~= site_name());
        assert(default_v@ =~= default_name());
        let is_site = chars_eq(nc.as_slice(), site_v.as_slice());
        let is_default = chars_eq(nc.as_slice(), default_v.as_slice());
        if !is_site && !is_default {
            Some(crate::text::string_of(default_v.as_slice()))
        } else if is_default {
            Some(crate::text::string_of(site_v.as_slice()))
        } else {
            None
        }
    }

    /// The layout named `name`: the loaded one, or else the one read from
    /// `source` (see [`layout_from_source`]), placed in its parent layout
    /// (see [`layout_parent`]), which must be loaded, and then remembered.
    pub fn get_layout(&mut self, name: &str, source: &str) -> (res: Rc<TemplateNode>)
        requires
            assoc(old(self).layouts_model(), name@) is None ==> (layout_parent(name@) matches Some(
                p,
            ) ==> assoc(old(self).layouts_model(), p) is Some),
        ensures
            final(self).site_model() == old(self).site_model(),
            final(self).output_base_model() == old(self).output_base_model(),
            match assoc(old(self).layouts_model(), name@) {
                Some(l) => res@ == l && final(self).layouts_model() == old(self).layouts_model(),
                None => {
                    &&& res@ == layout_from_source(
                        name@,
                        source@,
                        match layout_parent(name@) {
                            Some(p) => assoc(old(self).layouts_model(), p),
                            None => None,
                        },
                    )
                    &&& final(self).layouts_model() == old(self).layouts_model().push(
                        (name@, res@),
                    )
                },
            },
    {
        if let Some(l) = self.cached_layout(name) {
            return l;
        }
        let (fm_text, html) = parse_front_matter(source);
        let front_matter = match parse_yaml_front_matter(fm_text.as_str()) {
            Some(m) => m,
            None => StringMap::new(),
        };
        let parent = match GlobalContext::layout_parent_name(name) {
            Some(p) => self.cached_layout(p.as_str()),
            None => None,
        };
        let layout = TemplateNode::new_layout(name.to_owned(), front_matter, html, parent);
        let ghost before = self.layouts_model();
        self.layout_cache.push((name.to_owned(), layout.clone()));
        assert(self.layouts_model() =~= before.push((name@, layout@)));
        layout
    }

    /// Adds the site data `mapping` to the site strings, booleans as `true`
    /// or `false`.
    pub fn load_site_data_from_yaml_mapping(&mut self, mapping: &Vec<(String, SiteValue)>)
        ensures
            final(self).site_model() == insert_all(old(self).site_model(), site_pairs(mapping@)),
            keys_distinct(site_pairs(mapping@)) ==> forall|k: Seq<char>|
                #![trigger lookup(final(self).site_model(), k)]
                lookup(final(self).site_model(), k) == if lookup(site_pairs(mapping@), k) is Some {
                    lookup(site_pairs(mapping@), k)
                } else {
                    lookup(old(self).site_model(), k)
                },
            final(self).layouts_model() == old(self).layouts_model(),
            final(self).output_base_model() == old(self).output_base_model(),
    {
        let n = mapping.len();
        let ghost ps = site_pairs(mapping@);
        let ghost start = self.site_model();
        assert(ps.take(0) =~= Seq::<(Seq<char>, Seq<char>)>::empty());
        for i in 0..n
            invariant
                n == mapping@.len(),
                ps == site_pairs(mapping@),
                self.site_model() == insert_all(start, ps.take(i as int)),
                self.layouts_model() == old(self).layouts_model(),
                self.output_base_model() == old(self).output_base_model(),
        {
            let v = match &mapping[i].1 {
                SiteValue::Bool(b) => {
                    let t: Vec<char> = if *b {
                        vec!['t', 'r', 'u', 'e']
                    } else {
                        vec!['f', 'a', 'l', 's', 'e']
                    };
                    let s = crate::text::string_of(t.as_slice());
                    assert(s@ =~= mapping@[i as int].1@);
                    s
                },
                SiteValue::Text(s) => s.clone(),
            };
            self.site_strings.insert(mapping[i].0.clone(), v);
            assert(ps.take(i + 1).drop_last() =~= ps.take(i as int));
        }
        assert(ps.take(n as int) =~= ps);
        proof {
            if keys_distinct(ps) {
                assert forall|k: Seq<char>| #[trigger]
                    lookup(insert_all(start, ps), k) == if lookup(ps, k) is Some {
                        lookup(ps, k)
                    } else {
                        lookup(start, k)
                    } by {
                    crate::string_map::lemma_insert_all_lookup(start, ps, k);
                }
            }
        }
    }
}

/// The front matter of the page at `path` whose document is `content`, with
/// its defaults (see [`page_front_matter_spec`]); `None` when it has no
/// title and its path no file stem.
pub fn page_front_matter(path: &str, content: &str) -> (res: Option<StringMap>)
    ensures
        match res {
            Some(m) => page_front_matter_spec(path@, content@) == Some(m@),
            None => page_front_matter_spec(path@, content@) is None,
        },
{
    let (fm_text, _body) = parse_front_matter(content);
    let mut fm = match parse_yaml_front_matter(fm_text.as_str()) {
        Some(m) => m,
        None => StringMap::new(),
    };
    with_page_defaults(fm, file_stem(path))
}

/// `front_matter` with the defaults of a page whose file stem is `stem`
/// (see [`page_defaults`]): layout `default` unless it names one, the stem
/// as title unless it has one; `None` when it has no title and there is no
/// stem.
pub fn with_page_defaults(front_matter: StringMap, stem: Option<String>) -> (res: Option<StringMap>)
    ensures
        match res {
            Some(m) => page_defaults(front_matter@, opt_view(stem)) == Some(m@),
            None => page_defaults(front_matter@, opt_view(stem)) is None,
        },
{
    let mut fm = front_matter;
    let layout_v: Vec<char> = vec!['l', 'a', 'y', 'o', 'u', 't'];
    let default_v: Vec<char> = vec!['d', 'e', 'f', 'a', 'u', 'l', 't'];
    let title_v: Vec<char> = vec!['t', 'i', 't', 'l', 'e'];
    assert(layout_v@ =~= layout_key());
    assert(default_v@ =~= default_name());
    assert(title_v@ =~= title_key());
    let layout_k = crate::text::string_of(layout_v.as_slice());
    let title_k = crate::text::string_of(title_v.as_slice());
    if !fm.contains_key(&layout_k) {
        fm.insert(layout_k, crate::text::string_of(default_v.as_slice()));
    }
    if !fm.contains_key(&title_k) {
        match stem {
            Some(t) => {
                fm.insert(title_k, t);
            },
            None => {
                return None;
            },
        }
    }
    Some(fm)
}

/// The loaded layout that the front matter of the page at `path` whose
/// document is `content` names (see [`page_front_matter_spec`]); `None` when
/// the page has no front matter or that layout is not loaded.
pub open spec fn page_layout_spec(layouts: Seq<(Seq<char>, Template)>, path: Seq<char>, content: Seq<char>) -> Option<Template> {
    match page_front_matter_spec(path, content) {
        Some(fm) => match lookup(fm, layout_key()) {
            Some(name) => assoc(layouts, name),
            None => None,
        },
        None => None,
    }
}

/// The page at `path` whose document is `content`, placed in the loaded
/// layout that its front matter names (see [`page_layout_spec`]) and
/// written under the site's output directory (see [`page_spec`]). `None`
/// when that layout is not loaded, and where [`page_spec`] has none. When
/// the layout is found, appends to `log` the warnings of parsing the page's
/// HTML (see [`parse_log`]).
pub fn build_page(
    path: &str,
    content: &str,
    global_context: &GlobalContext,
    log: &mut Vec<String>,
) -> (res: Option<Rc<TemplateNode>>)
    ensures
        log_view(final(log)@) == log_view(old(log)@) + match page_layout_spec(
            global_context.layouts_model(),
            path@,
            content@,
        ) {
            Some(_) => parse_log(markdown_html(split_front_matter(content@).1)),
            None => Seq::empty(),
        },
        match page_layout_spec(global_context.layouts_model(), path@, content@) {
            None => res is None,
            Some(l) => match res {
                Some(p) => page_spec(global_context.output_base_model(), path@, content@, l)
                    == Some(p@),
                None => page_spec(global_context.output_base_model(), path@, content@, l) is None,
            },
        },
{
    let ghost l0 = log_view(log@);
    let front_matter = match page_front_matter(path, content) {
        Some(m) => m,
        None => {
            assert(l0 + Seq::<Seq<char>>::empty() =~= l0);
            return None;
        },
    };
    let layout = match global_context.layout_for(&front_matter) {
        Some(l) => l,
        None => {
            assert(l0 + Seq::<Seq<char>>::empty() =~= l0);
            return None;
        },
    };
    let (_fm_text, markdown) = parse_front_matter(content);
    let html = markdown_to_html(markdown.as_str());
    let content_node = match try_parse_control_blocks(html.as_str(), log) {
        Some(n) => n,
        None => {
            return None;
        },
    };
    let dot: Vec<char> = vec!['.'];
    let html_v: Vec<char> = vec!['h', 't', 'm', 'l'];
    assert(dot@ =~= seq!['.']);
    assert(html_v@ =~= seq!['h', 't', 'm', 'l']);
    let dot_s = crate::text::string_of(dot.as_slice());
    let html_s = crate::text::string_of(html_v.as_slice());
    let rel = file_path_stem(dot_s.as_str(), path);
    let joined = join_path(global_context.output_base().as_str(), rel.as_str());
    let output_path = with_extension(joined.as_str(), html_s.as_str());
    Some(TemplateNode::new_page(path.to_owned(), front_matter, content_node, output_path, Some(layout)))
}

} // verus!
