//! Rendering contexts, substitutions and the rendering of template nodes.
use std::rc::Rc;
use vstd::prelude::*;

use crate::node::{is_fragment, lemma_fragments_all, nodes_model, Template, TemplateNode};
use crate::parse::{log_view, parse_log, parse_template, try_parse_control_blocks};
use crate::site::GlobalContext;
use crate::string_map::{insert_all, lookup, map_insert, Pairs, StringMap};
use crate::text::{chars_of, extend_range, replace_all, replace_chars, string_of};

verus! {

/// The model of an item of a data list: the string pairs of a mapping, or
/// `None` for an item that is not a mapping.
pub type ItemModel = Option<Pairs>;

/// The model of one level of a rendering context.
#[verifier::ext_equal]
pub struct Frame {
    pub strings: Pairs,
    pub nodes: Seq<(Seq<char>, Template)>,
    pub json: Seq<(Seq<char>, Seq<ItemModel>)>,
}

/// The value of the first entry whose key is `k`.
pub open spec fn assoc<V>(m: Seq<(Seq<char>, V)>, k: Seq<char>) -> Option<V>
    decreases m.len(),
{
    if m.len() == 0 {
        None
    } else if m[0].0 == k {
        Some(m[0].1)
    } else {
        assoc(m.drop_first(), k)
    }
}

/// A frame that holds only strings.
pub open spec fn strings_frame(strings: Pairs) -> Frame {
    Frame { strings, nodes: Seq::empty(), json: Seq::empty() }
}

/// The frame in which the body of a data loop renders one item.
pub open spec fn item_frame(item: ItemModel) -> Frame {
    strings_frame(
        match item {
            Some(p) => insert_all(Seq::empty(), p),
            None => Seq::empty(),
        },
    )
}

/// The value of `k` in the innermost frame that defines it.
pub open spec fn chain_lookup(frames: Seq<Frame>, k: Seq<char>) -> Option<Seq<char>>
    decreases frames.len(),
{
    if frames.len() == 0 {
        None
    } else {
        match lookup(frames[0].strings, k) {
            Some(v) => Some(v),
            None => chain_lookup(frames.drop_first(), k),
        }
    }
}

/// The data list stored under `k` in the innermost frame.
pub open spec fn frame_items(frames: Seq<Frame>, k: Seq<char>) -> Option<Seq<ItemModel>> {
    if frames.len() == 0 {
        None
    } else {
        assoc(frames[0].json, k)
    }
}

/// Every node stored in a frame is a fragment.
pub open spec fn nodes_are_fragments(frames: Seq<Frame>) -> bool {
    forall|i: int, j: int|
        0 <= i < frames.len() && 0 <= j < frames[i].nodes.len() ==> is_fragment(
            #[trigger] frames[i].nodes[j].1,
        )
}

/// `{{x}}`.
pub open spec fn double_braced(x: Seq<char>) -> Seq<char> {
    seq!['{', '{'] + x + seq!['}', '}']
}

/// `{x}`.
pub open spec fn single_braced(x: Seq<char>) -> Seq<char> {
    seq!['{'] + x + seq!['}']
}

/// `s` with the placeholders of `k` replaced by `v`: `{{ k }}`, `{ k }`,
/// `{{k}}` and `{k}`, in that order.
pub open spec fn subst_key(s: Seq<char>, k: Seq<char>, v: Seq<char>) -> Seq<char> {
    let spaced = seq![' '] + k + seq![' '];
    let a = replace_all(s, double_braced(spaced), v);
    let b = replace_all(a, single_braced(spaced), v);
    let c = replace_all(b, double_braced(k), v);
    replace_all(c, single_braced(k), v)
}

/// `s` with the placeholders of every pair substituted, pair by pair.
pub open spec fn subst_all(s: Seq<char>, m: Pairs) -> Seq<char>
    decreases m.len(),
{
    if m.len() == 0 {
        s
    } else {
        subst_key(subst_all(s, m.drop_last()), m.last().0, m.last().1)
    }
}

/// The key under which a layout receives the content it wraps.
pub open spec fn content_key() -> Seq<char> {
    seq!['c', 'o', 'n', 't', 'e', 'n', 't']
}

/// `{{ content }}`, where a parent layout places its child's output.
pub open spec fn content_tag() -> Seq<char> {
    seq!['{', '{', ' ', 'c', 'o', 'n', 't', 'e', 'n', 't', ' ', '}', '}']
}

/// The output of a fragment: text stays text; an `if` block renders its
/// first branch when its condition names a defined string, else its second
/// branch (or nothing); a data loop renders its body once per item of the
/// list under its key in the innermost frame, each time in a new frame that
/// holds the item's strings; a function call renders its name; a composite
/// renders its parts one after another. Pages and layouts render nothing here.
pub open spec fn render_frag(t: Template, frames: Seq<Frame>) -> Seq<char>
    decreases t, 0nat,
{
    match t {
        Template::StringContent(s) => s,
        Template::IfBlock { condition, true_branch, false_branch } => {
            if chain_lookup(frames, condition) is Some {
                render_frag(*true_branch, frames)
            } else {
                match false_branch {
                    Some(f) => render_frag(*f, frames),
                    None => Seq::empty(),
                }
            }
        },
        Template::ForEachBlock { key, body, .. } => match frame_items(frames, key) {
            Some(items) => render_frag_items(items, *body, frames),
            None => Seq::empty(),
        },
        Template::Func { name, .. } => name,
        Template::Composite(ns) => render_frag_seq(ns, frames),
        _ => Seq::empty(),
    }
}

/// The outputs of `ns`, one after another.
pub open spec fn render_frag_seq(ns: Seq<Template>, frames: Seq<Frame>) -> Seq<char>
    decreases ns, 0nat,
{
    if ns.len() == 0 {
        Seq::empty()
    } else {
        render_frag_seq(ns.subrange(0, ns.len() - 1), frames) + render_frag(ns.last(), frames)
    }
}

/// The outputs of `body` for each item, one after another.
pub open spec fn render_frag_items(items: Seq<ItemModel>, body: Template, frames: Seq<Frame>) -> Seq<
    char,
>
    decreases body, items.len(),
{
    if items.len() == 0 {
        Seq::empty()
    } else {
        render_frag_items(items.drop_last(), body, frames) + render_frag(
            body,
            seq![item_frame(items.last())] + frames,
        )
    }
}

/// The nodes of a frame paired with their outputs in the context `frames`.
pub open spec fn rendered_nodes(nodes: Seq<(Seq<char>, Template)>, frames: Seq<Frame>) -> Pairs
    decreases nodes.len(),
{
    if nodes.len() == 0 {
        Seq::empty()
    } else {
        rendered_nodes(nodes.drop_last(), frames).push(
            (nodes.last().0, render_frag(nodes.last().1, frames)),
        )
    }
}

/// The substitutions of one level of the context: its strings, then the
/// outputs of its nodes.
pub open spec fn level_subs(s: Seq<char>, frames: Seq<Frame>) -> Seq<char> {
    let o1 = subst_all(s, frames[0].strings);
    subst_all(o1, insert_all(Seq::empty(), rendered_nodes(frames[0].nodes, frames)))
}

/// The substitutions of every level of the context, innermost first, and
/// then those of the site strings `g`.
pub open spec fn apply_subs(s: Seq<char>, frames: Seq<Frame>, g: Pairs) -> Seq<char>
    decreases frames.len(),
{
    if frames.len() == 0 {
        subst_all(s, g)
    } else {
        apply_subs(level_subs(s, frames), frames.drop_first(), g)
    }
}

/// The output of a node in the context `frames` with the site strings `g`;
/// `None` where the text that a layout produces holds a `{{` without a `}}`
/// after it.
///
/// A page renders its content in a new frame that holds its front matter;
/// with a parent layout, that layout renders in a further frame whose
/// `content` is the page's output. A layout takes its parent's output with
/// `{{ content }}` replaced by its own content (or its own content when it
/// has no parent), substitutes its front matter, then the context's
/// substitutions, parses the control blocks of the result and renders them.
pub open spec fn render_spec(t: Template, frames: Seq<Frame>, g: Pairs) -> Option<Seq<char>>
    decreases t, 0nat,
{
    match t {
        Template::Page { front_matter, content_node, parent, .. } => {
            let page_frames = seq![strings_frame(insert_all(Seq::empty(), front_matter))] + frames;
            match render_spec(*content_node, page_frames, g) {
                None => None,
                Some(co) => match parent {
                    None => Some(co),
                    Some(p) => render_spec(
                        *p,
                        seq![strings_frame(map_insert(Seq::empty(), content_key(), co))]
                            + page_frames,
                        g,
                    ),
                },
            }
        },
        Template::Layout { front_matter, content, parent, .. } => {
            let base = match parent {
                None => Some(content),
                Some(p) => match render_spec(*p, frames, g) {
                    Some(po) => Some(replace_all(po, content_tag(), content)),
                    None => None,
                },
            };
            match base {
                None => None,
                Some(o) => match parse_template(apply_subs(subst_all(o, front_matter), frames, g)) {
                    Some(n) => Some(render_frag(n, frames)),
                    None => None,
                },
            }
        },
        Template::IfBlock { condition, true_branch, false_branch } => {
            if chain_lookup(frames, condition) is Some {
                render_spec(*true_branch, frames, g)
            } else {
                match false_branch {
                    Some(f) => render_spec(*f, frames, g),
                    None => Some(Seq::empty()),
                }
            }
        },
        Template::ForEachBlock { key, body, .. } => match frame_items(frames, key) {
            Some(items) => render_spec_items(items, *body, frames, g),
            None => Some(Seq::empty()),
        },
        Template::Func { name, .. } => Some(name),
        Template::StringContent(s) => Some(s),
        Template::Composite(ns) => render_spec_seq(ns, frames, g),
    }
}

/// The outputs of `ns`, one after another, if each has one.
pub open spec fn render_spec_seq(ns: Seq<Template>, frames: Seq<Frame>, g: Pairs) -> Option<
    Seq<char>,
>
    decreases ns, 0nat,
{
    if ns.len() == 0 {
        Some(Seq::empty())
    } else {
        match (
            render_spec_seq(ns.subrange(0, ns.len() - 1), frames, g),
            render_spec(ns.last(), frames, g),
        ) {
            (Some(a), Some(b)) => Some(a + b),
            _ => None,
        }
    }
}

/// The outputs of `body` for each item, one after another, if each has one.
pub open spec fn render_spec_items(
    items: Seq<ItemModel>,
    body: Template,
    frames: Seq<Frame>,
    g: Pairs,
) -> Option<Seq<char>>
    decreases body, items.len(),
{
    if items.len() == 0 {
        Some(Seq::empty())
    } else {
        match (
            render_spec_items(items.drop_last(), body, frames, g),
            render_spec(body, seq![item_frame(items.last())] + frames, g),
        ) {
            (Some(a), Some(b)) => Some(a + b),
            _ => None,
        }
    }
}

/// The warnings that rendering a node gives, in order: those of every
/// parse of the text that a layout produces (see [`parse_log`]), as far as
/// rendering goes before it stops (see [`render_spec`]).
pub open spec fn render_log(t: Template, frames: Seq<Frame>, g: Pairs) -> Seq<Seq<char>>
    decreases t, 0nat,
{
    match t {
        Template::Page { front_matter, content_node, parent, .. } => {
            let page_frames = seq![strings_frame(insert_all(Seq::empty(), front_matter))] + frames;
            render_log(*content_node, page_frames, g) + match (
                render_spec(*content_node, page_frames, g),
                parent,
            ) {
                (Some(co), Some(p)) => render_log(
                    *p,
                    seq![strings_frame(map_insert(Seq::empty(), content_key(), co))]
                        + page_frames,
                    g,
                ),
                _ => Seq::empty(),
            }
        },
        Template::Layout { front_matter, content, parent, .. } => {
            let (plog, base) = match parent {
                None => (Seq::empty(), Some(content)),
                Some(p) => (
                    render_log(*p, frames, g),
                    match render_spec(*p, frames, g) {
                        Some(po) => Some(replace_all(po, content_tag(), content)),
                        None => None,
                    },
                ),
            };
            plog + match base {
                None => Seq::empty(),
                Some(o) => parse_log(apply_subs(subst_all(o, front_matter), frames, g)),
            }
        },
        Template::IfBlock { condition, true_branch, false_branch } => {
            if chain_lookup(frames, condition) is Some {
                render_log(*true_branch, frames, g)
            } else {
                match false_branch {
                    Some(f) => render_log(*f, frames, g),
                    None => Seq::empty(),
                }
            }
        },
        Template::ForEachBlock { key, body, .. } => match frame_items(frames, key) {
            Some(items) => render_log_items(items, *body, frames, g),
            None => Seq::empty(),
        },
        Template::Composite(ns) => render_log_seq(ns, frames, g),
        _ => Seq::empty(),
    }
}

/// The warnings of rendering `ns` one after another, up to the first that
/// has no output.
pub open spec fn render_log_seq(ns: Seq<Template>, frames: Seq<Frame>, g: Pairs) -> Seq<Seq<char>>
    decreases ns, 0nat,
{
    if ns.len() == 0 {
        Seq::empty()
    } else {
        let init = ns.subrange(0, ns.len() - 1);
        render_log_seq(init, frames, g) + if render_spec_seq(init, frames, g) is Some {
            render_log(ns.last(), frames, g)
        } else {
            Seq::empty()
        }
    }
}

/// The warnings of rendering `body` for each item, up to the first item
/// that has no output.
pub open spec fn render_log_items(
    items: Seq<ItemModel>,
    body: Template,
    frames: Seq<Frame>,
    g: Pairs,
) -> Seq<Seq<char>>
    decreases body, items.len(),
{
    if items.len() == 0 {
        Seq::empty()
    } else {
        render_log_items(items.drop_last(), body, frames, g) + if render_spec_items(
            items.drop_last(),
            body,
            frames,
            g,
        ) is Some {
            render_log(body, seq![item_frame(items.last())] + frames, g)
        } else {
            Seq::empty()
        }
    }
}

/// The HTML of one item of a data list: a list entry with the item's title
/// as a heading and its description as a paragraph, each when present;
/// nothing for an item that is not a mapping.
pub open spec fn item_html(item: ItemModel) -> Seq<char> {
    match item {
        Some(p) => "<li>"@ + match lookup(p, "title"@) {
            Some(t) => "<h3>"@ + t + "</h3>"@,
            None => Seq::empty(),
        } + match lookup(p, "description"@) {
            Some(d) => "<p>"@ + d + "</p>"@,
            None => Seq::empty(),
        } + "</li>\n"@,
        None => Seq::empty(),
    }
}

/// The HTML of the items, one after another.
pub open spec fn items_html(items: Seq<ItemModel>) -> Seq<char>
    decreases items.len(),
{
    if items.len() == 0 {
        Seq::empty()
    } else {
        items_html(items.drop_last()) + item_html(items.last())
    }
}

/// The HTML list of the data list under `key` in the innermost level, or
/// nothing when there is none.
pub open spec fn json_list_html(frames: Seq<Frame>, key: Seq<char>) -> Seq<char> {
    match frame_items(frames, key) {
        Some(items) => "<ul>\n"@ + items_html(items) + "</ul>"@,
        None => Seq::empty(),
    }
}

/// The view of an optional string.
pub open spec fn opt_view(o: Option<String>) -> Option<Seq<char>> {
    match o {
        Some(s) => Some(s@),
        None => None,
    }
}

/// An item of a data list: the string pairs of a mapping, or an item of
/// another kind.
pub enum JsonItem {
    Mapping(StringMap),
    Other,
}

impl View for JsonItem {
    type V = ItemModel;

    open spec fn view(&self) -> ItemModel {
        match self {
            JsonItem::Mapping(m) => Some(m@),
            JsonItem::Other => None,
        }
    }
}

/// The models of the items of a list.
pub open spec fn items_model(v: Seq<JsonItem>) -> Seq<ItemModel> {
    v.map_values(|it: JsonItem| it@)
}

/// One level of the context in which nodes render, with the levels around it.
pub struct TemplateContext {
    strings: StringMap,
    nodes: Vec<(String, Rc<TemplateNode>)>,
    json_data: Vec<(String, Vec<JsonItem>)>,
    parent: Option<Rc<TemplateContext>>,
}

/// The model of one level.
pub closed spec fn frame_of(c: &TemplateContext) -> Frame {
    Frame {
        strings: c.strings@,
        nodes: c.nodes@.map_values(|e: (String, Rc<TemplateNode>)| (e.0@, (*e.1)@)),
        json: c.json_data@.map_values(|e: (String, Vec<JsonItem>)| (e.0@, items_model(e.1@))),
    }
}

/// The levels of a context, innermost first.
pub closed spec fn frames_of(c: &TemplateContext) -> Seq<Frame>
    decreases c,
{
    seq![frame_of(c)] + match &c.parent {
        Some(p) => frames_of(&**p),
        None => Seq::empty(),
    }
}

impl View for TemplateContext {
    type V = Seq<Frame>;

    closed spec fn view(&self) -> Seq<Frame> {
        frames_of(self)
    }
}

/// The view of an optional shared context.
pub open spec fn parent_frames(p: Option<Rc<TemplateContext>>) -> Seq<Frame> {
    match p {
        Some(c) => c@,
        None => Seq::empty(),
    }
}

/// An empty level.
pub open spec fn empty_frame() -> Frame {
    Frame { strings: Seq::empty(), nodes: Seq::empty(), json: Seq::empty() }
}

impl TemplateContext {
    /// The nodes of this level are fragments.
    #[verifier::type_invariant]
    closed spec fn wf(self) -> bool {
        forall|j: int| 0 <= j < self.nodes@.len() ==> is_fragment((*#[trigger] self.nodes@[j].1)@)
    }

    /// The levels of a context: this one, then those of its parent.
    proof fn lemma_levels(&self)
        ensures
            self@.len() >= 1,
            self@[0] == frame_of(self),
            self@.drop_first() == parent_frames(self.parent),
    {
        assert(self@.drop_first() =~= parent_frames(self.parent));
    }

    /// A context has at least one level: its own.
    pub proof fn lemma_has_levels(&self)
        ensures
            self@.len() >= 1,
    {
        self.lemma_levels();
    }

    /// A new, empty level on top of `parent`.
    pub fn new(parent: Option<Rc<TemplateContext>>) -> (res: TemplateContext)
        ensures
            res@ == seq![empty_frame()] + parent_frames(parent),
    {
        let res = TemplateContext {
            strings: StringMap::new(),
            nodes: Vec::new(),
            json_data: Vec::new(),
            parent,
        };
        proof {
            assert(frame_of(&res) =~= empty_frame());
            res.lemma_levels();
            assert(res@ =~= seq![empty_frame()] + parent_frames(res.parent));
        }
        res
    }

    /// Adds the pairs of `front_matter` to the strings of this level.
    pub fn add_front_matter(&mut self, front_matter: &StringMap)
        ensures
            old(self)@.len() >= 1,
            final(self)@ == old(self)@.update(
                0,
                Frame { strings: insert_all(old(self)@[0].strings, front_matter@), ..old(self)@[0] },
            ),
            forall|k: Seq<char>|
                #![trigger chain_lookup(final(self)@, k)]
                chain_lookup(final(self)@, k) == if lookup(front_matter@, k) is Some {
                    lookup(front_matter@, k)
                } else {
                    chain_lookup(old(self)@, k)
                },
    {
        proof {
            use_type_invariant(&*self);
            use_type_invariant(front_matter);
            self.lemma_levels();
            let upd = old(self)@.update(
                0,
                Frame { strings: insert_all(old(self)@[0].strings, front_matter@), ..old(self)@[0] },
            );
            assert forall|k: Seq<char>| #[trigger]
                chain_lookup(upd, k) == if lookup(front_matter@, k) is Some {
                    lookup(front_matter@, k)
                } else {
                    chain_lookup(old(self)@, k)
                } by {
                crate::laws::lemma_front_matter_read_back(old(self)@, front_matter@, k);
            }
        }
        let mut m = StringMap::new();
        std::mem::swap(&mut m, &mut self.strings);
        m.insert_all_from(front_matter);
        self.strings = m;
        proof {
            assert(frame_of(self) =~= Frame {
                strings: insert_all(old(self)@[0].strings, front_matter@),
                ..old(self)@[0]
            });
            assert(self@ =~= old(self)@.update(0, frame_of(self)));
        }
    }

    /// Sets the string `key` of this level to `value`.
    pub fn insert_string(&mut self, key: String, value: String)
        ensures
            old(self)@.len() >= 1,
            final(self)@ == old(self)@.update(
                0,
                Frame { strings: map_insert(old(self)@[0].strings, key@, value@), ..old(self)@[0] },
            ),
    {
        proof {
            use_type_invariant(&*self);
            self.lemma_levels();
        }
        let mut m = StringMap::new();
        std::mem::swap(&mut m, &mut self.strings);
        m.insert(key, value);
        self.strings = m;
        proof {
            assert(frame_of(self) =~= Frame {
                strings: map_insert(old(self)@[0].strings, key@, value@),
                ..old(self)@[0]
            });
            assert(self@ =~= old(self)@.update(0, frame_of(self)));
        }
    }

    /// Stores `node` under `key` in this level; its output replaces the
    /// placeholders of `key` when a layout renders in this context. Only
    /// fragments are stored: a layout stored here would render itself again
    /// without end.
    pub fn insert_node(&mut self, key: String, node: Rc<TemplateNode>)
        requires
            is_fragment(node@),
        ensures
            old(self)@.len() >= 1,
            final(self)@ == old(self)@.update(
                0,
                Frame { nodes: old(self)@[0].nodes.push((key@, node@)), ..old(self)@[0] },
            ),
    {
        proof {
            use_type_invariant(&*self);
            self.lemma_levels();
        }
        let ghost kv = key@;
        let ghost nv = node@;
        let mut v: Vec<(String, Rc<TemplateNode>)> = Vec::new();
        std::mem::swap(&mut v, &mut self.nodes);
        v.push((key, node));
        self.nodes = v;
        proof {
            assert(frame_of(self) =~= Frame {
                nodes: old(self)@[0].nodes.push((kv, nv)),
                ..old(self)@[0]
            });
            assert(self@ =~= old(self)@.update(0, frame_of(self)));
        }
    }

    /// Stores the data list `items` under `key` in this level.
    pub fn insert_json(&mut self, key: String, items: Vec<JsonItem>)
        ensures
            old(self)@.len() >= 1,
            final(self)@ == old(self)@.update(
                0,
                Frame {
                    json: old(self)@[0].json.push((key@, items_model(items@))),
                    ..old(self)@[0]
                },
            ),
    {
        proof {
            use_type_invariant(&*self);
            self.lemma_levels();
        }
        let ghost kv = key@;
        let ghost iv = items_model(items@);
        let mut v: Vec<(String, Vec<JsonItem>)> = Vec::new();
        std::mem::swap(&mut v, &mut self.json_data);
        v.push((key, items));
        self.json_data = v;
        proof {
            assert(frame_of(self) =~= Frame {
                json: old(self)@[0].json.push((kv, iv)),
                ..old(self)@[0]
            });
            assert(self@ =~= old(self)@.update(0, frame_of(self)));
        }
    }

    /// The value of `key` in the innermost level that defines it.
    pub fn get_string(&self, key: &String) -> (res: Option<String>)
        ensures
            opt_view(res) == chain_lookup(self@, key@),
        decreases self,
    {
        proof {
            self.lemma_levels();
        }
        assert(self@[0].strings == self.strings@);
        match self.strings.get(key) {
            Some(s) => {
                assert(lookup(self@[0].strings, key@) == Some(s@));
                assert(self@.len() > 0);
                assert(chain_lookup(self@, key@) == Some(s@));
                Some(s.clone())
            },
            None => match &self.parent {
                Some(p) => {
                    let r = (&**p).get_string(key);
                    assert(self@.drop_first() == p@);
                    assert(lookup(self@[0].strings, key@) is None);
                    assert(chain_lookup(self@, key@) == chain_lookup(self@.drop_first(), key@));
                    assert(opt_view(r) == chain_lookup(self@, key@));
                    r
                },
                None => {
                    assert(self@.drop_first().len() == 0);
                    assert(chain_lookup(self@, key@) == chain_lookup(self@.drop_first(), key@));
                    assert(chain_lookup(self@, key@) is None);
                    None
                },
            },
        }
    }

    /// The data list under `key` in this level.
    fn items(&self, key: &String) -> (res: Option<&Vec<JsonItem>>)
        ensures
            match res {
                Some(v) => frame_items(self@, key@) == Some(items_model(v@)),
                None => frame_items(self@, key@) is None,
            },
    {
        proof {
            self.lemma_levels();
        }
        let n = self.json_data.len();
        let ghost js = frame_of(self).json;
        assert(js.skip(0) =~= js);
        for i in 0..n
            invariant
                n == self.json_data@.len(),
                js == frame_of(self).json,
                assoc(js, key@) == assoc(js.skip(i as int), key@),
        {
            assert(js.skip(i as int).drop_first() =~= js.skip(i + 1));
            if self.json_data[i].0 == *key {
                return Some(&self.json_data[i].1);
            }
        }
        None
    }
}

impl TemplateNode {
    /// `s` with the placeholders of `k` (`{{ k }}`, `{ k }`, `{{k}}`, `{k}`)
    /// replaced by `v`.
    pub fn perform_substitutions_str(s: String, k: &str, v: &str) -> (res: String)
        ensures
            res@ == subst_key(s@, k@, v@),
    {
        let sc = chars_of(s.as_str());
        let kc = chars_of(k);
        let vc = chars_of(v);
        let n = kc.len();
        let mut spaced: Vec<char> = vec![' '];
        extend_range(&mut spaced, kc.as_slice(), 0, n);
        spaced.push(' ');
        assert(kc@.subrange(0, n as int) =~= kc@);
        assert(spaced@ =~= seq![' '] + k@ + seq![' ']);
        let p1 = double_braced_chars(spaced.as_slice());
        let p2 = single_braced_chars(spaced.as_slice());
        let p3 = double_braced_chars(kc.as_slice());
        let p4 = single_braced_chars(kc.as_slice());
        let a = replace_chars(sc.as_slice(), p1.as_slice(), vc.as_slice());
        let b = replace_chars(a.as_slice(), p2.as_slice(), vc.as_slice());
        let c = replace_chars(b.as_slice(), p3.as_slice(), vc.as_slice());
        let d = replace_chars(c.as_slice(), p4.as_slice(), vc.as_slice());
        string_of(d.as_slice())
    }

    /// `s` with the placeholders of every key of `strings` replaced by its
    /// value, key by key in the order of the map.
    pub fn perform_substitutions_strings(s: String, strings: &StringMap) -> (res: String)
        ensures
            res@ == subst_all(s@, strings@),
    {
        let mut output = s;
        let ghost s0 = output@;
        let n = strings.len();
        assert(strings@.take(0) =~= Seq::<(Seq<char>, Seq<char>)>::empty());
        for i in 0..n
            invariant
                n == strings@.len(),
                output@ == subst_all(s0, strings@.take(i as int)),
        {
            output =
            TemplateNode::perform_substitutions_str(
                output,
                strings.key_at(i).as_str(),
                strings.value_at(i).as_str(),
            );
            assert(strings@.take(i + 1).drop_last() =~= strings@.take(i as int));
        }
        assert(strings@.take(n as int) =~= strings@);
        output
    }

    /// The output of a fragment (see [`render_frag`]).
    #[verifier::loop_isolation(false)]
    pub fn render_fragment(&self, context: &Rc<TemplateContext>) -> (res: String)
        requires
            is_fragment(self@),
        ensures
            res@ == render_frag(self@, context@),
        decreases self,
    {
        match self {
            TemplateNode::StringContent(s) => s.clone(),
            TemplateNode::Func { name, .. } => name.clone(),
            TemplateNode::IfBlock { condition, true_branch, false_branch } => {
                if context.get_string(condition).is_some() {
                    (&**true_branch).render_fragment(context)
                } else {
                    match false_branch {
                        Some(f) => (&**f).render_fragment(context),
                        None => String::new(),
                    }
                }
            },
            TemplateNode::ForEachBlock { key, body, .. } => {
                match context.items(key) {
                    Some(items) => {
                        let mut out = String::new();
                        let n = items.len();
                        let ghost im = items_model(items@);
                        let ghost b = (**body)@;
                        assert(im.take(0) =~= Seq::<ItemModel>::empty());
                        for i in 0..n
                            invariant
                                n == items@.len(),
                                im == items_model(items@),
                                b == (**body)@,
                                is_fragment(b),
                                out@ == render_frag_items(im.take(i as int), b, context@),
                        {
                            let item_ctx = Rc::new(item_context(&items[i], context));
                            let part = (&**body).render_fragment(&item_ctx);
                            out.append(part.as_str());
                            assert(im.take(i + 1).drop_last() =~= im.take(i as int));
                        }
                        assert(im.take(n as int) =~= im);
                        out
                    },
                    None => String::new(),
                }
            },
            TemplateNode::Composite(nodes) => {
                let mut out = String::new();
                let n = nodes.len();
                let ghost ns = nodes_model(nodes@);
                assert(self@ == Template::Composite(ns)) by {
                    if let Template::Composite(ms) = self@ {
                        assert(ms =~= ns);
                    }
                }
                assert(ns.take(0) =~= Seq::<Template>::empty());
                assert(ns.len() == n);
                assert(is_fragment(Template::Composite(ns)));
                proof {
                    lemma_fragments_all(ns);
                }
                for i in 0..n
                    invariant
                        n == nodes@.len(),
                        ns == nodes_model(nodes@),
                        self@ == Template::Composite(ns),
                        is_fragment(self@),
                        forall|j: int| 0 <= j < ns.len() ==> is_fragment(#[trigger] ns[j]),
                        out@ == render_frag_seq(ns.take(i as int), context@),
                {
                    assert(is_fragment(ns[i as int]));
                    let part = nodes[i].render_fragment(context);
                    out.append(part.as_str());
                    assert(ns.take(i + 1).subrange(0, i as int) =~= ns.take(i as int));
                }
                assert(ns.take(n as int) =~= ns);
                out
            },
            _ => String::new(),
        }
    }
}

/// A composite whose prefix has no output has none.
proof fn lemma_spec_seq_none(ns: Seq<Template>, frames: Seq<Frame>, g: Pairs, i: int)
    requires
        0 <= i <= ns.len(),
        render_spec_seq(ns.take(i), frames, g) is None,
    ensures
        render_spec_seq(ns, frames, g) is None,
    decreases ns.len() - i,
{
    if i == ns.len() {
        assert(ns.take(i) =~= ns);
    } else {
        assert(ns.take(i + 1).subrange(0, i) =~= ns.take(i));
        lemma_spec_seq_none(ns, frames, g, i + 1);
    }
}

/// A data loop whose first items have no output has none.
proof fn lemma_spec_items_none(
    items: Seq<ItemModel>,
    body: Template,
    frames: Seq<Frame>,
    g: Pairs,
    i: int,
)
    requires
        0 <= i <= items.len(),
        render_spec_items(items.take(i), body, frames, g) is None,
    ensures
        render_spec_items(items, body, frames, g) is None,
    decreases items.len() - i,
{
    if i == items.len() {
        assert(items.take(i) =~= items);
    } else {
        assert(items.take(i + 1).drop_last() =~= items.take(i));
        lemma_spec_items_none(items, body, frames, g, i + 1);
    }
}

/// The warnings of one more node of a composite whose prefix has output.
proof fn lemma_log_seq_step(ns: Seq<Template>, frames: Seq<Frame>, g: Pairs, i: int)
    requires
        0 <= i < ns.len(),
        render_spec_seq(ns.take(i), frames, g) is Some,
    ensures
        render_log_seq(ns.take(i + 1), frames, g) == render_log_seq(ns.take(i), frames, g)
            + render_log(ns[i], frames, g),
{
    assert(ns.take(i + 1).subrange(0, i) =~= ns.take(i));
}

/// The warnings of one more item of a data loop whose first items have
/// output.
proof fn lemma_log_items_step(
    items: Seq<ItemModel>,
    body: Template,
    frames: Seq<Frame>,
    g: Pairs,
    i: int,
)
    requires
        0 <= i < items.len(),
        render_spec_items(items.take(i), body, frames, g) is Some,
    ensures
        render_log_items(items.take(i + 1), body, frames, g) == render_log_items(
            items.take(i),
            body,
            frames,
            g,
        ) + render_log(body, seq![item_frame(items[i])] + frames, g),
{
    assert(items.take(i + 1).drop_last() =~= items.take(i));
}

/// Once a prefix of a composite has no output, rendering gives no further
/// warnings.
proof fn lemma_log_seq_stop(ns: Seq<Template>, frames: Seq<Frame>, g: Pairs, i: int)
    requires
        0 <= i <= ns.len(),
        render_spec_seq(ns.take(i), frames, g) is None,
    ensures
        render_log_seq(ns, frames, g) == render_log_seq(ns.take(i), frames, g),
    decreases ns.len() - i,
{
    if i == ns.len() {
        assert(ns.take(i) =~= ns);
    } else {
        assert(ns.take(i + 1).subrange(0, i) =~= ns.take(i));
        assert(render_log_seq(ns.take(i + 1), frames, g) =~= render_log_seq(ns.take(i), frames, g));
        lemma_log_seq_stop(ns, frames, g, i + 1);
    }
}

/// Once the first items of a data loop have no output, rendering gives no
/// further warnings.
proof fn lemma_log_items_stop(
    items: Seq<ItemModel>,
    body: Template,
    frames: Seq<Frame>,
    g: Pairs,
    i: int,
)
    requires
        0 <= i <= items.len(),
        render_spec_items(items.take(i), body, frames, g) is None,
    ensures
        render_log_items(items, body, frames, g) == render_log_items(items.take(i), body, frames, g),
    decreases items.len() - i,
{
    if i == items.len() {
        assert(items.take(i) =~= items);
    } else {
        assert(items.take(i + 1).drop_last() =~= items.take(i));
        assert(render_log_items(items.take(i + 1), body, frames, g) =~= render_log_items(
            items.take(i),
            body,
            frames,
            g,
        ));
        lemma_log_items_stop(items, body, frames, g, i + 1);
    }
}

/// The key `content` as a string.
fn content_key_string() -> (res: String)
    ensures
        res@ == content_key(),
{
    let v: Vec<char> = vec!['c', 'o', 'n', 't', 'e', 'n', 't'];
    assert(v@ =~= content_key());
    string_of(v.as_slice())
}

impl TemplateNode {
    /// `s` with the substitutions of every level of `context` and then of
    /// the site strings (see [`apply_subs`]).
    pub fn apply_substitutions(
        &self,
        s: &str,
        context: &Rc<TemplateContext>,
        global_context: &GlobalContext,
    ) -> (res: String)
        ensures
            res@ == apply_subs(s@, context@, global_context.site_model()),
        decreases context@.len(),
    {
        let c: &TemplateContext = &**context;
        proof {
            c.lemma_levels();
            use_type_invariant(c);
        }
        let ghost frames = context@;
        let out = TemplateNode::perform_substitutions_strings(s.to_owned(), &c.strings);
        let mut rendered = StringMap::new();
        let n = c.nodes.len();
        let ghost ns = frames[0].nodes;
        assert(ns.take(0) =~= Seq::<(Seq<char>, Template)>::empty());
        for i in 0..n
            invariant
                n == c.nodes@.len(),
                frames == context@,
                frames[0] == frame_of(c),
                ns == frames[0].nodes,
                ns.len() == n,
                forall|j: int| 0 <= j < c.nodes@.len() ==> is_fragment((*#[trigger] c.nodes@[j].1)@),
                rendered@ == insert_all(Seq::empty(), rendered_nodes(ns.take(i as int), frames)),
        {
            let node: &TemplateNode = &*c.nodes[i].1;
            assert(ns[i as int] == (c.nodes@[i as int].0@, node@));
            let r = node.render_fragment(context);
            rendered.insert(c.nodes[i].0.clone(), r);
            assert(ns.take(i + 1).drop_last() =~= ns.take(i as int));
            assert(rendered_nodes(ns.take(i + 1), frames).drop_last() =~= rendered_nodes(
                ns.take(i as int),
                frames,
            ));
        }
        assert(ns.take(n as int) =~= ns);
        let out = TemplateNode::perform_substitutions_strings(out, &rendered);
        assert(out@ == level_subs(s@, frames));
        match &c.parent {
            Some(p) => {
                assert(frames.drop_first() == p@);
                self.apply_substitutions(out.as_str(), p, global_context)
            },
            None => {
                assert(frames.drop_first() =~= Seq::<Frame>::empty());
                assert(apply_subs(out@, frames.drop_first(), global_context.site_model()) == subst_all(
                    out@,
                    global_context.site_model(),
                ));
                TemplateNode::perform_substitutions_strings(out, global_context.site_strings())
            },
        }
    }

    /// The output of this node in `context` (see [`render_spec`]); `None`
    /// where the text that a layout produces holds a `{{` without a `}}`
    /// after it. Appends to `log` the warnings of the parses that rendering
    /// makes (see [`render_log`]).
    pub fn render(
        &self,
        context: &Rc<TemplateContext>,
        global_context: &GlobalContext,
        log: &mut Vec<String>,
    ) -> (res:
        Option<String>)
        ensures
            opt_view(res) == render_spec(self@, context@, global_context.site_model()),
            log_view(final(log)@) == log_view(old(log)@) + render_log(
                self@,
                context@,
                global_context.site_model(),
            ),
        decreases self, 1nat,
    {
        match self {
            TemplateNode::Page { .. } => self.render_page(context, global_context, log),
            TemplateNode::Layout { .. } => self.render_layout(context, global_context, log),
            TemplateNode::IfBlock { condition, true_branch, false_branch } => {
                if context.get_string(condition).is_some() {
                    (&**true_branch).render(context, global_context, log)
                } else {
                    match false_branch {
                        Some(f) => (&**f).render(context, global_context, log),
                        None => Some(String::new()),
                    }
                }
            },
            TemplateNode::ForEachBlock { .. } => self.render_foreach(context, global_context, log),
            TemplateNode::Func { name, .. } => Some(name.clone()),
            TemplateNode::StringContent(s) => Some(s.clone()),
            TemplateNode::Composite(..) => self.render_composite(context, global_context, log),
        }
    }

    /// The output of a page.
    #[verifier::rlimit(40)]
    #[verifier::spinoff_prover]
    fn render_page(
        &self,
        context: &Rc<TemplateContext>,
        global_context: &GlobalContext,
        log: &mut Vec<String>,
    ) -> (res:
        Option<String>)
        requires
            self is Page,
        ensures
            opt_view(res) == render_spec(self@, context@, global_context.site_model()),
            log_view(final(log)@) == log_view(old(log)@) + render_log(
                self@,
                context@,
                global_context.site_model(),
            ),
        decreases self, 0nat,
    {
        match self {
            TemplateNode::Page { content_node, parent, front_matter, .. } => {
                let mut pc = TemplateContext::new(Some(context.clone()));
                pc.add_front_matter(front_matter);
                let page_ctx = Rc::new(pc);
                assert(page_ctx@ =~= seq![strings_frame(insert_all(Seq::empty(), front_matter@))]
                    + context@);
                let co = match (&**content_node).render(&page_ctx, global_context, log) {
                    Some(co) => co,
                    None => {
                        return None;
                    },
                };
                match parent {
                    Some(p) => {
                        let mut lc = TemplateContext::new(Some(page_ctx.clone()));
                        let ghost cov = co@;
                        lc.insert_string(content_key_string(), co);
                        let layout_ctx = Rc::new(lc);
                        assert(layout_ctx@ =~= seq![
                            strings_frame(map_insert(Seq::empty(), content_key(), cov)),
                        ] + page_ctx@);
                        (&**p).render(&layout_ctx, global_context, log)
                    },
                    None => Some(co),
                }
            },
            _ => None,
        }
    }

    /// The output of a layout.
    #[verifier::rlimit(40)]
    #[verifier::spinoff_prover]
    fn render_layout(
        &self,
        context: &Rc<TemplateContext>,
        global_context: &GlobalContext,
        log: &mut Vec<String>,
    ) -> (res:
        Option<String>)
        requires
            self is Layout,
        ensures
            opt_view(res) == render_spec(self@, context@, global_context.site_model()),
            log_view(final(log)@) == log_view(old(log)@) + render_log(
                self@,
                context@,
                global_context.site_model(),
            ),
        decreases self, 0nat,
    {
        match self {
            TemplateNode::Layout { content, parent, front_matter, .. } => {
                let mut output = content.clone();
                match parent {
                    Some(p) => {
                        let po = match (&**p).render(context, global_context, log) {
                            Some(po) => po,
                            None => {
                                return None;
                            },
                        };
                        let pat: Vec<char> = vec![
                            '{',
                            '{',
                            ' ',
                            'c',
                            'o',
                            'n',
                            't',
                            'e',
                            'n',
                            't',
                            ' ',
                            '}',
                            '}',
                        ];
                        assert(pat@ =~= content_tag());
                        let pc = chars_of(po.as_str());
                        let oc = chars_of(output.as_str());
                        let replaced = replace_chars(pc.as_slice(), pat.as_slice(), oc.as_slice());
                        output = string_of(replaced.as_slice());
                    },
                    None => {},
                }
                output = TemplateNode::perform_substitutions_strings(output, front_matter);
                output = self.apply_substitutions(output.as_str(), context, global_context);
                match try_parse_control_blocks(output.as_str(), log) {
                    Some(node) => Some((&*node).render_fragment(context)),
                    None => None,
                }
            },
            _ => None,
        }
    }

    /// The output of a data loop.
    #[verifier::loop_isolation(false)]
    #[verifier::rlimit(40)]
    #[verifier::spinoff_prover]
    fn render_foreach(
        &self,
        context: &Rc<TemplateContext>,
        global_context: &GlobalContext,
        log: &mut Vec<String>,
    ) -> (res:
        Option<String>)
        requires
            self is ForEachBlock,
        ensures
            opt_view(res) == render_spec(self@, context@, global_context.site_model()),
            log_view(final(log)@) == log_view(old(log)@) + render_log(
                self@,
                context@,
                global_context.site_model(),
            ),
        decreases self, 0nat,
    {
        let ghost g = global_context.site_model();
        match self {
            TemplateNode::ForEachBlock { key, body, .. } => {
                match context.items(key) {
                    Some(items) => {
                        let mut out = String::new();
                        let n = items.len();
                        let ghost im = items_model(items@);
                        let ghost b = (**body)@;
                        let ghost l0 = log_view(log@);
                        assert(im.take(0) =~= Seq::<ItemModel>::empty());
                        assert(l0 + render_log_items(im.take(0), b, context@, g) =~= l0);
                        for i in 0..n
                            invariant
                                n == items@.len(),
                                im == items_model(items@),
                                b == (**body)@,
                                render_spec_items(im.take(i as int), b, context@, g) == Some(
                                    out@,
                                ),
                                log_view(log@) == l0 + render_log_items(
                                    im.take(i as int),
                                    b,
                                    context@,
                                    g,
                                ),
                        {
                            let item_ctx = Rc::new(item_context(&items[i], context));
                            assert(im.take(i + 1).drop_last() =~= im.take(i as int));
                            let r = (&**body).render(&item_ctx, global_context, log);
                            proof {
                                lemma_log_items_step(im, b, context@, g, i as int);
                            }
                            assert(log_view(log@) =~= l0 + render_log_items(
                                im.take(i + 1),
                                b,
                                context@,
                                g,
                            ));
                            match r {
                                Some(part) => {
                                    out.append(part.as_str());
                                },
                                None => {
                                    proof {
                                        lemma_spec_items_none(im, b, context@, g, i + 1);
                                        lemma_log_items_stop(im, b, context@, g, i + 1);
                                    }
                                    return None;
                                },
                            }
                        }
                        assert(im.take(n as int) =~= im);
                        Some(out)
                    },
                    None => Some(String::new()),
                }
            },
            _ => None,
        }
    }

    /// The output of a composite.
    #[verifier::loop_isolation(false)]
    #[verifier::rlimit(40)]
    #[verifier::spinoff_prover]
    fn render_composite(
        &self,
        context: &Rc<TemplateContext>,
        global_context: &GlobalContext,
        log: &mut Vec<String>,
    ) -> (res:
        Option<String>)
        requires
            self is Composite,
        ensures
            opt_view(res) == render_spec(self@, context@, global_context.site_model()),
            log_view(final(log)@) == log_view(old(log)@) + render_log(
                self@,
                context@,
                global_context.site_model(),
            ),
        decreases self, 0nat,
    {
        let ghost g = global_context.site_model();
        match self {
            TemplateNode::Composite(nodes) => {
                let mut out = String::new();
                let n = nodes.len();
                let ghost ns = nodes_model(nodes@);
                assert(self@ == Template::Composite(ns)) by {
                    if let Template::Composite(ms) = self@ {
                        assert(ms =~= ns);
                    }
                }
                let ghost l0 = log_view(log@);
                assert(ns.take(0) =~= Seq::<Template>::empty());
                assert(l0 + render_log_seq(ns.take(0), context@, g) =~= l0);
                assert(ns.len() == n);
                for i in 0..n
                    invariant
                        n == nodes@.len(),
                        ns == nodes_model(nodes@),
                        ns.len() == n,
                        self@ == Template::Composite(ns),
                        render_spec_seq(ns.take(i as int), context@, g) == Some(out@),
                        log_view(log@) == l0 + render_log_seq(ns.take(i as int), context@, g),
                {
                    assert(ns.take(i + 1).subrange(0, i as int) =~= ns.take(i as int));
                    let r = nodes[i].render(context, global_context, log);
                    proof {
                        lemma_log_seq_step(ns, context@, g, i as int);
                    }
                    assert(log_view(log@) =~= l0 + render_log_seq(ns.take(i + 1), context@, g));
                    match r {
                        Some(part) => {
                            out.append(part.as_str());
                        },
                        None => {
                            proof {
                                lemma_spec_seq_none(ns, context@, g, i + 1);
                                lemma_log_seq_stop(ns, context@, g, i + 1);
                            }
                            return None;
                        },
                    }
                }
                assert(ns.take(n as int) =~= ns);
                Some(out)
            },
            _ => None,
        }
    }
}

impl TemplateNode {
    /// The HTML list of the data list under `key` in this level of
    /// `context` (see [`json_list_html`]).
    pub fn render_json_list(
        &self,
        key: &str,
        context: &Rc<TemplateContext>,
        _global_context: &GlobalContext,
    ) -> (res: String)
        ensures
            res@ == json_list_html(context@, key@),
    {
        let k = key.to_owned();
        match context.items(&k) {
            Some(items) => {
                let mut out = String::from_str("<ul>\n");
                let ghost im = items_model(items@);
                let ghost start = out@;
                let n = items.len();
                assert(im.take(0) =~= Seq::<ItemModel>::empty());
                for i in 0..n
                    invariant
                        n == items@.len(),
                        im == items_model(items@),
                        start == "<ul>\n"@,
                        out@ == start + items_html(im.take(i as int)),
                {
                    let ghost before = out@;
                    match &items[i] {
                        JsonItem::Mapping(m) => {
                            out.append("<li>");
                            let title_key = String::from_str("title");
                            match m.get(&title_key) {
                                Some(t) => {
                                    out.append("<h3>");
                                    out.append(t.as_str());
                                    out.append("</h3>");
                                },
                                None => {},
                            }
                            let desc_key = String::from_str("description");
                            match m.get(&desc_key) {
                                Some(d) => {
                                    out.append("<p>");
                                    out.append(d.as_str());
                                    out.append("</p>");
                                },
                                None => {},
                            }
                            out.append("</li>\n");
                        },
                        JsonItem::Other => {},
                    }
                    assert(out@ =~= before + item_html(im[i as int]));
                    assert(im.take(i + 1).drop_last() =~= im.take(i as int));
                }
                assert(im.take(n as int) =~= im);
                out.append("</ul>");
                out
            },
            None => String::new(),
        }
    }
}

/// The level in which the body of a data loop renders `item`.
fn item_context(item: &JsonItem, context: &Rc<TemplateContext>) -> (res: TemplateContext)
    ensures
        res@ == seq![item_frame(item@)] + context@,
{
    let mut c = TemplateContext::new(Some(context.clone()));
    match item {
        JsonItem::Mapping(m) => {
            c.add_front_matter(m);
        },
        JsonItem::Other => {},
    }
    assert(c@ =~= seq![item_frame(item@)] + context@);
    c
}

/// `{{x}}` as characters.
fn double_braced_chars(x: &[char]) -> (res: Vec<char>)
    ensures
        res@ == double_braced(x@),
{
    let mut p: Vec<char> = vec!['{', '{'];
    let n = x.len();
    extend_range(&mut p, x, 0, n);
    p.push('}');
    p.push('}');
    assert(x@.subrange(0, n as int) =~= x@);
    assert(p@ =~= double_braced(x@));
    p
}

/// `{x}` as characters.
fn single_braced_chars(x: &[char]) -> (res: Vec<char>)
    ensures
        res@ == single_braced(x@),
{
    let mut p: Vec<char> = vec!['{'];
    let n = x.len();
    extend_range(&mut p, x, 0, n);
    p.push('}');
    assert(x@.subrange(0, n as int) =~= x@);
    assert(p@ =~= single_braced(x@));
    p
}

} // verus!
