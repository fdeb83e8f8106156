//! Properties that hold across the operations of the library.
use vstd::prelude::*;

use crate::node::{fragments_all, is_fragment, Template};
use crate::parse::{
    block_content, close_tag, else_tag, end_pattern, fence, foreach_block, if_block, kw_endforeach,
    kw_endif, kw_if, open_tag, opens_foreach, opens_if, parse_nodes, parse_template, split_front_matter,
    split_once, text_nodes,
};
use crate::render::{
    apply_subs, assoc, content_tag, chain_lookup, render_frag, render_frag_items, render_frag_seq, render_spec,
    render_spec_items, render_spec_seq, single_braced, subst_all, subst_key, double_braced, Frame,
    ItemModel,
};
use crate::site::{
    default_name, layout_key, page_defaults, page_spec, path_file_stem, title_key, yaml_front_matter,
};
use crate::string_map::{
    insert_all, keys_distinct, lemma_insert_all_lookup, lemma_insert_lookup_other,
    lemma_insert_lookup_same, lookup, map_insert, Pairs,
};
use crate::text::{
    contains, find, is_first_occurrence, lemma_absent_first_char, words, lemma_first_occurrence_is_found,
    lemma_no_occurrence_not_found, lemma_occurrence_is_found, lemma_occurs_in_skip, lemma_replace_absent, occurs_at,
    replace_all, trim,
};

verus! {

/// Front matter added to a level of a context is what a lookup of its keys
/// gives back: a key of the front matter reads its value, and every other
/// key reads what it read before.
pub proof fn lemma_front_matter_read_back(frames: Seq<Frame>, fm: Pairs, k: Seq<char>)
    requires
        frames.len() >= 1,
        keys_distinct(fm),
    ensures
        chain_lookup(
            frames.update(0, Frame { strings: insert_all(frames[0].strings, fm), ..frames[0] }),
            k,
        ) == if lookup(fm, k) is Some {
            lookup(fm, k)
        } else {
            chain_lookup(frames, k)
        },
{
    let upd = frames.update(0, Frame { strings: insert_all(frames[0].strings, fm), ..frames[0] });
    lemma_insert_all_lookup(frames[0].strings, fm, k);
    assert(upd.drop_first() =~= frames.drop_first());
}

/// A string set on a level of a context is what a lookup of its key gives
/// back, and other keys read what they read before.
pub proof fn lemma_string_read_back(frames: Seq<Frame>, k: Seq<char>, v: Seq<char>, k2: Seq<char>)
    requires
        frames.len() >= 1,
    ensures
        ({
            let upd = frames.update(
                0,
                Frame { strings: map_insert(frames[0].strings, k, v), ..frames[0] },
            );
            &&& chain_lookup(upd, k) == Some(v)
            &&& k2 != k ==> chain_lookup(upd, k2) == chain_lookup(frames, k2)
        }),
{
    let upd = frames.update(0, Frame { strings: map_insert(frames[0].strings, k, v), ..frames[0] });
    lemma_insert_lookup_same(frames[0].strings, k, v);
    if k2 != k {
        lemma_insert_lookup_other(frames[0].strings, k, v, k2);
    }
    assert(upd.drop_first() =~= frames.drop_first());
}

/// A level's strings shadow those of the levels around it.
pub proof fn lemma_inner_level_shadows(f: Frame, frames: Seq<Frame>, k: Seq<char>)
    ensures
        chain_lookup(seq![f] + frames, k) == match lookup(f.strings, k) {
            Some(v) => Some(v),
            None => chain_lookup(frames, k),
        },
{
    assert((seq![f] + frames).drop_first() =~= frames);
}

/// A text without `{` is left unchanged by the substitutions of a key.
pub proof fn lemma_subst_key_no_brace(s: Seq<char>, k: Seq<char>, v: Seq<char>)
    requires
        forall|i: int| 0 <= i < s.len() ==> s[i] != '{',
    ensures
        subst_key(s, k, v) == s,
{
    let spaced = seq![' '] + k + seq![' '];
    let ps = seq![
        double_braced(spaced),
        single_braced(spaced),
        double_braced(k),
        single_braced(k),
    ];
    assert forall|j: int| 0 <= j < 4 implies !contains(s, #[trigger] ps[j]) by {
        assert(ps[j][0] == '{');
        lemma_absent_first_char(s, ps[j]);
    }
    assert(ps[0] == double_braced(spaced));
    lemma_replace_absent(s, double_braced(spaced), v);
    lemma_replace_absent(s, single_braced(spaced), v);
    lemma_replace_absent(s, double_braced(k), v);
    lemma_replace_absent(s, single_braced(k), v);
}

/// A text without `{` is left unchanged by the substitutions of a map.
pub proof fn lemma_subst_all_no_brace(s: Seq<char>, m: Pairs)
    requires
        forall|i: int| 0 <= i < s.len() ==> s[i] != '{',
    ensures
        subst_all(s, m) == s,
    decreases m.len(),
{
    if m.len() > 0 {
        lemma_subst_all_no_brace(s, m.drop_last());
        lemma_subst_key_no_brace(s, m.last().0, m.last().1);
    }
}

/// A text without `{{` parses to a single text node (or to nothing when it
/// is empty), and renders back to itself in any context.
pub proof fn lemma_plain_text_round_trip(c: Seq<char>, frames: Seq<Frame>, g: Pairs)
    requires
        !contains(c, open_tag()),
    ensures
        parse_template(c) == Some(Template::Composite(text_nodes(c))),
        render_frag(Template::Composite(text_nodes(c)), frames) == c,
        render_spec(Template::Composite(text_nodes(c)), frames, g) == Some(c),
{
    lemma_no_occurrence_not_found(c, open_tag());
    reveal(parse_nodes);
    let ns = text_nodes(c);
    if c.len() > 0 {
        let e = ns.subrange(0, 0);
        assert(e =~= Seq::<Template>::empty());
        assert(ns.last() == Template::StringContent(c));
        assert(render_frag_seq(e, frames) == Seq::<char>::empty());
        assert(render_spec_seq(e, frames, g) == Some(Seq::<char>::empty()));
        assert(render_frag(ns.last(), frames) == c);
        assert(render_spec(ns.last(), frames, g) == Some(c));
        assert(ns.subrange(0, ns.len() - 1) == e);
        assert(render_frag_seq(ns, frames) =~= Seq::<char>::empty() + c);
        assert(Seq::<char>::empty() + c =~= c);
        assert(render_spec_seq(ns, frames, g) == Some(Seq::<char>::empty() + c));
    } else {
        assert(render_frag_seq(ns, frames) =~= c);
    }
}

/// The content and the rest of a block put back together, with the end tag
/// between them when it was found, give the text back.
pub proof fn lemma_block_content_reassembles(c: Seq<char>, tag: Seq<char>)
    ensures
        ({
            let (inner, rest) = block_content(c, tag);
            if contains(c, end_pattern(tag)) {
                c == inner + end_pattern(tag) + rest
            } else {
                inner == c && rest.len() == 0
            }
        }),
{
    let p = end_pattern(tag);
    if contains(c, p) {
        let i = choose|i: int| occurs_at(c, p, i);
        lemma_occurrence_is_found(c, p, i);
        let e = find(c, p)->0;
        assert(occurs_at(c, p, e));
        assert(c.take(e) + p + c.skip(e + p.len()) =~= c);
    } else {
        lemma_no_occurrence_not_found(c, p);
    }
}

/// A document that does not start with `---` has no front matter and is all
/// body.
pub proof fn lemma_no_fence_no_front_matter(c: Seq<char>)
    requires
        !(c.len() >= 3 && c.take(3) == fence()),
    ensures
        split_front_matter(c) == (Seq::<char>::empty(), c),
{
}

/// A data list read after it was stored under a key is the list stored.
pub proof fn lemma_assoc_read_back<V>(m: Seq<(Seq<char>, V)>, k: Seq<char>, v: V)
    requires
        assoc(m, k) is None,
    ensures
        assoc(m.push((k, v)), k) == Some(v),
    decreases m.len(),
{
    if m.len() == 0 {
        assert(m.push((k, v))[0] == (k, v));
    } else {
        assert(m.push((k, v))[0] == m[0]);
        assert(m.push((k, v)).drop_first() =~= m.drop_first().push((k, v)));
        lemma_assoc_read_back(m.drop_first(), k, v);
    }
}

/// An `if` block renders its first branch exactly when its condition names a
/// string of the context.
pub proof fn lemma_if_block_branch(
    condition: Seq<char>,
    t: Template,
    f: Option<Template>,
    frames: Seq<Frame>,
    g: Pairs,
)
    ensures
        ({
            let node = Template::IfBlock {
                condition,
                true_branch: Box::new(t),
                false_branch: match f {
                    Some(x) => Some(Box::new(x)),
                    None => None,
                },
            };
            &&& chain_lookup(frames, condition) is Some ==> render_spec(node, frames, g)
                == render_spec(t, frames, g)
            &&& chain_lookup(frames, condition) is None ==> render_spec(node, frames, g) == match f {
                Some(x) => render_spec(x, frames, g),
                None => Some(Seq::<char>::empty()),
            }
        }),
{
}

/// Rendering a fragment and rendering it as any node agree: a fragment
/// always has an output, the one that rendering it as a fragment gives.
pub proof fn lemma_render_agrees_on_fragments(t: Template, frames: Seq<Frame>, g: Pairs)
    requires
        is_fragment(t),
    ensures
        render_spec(t, frames, g) == Some(render_frag(t, frames)),
    decreases t, 0nat,
{
    match t {
        Template::IfBlock { true_branch, false_branch, .. } => {
            lemma_render_agrees_on_fragments(*true_branch, frames, g);
            if let Some(f) = false_branch {
                lemma_render_agrees_on_fragments(*f, frames, g);
            }
        },
        Template::ForEachBlock { key, body, .. } => {
            if let Some(items) = crate::render::frame_items(frames, key) {
                lemma_items_agree(items, *body, frames, g);
            }
        },
        Template::Composite(ns) => {
            lemma_seq_agrees(ns, frames, g);
        },
        _ => {},
    }
}

proof fn lemma_seq_agrees(ns: Seq<Template>, frames: Seq<Frame>, g: Pairs)
    requires
        fragments_all(ns),
    ensures
        render_spec_seq(ns, frames, g) == Some(render_frag_seq(ns, frames)),
    decreases ns, 0nat,
{
    if ns.len() > 0 {
        lemma_seq_agrees(ns.subrange(0, ns.len() - 1), frames, g);
        lemma_render_agrees_on_fragments(ns.last(), frames, g);
    }
}

proof fn lemma_items_agree(items: Seq<ItemModel>, body: Template, frames: Seq<Frame>, g: Pairs)
    requires
        is_fragment(body),
    ensures
        render_spec_items(items, body, frames, g) == Some(render_frag_items(items, body, frames)),
    decreases body, items.len(),
{
    if items.len() > 0 {
        lemma_items_agree(items.drop_last(), body, frames, g);
        lemma_render_agrees_on_fragments(
            body,
            seq![crate::render::item_frame(items.last())] + frames,
            g,
        );
    }
}

/// No character of `s` is `{`.
pub open spec fn brace_free(s: Seq<char>) -> bool {
    forall|i: int| 0 <= i < s.len() ==> s[i] != '{'
}

/// The placeholder `{{ k }}` between two texts without `{` is replaced by
/// the value of `k`, when that value has no `{` either.
pub proof fn lemma_placeholder_filled(a: Seq<char>, k: Seq<char>, b: Seq<char>, v: Seq<char>)
    requires
        brace_free(a),
        brace_free(b),
        brace_free(v),
    ensures
        subst_key(a + double_braced(seq![' '] + k + seq![' ']) + b, k, v) == a + v + b,
{
    let p = double_braced(seq![' '] + k + seq![' ']);
    let s = a + p + b;
    let n = a.len() as int;
    assert(p[0] == '{');
    assert(s.subrange(n, n + p.len()) =~= p);
    assert forall|j: int| 0 <= j < n implies !occurs_at(s, p, j) by {
        if occurs_at(s, p, j) {
            assert(s.subrange(j, j + p.len())[0] == s[j]);
            assert(s[j] == a[j]);
        }
    }
    lemma_first_occurrence_is_found(s, p, n);
    assert(s.take(n) =~= a);
    assert(s.skip(n + p.len()) =~= b);
    lemma_absent_first_char(b, p);
    lemma_replace_absent(b, p, v);
    let t = a + v + b;
    assert(replace_all(s, p, v) =~= t);
    assert(brace_free(t)) by {
        assert forall|i: int| 0 <= i < t.len() implies t[i] != '{' by {
            if i < n {
                assert(t[i] == a[i]);
            } else if i < n + v.len() {
                assert(t[i] == v[i - n]);
            } else {
                assert(t[i] == b[i - n - v.len()]);
            }
        }
    }
    let spaced = seq![' '] + k + seq![' '];
    let ps = seq![single_braced(spaced), double_braced(k), single_braced(k)];
    assert forall|j: int| 0 <= j < 3 implies !contains(t, #[trigger] ps[j]) by {
        assert(ps[j][0] == '{');
        lemma_absent_first_char(t, ps[j]);
    }
    assert(ps[0] == single_braced(spaced));
    assert(ps[1] == double_braced(k));
    assert(ps[2] == single_braced(k));
    lemma_replace_absent(t, single_braced(spaced), v);
    lemma_replace_absent(t, double_braced(k), v);
    lemma_replace_absent(t, single_braced(k), v);
}

/// The defaults of a page's front matter keep every key it has with its
/// value, add `layout` as `default` when it has no layout and the stem as
/// `title` when it has no title, and add no other key.
pub proof fn lemma_page_defaults_keep_keys(fm: Pairs, stem: Option<Seq<char>>, k: Seq<char>)
    requires
        page_defaults(fm, stem) is Some,
    ensures
        lookup(page_defaults(fm, stem)->0, k) == if lookup(fm, k) is Some {
            lookup(fm, k)
        } else if k == layout_key() {
            Some(default_name())
        } else if k == title_key() {
            stem
        } else {
            None
        },
{
    let with_layout = if lookup(fm, layout_key()) is Some {
        fm
    } else {
        map_insert(fm, layout_key(), default_name())
    };
    assert(layout_key() != title_key()) by {
        assert(layout_key()[0] != title_key()[0]);
    }
    if lookup(fm, layout_key()) is None {
        lemma_insert_lookup_same(fm, layout_key(), default_name());
        lemma_insert_lookup_other(fm, layout_key(), default_name(), title_key());
        if k != layout_key() {
            lemma_insert_lookup_other(fm, layout_key(), default_name(), k);
        }
    }
    if lookup(with_layout, title_key()) is None {
        let t = stem->0;
        lemma_insert_lookup_same(with_layout, title_key(), t);
        if k != title_key() {
            lemma_insert_lookup_other(with_layout, title_key(), t, k);
        }
    }
}

} // verus!

verus! {

/// A text node as parsing makes it: not empty, and without `{{`.
pub open spec fn is_parsed_text(s: Seq<char>) -> bool {
    s.len() > 0 && !contains(s, open_tag())
}

/// The shape of what parsing yields: a composite of parsed items.
pub open spec fn parsed_shape(t: Template) -> bool
    decreases t,
{
    match t {
        Template::Composite(ns) => parsed_items(ns),
        _ => false,
    }
}

/// Every node of `ns` is a parsed item.
pub open spec fn parsed_items(ns: Seq<Template>) -> bool
    decreases ns,
{
    if ns.len() == 0 {
        true
    } else {
        parsed_items(ns.subrange(0, ns.len() - 1)) && parsed_item(ns.last())
    }
}

/// A node of a parsed composite: a text node without `{{`, an `if` block
/// whose branches have the parsed shape, or a data loop whose body has it.
/// Never a page, a layout or a function call.
pub open spec fn parsed_item(t: Template) -> bool
    decreases t,
{
    match t {
        Template::StringContent(s) => is_parsed_text(s),
        Template::IfBlock { true_branch, false_branch, .. } => parsed_shape(*true_branch) && match
            false_branch {
            Some(f) => parsed_shape(*f),
            None => true,
        },
        Template::ForEachBlock { body, .. } => parsed_shape(*body),
        _ => false,
    }
}

/// [`parsed_items`] holds of a sequence when it holds of each element.
pub proof fn lemma_parsed_items(ns: Seq<Template>)
    ensures
        parsed_items(ns) <==> forall|i: int| 0 <= i < ns.len() ==> parsed_item(#[trigger] ns[i]),
    decreases ns.len(),
{
    if ns.len() > 0 {
        let init = ns.subrange(0, ns.len() - 1);
        lemma_parsed_items(init);
        if parsed_items(ns) {
            assert forall|i: int| 0 <= i < ns.len() implies parsed_item(#[trigger] ns[i]) by {
                if i < ns.len() - 1 {
                    assert(init[i] == ns[i]);
                }
            }
        }
        if forall|i: int| 0 <= i < ns.len() ==> parsed_item(#[trigger] ns[i]) {
            assert forall|i: int| 0 <= i < init.len() implies parsed_item(#[trigger] init[i]) by {
                assert(init[i] == ns[i]);
            }
        }
    }
}

/// An occurrence in a prefix is an occurrence in the whole.
proof fn lemma_occurs_in_take(s: Seq<char>, p: Seq<char>, o: int, j: int)
    requires
        0 <= o <= s.len(),
        occurs_at(s.take(o), p, j),
    ensures
        occurs_at(s, p, j),
{
    assert(s.take(o).subrange(j, j + p.len()) =~= s.subrange(j, j + p.len()));
}

/// The text before the first `{{` holds no `{{`.
proof fn lemma_text_before_tag(rem: Seq<char>, o: int)
    requires
        find(rem, open_tag()) == Some(o),
        0 <= o <= rem.len(),
    ensures
        forall|i: int| 0 <= i < text_nodes(rem.take(o)).len() ==> parsed_item(
            #[trigger] text_nodes(rem.take(o))[i],
        ),
{
    let t = rem.take(o);
    assert(is_first_occurrence(rem, open_tag(), o));
    assert forall|j: int| !occurs_at(t, open_tag(), j) by {
        if occurs_at(t, open_tag(), j) {
            lemma_occurs_in_take(rem, open_tag(), o, j);
        }
    }
}

/// What parsing a text yields has the parsed shape.
pub proof fn lemma_parse_shape(c: Seq<char>)
    requires
        parse_template(c) is Some,
    ensures
        parsed_shape(parse_template(c)->0),
    decreases c.len(), 1int,
{
    lemma_parse_nodes_shape(c);
    lemma_parsed_items(parse_nodes(c)->0);
}

/// The nodes of a parsed text are parsed items.
proof fn lemma_parse_nodes_shape(rem: Seq<char>)
    requires
        parse_nodes(rem) is Some,
    ensures
        forall|i: int|
            0 <= i < parse_nodes(rem)->0.len() ==> parsed_item(#[trigger] parse_nodes(rem)->0[i]),
    decreases rem.len(), 0int,
{
    reveal(parse_nodes);
    let ns = parse_nodes(rem)->0;
    match find(rem, open_tag()) {
        None => {
            if rem.len() > 0 {
                if contains(rem, open_tag()) {
                    let j = choose|j: int| occurs_at(rem, open_tag(), j);
                    lemma_occurrence_is_found(rem, open_tag(), j);
                }
                assert(parsed_item(ns[0]));
            }
        },
        Some(o) => {
            let pre = text_nodes(rem.take(o));
            lemma_text_before_tag(rem, o);
            let c = find(rem.skip(o), close_tag())->0;
            let tag = rem.subrange(o + 2, o + c);
            let rest = rem.skip(o + c + 2);
            let w = words(tag);
            if opens_if(w) || opens_foreach(w) {
                let block = if opens_if(w) {
                    if_block(rest, w[1])
                } else {
                    foreach_block(rest, w[1], w[3])
                };
                let (n, rest2) = block->0;
                if opens_if(w) {
                    lemma_if_block_shape(rest, w[1]);
                } else {
                    lemma_foreach_block_shape(rest, w[1], w[3]);
                }
                lemma_parse_nodes_shape(rest2);
                let ns2 = parse_nodes(rest2)->0;
                assert(ns == pre.push(n) + ns2);
                assert forall|i: int| 0 <= i < ns.len() implies parsed_item(#[trigger] ns[i]) by {
                    if i < pre.len() {
                        assert(ns[i] == pre[i]);
                    } else if i == pre.len() {
                        assert(ns[i] == n);
                    } else {
                        assert(ns[i] == ns2[i - pre.len() - 1]);
                    }
                }
            } else {
                lemma_parse_nodes_shape(rest);
                let ns2 = parse_nodes(rest)->0;
                assert(ns == pre + ns2);
                assert forall|i: int| 0 <= i < ns.len() implies parsed_item(#[trigger] ns[i]) by {
                    if i < pre.len() {
                        assert(ns[i] == pre[i]);
                    } else {
                        assert(ns[i] == ns2[i - pre.len()]);
                    }
                }
            }
        },
    }
}

proof fn lemma_if_block_shape(rest: Seq<char>, condition: Seq<char>)
    requires
        if_block(rest, condition) is Some,
    ensures
        parsed_item((if_block(rest, condition)->0).0),
    decreases rest.len(), 2int,
{
    let (inner, rest2) = block_content(rest, kw_endif());
    let (t, f) = split_once(inner, else_tag());
    lemma_parse_shape(t);
    if let Some(fc) = f {
        lemma_parse_shape(fc);
    }
}

proof fn lemma_foreach_block_shape(rest: Seq<char>, key: Seq<char>, item_name: Seq<char>)
    requires
        foreach_block(rest, key, item_name) is Some,
    ensures
        parsed_item((foreach_block(rest, key, item_name)->0).0),
    decreases rest.len(), 2int,
{
    let (inner, rest2) = block_content(rest, kw_endforeach());
    lemma_parse_shape(inner);
}

} // verus!

verus! {

/// Every `{{` of `c` has a `}}` after it with no other `{{` starting in
/// between.
pub open spec fn tags_closed(c: Seq<char>) -> bool {
    forall|i: int|
        #[trigger] occurs_at(c, open_tag(), i) ==> exists|j: int|
            i < j && occurs_at(c, close_tag(), j) && forall|m: int|
                i < m < j ==> !occurs_at(c, open_tag(), m)
}

/// A suffix of a text whose tags are closed has its tags closed.
proof fn lemma_closed_suffix(c: Seq<char>, k: int)
    requires
        tags_closed(c),
        0 <= k <= c.len(),
    ensures
        tags_closed(c.skip(k)),
{
    let s = c.skip(k);
    assert forall|i: int| #[trigger] occurs_at(s, open_tag(), i) implies exists|j: int|
        i < j && occurs_at(s, close_tag(), j) && forall|m: int|
            i < m < j ==> !occurs_at(s, open_tag(), m) by {
        lemma_occurs_in_skip(c, open_tag(), k, i);
        assert(occurs_at(c, open_tag(), i + k));
        let j = choose|j: int|
            i + k < j && occurs_at(c, close_tag(), j) && forall|m: int|
                i + k < m < j ==> !occurs_at(c, open_tag(), m);
        lemma_occurs_in_skip(c, close_tag(), k, j - k);
        assert forall|m: int| i < m < j - k implies !occurs_at(s, open_tag(), m) by {
            lemma_occurs_in_skip(c, open_tag(), k, m);
            assert(!occurs_at(c, open_tag(), m + k));
        }
        assert(i < j - k && occurs_at(s, close_tag(), j - k));
    }
}

/// The text before a `{{` (or the whole text) of a text whose tags are
/// closed has its tags closed.
proof fn lemma_closed_prefix(c: Seq<char>, e: int)
    requires
        tags_closed(c),
        e == c.len() || occurs_at(c, open_tag(), e),
    ensures
        tags_closed(c.take(e)),
{
    let s = c.take(e);
    assert(0 <= e <= c.len());
    assert forall|i: int| #[trigger] occurs_at(s, open_tag(), i) implies exists|j: int|
        i < j && occurs_at(s, close_tag(), j) && forall|m: int|
            i < m < j ==> !occurs_at(s, open_tag(), m) by {
        lemma_occurs_in_take(c, open_tag(), e, i);
        let j = choose|j: int|
            i < j && occurs_at(c, close_tag(), j) && forall|m: int|
                i < m < j ==> !occurs_at(c, open_tag(), m);
        assert(c.subrange(j, j + 2)[0] == c[j]);
        assert(c.subrange(j, j + 2)[1] == c[j + 1]);
        if e < c.len() {
            assert(c.subrange(e, e + 2)[0] == c[e]);
            assert(c.subrange(e, e + 2)[1] == c[e + 1]);
            assert(s.subrange(i, i + 2)[0] == c[i]);
            if j >= e {
                assert(j != e);
                assert(!occurs_at(c, open_tag(), e));
            }
            assert(j + 1 != e);
        }
        assert(j + 2 <= e);
        assert(s.subrange(j, j + 2) =~= c.subrange(j, j + 2));
        assert forall|m: int| i < m < j implies !occurs_at(s, open_tag(), m) by {
            if occurs_at(s, open_tag(), m) {
                lemma_occurs_in_take(c, open_tag(), e, m);
            }
        }
        assert(occurs_at(s, close_tag(), j));
    }
}

/// An occurrence of a pattern that starts with `{{` is an occurrence of `{{`.
proof fn lemma_starts_with_open(s: Seq<char>, p: Seq<char>, e: int)
    requires
        p.len() >= 2,
        p[0] == '{',
        p[1] == '{',
        occurs_at(s, p, e),
    ensures
        occurs_at(s, open_tag(), e),
{
    assert(s.subrange(e, e + 2) =~= p.subrange(0, 2)) by {
        assert forall|x: int| 0 <= x < 2 implies s.subrange(e, e + 2)[x] == p.subrange(0, 2)[x] by {
            assert(s.subrange(e, e + p.len())[x] == s[e + x]);
        }
    }
    assert(p.subrange(0, 2) =~= open_tag());
}

/// A text in which every `{{` has a `}}` after it, with no other `{{`
/// starting in between, parses: parsing it never meets an unclosed tag,
/// also inside the blocks it cuts out.
pub proof fn lemma_closed_tags_parse(c: Seq<char>)
    requires
        tags_closed(c),
    ensures
        parse_template(c) is Some,
    decreases c.len(), 1int,
{
    lemma_closed_nodes_parse(c);
}

proof fn lemma_closed_nodes_parse(rem: Seq<char>)
    requires
        tags_closed(rem),
    ensures
        parse_nodes(rem) is Some,
    decreases rem.len(), 0int,
{
    reveal(parse_nodes);
    match find(rem, open_tag()) {
        None => {},
        Some(o) => {
            assert(is_first_occurrence(rem, open_tag(), o));
            let j = choose|j: int|
                o < j && occurs_at(rem, close_tag(), j) && forall|m: int|
                    o < m < j ==> !occurs_at(rem, open_tag(), m);
            let after = rem.skip(o);
            lemma_occurs_in_skip(rem, close_tag(), o, j - o);
            lemma_occurrence_is_found(after, close_tag(), j - o);
            let c = find(after, close_tag())->0;
            assert(is_first_occurrence(after, close_tag(), c));
            assert(after.subrange(0, 2) =~= open_tag()) by {
                assert(rem.subrange(o, o + 2) =~= open_tag());
                assert(after.subrange(0, 2) =~= rem.subrange(o, o + 2));
            }
            if c < 2 {
                assert(after.subrange(c, c + 2)[0] == after[c]);
                assert(after.subrange(0, 2)[c] == after[c]);
            }
            assert(o + c + 2 <= rem.len());
            let tag = rem.subrange(o + 2, o + c);
            let rest = rem.skip(o + c + 2);
            lemma_closed_suffix(rem, o + c + 2);
            let w = words(tag);
            if opens_if(w) || opens_foreach(w) {
                let r2 = if opens_if(w) {
                    lemma_closed_if_block(rest, w[1])
                } else {
                    lemma_closed_foreach_block(rest, w[1], w[3])
                };
                lemma_closed_nodes_parse(r2);
            } else {
                lemma_closed_nodes_parse(rest);
            }
        },
    }
}

/// The content of a block of a text whose tags are closed has them closed,
/// and so does the text after the block.
proof fn lemma_closed_block_content(rest: Seq<char>, tag: Seq<char>)
    requires
        tags_closed(rest),
    ensures
        tags_closed(block_content(rest, tag).0),
        tags_closed(block_content(rest, tag).1),
        block_content(rest, tag).0.len() <= rest.len(),
        block_content(rest, tag).1.len() <= rest.len(),
{
    let p = end_pattern(tag);
    assert(p[0] == '{' && p[1] == '{');
    match find(rest, p) {
        Some(e) => {
            if 0 <= e && e + p.len() <= rest.len() {
                assert(is_first_occurrence(rest, p, e));
                lemma_starts_with_open(rest, p, e);
                lemma_closed_prefix(rest, e);
                lemma_closed_suffix(rest, e + p.len());
            } else {
                assert(rest.take(rest.len() as int) =~= rest);
            }
        },
        None => {
            assert(rest.take(rest.len() as int) =~= rest);
        },
    }
}

proof fn lemma_closed_if_block(rest: Seq<char>, condition: Seq<char>) -> (rest2: Seq<char>)
    requires
        tags_closed(rest),
    ensures
        if_block(rest, condition) == Some(((if_block(rest, condition)->0).0, rest2)),
        rest2.len() <= rest.len(),
        tags_closed(rest2),
    decreases rest.len(), 2int,
{
    lemma_closed_block_content(rest, kw_endif());
    let (inner, rest2) = block_content(rest, kw_endif());
    let (t, f) = split_once(inner, else_tag());
    let p = else_tag();
    match find(inner, p) {
        Some(i) => {
            if 0 <= i && i + p.len() <= inner.len() {
                assert(is_first_occurrence(inner, p, i));
                lemma_starts_with_open(inner, p, i);
                lemma_closed_prefix(inner, i);
                lemma_closed_suffix(inner, i + p.len());
            }
        },
        None => {},
    }
    lemma_closed_tags_parse(t);
    if let Some(fc) = f {
        lemma_closed_tags_parse(fc);
    }
    rest2
}

proof fn lemma_closed_foreach_block(rest: Seq<char>, key: Seq<char>, item_name: Seq<char>) -> (rest2:
    Seq<char>)
    requires
        tags_closed(rest),
    ensures
        foreach_block(rest, key, item_name) == Some(
            ((foreach_block(rest, key, item_name)->0).0, rest2),
        ),
        rest2.len() <= rest.len(),
        tags_closed(rest2),
    decreases rest.len(), 2int,
{
    lemma_closed_block_content(rest, kw_endforeach());
    let (inner, rest2) = block_content(rest, kw_endforeach());
    lemma_closed_tags_parse(inner);
    rest2
}

} // verus!

verus! {

/// The text of a sequence of nodes that are all text nodes, one after
/// another; `None` when one of them is not a text node.
pub open spec fn plain_text_of(ns: Seq<Template>) -> Option<Seq<char>>
    decreases ns.len(),
{
    if ns.len() == 0 {
        Some(Seq::empty())
    } else {
        match (ns[0], plain_text_of(ns.drop_first())) {
            (Template::StringContent(s), Some(r)) => Some(s + r),
            _ => None,
        }
    }
}

/// Scanning `rem` from the left, every tag (from a `{{` to the next `}}`)
/// is closed and opens no `if` or `foreach` block.
pub open spec fn scanned_tags_plain(rem: Seq<char>) -> bool
    decreases rem.len(),
{
    match find(rem, open_tag()) {
        None => true,
        Some(o) => {
            if 0 <= o && o + 2 <= rem.len() {
                match find(rem.skip(o), close_tag()) {
                    None => false,
                    Some(c) => {
                        if 2 <= c && o + c + 2 <= rem.len() {
                            let w = words(rem.subrange(o + 2, o + c));
                            !opens_if(w) && !opens_foreach(w) && scanned_tags_plain(
                                rem.skip(o + c + 2),
                            )
                        } else {
                            false
                        }
                    },
                }
            } else {
                false
            }
        },
    }
}

/// `rem` with every scanned tag, from its `{{` to its `}}`, deleted.
pub open spec fn strip_tags(rem: Seq<char>) -> Seq<char>
    decreases rem.len(),
{
    match find(rem, open_tag()) {
        None => rem,
        Some(o) => {
            if 0 <= o && o + 2 <= rem.len() {
                match find(rem.skip(o), close_tag()) {
                    None => rem,
                    Some(c) => {
                        if 2 <= c && o + c + 2 <= rem.len() {
                            rem.take(o) + strip_tags(rem.skip(o + c + 2))
                        } else {
                            rem
                        }
                    },
                }
            } else {
                rem
            }
        },
    }
}

/// A text whose tags are all closed and open no block parses into text
/// nodes only, whose texts together are the text with its tags deleted.
pub proof fn lemma_plain_tags_deleted(c: Seq<char>)
    requires
        scanned_tags_plain(c),
    ensures
        parse_template(c) matches Some(Template::Composite(ns)) && plain_text_of(ns) == Some(
            strip_tags(c),
        ),
    decreases c.len(),
{
    reveal(parse_nodes);
    match find(c, open_tag()) {
        None => {
            let ns = text_nodes(c);
            assert(parse_nodes(c) == Some(ns));
            assert(strip_tags(c) == c);
            if c.len() > 0 {
                assert(ns.drop_first() =~= Seq::<Template>::empty());
                assert(c + Seq::<char>::empty() =~= c);
                assert(plain_text_of(ns.drop_first()) == Some(Seq::<char>::empty()));
            }
            assert(plain_text_of(ns) == Some(c));
        },
        Some(o) => {
            let k = find(c.skip(o), close_tag())->0;
            let rest = c.skip(o + k + 2);
            lemma_plain_tags_deleted(rest);
            let ns2 = parse_nodes(rest)->0;
            let pre = text_nodes(c.take(o));
            let ns = pre + ns2;
            assert(parse_nodes(c) == Some(ns));
            assert(strip_tags(c) == c.take(o) + strip_tags(rest));
            assert(plain_text_of(ns2) == Some(strip_tags(rest)));
            if o > 0 {
                assert(ns[0] == Template::StringContent(c.take(o)));
                assert(ns.drop_first() =~= ns2);
                assert(plain_text_of(ns) == Some(c.take(o) + strip_tags(rest)));
            } else {
                assert(ns =~= ns2);
                assert(c.take(o) + strip_tags(rest) =~= strip_tags(rest));
            }
            assert(parse_template(c) == Some(Template::Composite(ns)));
        },
    }
}

} // verus!

verus! {

/// The text `{{` + `tag` + `}}` + `c` + `{{ endif }}`.
pub open spec fn if_text(tag: Seq<char>, c: Seq<char>) -> Seq<char> {
    open_tag() + tag + close_tag() + c + end_pattern(kw_endif())
}

/// No character of `s` is `}`.
pub open spec fn close_free(s: Seq<char>) -> bool {
    forall|i: int| 0 <= i < s.len() ==> s[i] != '}'
}

/// A text without `{` holds no `{{`.
proof fn lemma_brace_free_plain(c: Seq<char>)
    requires
        brace_free(c),
    ensures
        !contains(c, open_tag()),
        forall|j: int| !occurs_at(c, else_tag(), j),
{
    assert forall|j: int| !occurs_at(c, open_tag(), j) by {
        if occurs_at(c, open_tag(), j) {
            assert(c.subrange(j, j + 2)[0] == c[j]);
        }
    }
    assert forall|j: int| !occurs_at(c, else_tag(), j) by {
        if occurs_at(c, else_tag(), j) {
            assert(c.subrange(j, j + 10)[0] == c[j]);
        }
    }
}

/// An occurrence of `p` before which no character is the first of `p` is
/// the first one.
proof fn lemma_first_by_head(s: Seq<char>, p: Seq<char>, i: int)
    requires
        p.len() > 0,
        occurs_at(s, p, i),
        forall|j: int| 0 <= j < i ==> s[j] != p[0],
    ensures
        find(s, p) == Some(i),
{
    assert forall|j: int| 0 <= j < i implies !occurs_at(s, p, j) by {
        if occurs_at(s, p, j) {
            assert(s.subrange(j, j + p.len())[0] == s[j]);
        }
    }
    lemma_first_occurrence_is_found(s, p, i);
}

/// The first `{{` of an `if` text is at its start.
proof fn lemma_if_text_open(tag: Seq<char>, c: Seq<char>)
    ensures
        find(if_text(tag, c), open_tag()) == Some(0int),
        if_text(tag, c).skip(0) == if_text(tag, c),
        if_text(tag, c).take(0) =~= Seq::<char>::empty(),
{
    let s = if_text(tag, c);
    assert(s.subrange(0, 2) =~= open_tag());
    lemma_first_occurrence_is_found(s, open_tag(), 0);
    assert(s.skip(0) =~= s);
}

/// The parts of an `if` text.
proof fn lemma_if_text_parts(tag: Seq<char>, c: Seq<char>)
    ensures
        if_text(tag, c) == (open_tag() + tag) + (close_tag() + (c + end_pattern(kw_endif()))),
        if_text(tag, c).subrange(2, tag.len() as int + 2) == tag,
        if_text(tag, c).subrange(tag.len() as int + 2, tag.len() as int + 4) == close_tag(),
        if_text(tag, c).skip(tag.len() as int + 4) == c + end_pattern(kw_endif()),
{
    let s = if_text(tag, c);
    let l: int = tag.len() as int;
    assert(s =~= (open_tag() + tag) + (close_tag() + (c + end_pattern(kw_endif()))));
    assert(s.subrange(2, l + 2) =~= tag);
    assert(s.subrange(l + 2, l + 4) =~= close_tag());
    assert(s.skip(l + 4) =~= c + end_pattern(kw_endif()));
}

/// The first `}}` of an `if` text whose tag has no `}` closes the tag.
proof fn lemma_if_text_close(tag: Seq<char>, c: Seq<char>)
    requires
        close_free(tag),
    ensures
        find(if_text(tag, c), close_tag()) == Some(tag.len() as int + 2),
{
    let s = if_text(tag, c);
    let l: int = tag.len() as int;
    lemma_if_text_parts(tag, c);
    let head = open_tag() + tag;
    assert forall|j: int| 0 <= j < l + 2 implies s[j] != close_tag()[0] by {
        assert(s[j] == head[j]);
        if j >= 2 {
            assert(head[j] == tag[j - 2]);
        }
    }
    lemma_first_by_head(s, close_tag(), l + 2);
}

/// The `if` block whose content `c` has no `{` and is closed by
/// `{{ endif }}` at the end of the text.
proof fn lemma_if_block_of_plain(k: Seq<char>, c: Seq<char>)
    requires
        brace_free(c),
    ensures
        if_block(c + end_pattern(kw_endif()), k) == Some(
            (
                Template::IfBlock {
                    condition: k,
                    true_branch: Box::new(Template::Composite(text_nodes(c))),
                    false_branch: None,
                },
                Seq::<char>::empty(),
            ),
        ),
{
    let e = end_pattern(kw_endif());
    let rest = c + e;
    let lc: int = c.len() as int;
    assert(rest.subrange(lc, lc + e.len()) =~= e);
    assert forall|j: int| 0 <= j < lc implies rest[j] != e[0] by {
        assert(rest[j] == c[j]);
    }
    lemma_first_by_head(rest, e, lc);
    assert(rest.take(lc) =~= c);
    assert(rest.skip(lc + e.len()) =~= Seq::<char>::empty());
    assert(block_content(rest, kw_endif()) == (c, Seq::<char>::empty()));
    lemma_brace_free_plain(c);
    lemma_no_occurrence_not_found(c, else_tag());
    assert(split_once(c, else_tag()) == (c, Option::<Seq<char>>::None));
    crate::laws::lemma_plain_text_round_trip(c, Seq::empty(), Seq::empty());
}

/// The empty text parses to no nodes.
proof fn lemma_parse_nodes_empty()
    ensures
        parse_nodes(Seq::<char>::empty()) == Some(Seq::<Template>::empty()),
{
    reveal(parse_nodes);
    let empty = Seq::<char>::empty();
    lemma_no_occurrence_not_found(empty, open_tag());
    assert(text_nodes(empty) =~= Seq::<Template>::empty());
}

/// A text that is one `if` tag and a block that ends the text parses to
/// that block alone.
proof fn lemma_if_text_parses_to(tag: Seq<char>, k: Seq<char>, c: Seq<char>, n: Template)
    requires
        words(tag) == seq![kw_if(), k],
        close_free(tag),
        if_block(c + end_pattern(kw_endif()), k) == Some((n, Seq::<char>::empty())),
    ensures
        parse_template(if_text(tag, c)) == Some(Template::Composite(seq![n])),
{
    let s = if_text(tag, c);
    lemma_if_text_open(tag, c);
    lemma_if_text_parts(tag, c);
    lemma_if_text_close(tag, c);
    lemma_parse_nodes_empty();
    assert(text_nodes(s.take(0)) =~= Seq::<Template>::empty());
    assert(Seq::<Template>::empty().push(n) + Seq::<Template>::empty() =~= seq![n]);
    assert(parse_nodes(s) == Some(seq![n])) by {
        reveal(parse_nodes);
    }
}

/// An `if` block whose content has no `{` parses to a conditional whose
/// true branch is that content as text and which has no false branch:
/// `{{ if k }}` + `c` + `{{ endif }}` keeps `c` as what the block shows when
/// `k` is defined.
pub proof fn lemma_if_block_keeps_content(tag: Seq<char>, k: Seq<char>, c: Seq<char>)
    requires
        words(tag) == seq![kw_if(), k],
        close_free(tag),
        brace_free(c),
    ensures
        parse_template(if_text(tag, c)) == Some(
            Template::Composite(
                seq![
                    Template::IfBlock {
                        condition: k,
                        true_branch: Box::new(Template::Composite(text_nodes(c))),
                        false_branch: None,
                    },
                ],
            ),
        ),
{
    lemma_if_block_of_plain(k, c);
    lemma_if_text_parses_to(
        tag,
        k,
        c,
        Template::IfBlock {
            condition: k,
            true_branch: Box::new(Template::Composite(text_nodes(c))),
            false_branch: None,
        },
    );
}

/// The `if` block `t` + `{{ else }}` + `f` + `{{ endif }}`, with `t` and `f`
/// without `{`, that ends the text.
#[verifier::spinoff_prover]
proof fn lemma_if_else_block_of_plain(k: Seq<char>, t: Seq<char>, f: Seq<char>)
    requires
        brace_free(t),
        brace_free(f),
    ensures
        if_block(t + else_tag() + f + end_pattern(kw_endif()), k) == Some(
            (
                Template::IfBlock {
                    condition: k,
                    true_branch: Box::new(Template::Composite(text_nodes(t))),
                    false_branch: Some(Box::new(Template::Composite(text_nodes(f)))),
                },
                Seq::<char>::empty(),
            ),
        ),
{
    let e = end_pattern(kw_endif());
    let x = else_tag();
    let inner = t + x + f;
    let rest = inner + e;
    let lt: int = t.len() as int;
    let m: int = inner.len() as int;
    assert(rest.subrange(m, m + e.len()) =~= e);
    assert forall|j: int| 0 <= j < m implies !occurs_at(rest, e, j) by {
        if occurs_at(rest, e, j) {
            assert(rest.subrange(j, j + e.len())[0] == rest[j]);
            if j < lt {
                assert(rest[j] == t[j]);
            } else if j < lt + 10 {
                assert(rest[j] == x[j - lt]);
                if j == lt {
                    assert(rest.subrange(j, j + e.len())[4] == rest[j + 4]);
                    assert(rest[j + 4] == x[4]);
                } else if j == lt + 1 {
                    assert(rest.subrange(j, j + e.len())[2] == rest[j + 2]);
                    assert(rest[j + 2] == x[3]);
                }
            } else {
                assert(rest[j] == f[j - lt - 10]);
            }
        }
    }
    lemma_first_occurrence_is_found(rest, e, m);
    assert(rest.take(m) =~= inner);
    assert(rest.skip(m + e.len()) =~= Seq::<char>::empty());
    assert(block_content(rest, kw_endif()) == (inner, Seq::<char>::empty()));
    assert(inner.subrange(lt, lt + 10) =~= x);
    assert forall|j: int| 0 <= j < lt implies inner[j] != x[0] by {
        assert(inner[j] == t[j]);
    }
    lemma_first_by_head(inner, x, lt);
    assert(inner.take(lt) =~= t);
    assert(inner.skip(lt + 10) =~= f);
    assert(split_once(inner, x) == (t, Some(f)));
    lemma_brace_free_plain(t);
    lemma_brace_free_plain(f);
    crate::laws::lemma_plain_text_round_trip(t, Seq::empty(), Seq::empty());
    crate::laws::lemma_plain_text_round_trip(f, Seq::empty(), Seq::empty());
}

/// An `if` block with an `{{ else }}`, both of whose parts have no `{`,
/// parses to a conditional whose true branch is the text before the
/// `{{ else }}` and whose false branch is the text after it.
pub proof fn lemma_if_else_block_branches(tag: Seq<char>, k: Seq<char>, t: Seq<char>, f: Seq<char>)
    requires
        words(tag) == seq![kw_if(), k],
        close_free(tag),
        brace_free(t),
        brace_free(f),
    ensures
        parse_template(if_text(tag, t + else_tag() + f)) == Some(
            Template::Composite(
                seq![
                    Template::IfBlock {
                        condition: k,
                        true_branch: Box::new(Template::Composite(text_nodes(t))),
                        false_branch: Some(Box::new(Template::Composite(text_nodes(f)))),
                    },
                ],
            ),
        ),
{
    lemma_if_else_block_of_plain(k, t, f);
    lemma_if_text_parses_to(
        tag,
        k,
        t + else_tag() + f,
        Template::IfBlock {
            condition: k,
            true_branch: Box::new(Template::Composite(text_nodes(t))),
            false_branch: Some(Box::new(Template::Composite(text_nodes(f)))),
        },
    );
}

/// A layout evaluates the control blocks of its substituted text in the
/// context it renders in. Its text is its content, put in place of
/// `{{ content }}` in the output `po` of its parent when it has one; when
/// that text, after the layout's front matter and the context's
/// substitutions, is an `if` block on `k` around text `c` without `{`, the
/// layout shows `c` exactly when `k` names a string of the context, and
/// nothing otherwise.
#[verifier::spinoff_prover]
pub proof fn lemma_layout_blocks_see_context(
    name: Seq<char>,
    fm: Pairs,
    content: Seq<char>,
    parent: Option<Box<Template>>,
    po: Seq<char>,
    frames: Seq<Frame>,
    g: Pairs,
    tag: Seq<char>,
    k: Seq<char>,
    c: Seq<char>,
)
    requires
        match parent {
            None => apply_subs(subst_all(content, fm), frames, g) == if_text(tag, c),
            Some(p) => render_spec(*p, frames, g) == Some(po) && apply_subs(
                subst_all(replace_all(po, content_tag(), content), fm),
                frames,
                g,
            ) == if_text(tag, c),
        },
        words(tag) == seq![kw_if(), k],
        close_free(tag),
        brace_free(c),
    ensures
        render_spec(Template::Layout { name, front_matter: fm, content, parent }, frames, g)
            == Some(if chain_lookup(frames, k) is Some { c } else { Seq::empty() }),
{
    lemma_if_block_keeps_content(tag, k, c);
    lemma_if_renders(k, c, frames);
}

/// The composite of one `if` block on `k` around the text `c` without `{`
/// shows `c` when `k` names a string of `frames`, and nothing otherwise.
#[verifier::spinoff_prover]
proof fn lemma_if_renders(k: Seq<char>, c: Seq<char>, frames: Seq<Frame>)
    requires
        brace_free(c),
    ensures
        render_frag(
            Template::Composite(
                seq![
                    Template::IfBlock {
                        condition: k,
                        true_branch: Box::new(Template::Composite(text_nodes(c))),
                        false_branch: None,
                    },
                ],
            ),
            frames,
        ) == if chain_lookup(frames, k) is Some {
            c
        } else {
            Seq::empty()
        },
{
    lemma_brace_free_plain(c);
    crate::laws::lemma_plain_text_round_trip(c, frames, Seq::empty());
    let n = Template::IfBlock {
        condition: k,
        true_branch: Box::new(Template::Composite(text_nodes(c))),
        false_branch: None,
    };
    let ns = seq![n];
    assert(ns.subrange(0, 0) =~= Seq::<Template>::empty());
    assert(ns.last() == n);
    assert(render_frag_seq(Seq::<Template>::empty(), frames) == Seq::<char>::empty());
    let out = if chain_lookup(frames, k) is Some { c } else { Seq::<char>::empty() };
    assert(render_frag(n, frames) == out);
    assert(render_frag_seq(ns, frames) =~= out);
}

/// The first `---` of `a` + `---` + `b` is the one after `a`, when `a`
/// holds no `---` and does not end in `-`.
#[verifier::spinoff_prover]
proof fn lemma_fence_after(a: Seq<char>, b: Seq<char>)
    requires
        !contains(a, fence()),
        a.len() == 0 || a.last() != '-',
    ensures
        find(a + fence() + b, fence()) == Some(a.len() as int),
{
    let r = a + fence() + b;
    let l: int = a.len() as int;
    assert(r.subrange(l, l + 3) =~= fence());
    assert forall|j: int| 0 <= j < l implies !occurs_at(r, fence(), j) by {
        if occurs_at(r, fence(), j) {
            if j + 3 <= l {
                assert(a.subrange(j, j + 3) =~= r.subrange(j, j + 3));
                assert(occurs_at(a, fence(), j));
            } else {
                assert(r.subrange(j, j + 3)[l - 1 - j] == r[l - 1]);
                assert(r[l - 1] == a[l - 1]);
            }
        }
    }
    lemma_first_occurrence_is_found(r, fence(), l);
}

/// A document that starts with `---`, then the text `a` (without `---`,
/// and not ending in `-`), another `---` and the text `b` splits into the
/// front matter `a` and the body `b`, each trimmed: the body is everything
/// after the second fence, fences in it included.
pub proof fn lemma_front_matter_fences(a: Seq<char>, b: Seq<char>)
    requires
        !contains(a, fence()),
        a.len() == 0 || a.last() != '-',
    ensures
        split_front_matter(fence() + a + fence() + b) == (trim(a), trim(b)),
{
    let c = fence() + a + fence() + b;
    let l: int = a.len() as int;
    lemma_fence_after(a, b);
    assert(c.take(3) =~= fence());
    assert(c.skip(3) =~= a + fence() + b);
    assert(c.subrange(3, 3 + l) =~= a);
    assert(c.skip(3 + l + 3) =~= b);
}

/// The page built from a document keeps the front matter that its YAML
/// gives, with the page's defaults added: every key of the YAML reads its
/// value, `layout` reads `default` and `title` the file stem of the path
/// when the YAML lacks them, and no other key is present.
pub proof fn lemma_page_keeps_front_matter(
    base: Seq<char>,
    path: Seq<char>,
    content: Seq<char>,
    layout: Template,
    k: Seq<char>,
)
    requires
        page_spec(base, path, content, layout) is Some,
    ensures
        ({
            let raw = match yaml_front_matter(split_front_matter(content).0) {
                Some(p) => p,
                None => Seq::empty(),
            };
            page_spec(base, path, content, layout)->0 matches Template::Page { front_matter, .. }
                && lookup(front_matter, k) == if lookup(raw, k) is Some {
                lookup(raw, k)
            } else if k == layout_key() {
                Some(default_name())
            } else if k == title_key() {
                path_file_stem(path)
            } else {
                None
            }
        }),
{
    let raw = match yaml_front_matter(split_front_matter(content).0) {
        Some(p) => p,
        None => Seq::empty(),
    };
    lemma_page_defaults_keep_keys(raw, path_file_stem(path), k);
}

} // verus!
