//! Front matter and control blocks: the text formats of pages and layouts.
use std::rc::Rc;
use vstd::prelude::*;

use crate::node::{is_fragment, lemma_fragments_all, nodes_model, Template, TemplateNode};
use crate::text::{
    chars_of, extend_range, find, find_from, lemma_occurs_in_skip, split_words, string_of, sub_chars,
    trim, trim_bounds, words, chars_eq,
};

verus! {

/// `---`, the front matter fence.
pub open spec fn fence() -> Seq<char> {
    seq!['-', '-', '-']
}

/// `{{`, which opens a tag.
pub open spec fn open_tag() -> Seq<char> {
    seq!['{', '{']
}

/// `}}`, which closes a tag.
pub open spec fn close_tag() -> Seq<char> {
    seq!['}', '}']
}

/// `{{ else }}`, which separates the two branches of an `if` block.
pub open spec fn else_tag() -> Seq<char> {
    seq!['{', '{', ' ', 'e', 'l', 's', 'e', ' ', '}', '}']
}

pub open spec fn kw_if() -> Seq<char> {
    seq!['i', 'f']
}

pub open spec fn kw_endif() -> Seq<char> {
    seq!['e', 'n', 'd', 'i', 'f']
}

pub open spec fn kw_foreach() -> Seq<char> {
    seq!['f', 'o', 'r', 'e', 'a', 'c', 'h']
}

pub open spec fn kw_endforeach() -> Seq<char> {
    seq!['e', 'n', 'd', 'f', 'o', 'r', 'e', 'a', 'c', 'h']
}

pub open spec fn kw_as() -> Seq<char> {
    seq!['a', 's']
}

/// The front matter and the body of a document: when it starts with `---`
/// and a second `---` follows, the trimmed text between the fences and the
/// trimmed text after the second one; otherwise no front matter and the
/// whole document.
pub open spec fn split_front_matter(c: Seq<char>) -> (Seq<char>, Seq<char>) {
    if c.len() >= 3 && c.take(3) == fence() {
        match find(c.skip(3), fence()) {
            Some(j) => {
                if 0 <= j && 3 + j + 3 <= c.len() {
                    (trim(c.subrange(3, 3 + j)), trim(c.skip(3 + j + 3)))
                } else {
                    (Seq::empty(), c)
                }
            },
            None => (Seq::empty(), c),
        }
    } else {
        (Seq::empty(), c)
    }
}

/// `{{ tag }}`, the tag that closes a block.
pub open spec fn end_pattern(tag: Seq<char>) -> Seq<char> {
    seq!['{', '{', ' '] + tag + seq![' ', '}', '}']
}

/// The content of a block up to its end tag, and the text after the end
/// tag (empty when the end tag is missing or ends the text).
pub open spec fn block_content(c: Seq<char>, tag: Seq<char>) -> (Seq<char>, Seq<char>) {
    let p = end_pattern(tag);
    match find(c, p) {
        Some(e) => {
            if 0 <= e && e + p.len() <= c.len() {
                (c.take(e), c.skip(e + p.len()))
            } else {
                (c, Seq::empty())
            }
        },
        None => (c, Seq::empty()),
    }
}

/// `s` split at the first occurrence of `p`, if any.
pub open spec fn split_once(s: Seq<char>, p: Seq<char>) -> (Seq<char>, Option<Seq<char>>) {
    match find(s, p) {
        Some(i) => {
            if 0 <= i && i + p.len() <= s.len() {
                (s.take(i), Some(s.skip(i + p.len())))
            } else {
                (s, None)
            }
        },
        None => (s, None),
    }
}

/// A text node for `s`, when `s` is not empty.
pub open spec fn text_nodes(s: Seq<char>) -> Seq<Template> {
    if s.len() > 0 {
        seq![Template::StringContent(s)]
    } else {
        Seq::empty()
    }
}

/// `a` followed by the nodes of `r`, when parsing succeeded.
pub open spec fn prepend(a: Seq<Template>, r: Option<Seq<Template>>) -> Option<Seq<Template>> {
    match r {
        Some(b) => Some(a + b),
        None => None,
    }
}

/// The `if` block whose content starts `rest`: the content up to
/// `{{ endif }}`, split at its first `{{ else }}` into the two branches, and
/// the text after the block.
pub open spec fn if_block(rest: Seq<char>, condition: Seq<char>) -> Option<(Template, Seq<char>)>
    decreases rest.len(), 2int,
{
    let (inner, rest2) = block_content(rest, kw_endif());
    let (t, f) = split_once(inner, else_tag());
    if t.len() <= inner.len() <= rest.len() && (f matches Some(fc) ==> fc.len() <= inner.len()) {
        match parse_template(t) {
            Some(tt) => match f {
                None => Some(
                    (
                        Template::IfBlock {
                            condition,
                            true_branch: Box::new(tt),
                            false_branch: None,
                        },
                        rest2,
                    ),
                ),
                Some(fc) => match parse_template(fc) {
                    Some(ff) => Some(
                        (
                            Template::IfBlock {
                                condition,
                                true_branch: Box::new(tt),
                                false_branch: Some(Box::new(ff)),
                            },
                            rest2,
                        ),
                    ),
                    None => None,
                },
            },
            None => None,
        }
    } else {
        None
    }
}

/// The `foreach` block whose content starts `rest`: its body up to
/// `{{ endforeach }}` and the text after the block.
pub open spec fn foreach_block(rest: Seq<char>, key: Seq<char>, item_name: Seq<char>) -> Option<
    (Template, Seq<char>),
>
    decreases rest.len(), 2int,
{
    let (inner, rest2) = block_content(rest, kw_endforeach());
    if inner.len() <= rest.len() {
        match parse_template(inner) {
            Some(b) => Some((Template::ForEachBlock { key, item_name, body: Box::new(b) }, rest2)),
            None => None,
        }
    } else {
        None
    }
}

/// The words of a tag open an `if` block.
pub open spec fn opens_if(w: Seq<Seq<char>>) -> bool {
    w.len() == 2 && w[0] == kw_if()
}

/// The words of a tag open a `foreach` block.
pub open spec fn opens_foreach(w: Seq<Seq<char>>) -> bool {
    w.len() == 4 && w[0] == kw_foreach() && w[2] == kw_as()
}

/// The nodes of the text `rem`: text between tags stays text; `{{ if c }}`
/// opens a conditional (see [`if_block`]); `{{ foreach k as x }}` opens a
/// loop (see [`foreach_block`]); every other tag is dropped. `None` when a
/// `{{` has no `}}` after it.
pub open spec fn parse_nodes(rem: Seq<char>) -> Option<Seq<Template>>
    decreases rem.len(), 0int,
{
    match find(rem, open_tag()) {
        None => Some(text_nodes(rem)),
        Some(o) => {
            if !(0 <= o && o + 2 <= rem.len()) {
                None
            } else {
                let pre = text_nodes(rem.take(o));
                match find(rem.skip(o), close_tag()) {
                    None => None,
                    Some(c) => {
                        if !(2 <= c && o + c + 2 <= rem.len()) {
                            None
                        } else {
                            let tag = rem.subrange(o + 2, o + c);
                            let rest = rem.skip(o + c + 2);
                            let w = words(tag);
                            if opens_if(w) || opens_foreach(w) {
                                let block = if opens_if(w) {
                                    if_block(rest, w[1])
                                } else {
                                    foreach_block(rest, w[1], w[3])
                                };
                                match block {
                                    Some((n, rest2)) => {
                                        if rest2.len() < rem.len() {
                                            prepend(pre.push(n), parse_nodes(rest2))
                                        } else {
                                            None
                                        }
                                    },
                                    None => None,
                                }
                            } else {
                                prepend(pre, parse_nodes(rest))
                            }
                        }
                    },
                }
            }
        },
    }
}

/// The template that the text `c` parses to: the composite of its nodes.
pub open spec fn parse_template(c: Seq<char>) -> Option<Template>
    decreases c.len(), 1int,
{
    match parse_nodes(c) {
        Some(ns) => Some(Template::Composite(ns)),
        None => None,
    }
}

/// `else`.
pub open spec fn kw_else() -> Seq<char> {
    seq!['e', 'l', 's', 'e']
}

/// The words of a tag are just `else`: a stray `{{ else }}`, outside the
/// content of an `if` block, which parsing warns of.
pub open spec fn is_stray_else(w: Seq<Seq<char>>) -> bool {
    w.len() == 1 && w[0] == kw_else()
}

/// The views of a log of warnings.
#[verifier::opaque]
pub open spec fn log_view(v: Seq<String>) -> Seq<Seq<char>> {
    v.map_values(|x: String| x@)
}

/// The warnings that parsing an `if` block gives (see [`parse_log_nodes`]).
#[verifier::opaque]
pub open spec fn if_block_log(rest: Seq<char>) -> Seq<Seq<char>>
    decreases rest.len(), 2int,
{
    let (inner, rest2) = block_content(rest, kw_endif());
    let (t, f) = split_once(inner, else_tag());
    if t.len() <= inner.len() <= rest.len() && (f matches Some(fc) ==> fc.len() <= inner.len()) {
        parse_log(t) + match (parse_template(t), f) {
            (Some(_), Some(fc)) => parse_log(fc),
            _ => Seq::empty(),
        }
    } else {
        Seq::empty()
    }
}

/// The warnings that parsing a `foreach` block gives.
#[verifier::opaque]
pub open spec fn foreach_block_log(rest: Seq<char>) -> Seq<Seq<char>>
    decreases rest.len(), 2int,
{
    let (inner, rest2) = block_content(rest, kw_endforeach());
    if inner.len() <= rest.len() {
        parse_log(inner)
    } else {
        Seq::empty()
    }
}

/// The warnings that parsing the text `rem` gives, in the order the parse
/// meets them and up to where it stops: the word of every stray `else` tag,
/// also inside the blocks that it parses.
#[verifier::opaque]
pub open spec fn parse_log_nodes(rem: Seq<char>) -> Seq<Seq<char>>
    decreases rem.len(), 0int,
{
    match find(rem, open_tag()) {
        None => Seq::empty(),
        Some(o) => {
            if !(0 <= o && o + 2 <= rem.len()) {
                Seq::empty()
            } else {
                match find(rem.skip(o), close_tag()) {
                    None => Seq::empty(),
                    Some(c) => {
                        if !(2 <= c && o + c + 2 <= rem.len()) {
                            Seq::empty()
                        } else {
                            let tag = rem.subrange(o + 2, o + c);
                            let rest = rem.skip(o + c + 2);
                            let w = words(tag);
                            if opens_if(w) || opens_foreach(w) {
                                (if opens_if(w) {
                                    if_block_log(rest)
                                } else {
                                    foreach_block_log(rest)
                                }) + match tag_block(w, rest) {
                                    Some((n, rest2)) => {
                                        if rest2.len() < rem.len() {
                                            parse_log_nodes(rest2)
                                        } else {
                                            Seq::empty()
                                        }
                                    },
                                    None => Seq::empty(),
                                }
                            } else if is_stray_else(w) {
                                seq![w[0]] + parse_log_nodes(rest)
                            } else {
                                parse_log_nodes(rest)
                            }
                        }
                    },
                }
            }
        },
    }
}

/// The warnings that parsing the text `c` gives (see [`parse_log_nodes`]).
pub open spec fn parse_log(c: Seq<char>) -> Seq<Seq<char>>
    decreases c.len(), 1int,
{
    parse_log_nodes(c)
}

/// Splits `content` into its front matter and its body (see
/// [`split_front_matter`]).
pub fn parse_front_matter(content: &str) -> (res: (String, String))
    ensures
        (res.0@, res.1@) == split_front_matter(content@),
{
    let c = chars_of(content);
    let fence_v: Vec<char> = vec!['-', '-', '-'];
    assert(fence_v@ =~= fence());
    if c.len() >= 3 && c[0] == '-' && c[1] == '-' && c[2] == '-' {
        assert(c@.take(3) =~= fence());
        match find_from(c.as_slice(), fence_v.as_slice(), 3) {
            Some(j) => {
                proof {
                    lemma_occurs_in_skip(c@, fence(), 3, j - 3);
                }
                let (a1, b1) = trim_bounds(c.as_slice(), 3, j);
                let (a2, b2) = trim_bounds(c.as_slice(), j + 3, c.len());
                assert(c@.subrange(j + 3, c@.len() as int) =~= c@.skip(j + 3));
                let front = sub_chars(c.as_slice(), a1, b1);
                let body = sub_chars(c.as_slice(), a2, b2);
                (string_of(front.as_slice()), string_of(body.as_slice()))
            },
            None => (String::new(), content.to_owned()),
        }
    } else {
        if c.len() >= 3 {
            assert(c@.take(3)[0] == c@[0]);
            assert(c@.take(3)[1] == c@[1]);
            assert(c@.take(3)[2] == c@[2]);
        }
        (String::new(), content.to_owned())
    }
}

/// The characters of `{{ tag }}`.
fn end_pattern_chars(tag: &[char]) -> (res: Vec<char>)
    ensures
        res@ == end_pattern(tag@),
{
    let mut p: Vec<char> = vec!['{', '{', ' '];
    let n = tag.len();
    extend_range(&mut p, tag, 0, n);
    p.push(' ');
    p.push('}');
    p.push('}');
    assert(tag@.subrange(0, n as int) =~= tag@);
    assert(p@ =~= end_pattern(tag@));
    p
}

/// Where the block that starts at `start` ends: the end of its content and
/// where the text after its end tag starts.
fn block_bounds(s: &[char], start: usize, tag: &[char]) -> (res: (usize, usize))
    requires
        start <= s@.len(),
    ensures
        start <= res.0 <= res.1 <= s@.len(),
        block_content(s@.skip(start as int), tag@) == (
            s@.subrange(start as int, res.0 as int),
            s@.skip(res.1 as int),
        ),
{
    let p = end_pattern_chars(tag);
    let ghost t = s@.skip(start as int);
    match find_from(s, p.as_slice(), start) {
        Some(e) => {
            proof {
                lemma_occurs_in_skip(s@, p@, start as int, e - start);
            }
            assert(t.take(e - start) =~= s@.subrange(start as int, e as int));
            assert(t.skip(e - start + p@.len()) =~= s@.skip(e + p@.len()));
            assert(e + p@.len() <= s.len());
            (e, e + p.len())
        },
        None => {
            assert(t =~= s@.subrange(start as int, s@.len() as int));
            assert(s@.skip(s@.len() as int) =~= Seq::<char>::empty());
            (s.len(), s.len())
        },
    }
}

/// Splits `content` at the first `{{ end_tag }}` into the block content and
/// the text after the tag (see [`block_content`]).
pub fn parse_block_content(content: &str, end_tag: &str) -> (res: (String, String))
    ensures
        (res.0@, res.1@) == block_content(content@, end_tag@),
{
    let c = chars_of(content);
    let t = chars_of(end_tag);
    let (e, a) = block_bounds(c.as_slice(), 0, t.as_slice());
    assert(c@.skip(0) =~= c@);
    let inner = sub_chars(c.as_slice(), 0, e);
    let rest = sub_chars(c.as_slice(), a, c.len());
    assert(c@.subrange(a as int, c@.len() as int) =~= c@.skip(a as int));
    (string_of(inner.as_slice()), string_of(rest.as_slice()))
}

/// The models of `v` after pushing `x`.
proof fn lemma_nodes_model_push(v: Seq<TemplateNode>, x: TemplateNode)
    ensures
        nodes_model(v.push(x)) == nodes_model(v).push(x@),
{
    assert(nodes_model(v.push(x)) =~= nodes_model(v).push(x@));
}

/// All nodes of `v` are fragments.
pub open spec fn all_fragments(v: Seq<Template>) -> bool {
    forall|i: int| 0 <= i < v.len() ==> is_fragment(#[trigger] v[i])
}

/// The composite of `v` is its own model.
proof fn lemma_composite_model(v: Vec<TemplateNode>)
    ensures
        (TemplateNode::Composite(v))@ == Template::Composite(nodes_model(v@)),
        all_fragments(nodes_model(v@)) ==> is_fragment((TemplateNode::Composite(v))@),
{
    let c = TemplateNode::Composite(v);
    let ns = nodes_model(v@);
    assert(c@ == Template::Composite(ns)) by {
        if let Template::Composite(ms) = c@ {
            assert(ms =~= ns);
        }
    }
    if all_fragments(ns) {
        lemma_fragments_all(ns);
        assert(is_fragment(Template::Composite(ns)));
    }
}

/// The nodes of a text without tags.
proof fn lemma_parse_untagged(rem: Seq<char>)
    requires
        find(rem, open_tag()) is None,
    ensures
        parse_nodes(rem) == Some(text_nodes(rem)),
{
    reveal(parse_nodes);
}

/// A tag that is never closed.
proof fn lemma_parse_unclosed(rem: Seq<char>, o: int)
    requires
        find(rem, open_tag()) == Some(o),
        0 <= o && o + 2 <= rem.len(),
        find(rem.skip(o), close_tag()) is None,
    ensures
        parse_nodes(rem) is None,
{
    reveal(parse_nodes);
}

/// The block that a tag opens, if any, with the text after it.
pub open spec fn tag_block(w: Seq<Seq<char>>, rest: Seq<char>) -> Option<(Template, Seq<char>)> {
    if opens_if(w) {
        if_block(rest, w[1])
    } else {
        foreach_block(rest, w[1], w[3])
    }
}

/// One tag, from `o` to `c`, read at `k`.
proof fn lemma_parse_tag(s: Seq<char>, k: int, o: int, c: int)
    requires
        0 <= k <= o,
        o + 2 <= c,
        c + 2 <= s.len(),
        find(s.skip(k), open_tag()) == Some(o - k),
        find(s.skip(k).skip(o - k), close_tag()) == Some(c - o),
    ensures
        ({
            let pre = text_nodes(s.subrange(k, o));
            let w = words(s.subrange(o + 2, c));
            let rest = s.skip(c + 2);
            parse_nodes(s.skip(k)) == if opens_if(w) || opens_foreach(w) {
                match tag_block(w, rest) {
                    Some((n, rest2)) => {
                        if rest2.len() < s.len() - k {
                            prepend(pre.push(n), parse_nodes(rest2))
                        } else {
                            None
                        }
                    },
                    None => None,
                }
            } else {
                prepend(pre, parse_nodes(rest))
            }
        }),
{
    reveal(parse_nodes);
    let rem = s.skip(k);
    assert(rem.take(o - k) =~= s.subrange(k, o));
    assert(rem.subrange(o - k + 2, o - k + (c - o)) =~= s.subrange(o + 2, c));
    assert(rem.skip(o - k + (c - o) + 2) =~= s.skip(c + 2));
}

/// The warnings of a text without tags.
proof fn lemma_log_untagged(rem: Seq<char>)
    requires
        find(rem, open_tag()) is None,
    ensures
        parse_log_nodes(rem) == Seq::<Seq<char>>::empty(),
{
    reveal(parse_log_nodes);
}

/// The warnings of a text whose first tag is never closed.
proof fn lemma_log_unclosed(rem: Seq<char>, o: int)
    requires
        find(rem, open_tag()) == Some(o),
        0 <= o && o + 2 <= rem.len(),
        find(rem.skip(o), close_tag()) is None,
    ensures
        parse_log_nodes(rem) == Seq::<Seq<char>>::empty(),
{
    reveal(parse_log_nodes);
}

/// The warnings of one tag, from `o` to `c`, read at `k`, and of the rest.
#[verifier::spinoff_prover]
#[verifier::rlimit(40)]
proof fn lemma_log_tag(s: Seq<char>, k: int, o: int, c: int)
    requires
        0 <= k <= o,
        o + 2 <= c,
        c + 2 <= s.len(),
        find(s.skip(k), open_tag()) == Some(o - k),
        find(s.skip(k).skip(o - k), close_tag()) == Some(c - o),
    ensures
        ({
            let w = words(s.subrange(o + 2, c));
            let rest = s.skip(c + 2);
            parse_log_nodes(s.skip(k)) == if opens_if(w) || opens_foreach(w) {
                (if opens_if(w) {
                    if_block_log(rest)
                } else {
                    foreach_block_log(rest)
                }) + match tag_block(w, rest) {
                    Some((n, rest2)) => {
                        if rest2.len() < s.len() - k {
                            parse_log_nodes(rest2)
                        } else {
                            Seq::empty()
                        }
                    },
                    None => Seq::empty(),
                }
            } else if is_stray_else(w) {
                seq![w[0]] + parse_log_nodes(rest)
            } else {
                parse_log_nodes(rest)
            }
        }),
{
    reveal(parse_log_nodes);
    let rem = s.skip(k);
    assert(rem.subrange(o - k + 2, o - k + (c - o)) =~= s.subrange(o + 2, c));
    assert(rem.skip(o - k + (c - o) + 2) =~= s.skip(c + 2));
}

/// The log after pushing one warning.
proof fn lemma_log_push(v: Seq<String>, x: String)
    ensures
        log_view(v.push(x)) == log_view(v).push(x@),
{
    reveal(log_view);
    assert(log_view(v.push(x)) =~= log_view(v).push(x@));
}

/// Parses the `if` block whose content starts at `start` (see [`if_block`]);
/// also returns where the text after the block starts.
#[verifier::rlimit(40)]
#[verifier::spinoff_prover]
fn parse_if_block(s: &[char], start: usize, condition: &[char], log: &mut Vec<String>) -> (res: Option<
    (TemplateNode, usize),
>)
    requires
        start <= s@.len(),
    ensures
        log_view(final(log)@) == log_view(old(log)@) + if_block_log(s@.skip(start as int)),
        match res {
            Some((n, a)) => start <= a <= s@.len() && if_block(s@.skip(start as int), condition@)
                == Some((n@, s@.skip(a as int))) && is_fragment(n@),
            None => if_block(s@.skip(start as int), condition@) is None,
        },
    decreases s@.len() - start, 2int,
{
    reveal(if_block_log);
    let else_v: Vec<char> = vec!['{', '{', ' ', 'e', 'l', 's', 'e', ' ', '}', '}'];
    let endif_v: Vec<char> = vec!['e', 'n', 'd', 'i', 'f'];
    assert(else_v@ =~= else_tag());
    assert(endif_v@ =~= kw_endif());
    let (e, a) = block_bounds(s, start, endif_v.as_slice());
    let inner = sub_chars(s, start, e);
    let split = find_from(inner.as_slice(), else_v.as_slice(), 0);
    assert(inner@.skip(0) =~= inner@);
    let (t, f) = match split {
        Some(i) => {
            proof {
                lemma_occurs_in_skip(inner@, else_tag(), 0, i as int);
            }
            assert(i + 10 <= inner.len());
            let t = sub_chars(inner.as_slice(), 0, i);
            let f = sub_chars(inner.as_slice(), i + 10, inner.len());
            assert(t@ =~= inner@.take(i as int));
            assert(f@ =~= inner@.skip(i + 10));
            (t, Some(f))
        },
        None => {
            let t = sub_chars(inner.as_slice(), 0, inner.len());
            assert(t@ =~= inner@);
            (t, None)
        },
    };
    let ghost l0 = log_view(log@);
    let true_node = match parse_template_chars(t.as_slice(), log) {
        Some(n) => n,
        None => {
            assert(log_view(log@) =~= l0 + parse_log(t@) + Seq::<Seq<char>>::empty());
            return None;
        },
    };
    let false_node = match &f {
        Some(fc) => match parse_template_chars(fc.as_slice(), log) {
            Some(n) => Some(Rc::new(n)),
            None => {
                assert(log_view(log@) =~= l0 + (parse_log(t@) + parse_log(fc@)));
                return None;
            },
        },
        None => {
            assert(log_view(log@) =~= l0 + (parse_log(t@) + Seq::<Seq<char>>::empty()));
            None
        },
    };
    proof {
        if let Some(fc) = f {
            assert(log_view(log@) =~= l0 + (parse_log(t@) + parse_log(fc@)));
        }
    }
    let cond = string_of(condition);
    let node = TemplateNode::IfBlock {
        condition: cond,
        true_branch: Rc::new(true_node),
        false_branch: false_node,
    };
    Some((node, a))
}

/// Parses the `foreach` block whose content starts at `start` (see
/// [`foreach_block`]); also returns where the text after the block starts.
fn parse_foreach_block(
    s: &[char],
    start: usize,
    key: &[char],
    item_name: &[char],
    log: &mut Vec<String>,
) -> (res: Option<(TemplateNode, usize)>)
    requires
        start <= s@.len(),
    ensures
        log_view(final(log)@) == log_view(old(log)@) + foreach_block_log(s@.skip(start as int)),
        match res {
            Some((n, a)) => start <= a <= s@.len() && foreach_block(
                s@.skip(start as int),
                key@,
                item_name@,
            ) == Some((n@, s@.skip(a as int))) && is_fragment(n@),
            None => foreach_block(s@.skip(start as int), key@, item_name@) is None,
        },
    decreases s@.len() - start, 2int,
{
    reveal(foreach_block_log);
    let endforeach_v: Vec<char> = vec!['e', 'n', 'd', 'f', 'o', 'r', 'e', 'a', 'c', 'h'];
    assert(endforeach_v@ =~= kw_endforeach());
    let (e, a) = block_bounds(s, start, endforeach_v.as_slice());
    let inner = sub_chars(s, start, e);
    let body = match parse_template_chars(inner.as_slice(), log) {
        Some(n) => n,
        None => {
            return None;
        },
    };
    let node = TemplateNode::ForEachBlock {
        key: string_of(key),
        item_name: string_of(item_name),
        body: Rc::new(body),
    };
    Some((node, a))
}

/// The first tag at or after `k`: where it opens and where it closes.
fn next_tag(s: &[char], k: usize) -> (res: Option<Option<(usize, usize)>>)
    requires
        k <= s@.len(),
    ensures
        match res {
            None => find(s@.skip(k as int), open_tag()) is None,
            Some(None) => {
                let rem = s@.skip(k as int);
                find(rem, open_tag()) matches Some(o) && 0 <= o && o + 2 <= rem.len() && find(
                    rem.skip(o),
                    close_tag(),
                ) is None
            },
            Some(Some((o, c))) => {
                let rem = s@.skip(k as int);
                &&& k <= o
                &&& o + 2 <= c
                &&& c + 2 <= s.len()
                &&& find(rem, open_tag()) == Some(o - k)
                &&& find(rem.skip(o - k), close_tag()) == Some(c - o)
            },
        },
{
    let open_v: Vec<char> = vec!['{', '{'];
    let close_v: Vec<char> = vec!['}', '}'];
    assert(open_v@ =~= open_tag());
    assert(close_v@ =~= close_tag());
    let ghost rem = s@.skip(k as int);
    match find_from(s, open_v.as_slice(), k) {
        None => None,
        Some(o) => {
            proof {
                lemma_occurs_in_skip(s@, open_tag(), k as int, o - k);
            }
            assert(rem.skip(o - k) =~= s@.skip(o as int));
            match find_from(s, close_v.as_slice(), o) {
                None => Some(None),
                Some(c) => {
                    proof {
                        lemma_occurs_in_skip(s@, close_tag(), o as int, c - o);
                        if c - o < 2 {
                            let t = s@.skip(o as int);
                            assert(t.subrange(c - o, c - o + 2)[0] == t[c - o]);
                            assert(s@.subrange(o as int, o + 2)[c - o] == s@[c as int]);
                        }
                    }
                    assert(c + 2 <= s.len());
                    Some(Some((o, c)))
                },
            }
        },
    }
}

/// Parses the control blocks of `s` into a composite node (see
/// [`parse_template`]); `None` when a `{{` has no `}}` after it. Appends to
/// `log` the word of each stray `{{ else }}` tag met (see [`parse_log`]).
#[verifier::rlimit(100)]
#[verifier::spinoff_prover]
pub fn parse_template_chars(s: &[char], log: &mut Vec<String>) -> (res: Option<TemplateNode>)
    ensures
        log_view(final(log)@) == log_view(old(log)@) + parse_log(s@),
        match res {
            Some(n) => parse_template(s@) == Some(n@) && is_fragment(n@),
            None => parse_template(s@) is None,
        },
    decreases s@.len(), 1int,
{
    let if_v: Vec<char> = vec!['i', 'f'];
    let foreach_v: Vec<char> = vec!['f', 'o', 'r', 'e', 'a', 'c', 'h'];
    let as_v: Vec<char> = vec!['a', 's'];
    let else_v: Vec<char> = vec!['e', 'l', 's', 'e'];
    assert(else_v@ =~= kw_else());
    assert(if_v@ =~= kw_if());
    assert(foreach_v@ =~= kw_foreach());
    assert(as_v@ =~= kw_as());
    let mut nodes: Vec<TemplateNode> = Vec::new();
    let mut k: usize = 0;
    assert(s@.skip(0) =~= s@);
    assert(nodes_model(nodes@) =~= Seq::<Template>::empty());
    assert(parse_log(s@) == parse_log_nodes(s@));
    loop
        invariant
            k <= s@.len(),
            if_v@ == kw_if(),
            foreach_v@ == kw_foreach(),
            as_v@ == kw_as(),
            else_v@ == kw_else(),
            log_view(old(log)@) + parse_log_nodes(s@) == log_view(log@) + parse_log_nodes(
                s@.skip(k as int),
            ),
            parse_nodes(s@) == prepend(nodes_model(nodes@), parse_nodes(s@.skip(k as int))),
            all_fragments(nodes_model(nodes@)),
        decreases s@.len() - k,
    {
        let ghost rem = s@.skip(k as int);
        let ghost before = nodes_model(nodes@);
        match next_tag(s, k) {
            None => {
                proof {
                    lemma_parse_untagged(rem);
                    lemma_log_untagged(rem);
                }
                assert(log_view(log@) + Seq::<Seq<char>>::empty() =~= log_view(log@));
                if k < s.len() {
                    let text = sub_chars(s, k, s.len());
                    assert(text@ =~= rem);
                    let tn = TemplateNode::StringContent(string_of(text.as_slice()));
                    proof {
                        lemma_nodes_model_push(nodes@, tn);
                    }
                    nodes.push(tn);
                }
                assert(nodes_model(nodes@) =~= before + text_nodes(rem));
                proof {
                    lemma_composite_model(nodes);
                }
                return Some(TemplateNode::Composite(nodes));
            },
            Some(None) => {
                proof {
                    let o = find(rem, open_tag())->0;
                    lemma_parse_unclosed(rem, o);
                    lemma_log_unclosed(rem, o);
                }
                assert(log_view(log@) + Seq::<Seq<char>>::empty() =~= log_view(log@));
                return None;
            },
            Some(Some((o, c))) => {
                proof {
                    lemma_parse_tag(s@, k as int, o as int, c as int);
                }
                let ghost lbefore = log_view(log@);
                let ghost pre = text_nodes(s@.subrange(k as int, o as int));
                if o > k {
                    let text = sub_chars(s, k, o);
                    let tn = TemplateNode::StringContent(string_of(text.as_slice()));
                    proof {
                        lemma_nodes_model_push(nodes@, tn);
                    }
                    nodes.push(tn);
                }
                assert(nodes_model(nodes@) =~= before + pre);
                let tag = sub_chars(s, o + 2, c);
                let k2 = c + 2;
                let w = split_words(tag.as_slice());
                let ghost wv = words(tag@);
                assert(w@.len() == wv.len());
                let is_if = w.len() == 2 && chars_eq(w[0].as_slice(), if_v.as_slice());
                let is_foreach = !is_if && w.len() == 4 && chars_eq(
                    w[0].as_slice(),
                    foreach_v.as_slice(),
                ) && chars_eq(w[2].as_slice(), as_v.as_slice());
                proof {
                    if w@.len() >= 1 {
                        assert(wv[0] == w@[0]@);
                    }
                    if w@.len() >= 2 {
                        assert(wv[1] == w@[1]@);
                    }
                    if w@.len() >= 4 {
                        assert(wv[2] == w@[2]@);
                        assert(wv[3] == w@[3]@);
                    }
                }
                assert(is_if == opens_if(wv));
                assert(is_foreach == (!opens_if(wv) && opens_foreach(wv)));
                if is_if || is_foreach {
                    let block = if is_if {
                        parse_if_block(s, k2, w[1].as_slice(), log)
                    } else {
                        parse_foreach_block(s, k2, w[1].as_slice(), w[3].as_slice(), log)
                    };
                    let ghost blog = if is_if {
                        if_block_log(s@.skip(k2 as int))
                    } else {
                        foreach_block_log(s@.skip(k2 as int))
                    };
                    assert(log_view(log@) == lbefore + blog);
                    match block {
                        Some((n, a)) => {
                            assert(lbefore + parse_log_nodes(rem) =~= log_view(log@) + parse_log_nodes(
                                s@.skip(a as int),
                            )) by {
                                lemma_log_tag(s@, k as int, o as int, c as int);
                            }
                            let ghost mid = nodes_model(nodes@);
                            proof {
                                lemma_nodes_model_push(nodes@, n);
                            }
                            nodes.push(n);
                            assert(nodes_model(nodes@) == mid.push(n@));
                            assert(before + pre.push(n@) =~= mid.push(n@));
                            k = a;
                        },
                        None => {
                            assert(lbefore + parse_log_nodes(rem) =~= log_view(log@)
                                + Seq::<Seq<char>>::empty()) by {
                                lemma_log_tag(s@, k as int, o as int, c as int);
                            }
                            return None;
                        },
                    }
                } else {
                    let is_else = w.len() == 1 && chars_eq(w[0].as_slice(), else_v.as_slice());
                    if is_else {
                        let word = string_of(w[0].as_slice());
                        let ghost lv = log@;
                        log.push(word);
                        assert(lbefore + parse_log_nodes(rem) =~= log_view(log@) + parse_log_nodes(
                            s@.skip(k2 as int),
                        )) by {
                            lemma_log_push(lv, word);
                            lemma_log_tag(s@, k as int, o as int, c as int);
                        }
                    } else {
                        assert(lbefore + parse_log_nodes(rem) =~= log_view(log@) + parse_log_nodes(
                            s@.skip(k2 as int),
                        )) by {
                            lemma_log_tag(s@, k as int, o as int, c as int);
                        }
                    }
                    k = k2;
                }
            },
        }
    }
}

/// Parses the control blocks of `content` into a composite node (see
/// [`parse_template`]), appending its warnings to `log`.
pub fn parse_control_blocks(content: &str, log: &mut Vec<String>) -> (res: Rc<TemplateNode>)
    requires
        parse_template(content@) is Some,
    ensures
        log_view(final(log)@) == log_view(old(log)@) + parse_log(content@),
        parse_template(content@) == Some(res@),
        is_fragment(res@),
{
    let c = chars_of(content);
    match parse_template_chars(c.as_slice(), log) {
        Some(n) => Rc::new(n),
        None => Rc::new(TemplateNode::Composite(Vec::new())),
    }
}

/// Parses the control blocks of `content`, or `None` when a `{{` in it has
/// no `}}` after it (see [`parse_template`]), appending its warnings to
/// `log`.
pub fn try_parse_control_blocks(content: &str, log: &mut Vec<String>) -> (res: Option<
    Rc<TemplateNode>,
>)
    ensures
        log_view(final(log)@) == log_view(old(log)@) + parse_log(content@),
        match res {
            Some(n) => parse_template(content@) == Some(n@) && is_fragment(n@),
            None => parse_template(content@) is None,
        },
{
    let c = chars_of(content);
    match parse_template_chars(c.as_slice(), log) {
        Some(n) => Some(Rc::new(n)),
        None => None,
    }
}

} // verus!
