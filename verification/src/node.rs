//! Template nodes and their mathematical model.
use std::rc::Rc;
use vstd::prelude::*;

use crate::string_map::{Pairs, StringMap};
use crate::text::{chars_of, string_of};

verus! {

/// The model of a template node: text as character sequences, front matter
/// as key/value pairs.
pub enum Template {
    Page {
        path: Seq<char>,
        front_matter: Pairs,
        content_node: Box<Template>,
        output_path: Seq<char>,
        parent: Option<Box<Template>>,
    },
    Layout {
        name: Seq<char>,
        front_matter: Pairs,
        content: Seq<char>,
        parent: Option<Box<Template>>,
    },
    IfBlock { condition: Seq<char>, true_branch: Box<Template>, false_branch: Option<Box<Template>> },
    ForEachBlock { key: Seq<char>, item_name: Seq<char>, body: Box<Template> },
    Func { name: Seq<char>, args: Seq<Seq<char>>, block_content: Option<Seq<char>> },
    StringContent(Seq<char>),
    Composite(Seq<Template>),
}

/// A node of a template tree: pages, layouts, control blocks and text.
pub enum TemplateNode {
    Page {
        path: String,
        front_matter: StringMap,
        content_node: Rc<TemplateNode>,
        output_path: String,
        parent: Option<Rc<TemplateNode>>,
    },
    Layout {
        name: String,
        front_matter: StringMap,
        content: String,
        parent: Option<Rc<TemplateNode>>,
    },
    IfBlock {
        condition: String,
        true_branch: Rc<TemplateNode>,
        false_branch: Option<Rc<TemplateNode>>,
    },
    ForEachBlock { key: String, item_name: String, body: Rc<TemplateNode> },
    Func { name: String, args: Vec<String>, block_content: Option<String> },
    StringContent(String),
    Composite(Vec<TemplateNode>),
}

/// The model of a node.
pub open spec fn node_model(n: &TemplateNode) -> Template
    decreases n,
{
    match n {
        TemplateNode::Page { path, front_matter, content_node, output_path, parent } => {
            Template::Page {
                path: path@,
                front_matter: front_matter@,
                content_node: Box::new(node_model(&**content_node)),
                output_path: output_path@,
                parent: match parent {
                    Some(p) => Some(Box::new(node_model(&**p))),
                    None => None,
                },
            }
        },
        TemplateNode::Layout { name, front_matter, content, parent } => Template::Layout {
            name: name@,
            front_matter: front_matter@,
            content: content@,
            parent: match parent {
                Some(p) => Some(Box::new(node_model(&**p))),
                None => None,
            },
        },
        TemplateNode::IfBlock { condition, true_branch, false_branch } => Template::IfBlock {
            condition: condition@,
            true_branch: Box::new(node_model(&**true_branch)),
            false_branch: match false_branch {
                Some(f) => Some(Box::new(node_model(&**f))),
                None => None,
            },
        },
        TemplateNode::ForEachBlock { key, item_name, body } => Template::ForEachBlock {
            key: key@,
            item_name: item_name@,
            body: Box::new(node_model(&**body)),
        },
        TemplateNode::Func { name, args, block_content } => Template::Func {
            name: name@,
            args: args@.map_values(|a: String| a@),
            block_content: match block_content {
                Some(b) => Some(b@),
                None => None,
            },
        },
        TemplateNode::StringContent(s) => Template::StringContent(s@),
        TemplateNode::Composite(nodes) => Template::Composite(
            Seq::new(
                nodes.len() as nat,
                |i: int|
                    if 0 <= i < nodes.len() {
                        node_model(&nodes[i])
                    } else {
                        Template::StringContent(Seq::empty())
                    },
            ),
        ),
    }
}

impl View for TemplateNode {
    type V = Template;

    open spec fn view(&self) -> Template {
        node_model(self)
    }
}

/// The models of a sequence of nodes.
pub open spec fn nodes_model(v: Seq<TemplateNode>) -> Seq<Template> {
    v.map_values(|n: TemplateNode| n@)
}

/// A node without pages or layouts in it: what parsing control blocks yields.
pub open spec fn is_fragment(t: Template) -> bool
    decreases t,
{
    match t {
        Template::Page { .. } => false,
        Template::Layout { .. } => false,
        Template::IfBlock { true_branch, false_branch, .. } => is_fragment(*true_branch) && match
            false_branch {
            Some(f) => is_fragment(*f),
            None => true,
        },
        Template::ForEachBlock { body, .. } => is_fragment(*body),
        Template::Func { .. } => true,
        Template::StringContent(_) => true,
        Template::Composite(ns) => fragments_all(ns),
    }
}

/// Every node of `ns` is a fragment.
pub open spec fn fragments_all(ns: Seq<Template>) -> bool
    decreases ns,
{
    if ns.len() == 0 {
        true
    } else {
        fragments_all(ns.subrange(0, ns.len() - 1)) && is_fragment(ns.last())
    }
}

/// [`fragments_all`] holds of a sequence when it holds of each element.
pub proof fn lemma_fragments_all(ns: Seq<Template>)
    ensures
        fragments_all(ns) <==> forall|i: int| 0 <= i < ns.len() ==> is_fragment(#[trigger] ns[i]),
    decreases ns.len(),
{
    if ns.len() > 0 {
        let init = ns.subrange(0, ns.len() - 1);
        lemma_fragments_all(init);
        if fragments_all(ns) {
            assert forall|i: int| 0 <= i < ns.len() implies is_fragment(#[trigger] ns[i]) by {
                if i < ns.len() - 1 {
                    assert(init[i] == ns[i]);
                }
            }
        }
        if forall|i: int| 0 <= i < ns.len() ==> is_fragment(#[trigger] ns[i]) {
            assert forall|i: int| 0 <= i < init.len() implies is_fragment(#[trigger] init[i]) by {
                assert(init[i] == ns[i]);
            }
        }
    }
}

/// A chain of pages and layouts, each the parent of the one before: the
/// nodes whose tree can be printed.
pub open spec fn is_layout_chain(t: Template) -> bool
    decreases t,
{
    match t {
        Template::Page { parent, .. } => match parent {
            Some(p) => is_layout_chain(*p),
            None => true,
        },
        Template::Layout { parent, .. } => match parent {
            Some(p) => is_layout_chain(*p),
            None => true,
        },
        _ => false,
    }
}

/// The number of nodes in a chain of pages and layouts.
pub open spec fn chain_len(t: Template) -> nat
    decreases t,
{
    match t {
        Template::Page { parent, .. } => 1 + match parent {
            Some(p) => chain_len(*p),
            None => 0,
        },
        Template::Layout { parent, .. } => 1 + match parent {
            Some(p) => chain_len(*p),
            None => 0,
        },
        _ => 0,
    }
}

/// `n` spaces.
pub open spec fn spaces(n: nat) -> Seq<char> {
    Seq::new(n, |i: int| ' ')
}

/// The printed tree of a chain of pages and layouts: one line per node,
/// each parent indented two more spaces than its child.
pub open spec fn tree_lines(t: Template, indent: nat) -> Seq<char>
    decreases t,
{
    match t {
        Template::Page { path, parent, .. } => spaces(indent) + seq!['\u{1F4C4}', ' '] + path
            + seq![' ', '(', 'P', 'a', 'g', 'e', ')', '\n'] + match parent {
            Some(p) => tree_lines(*p, indent + 2),
            None => Seq::empty(),
        },
        Template::Layout { name, parent, .. } => spaces(indent) + seq!['\u{1F4E6}', ' '] + name
            + seq![' ', '(', 'L', 'a', 'y', 'o', 'u', 't', ')', '\n'] + match parent {
            Some(p) => tree_lines(*p, indent + 2),
            None => Seq::empty(),
        },
        _ => Seq::empty(),
    }
}

impl TemplateNode {
    /// A page node.
    pub fn new_page(
        path: String,
        front_matter: StringMap,
        content_node: Rc<TemplateNode>,
        output_path: String,
        parent: Option<Rc<TemplateNode>>,
    ) -> (res: Rc<Self>)
        ensures
            res@ == (Template::Page {
                path: path@,
                front_matter: front_matter@,
                content_node: Box::new(content_node@),
                output_path: output_path@,
                parent: match parent {
                    Some(p) => Some(Box::new(p@)),
                    None => None,
                },
            }),
    {
        Rc::new(TemplateNode::Page { path, front_matter, content_node, output_path, parent })
    }

    /// A layout node.
    pub fn new_layout(
        name: String,
        front_matter: StringMap,
        content: String,
        parent: Option<Rc<TemplateNode>>,
    ) -> (res: Rc<Self>)
        ensures
            res@ == (Template::Layout {
                name: name@,
                front_matter: front_matter@,
                content: content@,
                parent: match parent {
                    Some(p) => Some(Box::new(p@)),
                    None => None,
                },
            }),
    {
        Rc::new(TemplateNode::Layout { name, front_matter, content, parent })
    }

    /// The text that printing the tree of a page or layout shows: one line
    /// per node of the chain, starting at `indent` spaces.
    pub fn tree_text(&self, indent: usize) -> (res: String)
        requires
            is_layout_chain(self@),
            indent + 2 * chain_len(self@) <= usize::MAX,
        ensures
            res@ == tree_lines(self@, indent as nat),
        decreases self,
    {
        let mut out: Vec<char> = Vec::new();
        let mut i: usize = 0;
        while i < indent
            invariant
                i <= indent,
                out@ == spaces(i as nat),
            decreases indent - i,
        {
            out.push(' ');
            assert(spaces(i as nat).push(' ') =~= spaces((i + 1) as nat));
            i += 1;
        }
        let (icon, label, parent): (char, &str, &Option<Rc<TemplateNode>>) = match self {
            TemplateNode::Page { path, parent, .. } => ('\u{1F4C4}', path.as_str(), parent),
            TemplateNode::Layout { name, parent, .. } => ('\u{1F4E6}', name.as_str(), parent),
            _ => {
                return String::new();
            },
        };
        out.push(icon);
        out.push(' ');
        let label_chars = chars_of(label);
        let n = label_chars.len();
        for j in 0..n
            invariant
                n == label_chars@.len(),
                out@ == spaces(indent as nat) + seq![icon, ' '] + label_chars@.take(j as int),
        {
            out.push(label_chars[j]);
            assert(label_chars@.take(j as int).push(label_chars@[j as int]) =~= label_chars@.take(
                j + 1,
            ));
        }
        assert(label_chars@.take(n as int) =~= label_chars@);
        out.push(' ');
        out.push('(');
        match self {
            TemplateNode::Page { .. } => {
                out.push('P');
                out.push('a');
                out.push('g');
                out.push('e');
            },
            _ => {
                out.push('L');
                out.push('a');
                out.push('y');
                out.push('o');
                out.push('u');
                out.push('t');
            },
        }
        out.push(')');
        out.push('\n');
        let mut res = string_of(out.as_slice());
        match parent {
            Some(p) => {
                let rest = (&**p).tree_text(indent + 2);
                res.append(rest.as_str());
            },
            None => {},
        }
        proof {
            match self@ {
                Template::Page { path, parent, .. } => {
                    assert(res@ =~= tree_lines(self@, indent as nat));
                },
                Template::Layout { name, parent, .. } => {
                    assert(res@ =~= tree_lines(self@, indent as nat));
                },
                _ => {},
            }
        }
        res
    }
}

} // verus!
