//! The small XML reader used for OpenCV cascade files: elements with
//! attributes, text, comments, processing instructions and `DOCTYPE`, read
//! leniently into a tree under a synthetic root.

use vstd::prelude::*;
use vstd::utf8::{valid_utf8, decode_utf8};
use vstd::string::{StringExecFns, StringSliceAdditionalSpecFns};
use crate::text::{ascii_ws, is_ascii_ws, trim, trimmed, utf8_decode, string_from, str_eq};
use crate::http::slice_bytes;

verus! {

/// The content of an XML tree.
#[verifier::ext_equal]
pub enum XmlTree {
    Element(Seq<char>, Seq<(Seq<char>, Seq<char>)>, Seq<XmlTree>),
    Text(Seq<char>),
}

/// A node of a parsed document.
pub enum XmlNode {
    Element { name: String, attrs: Vec<(String, String)>, children: Vec<XmlNode> },
    Text(String),
}

pub open spec fn attr_views(a: Seq<(String, String)>) -> Seq<(Seq<char>, Seq<char>)> {
    Seq::new(a.len(), |i: int| (a[i].0@, a[i].1@))
}

/// The content of a node.
pub open spec fn tree_of(n: XmlNode) -> XmlTree
    decreases n,
{
    match n {
        XmlNode::Text(t) => XmlTree::Text(t@),
        XmlNode::Element { name, attrs, children } => XmlTree::Element(
            name@,
            attr_views(attrs@),
            Seq::new(
                children@.len(),
                |i: int|
                    if 0 <= i < children@.len() {
                        tree_of(children@[i])
                    } else {
                        XmlTree::Text(Seq::empty())
                    },
            ),
        ),
    }
}

/// The contents of a list of nodes.
pub open spec fn trees_of(ns: Seq<XmlNode>) -> Seq<XmlTree> {
    Seq::new(ns.len(), |i: int| tree_of(ns[i]))
}

/// The text of some bytes: their UTF-8 decoding, or empty when invalid.
pub open spec fn text_of(s: Seq<u8>) -> Seq<char> {
    if valid_utf8(s) { decode_utf8(s) } else { Seq::empty() }
}

/// Where a byte scan stops.
pub enum Stop {
    /// At `>`.
    Gt,
    /// At whitespace, `/` or `>` (end of an element name).
    NameEnd,
    /// At `=`, whitespace, `>` or `/` (end of an attribute name).
    AttrNameEnd,
    /// At this byte.
    Byte(u8),
}

pub open spec fn stops(c: u8, k: Stop) -> bool {
    match k {
        Stop::Gt => c == 62u8,
        Stop::NameEnd => is_ascii_ws(c) || c == 47u8 || c == 62u8,
        Stop::AttrNameEnd => c == 61u8 || is_ascii_ws(c) || c == 62u8 || c == 47u8,
        Stop::Byte(q) => c == q,
    }
}

/// First position at or after `i` where `k` stops, or the end.
pub open spec fn scan(b: Seq<u8>, i: int, k: Stop) -> int
    decreases b.len() - i,
{
    if i < 0 || i >= b.len() || stops(b[i], k) {
        i
    } else {
        scan(b, i + 1, k)
    }
}

/// First position at or after `i` that is not ASCII whitespace.
pub open spec fn ws_end(b: Seq<u8>, i: int) -> int
    decreases b.len() - i,
{
    if 0 <= i < b.len() && is_ascii_ws(b[i]) {
        ws_end(b, i + 1)
    } else {
        i
    }
}

/// Where `-->` starts at or after `j` (a position within two bytes of the end if none).
pub open spec fn comment_end(b: Seq<u8>, j: int) -> int
    decreases b.len() - j,
{
    if 0 <= j && j + 2 < b.len() && !(b[j] == 45u8 && b[j + 1] == 45u8 && b[j + 2] == 62u8) {
        comment_end(b, j + 1)
    } else {
        j
    }
}

/// Where `?>` starts at or after `j` (the last position if none).
pub open spec fn pi_end(b: Seq<u8>, j: int) -> int
    decreases b.len() - j,
{
    if 0 <= j && j + 1 < b.len() && !(b[j] == 63u8 && b[j + 1] == 62u8) {
        pi_end(b, j + 1)
    } else {
        j
    }
}

pub proof fn lemma_scans(b: Seq<u8>, i: int, k: Stop)
    requires
        0 <= i,
    ensures
        i <= scan(b, i, k),
        i <= b.len() ==> scan(b, i, k) <= b.len(),
        i <= ws_end(b, i),
        i <= b.len() ==> ws_end(b, i) <= b.len(),
        i <= comment_end(b, i),
        i <= b.len() ==> comment_end(b, i) <= b.len(),
        i <= pi_end(b, i),
        i <= b.len() ==> pi_end(b, i) <= b.len(),
        ws_end(b, i) < b.len() ==> !is_ascii_ws(b[ws_end(b, i)]),
        scan(b, i, k) < b.len() ==> stops(b[scan(b, i, k)], k),
        i < b.len() && !stops(b[i], k) ==> scan(b, i, k) > i,
    decreases b.len() - i,
{
    if i < b.len() {
        lemma_scans(b, i + 1, k);
    }
}

/// The attributes read from position `i` on, after those in `acc`, and where
/// reading stopped: at a `>`, or at or past the end. A name without `=`
/// gets an empty value; a value must be quoted with `"` or `'`; nameless
/// attributes are dropped; `/` is skipped.
pub open spec fn attr_loop(b: Seq<u8>, i: int, acc: Seq<(Seq<char>, Seq<char>)>) -> (
    Seq<(Seq<char>, Seq<char>)>,
    int,
)
    decreases b.len() + 2 - i,
{
    if i < 0 || i > b.len() + 1 {
        (acc, i)
    } else {
        let i1 = ws_end(b, i);
        proof {
            lemma_scans(b, i, Stop::AttrNameEnd);
        }
        if i1 >= b.len() {
            (acc, i1)
        } else if b[i1] == 47u8 {
            attr_loop(b, i1 + 1, acc)
        } else if b[i1] == 62u8 {
            (acc, i1)
        } else {
            let ae = scan(b, i1, Stop::AttrNameEnd);
            let an = text_of(b.subrange(i1, ae));
            let i2 = ws_end(b, ae);
            proof {
                lemma_scans(b, i, Stop::AttrNameEnd);
                lemma_scans(b, i1, Stop::AttrNameEnd);
                lemma_scans(b, ae, Stop::AttrNameEnd);
            }
            if i2 < b.len() && b[i2] == 61u8 {
                let i3 = ws_end(b, i2 + 1);
                let q: u8 = if i3 < b.len() { b[i3] } else { 0 };
                proof {
                    lemma_scans(b, i2 + 1, Stop::AttrNameEnd);
                }
                if q == 34u8 || q == 39u8 {
                    let ve = scan(b, i3 + 1, Stop::Byte(q));
                    let av = text_of(b.subrange(i3 + 1, ve));
                    proof {
                        lemma_scans(b, i3 + 1, Stop::Byte(q));
                    }
                    attr_loop(b, ve + 1, if an.len() > 0 { acc.push((an, av)) } else { acc })
                } else {
                    attr_loop(b, i3, acc)
                }
            } else {
                proof {
                    if ae == i1 {
                        assert(b[i1] == 61u8);
                    }
                }
                attr_loop(b, i2, if an.len() > 0 { acc.push((an, Seq::empty())) } else { acc })
            }
        }
    }
}

pub proof fn lemma_attr_loop(b: Seq<u8>, i: int, acc: Seq<(Seq<char>, Seq<char>)>)
    requires
        0 <= i <= b.len() + 1,
    ensures
        i <= attr_loop(b, i, acc).1 <= b.len() + 1,
        attr_loop(b, i, acc).1 < b.len() ==> b[attr_loop(b, i, acc).1] == 62u8,
    decreases b.len() + 2 - i,
{
    let i1 = ws_end(b, i);
    lemma_scans(b, i, Stop::Gt);
    if i1 < b.len() {
        if b[i1] == 47u8 {
            lemma_attr_loop(b, i1 + 1, acc);
        } else if b[i1] != 62u8 {
            let ae = scan(b, i1, Stop::AttrNameEnd);
            let an = text_of(b.subrange(i1, ae));
            let i2 = ws_end(b, ae);
            lemma_scans(b, i1, Stop::AttrNameEnd);
            lemma_scans(b, ae, Stop::AttrNameEnd);
            if i2 < b.len() && b[i2] == 61u8 {
                let i3 = ws_end(b, i2 + 1);
                lemma_scans(b, i2 + 1, Stop::AttrNameEnd);
                let q: u8 = if i3 < b.len() { b[i3] } else { 0 };
                if q == 34u8 || q == 39u8 {
                    let ve = scan(b, i3 + 1, Stop::Byte(q));
                    lemma_scans(b, i3 + 1, Stop::Byte(q));
                    let av = text_of(b.subrange(i3 + 1, ve));
                    lemma_attr_loop(b, ve + 1, if an.len() > 0 { acc.push((an, av)) } else { acc });
                } else {
                    lemma_attr_loop(b, i3, acc);
                }
            } else {
                if ae == i1 {
                    assert(b[i1] == 61u8);
                }
                lemma_attr_loop(b, i2, if an.len() > 0 { acc.push((an, Seq::empty())) } else { acc });
            }
        }
    }
}

/// `st` with `c` appended to the children of its top element.
pub open spec fn add_child(st: Seq<XmlTree>, c: XmlTree) -> Seq<XmlTree> {
    if st.len() == 0 {
        st
    } else {
        match st.last() {
            XmlTree::Element(n, a, ch) => st.drop_last().push(XmlTree::Element(n, a, ch.push(c))),
            XmlTree::Text(_) => st,
        }
    }
}

/// Closes the top element into its parent, unless only the root is open.
pub open spec fn close_top(st: Seq<XmlTree>) -> Seq<XmlTree> {
    if st.len() > 1 {
        add_child(st.drop_last(), st.last())
    } else {
        st
    }
}

/// Closes every open element.
pub open spec fn collapse(st: Seq<XmlTree>) -> Seq<XmlTree>
    decreases st.len(),
{
    if st.len() > 1 {
        collapse(close_top(st))
    } else {
        st
    }
}

/// The two-byte start `c0 c1` at `j`.
pub open spec fn at2(b: Seq<u8>, j: int, c0: u8, c1: u8) -> bool {
    j + 1 < b.len() && b[j] == c0 && b[j + 1] == c1
}

/// `<!--` at `j`.
pub open spec fn at_comment(b: Seq<u8>, j: int) -> bool {
    j + 3 < b.len() && b.subrange(j, j + 4) == seq![60u8, 33u8, 45u8, 45u8]
}

/// `<!DOCTYPE` at `j`.
pub open spec fn at_doctype(b: Seq<u8>, j: int) -> bool {
    j + 8 < b.len() && b.subrange(j, j + 9) == seq![60u8, 33u8, 68u8, 79u8, 67u8, 84u8, 89u8, 80u8, 69u8]
}

/// One step of reading at `j`, a position before the end that is not
/// whitespace: where reading goes on and the open elements then, or `None`
/// when a closing tag `</` is followed only by whitespace up to the end.
pub open spec fn xml_next(b: Seq<u8>, j: int, st: Seq<XmlTree>) -> Option<(int, Seq<XmlTree>)> {
    if b[j] == 60u8 {
        if at2(b, j, 60u8, 47u8) {
            let k = ws_end(b, j + 2);
            let e = scan(b, k, Stop::Gt);
            if k >= b.len() {
                None
            } else {
                Some((if e + 1 < b.len() { e + 1 } else { b.len() as int }, close_top(st)))
            }
        } else if at_comment(b, j) {
            Some((comment_end(b, j + 4) + 3, st))
        } else if at2(b, j, 60u8, 63u8) {
            Some((pi_end(b, j + 2) + 2, st))
        } else if at_doctype(b, j) {
            Some((scan(b, j, Stop::Gt) + 1, st))
        } else {
            let ne = scan(b, j + 1, Stop::NameEnd);
            let name = text_of(b.subrange(j + 1, ne));
            let (attrs, ae) = attr_loop(b, ne, Seq::empty());
            if ae < b.len() {
                let sc = b[ae] == 47u8;
                let next = if b[ae] == 62u8 {
                    ae + 1
                } else if sc {
                    if ae + 2 < b.len() { ae + 2 } else { b.len() as int }
                } else {
                    ae
                };
                let elem = XmlTree::Element(name, attrs, Seq::empty());
                Some((next, if sc { add_child(st, elem) } else { st.push(elem) }))
            } else {
                Some((ae, st))
            }
        }
    } else {
        let te = scan(b, j, Stop::Byte(60u8));
        let text = text_of(b.subrange(j, te));
        Some((te, if trimmed(text).len() > 0 { add_child(st, XmlTree::Text(text)) } else { st }))
    }
}

/// A step moves forward, by at most three bytes past the end.
pub proof fn lemma_xml_next(b: Seq<u8>, j: int, st: Seq<XmlTree>)
    requires
        0 <= j < b.len(),
    ensures
        xml_next(b, j, st) matches Some(p) ==> j < p.0 <= b.len() + 3,
{
    lemma_scans(b, j, Stop::Gt);
    lemma_scans(b, j, Stop::Byte(60u8));
    lemma_scans(b, j + 1, Stop::NameEnd);
    if j + 2 <= b.len() {
        lemma_scans(b, j + 2, Stop::Gt);
        lemma_scans(b, ws_end(b, j + 2), Stop::Gt);
    }
    if j + 4 <= b.len() {
        lemma_scans(b, j + 4, Stop::Gt);
    }
    let ne = scan(b, j + 1, Stop::NameEnd);
    lemma_attr_loop(b, ne, Seq::empty());
}

/// Reading the document from position `i` with open elements `st`: the open
/// elements at the end, or `None` when a closing tag `</` is followed only by
/// whitespace up to the end.
pub open spec fn xml_run(b: Seq<u8>, i: int, st: Seq<XmlTree>) -> Option<Seq<XmlTree>>
    decreases b.len() + 8 - i,
{
    if i < 0 || i >= b.len() {
        Some(st)
    } else {
        let j = ws_end(b, i);
        proof {
            lemma_scans(b, i, Stop::Gt);
        }
        if j >= b.len() {
            Some(st)
        } else {
            proof {
                lemma_xml_next(b, j, st);
            }
            match xml_next(b, j, st) {
                None => None,
                Some(p) => xml_run(b, p.0, p.1),
            }
        }
    }
}

/// The name of the synthetic root element.
pub open spec fn root_name() -> Seq<char> {
    "##ROOT##"@
}

/// The tree of a document: everything read under the synthetic root, with
/// elements still open at the end closed; `None` as for `xml_run`.
pub open spec fn xml_parse(b: Seq<u8>) -> Option<XmlTree> {
    match xml_run(b, 0, seq![XmlTree::Element(root_name(), Seq::empty(), Seq::empty())]) {
        None => None,
        Some(st) => Some(collapse(st)[0]),
    }
}


fn stops_exec(c: u8, k: &Stop) -> (r: bool)
    ensures
        r == stops(c, *k),
{
    match k {
        Stop::Gt => c == 62u8,
        Stop::NameEnd => ascii_ws(c) || c == 47u8 || c == 62u8,
        Stop::AttrNameEnd => c == 61u8 || ascii_ws(c) || c == 62u8 || c == 47u8,
        Stop::Byte(q) => c == *q,
    }
}

fn scan_exec(b: &[u8], i: usize, k: Stop) -> (r: usize)
    ensures
        r == scan(b@, i as int, k),
{
    let n = b.len();
    let mut j = i;
    while j < n && !stops_exec(b[j], &k)
        invariant
            n == b@.len(),
            i <= j,
            scan(b@, i as int, k) == scan(b@, j as int, k),
        decreases n - j,
    {
        j = j + 1;
    }
    j
}

fn skip_ws(b: &[u8], i: &mut usize)
    ensures
        *final(i) == ws_end(b@, *old(i) as int),
{
    let n = b.len();
    while *i < n && ascii_ws(b[*i])
        invariant
            n == b@.len(),
            ws_end(b@, *old(i) as int) == ws_end(b@, *i as int),
        decreases n - *i,
    {
        *i = *i + 1;
    }
}

/// The text of `b[a..e]` (empty when not UTF-8).
fn text_exec(b: &[u8], a: usize, e: usize) -> (s: String)
    requires
        a <= e <= b@.len(),
    ensures
        s@ == text_of(b@.subrange(a as int, e as int)),
{
    let bytes = slice_bytes(b, a, e);
    match utf8_decode(bytes.as_slice()) {
        Some(s) => string_from(s),
        None => String::new(),
    }
}

/// Reads attributes from `*i` on (see `attr_loop`), leaving `*i` where reading stopped.
fn read_attrs(b: &[u8], i: &mut usize) -> (r: Vec<(String, String)>)
    requires
        *old(i) <= b@.len() + 1,
        b@.len() + 8 <= usize::MAX,
    ensures
        (attr_views(r@), *final(i) as int) == attr_loop(b@, *old(i) as int, Seq::empty()),
{
    let n = b.len();
    let mut attrs: Vec<(String, String)> = Vec::new();
    proof {
        assert(attr_views(attrs@) =~= Seq::<(Seq<char>, Seq<char>)>::empty());
    }
    loop
        invariant
            n == b@.len(),
            n + 8 <= usize::MAX,
            *i <= n + 1,
            attr_loop(b@, *old(i) as int, Seq::empty()) == attr_loop(b@, *i as int, attr_views(attrs@)),
        ensures
            attr_loop(b@, *old(i) as int, Seq::empty()) == (attr_views(attrs@), *i as int),
        decreases n + 2 - *i,
    {
        let ghost i0 = *i;
        skip_ws(b, i);
        proof {
            lemma_scans(b@, i0 as int, Stop::AttrNameEnd);
        }
        if *i >= n {
            break;
        }
        if b[*i] == 47u8 {
            *i = *i + 1;
            continue;
        }
        if b[*i] == 62u8 {
            break;
        }
        let i1 = *i;
        let ae = scan_exec(b, i1, Stop::AttrNameEnd);
        proof {
            lemma_scans(b@, i1 as int, Stop::AttrNameEnd);
        }
        let an = text_exec(b, i1, ae);
        *i = ae;
        skip_ws(b, i);
        proof {
            lemma_scans(b@, ae as int, Stop::AttrNameEnd);
        }
        if *i < n && b[*i] == 61u8 {
            *i = *i + 1;
            let ghost i2p = *i;
            skip_ws(b, i);
            proof {
                lemma_scans(b@, i2p as int, Stop::AttrNameEnd);
            }
            let q: u8 = if *i < n { b[*i] } else { 0 };
            if q == 34u8 || q == 39u8 {
                let vs = *i + 1;
                let ve = scan_exec(b, vs, Stop::Byte(q));
                proof {
                    lemma_scans(b@, vs as int, Stop::Byte(q));
                }
                let av = text_exec(b, vs, ve);
                *i = ve + 1;
                if an.as_str().unicode_len() > 0 {
                    let ghost before = attrs@;
                    attrs.push((an, av));
                    proof {
                        assert(attr_views(attrs@) =~= attr_views(before).push((an@, av@)));
                    }
                }
            } else {
                continue;
            }
        } else if an.as_str().unicode_len() > 0 {
            let ghost before = attrs@;
            let empty = String::new();
            attrs.push((an, empty));
            proof {
                assert(attr_views(attrs@) =~= attr_views(before).push((an@, Seq::<char>::empty())));
            }
        }
    }
    attrs
}

/// The children of an element, as trees.
pub open spec fn child_trees(ch: Seq<XmlNode>) -> Seq<XmlTree> {
    Seq::new(
        ch.len(),
        |i: int|
            if 0 <= i < ch.len() {
                tree_of(ch[i])
            } else {
                XmlTree::Text(Seq::empty())
            },
    )
}

proof fn lemma_tree_of_element(name: String, attrs: Vec<(String, String)>, children: Vec<XmlNode>)
    ensures
        tree_of(XmlNode::Element { name, attrs, children }) == XmlTree::Element(
            name@,
            attr_views(attrs@),
            child_trees(children@),
        ),
{
    let n = XmlNode::Element { name, attrs, children };
    let t = tree_of(n);
    assert(t is Element);
    assert(t->Element_0 == name@);
    assert(t->Element_1 == attr_views(attrs@));
    assert(t->Element_2 =~= child_trees(children@));
}

/// Appends `c` to the children of the top element of `stack`.
fn add_child_exec(stack: &mut Vec<XmlNode>, c: XmlNode)
    ensures
        trees_of(final(stack)@) == add_child(trees_of(old(stack)@), tree_of(c)),
        final(stack)@.len() == old(stack)@.len(),
{
    if stack.len() == 0 {
        return;
    }
    let ghost old_trees = trees_of(stack@);
    let top = stack.pop().unwrap();
    proof {
        assert(trees_of(stack@) =~= old_trees.drop_last());
        assert(old_trees.last() == tree_of(top));
    }
    match top {
        XmlNode::Element { name, attrs, mut children } => {
            let ghost nv = name@;
            let ghost av = attr_views(attrs@);
            let ghost ch0 = children@;
            let ghost ct = tree_of(c);
            proof {
                lemma_tree_of_element(name, attrs, children);
                assert(old_trees.last() == XmlTree::Element(nv, av, child_trees(ch0)));
            }
            children.push(c);
            proof {
                assert(child_trees(children@) =~= child_trees(ch0).push(ct));
                lemma_tree_of_element(name, attrs, children);
            }
            let node = XmlNode::Element { name, attrs, children };
            let ghost before = stack@;
            stack.push(node);
            proof {
                assert(tree_of(node) == XmlTree::Element(nv, av, child_trees(ch0).push(ct)));
                assert(trees_of(stack@) =~= trees_of(before).push(tree_of(node)));
            }
        },
        XmlNode::Text(t) => {
            let ghost before = stack@;
            let node = XmlNode::Text(t);
            stack.push(node);
            proof {
                assert(trees_of(stack@) =~= trees_of(before).push(tree_of(node)));
                assert(trees_of(stack@) =~= old_trees);
            }
        },
    }
}

/// Why a document could not be read.
#[derive(Debug, Clone, Copy, PartialEq, Eq, Structural)]
pub enum XmlError {
    /// A closing tag `</` is followed only by whitespace up to the end.
    UnfinishedCloseTag,
}

fn at_comment_exec(b: &[u8], j: usize) -> (r: bool)
    requires
        b@.len() + 8 <= usize::MAX,
    ensures
        r == at_comment(b@, j as int),
{
    if j < b.len() && b.len() - j > 3 {
        let r = b[j] == 60u8 && b[j + 1] == 33u8 && b[j + 2] == 45u8 && b[j + 3] == 45u8;
        proof {
            if r {
                assert(b@.subrange(j as int, j + 4) =~= seq![60u8, 33u8, 45u8, 45u8]);
            } else if b@.subrange(j as int, j + 4) == seq![60u8, 33u8, 45u8, 45u8] {
                assert(b@.subrange(j as int, j + 4)[0] == b@[j as int]);
                assert(b@.subrange(j as int, j + 4)[1] == b@[j + 1]);
                assert(b@.subrange(j as int, j + 4)[2] == b@[j + 2]);
                assert(b@.subrange(j as int, j + 4)[3] == b@[j + 3]);
            }
        }
        r
    } else {
        false
    }
}

fn at_doctype_exec(b: &[u8], j: usize) -> (r: bool)
    requires
        b@.len() + 8 <= usize::MAX,
    ensures
        r == at_doctype(b@, j as int),
{
    if j < b.len() && b.len() - j > 8 {
        let pat: [u8; 9] = [60, 33, 68, 79, 67, 84, 89, 80, 69];
        let mut k: usize = 0;
        while k < 9
            invariant
                j + 8 < b@.len(),
                b@.len() + 8 <= usize::MAX,
                pat@ == seq![60u8, 33u8, 68u8, 79u8, 67u8, 84u8, 89u8, 80u8, 69u8],
                k <= 9,
                forall|t: int| 0 <= t < k ==> b@[j + t] == pat@[t],
            decreases 9 - k,
        {
            if b[j + k] != pat[k] {
                proof {
                    assert(b@.subrange(j as int, j + 9)[k as int] == b@[j + k]);
                }
                return false;
            }
            k = k + 1;
        }
        proof {
            assert(b@.subrange(j as int, j + 9) =~= seq![60u8, 33u8, 68u8, 79u8, 67u8, 84u8, 89u8, 80u8, 69u8]);
        }
        true
    } else {
        false
    }
}

/// The outcome of a step agrees with `xml_next`.
pub open spec fn step_done(b: Seq<u8>, j: int, st: Seq<XmlTree>, r: Result<usize, XmlError>, fin: Seq<XmlNode>) -> bool {
    match xml_next(b, j, st) {
        None => r is Err,
        Some(p) => r matches Ok(i2) && i2 == p.0 && trees_of(fin) == p.1,
    }
}

/// A closing tag at `j`.
fn close_step(b: &[u8], j: usize, stack: &mut Vec<XmlNode>) -> (r: Result<usize, XmlError>)
    requires
        j + 1 < b@.len(),
        b@.len() + 8 <= usize::MAX,
        b@[j as int] == 60u8 && b@[j + 1] == 47u8,
        old(stack)@.len() >= 1,
    ensures
        step_done(b@, j as int, trees_of(old(stack)@), r, final(stack)@),
        final(stack)@.len() >= 1,
{
    let n = b.len();
    let mut i = j + 2;
    skip_ws(b, &mut i);
    let k = i;
    proof {
        lemma_scans(b@, j + 2, Stop::Gt);
    }
    if k >= n {
        return Err(XmlError::UnfinishedCloseTag);
    }
    let e = scan_exec(b, k, Stop::Gt);
    proof {
        lemma_scans(b@, k as int, Stop::Gt);
    }
    let next = if e + 1 < n { e + 1 } else { n };
    if stack.len() > 1 {
        let ghost st = trees_of(stack@);
        let closed = stack.pop().unwrap();
        proof {
            assert(trees_of(stack@) =~= st.drop_last());
            assert(st.last() == tree_of(closed));
        }
        add_child_exec(stack, closed);
    }
    Ok(next)
}

/// A start tag at `j`.
fn element_step(b: &[u8], j: usize, stack: &mut Vec<XmlNode>) -> (r: Result<usize, XmlError>)
    requires
        j < b@.len(),
        b@.len() + 8 <= usize::MAX,
        b@[j as int] == 60u8,
        !at2(b@, j as int, 60u8, 47u8),
        !at_comment(b@, j as int),
        !at2(b@, j as int, 60u8, 63u8),
        !at_doctype(b@, j as int),
        old(stack)@.len() >= 1,
    ensures
        step_done(b@, j as int, trees_of(old(stack)@), r, final(stack)@),
        final(stack)@.len() >= 1,
{
    let n = b.len();
    let ne = scan_exec(b, j + 1, Stop::NameEnd);
    proof {
        lemma_scans(b@, j + 1, Stop::NameEnd);
        lemma_attr_loop(b@, ne as int, Seq::empty());
    }
    let name = text_exec(b, j + 1, ne);
    let mut i = ne;
    let attrs = read_attrs(b, &mut i);
    if i < n {
        let sc = b[i] == 47u8;
        let next = if b[i] == 62u8 {
            i + 1
        } else if sc {
            if i + 2 < n { i + 2 } else { n }
        } else {
            i
        };
        let ghost nv = name@;
        let ghost av = attr_views(attrs@);
        let children: Vec<XmlNode> = Vec::new();
        proof {
            lemma_tree_of_element(name, attrs, children);
            assert(child_trees(children@) =~= Seq::<XmlTree>::empty());
        }
        let elem = XmlNode::Element { name, attrs, children };
        proof {
            assert(tree_of(elem) == XmlTree::Element(nv, av, Seq::empty()));
        }
        if sc {
            add_child_exec(stack, elem);
        } else {
            let ghost before = stack@;
            stack.push(elem);
            proof {
                assert(trees_of(stack@) =~= trees_of(before).push(tree_of(elem)));
            }
        }
        Ok(next)
    } else {
        Ok(i)
    }
}

/// Text at `j`.
fn text_step(b: &[u8], j: usize, stack: &mut Vec<XmlNode>) -> (r: Result<usize, XmlError>)
    requires
        j < b@.len(),
        b@.len() + 8 <= usize::MAX,
        b@[j as int] != 60u8,
        old(stack)@.len() >= 1,
    ensures
        step_done(b@, j as int, trees_of(old(stack)@), r, final(stack)@),
        final(stack)@.len() >= 1,
{
    let te = scan_exec(b, j, Stop::Byte(60u8));
    proof {
        lemma_scans(b@, j as int, Stop::Byte(60u8));
    }
    let text = text_exec(b, j, te);
    let tr = trim(text.as_str());
    if tr.unicode_len() > 0 {
        add_child_exec(stack, XmlNode::Text(text));
    }
    Ok(te)
}

/// One step of reading at `j`.
fn xml_step(b: &[u8], j: usize, stack: &mut Vec<XmlNode>) -> (r: Result<usize, XmlError>)
    requires
        j < b@.len(),
        b@.len() + 8 <= usize::MAX,
        old(stack)@.len() >= 1,
    ensures
        step_done(b@, j as int, trees_of(old(stack)@), r, final(stack)@),
        final(stack)@.len() >= 1,
{
    let n = b.len();
    if b[j] != 60u8 {
        return text_step(b, j, stack);
    }
    if j + 1 < n && b[j + 1] == 47u8 {
        return close_step(b, j, stack);
    }
    if at_comment_exec(b, j) {
        let mut c = j + 4;
        while c + 2 < n && !(b[c] == 45u8 && b[c + 1] == 45u8 && b[c + 2] == 62u8)
            invariant
                n == b@.len(),
                n + 8 <= usize::MAX,
                j + 4 <= c <= n,
                comment_end(b@, j + 4) == comment_end(b@, c as int),
            decreases n - c,
        {
            c = c + 1;
        }
        return Ok(c + 3);
    }
    if j + 1 < n && b[j + 1] == 63u8 {
        let mut p = j + 2;
        while p + 1 < n && !(b[p] == 63u8 && b[p + 1] == 62u8)
            invariant
                n == b@.len(),
                n + 8 <= usize::MAX,
                j + 2 <= p <= n,
                pi_end(b@, j + 2) == pi_end(b@, p as int),
            decreases n - p,
        {
            p = p + 1;
        }
        return Ok(p + 2);
    }
    if at_doctype_exec(b, j) {
        let g = scan_exec(b, j, Stop::Gt);
        proof {
            lemma_scans(b@, j as int, Stop::Gt);
        }
        return Ok(g + 1);
    }
    element_step(b, j, stack)
}

/// Reads an XML document into a tree under a synthetic `##ROOT##` element.
pub fn parse_xml(content: &str) -> (r: Result<XmlNode, XmlError>)
    requires
        content.spec_bytes().len() + 8 <= usize::MAX,
    ensures
        match xml_parse(content.spec_bytes()) {
            Some(t) => r matches Ok(n) && tree_of(n) == t,
            None => r == Err::<XmlNode, XmlError>(XmlError::UnfinishedCloseTag),
        },
{
    let b = content.as_bytes();
    let n = b.len();
    let mut stack: Vec<XmlNode> = Vec::new();
    let root_name_s = string_from("##ROOT##");
    let attrs0: Vec<(String, String)> = Vec::new();
    let children0: Vec<XmlNode> = Vec::new();
    proof {
        reveal_strlit("##ROOT##");
        lemma_tree_of_element(root_name_s, attrs0, children0);
        assert(child_trees(children0@) =~= Seq::<XmlTree>::empty());
        assert(attr_views(attrs0@) =~= Seq::<(Seq<char>, Seq<char>)>::empty());
    }
    let root = XmlNode::Element { name: root_name_s, attrs: attrs0, children: children0 };
    stack.push(root);
    proof {
        assert(trees_of(stack@) =~= seq![XmlTree::Element(root_name(), Seq::empty(), Seq::empty())]);
    }
    let ghost init = trees_of(stack@);
    let mut i: usize = 0;
    while i < n
        invariant
            n == b@.len(),
            n + 8 <= usize::MAX,
            b@ == content.spec_bytes(),
            init == seq![XmlTree::Element(root_name(), Seq::empty(), Seq::empty())],
            i <= n + 3,
            stack@.len() >= 1,
            xml_run(b@, 0, init) == xml_run(b@, i as int, trees_of(stack@)),
        decreases n + 8 - i,
    {
        let ghost i0 = i;
        let ghost st = trees_of(stack@);
        skip_ws(b, &mut i);
        proof {
            lemma_scans(b@, i0 as int, Stop::Gt);
        }
        if i >= n {
            continue;
        }
        proof {
            lemma_xml_next(b@, i as int, st);
            assert(xml_run(b@, i0 as int, st) == match xml_next(b@, i as int, st) {
                None => None,
                Some(p) => xml_run(b@, p.0, p.1),
            });
        }
        match xml_step(b, i, &mut stack) {
            Err(e) => {
                proof {
                    assert(xml_run(b@, i0 as int, st) is None);
                }
                return Err(e);
            },
            Ok(i2) => {
                i = i2;
            },
        }
    }
    let ghost fin = trees_of(stack@);
    proof {
        assert(xml_run(b@, i as int, fin) == Some(fin));
        assert(b@ == content.spec_bytes());
    }
    while stack.len() > 1
        invariant
            stack@.len() >= 1,
            collapse(fin) == collapse(trees_of(stack@)),
        decreases stack@.len(),
    {
        let ghost st = trees_of(stack@);
        let closed = stack.pop().unwrap();
        proof {
            assert(trees_of(stack@) =~= st.drop_last());
            assert(st.last() == tree_of(closed));
        }
        add_child_exec(&mut stack, closed);
    }
    proof {
        assert(collapse(trees_of(stack@)) == trees_of(stack@));
    }
    let ghost last = trees_of(stack@);
    let root = stack.pop().unwrap();
    proof {
        assert(last[0] == tree_of(root));
    }
    Ok(root)
}


// ---------------------------------------------------------------------------
// Looking things up in a tree

/// No element is treated as void (self-closing by name).
pub fn is_void(_name: &str) -> (r: bool)
    ensures
        !r,
{
    false
}

/// The first element named `name` in pre-order: the tree itself, else the
/// first match among its children in order.
pub open spec fn find_tree(t: XmlTree, name: Seq<char>) -> Option<XmlTree>
    decreases t, 0int,
{
    match t {
        XmlTree::Element(n, _, ch) => if n == name {
            Some(t)
        } else {
            find_forest(ch, name, 0)
        },
        XmlTree::Text(_) => None,
    }
}

/// The first match of `find_tree` among `ts[k..]`.
pub open spec fn find_forest(ts: Seq<XmlTree>, name: Seq<char>, k: int) -> Option<XmlTree>
    decreases ts, ts.len() - k,
{
    if k < 0 || k >= ts.len() {
        None
    } else {
        match find_tree(ts[k], name) {
            Some(r) => Some(r),
            None => find_forest(ts, name, k + 1),
        }
    }
}

/// Finds the first element named `name` in `node` (pre-order).
pub fn find_element<'a>(node: &'a XmlNode, name: &str) -> (r: Option<&'a XmlNode>)
    ensures
        match find_tree(tree_of(*node), name@) {
            None => r is None,
            Some(t) => r matches Some(x) && tree_of(*x) == t,
        },
    decreases *node, 1int,
{
    match node {
        XmlNode::Element { name: n, children, .. } => {
            proof {
                lemma_tree_of_element(node->name, node->attrs, node->children);
            }
            if str_eq(n.as_str(), name) {
                return Some(node);
            }
            find_element_in(children.as_slice(), name)
        },
        XmlNode::Text(_) => None,
    }
}

/// Finds the first element named `name` in any of `nodes`, in order.
pub fn find_element_in<'a>(nodes: &'a [XmlNode], name: &str) -> (r: Option<&'a XmlNode>)
    ensures
        match find_forest(child_trees(nodes@), name@, 0) {
            None => r is None,
            Some(t) => r matches Some(x) && tree_of(*x) == t,
        },
    decreases nodes@, 0int,
{
    let len = nodes.len();
    let mut k: usize = 0;
    while k < len
        invariant
            len == nodes@.len(),
            k <= len,
            find_forest(child_trees(nodes@), name@, 0) == find_forest(child_trees(nodes@), name@, k as int),
        decreases len - k,
    {
        let c = &nodes[k];
        proof {
            assert(child_trees(nodes@)[k as int] == tree_of(nodes@[k as int]));
        }
        match find_element(c, name) {
            Some(r) => {
                return Some(r);
            },
            None => {},
        }
        k = k + 1;
    }
    None
}

/// Finds the first element named `name` below `node`, not counting `node`.
pub fn find_element_in_children<'a>(node: &'a XmlNode, name: &str) -> (r: Option<&'a XmlNode>)
    ensures
        match tree_of(*node) {
            XmlTree::Element(_, _, ch) => match find_forest(ch, name@, 0) {
                None => r is None,
                Some(t) => r matches Some(x) && tree_of(*x) == t,
            },
            XmlTree::Text(_) => r is None,
        },
{
    match node {
        XmlNode::Element { children, .. } => {
            proof {
                lemma_tree_of_element(node->name, node->attrs, node->children);
            }
            find_element_in(children.as_slice(), name)
        },
        XmlNode::Text(_) => None,
    }
}

/// The children of an element; none for text.
pub fn children_of(node: &XmlNode) -> (r: &[XmlNode])
    ensures
        match *node {
            XmlNode::Element { children, .. } => r@ == children@,
            XmlNode::Text(_) => r@.len() == 0,
        },
{
    match node {
        XmlNode::Element { children, .. } => children.as_slice(),
        XmlNode::Text(_) => &[],
    }
}

/// All text in a tree, in document order.
pub open spec fn tree_text(t: XmlTree) -> Seq<char>
    decreases t, 0int,
{
    match t {
        XmlTree::Text(s) => s,
        XmlTree::Element(_, _, ch) => forest_text(ch, ch.len() as int),
    }
}

/// All text in the first `k` trees of `ts`.
pub open spec fn forest_text(ts: Seq<XmlTree>, k: int) -> Seq<char>
    decreases ts, k,
{
    if k <= 0 || k > ts.len() {
        Seq::empty()
    } else {
        forest_text(ts, k - 1) + tree_text(ts[k - 1])
    }
}

/// Appends all text in `node` to `out`.
pub fn collect_text(node: &XmlNode, out: &mut String)
    ensures
        final(out)@ == old(out)@ + tree_text(tree_of(*node)),
    decreases *node, 1int,
{
    match node {
        XmlNode::Element { children, .. } => {
            proof {
                lemma_tree_of_element(node->name, node->attrs, node->children);
            }
            collect_text_in(children.as_slice(), out);
        },
        XmlNode::Text(t) => {
            out.append(t.as_str());
        },
    }
}

/// Appends all text in `nodes`, in order, to `out`.
fn collect_text_in(nodes: &[XmlNode], out: &mut String)
    ensures
        final(out)@ == old(out)@ + forest_text(child_trees(nodes@), nodes@.len() as int),
    decreases nodes@, 0int,
{
    let ghost ch = child_trees(nodes@);
    let ghost o0 = out@;
    let len = nodes.len();
    let mut k: usize = 0;
    proof {
        assert(forest_text(ch, 0) =~= Seq::<char>::empty());
    }
    while k < len
        invariant
            len == nodes@.len(),
            ch == child_trees(nodes@),
            k <= len,
            out@ == o0 + forest_text(ch, k as int),
        decreases len - k,
    {
        proof {
            assert(ch[k as int] == tree_of(nodes@[k as int]));
        }
        collect_text(&nodes[k], out);
        k = k + 1;
        proof {
            assert(out@ =~= o0 + forest_text(ch, k as int));
        }
    }
}

/// All text in `node`, in document order.
pub fn get_text(node: &XmlNode) -> (s: String)
    ensures
        s@ == tree_text(tree_of(*node)),
{
    let mut out = String::new();
    collect_text(node, &mut out);
    proof {
        assert(out@ =~= tree_text(tree_of(*node)));
    }
    out
}

/// The first element of `nodes` whose name is one of `names`.
pub open spec fn first_named(nodes: Seq<XmlNode>, names: Seq<Seq<char>>, k: int) -> Option<int>
    decreases nodes.len() - k,
{
    if k < 0 || k >= nodes.len() {
        None
    } else {
        match nodes[k] {
            XmlNode::Element { name, .. } => if names.contains(name@) {
                Some(k)
            } else {
                first_named(nodes, names, k + 1)
            },
            XmlNode::Text(_) => first_named(nodes, names, k + 1),
        }
    }
}

/// The contents of a list of names.
pub open spec fn name_views(names: Seq<&str>) -> Seq<Seq<char>> {
    Seq::new(names.len(), |i: int| names[i]@)
}

/// Finds the first element among `nodes` with one of the given names.
pub fn find_node_by_names<'a>(nodes: &'a [XmlNode], names: &[&str]) -> (r: Option<&'a XmlNode>)
    ensures
        match first_named(nodes@, name_views(names@), 0) {
            None => r is None,
            Some(k) => r matches Some(x) && *x == nodes@[k],
        },
{
    let len = nodes.len();
    let mut k: usize = 0;
    while k < len
        invariant
            len == nodes@.len(),
            k <= len,
            first_named(nodes@, name_views(names@), 0) == first_named(nodes@, name_views(names@), k as int),
        decreases len - k,
    {
        let nd = &nodes[k];
        match nd {
            XmlNode::Element { name, .. } => {
                let m = names.len();
                let mut q: usize = 0;
                while q < m
                    invariant
                        m == names@.len(),
                        q <= m,
                        len == nodes@.len(),
                        k < len,
                        *nd == nodes@[k as int],
                        (*nd) is Element,
                        (*nd)->name == *name,
                        first_named(nodes@, name_views(names@), 0) == first_named(
                            nodes@,
                            name_views(names@),
                            k as int,
                        ),
                        forall|t: int| 0 <= t < q ==> names@[t]@ != name@,
                    decreases m - q,
                {
                    if str_eq(names[q], name.as_str()) {
                        proof {
                            assert(name_views(names@)[q as int] == name@);
                            assert(name_views(names@).contains(name@));
                            assert(nodes@[k as int] == *nd);
                            assert(first_named(nodes@, name_views(names@), k as int) == Some(k as int));
                        }
                        return Some(nd);
                    }
                    q = q + 1;
                }
                proof {
                    assert(!name_views(names@).contains(name@)) by {
                        if name_views(names@).contains(name@) {
                            let w = choose|w: int| 0 <= w < names@.len() && name_views(names@)[w] == name@;
                            assert(names@[w]@ == name@);
                        }
                    }
                }
            },
            XmlNode::Text(_) => {},
        }
        k = k + 1;
    }
    None
}


// ---------------------------------------------------------------------------
// Quoted attribute values

/// The scan from `i` stops at `j` when no byte in between stops it and `j`
/// stops it or is the end.
proof fn lemma_scan_run(b: Seq<u8>, i: int, j: int, k: Stop)
    requires
        0 <= i <= j <= b.len(),
        forall|t: int| i <= t < j ==> !stops(#[trigger] b[t], k),
        j == b.len() || stops(b[j], k),
    ensures
        scan(b, i, k) == j,
    decreases j - i,
{
    if i < j {
        lemma_scan_run(b, i + 1, j, k);
    }
}

/// The one-element document `<e k=QvQ>`, where `Q` is the quote byte `q`.
pub open spec fn one_attr_doc(e: Seq<u8>, k: Seq<u8>, v: Seq<u8>, q: u8) -> Seq<u8> {
    seq![60u8] + e + seq![32u8] + k + seq![61u8, q] + v + seq![q, 62u8]
}

proof fn lemma_doc_layout(e: Seq<u8>, k: Seq<u8>, v: Seq<u8>, q: u8)
    ensures
        ({
            let b = one_attr_doc(e, k, v, q);
            let el = e.len() as int;
            let kl = k.len() as int;
            let vl = v.len() as int;
            &&& b.len() == el + kl + vl + 6
            &&& b[0] == 60u8
            &&& forall|t: int| 0 <= t < el ==> #[trigger] b[1 + t] == e[t]
            &&& b[el + 1] == 32u8
            &&& forall|t: int| 0 <= t < kl ==> #[trigger] b[el + 2 + t] == k[t]
            &&& b[el + 2 + kl] == 61u8
            &&& b[el + 3 + kl] == q
            &&& forall|t: int| 0 <= t < vl ==> #[trigger] b[el + 4 + kl + t] == v[t]
            &&& b[el + 4 + kl + vl] == q
            &&& b[el + 5 + kl + vl] == 62u8
            &&& b.subrange(1, el + 1) == e
            &&& b.subrange(el + 2, el + 2 + kl) == k
            &&& b.subrange(el + 4 + kl, el + 4 + kl + vl) == v
        }),
{
    let b = one_attr_doc(e, k, v, q);
    let el = e.len() as int;
    let kl = k.len() as int;
    let vl = v.len() as int;
    assert(b.subrange(1, el + 1) =~= e);
    assert(b.subrange(el + 2, el + 2 + kl) =~= k);
    assert(b.subrange(el + 4 + kl, el + 4 + kl + vl) =~= v);
}

/// The attributes of `<e k=QvQ>`: just `(k, v)`, read up to the closing `>`.
proof fn lemma_doc_attrs(e: Seq<u8>, k: Seq<u8>, v: Seq<u8>, q: u8)
    requires
        q == 34u8 || q == 39u8,
        k.len() > 0,
        valid_utf8(k),
        forall|t: int| 0 <= t < k.len() ==> !is_ascii_ws(#[trigger] k[t]) && k[t] != 61u8 && k[t] != 47u8 && k[t] != 62u8,
        forall|t: int| 0 <= t < v.len() ==> #[trigger] v[t] != q,
    ensures
        attr_loop(one_attr_doc(e, k, v, q), e.len() as int + 1, Seq::empty()) == (
            seq![(text_of(k), text_of(v))],
            e.len() as int + k.len() as int + v.len() as int + 5,
        ),
{
    let b = one_attr_doc(e, k, v, q);
    let el = e.len() as int;
    let kl = k.len() as int;
    let vl = v.len() as int;
    lemma_doc_layout(e, k, v, q);
    lemma_attr_step(b, el + 1, Seq::empty(), k, v, q);
    let attrs = seq![(text_of(k), text_of(v))];
    assert(Seq::<(Seq<char>, Seq<char>)>::empty().push((text_of(k), text_of(v))) =~= attrs);
    assert(ws_end(b, el + 5 + kl + vl) == el + 5 + kl + vl);
    assert(attr_loop(b, el + 5 + kl + vl, attrs) == (attrs, el + 5 + kl + vl));
}

/// Attributes are read one after another: where a whitespace byte, a
/// non-empty UTF-8 name `k`, `=`, and a value `v` quoted with `"` or `'` stand
/// at `i`, reading attributes from `i` gives `(k, v)` after those already
/// read, and goes on right after the closing quote.
pub proof fn lemma_attr_step(b: Seq<u8>, i: int, acc: Seq<(Seq<char>, Seq<char>)>, k: Seq<u8>, v: Seq<u8>, q: u8)
    requires
        q == 34u8 || q == 39u8,
        0 <= i,
        i + k.len() + v.len() + 4 <= b.len(),
        is_ascii_ws(b[i]),
        b.subrange(i + 1, i + 1 + k.len()) == k,
        b[i + 1 + k.len()] == 61u8,
        b[i + 2 + k.len()] == q,
        b.subrange(i + 3 + k.len(), i + 3 + k.len() + v.len()) == v,
        b[i + 3 + k.len() + v.len()] == q,
        k.len() > 0,
        valid_utf8(k),
        forall|t: int| 0 <= t < k.len() ==> !is_ascii_ws(#[trigger] k[t]) && k[t] != 61u8 && k[t] != 47u8 && k[t] != 62u8,
        forall|t: int| 0 <= t < v.len() ==> #[trigger] v[t] != q,
    ensures
        attr_loop(b, i, acc) == attr_loop(b, i + k.len() + v.len() + 4, acc.push((text_of(k), text_of(v)))),
{
    let kl = k.len() as int;
    let vl = v.len() as int;
    assert(b[i + 1] == b.subrange(i + 1, i + 1 + kl)[0]);
    assert(ws_end(b, i + 1) == i + 1);
    assert(ws_end(b, i) == i + 1);
    assert forall|t: int| i + 1 <= t < i + 1 + kl implies !stops(#[trigger] b[t], Stop::AttrNameEnd) by {
        assert(b[t] == b.subrange(i + 1, i + 1 + kl)[t - i - 1]);
    }
    lemma_scan_run(b, i + 1, i + 1 + kl, Stop::AttrNameEnd);
    assert(ws_end(b, i + 1 + kl) == i + 1 + kl);
    assert(ws_end(b, i + 2 + kl) == i + 2 + kl);
    assert forall|t: int| i + 3 + kl <= t < i + 3 + kl + vl implies !stops(#[trigger] b[t], Stop::Byte(q)) by {
        assert(b[t] == b.subrange(i + 3 + kl, i + 3 + kl + vl)[t - i - 3 - kl]);
    }
    lemma_scan_run(b, i + 3 + kl, i + 3 + kl + vl, Stop::Byte(q));
    assert(text_of(k).len() > 0);
}

/// A quoted attribute value reads the same with double or single quotes: for
/// an element name `e`, a non-empty UTF-8 attribute name `k` and a value `v`
/// that does not hold the quote, `<e k="v">` and `<e k='v'>` both read as a
/// single element `e` under the root, with exactly the attribute `(k, v)`
/// and no children.
pub proof fn lemma_quoted_attr(e: Seq<u8>, k: Seq<u8>, v: Seq<u8>, q: u8)
    requires
        q == 34u8 || q == 39u8,
        forall|t: int| 0 <= t < e.len() ==> !is_ascii_ws(#[trigger] e[t]) && e[t] != 47u8 && e[t] != 62u8,
        e.len() > 0 ==> e[0] != 33u8 && e[0] != 63u8,
        k.len() > 0,
        valid_utf8(k),
        forall|t: int| 0 <= t < k.len() ==> !is_ascii_ws(#[trigger] k[t]) && k[t] != 61u8 && k[t] != 47u8 && k[t] != 62u8,
        forall|t: int| 0 <= t < v.len() ==> #[trigger] v[t] != q,
    ensures
        xml_parse(one_attr_doc(e, k, v, q)) == Some(
            XmlTree::Element(
                root_name(),
                Seq::empty(),
                seq![XmlTree::Element(text_of(e), seq![(text_of(k), text_of(v))], Seq::empty())],
            ),
        ),
{
    let b = one_attr_doc(e, k, v, q);
    let el = e.len() as int;
    let n = b.len() as int;
    lemma_doc_layout(e, k, v, q);
    lemma_doc_attrs(e, k, v, q);
    let root = XmlTree::Element(root_name(), Seq::empty(), Seq::empty());
    assert(b[1] == if el > 0 { e[0] } else { 32u8 }) by {
        if el > 0 {
            assert(b[1 + 0int] == e[0]);
        }
    }
    assert(ws_end(b, 0) == 0);
    assert(!at2(b, 0, 60u8, 47u8));
    assert(!at_comment(b, 0)) by {
        if at_comment(b, 0) {
            assert(b.subrange(0, 4)[1] == b[1]);
        }
    }
    assert(!at2(b, 0, 60u8, 63u8));
    assert(!at_doctype(b, 0)) by {
        if at_doctype(b, 0) {
            assert(b.subrange(0, 9)[1] == b[1]);
        }
    }
    assert forall|t: int| 1 <= t < el + 1 implies !stops(#[trigger] b[t], Stop::NameEnd) by {
        assert(b[1 + (t - 1)] == e[t - 1]);
    }
    lemma_scan_run(b, 1, el + 1, Stop::NameEnd);
    let attrs = seq![(text_of(k), text_of(v))];
    let elem = XmlTree::Element(text_of(e), attrs, Seq::empty());
    let st = seq![root].push(elem);
    assert(xml_next(b, 0, seq![root]) == Some((n, st)));
    assert(xml_run(b, n, st) == Some(st));
    assert(xml_run(b, 0, seq![root]) == Some(st));
    assert(st.drop_last() =~= seq![root]);
    assert(close_top(st) =~= seq![XmlTree::Element(root_name(), Seq::empty(), seq![elem])]);
    assert(collapse(st) == collapse(close_top(st)));
}

} // verus!
