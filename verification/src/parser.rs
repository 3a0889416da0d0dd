//! A single-pass recursive-descent parser: markup text in, one root `Node`
//! out. Every grammar-rule violation (a required character missing, input
//! running out, a closing tag that does not match) aborts the whole parse
//! with a `ParseError`; no partial tree is ever returned.

use crate::dom::{elem, nodes_view, text, AttrMap, Node, SpecElementData, SpecNode, SpecNodeType};
use vstd::prelude::*;
use vstd::string::StrSliceExecFns;

verus! {

broadcast use vstd::string::group_string_axioms;

/// Why a parse failed.
#[derive(Debug)]
pub enum ParseError {
    /// A primitive needed a character but the cursor was at or past
    /// end-of-input.
    UnexpectedEndOfInput,
    /// A required literal character did not match: expected, found, and the
    /// cursor position of the found character. A `'"'` is expected where
    /// either quote kind would open an attribute value.
    UnexpectedCharacter(char, char, usize),
    /// The closing tag name differs from the opening one: opening, closing.
    TagMismatch(String, String),
}

/// Mathematical model of a parse error.
#[verifier::ext_equal]
pub enum SpecParseError {
    UnexpectedEndOfInput,
    UnexpectedCharacter { expected: char, found: char, position: int },
    TagMismatch { opening: Seq<char>, closing: Seq<char> },
}

impl View for ParseError {
    type V = SpecParseError;

    open spec fn view(&self) -> SpecParseError {
        match self {
            ParseError::UnexpectedEndOfInput => SpecParseError::UnexpectedEndOfInput,
            ParseError::UnexpectedCharacter(e, f, p) => SpecParseError::UnexpectedCharacter {
                expected: *e,
                found: *f,
                position: *p as int,
            },
            ParseError::TagMismatch(o, c) => SpecParseError::TagMismatch {
                opening: o@,
                closing: c@,
            },
        }
    }
}

/// Whitespace (the Unicode white-space characters).
pub open spec fn is_space_char(c: char) -> bool {
    let u = c as u32;
    u == 0x9 || u == 0xA || u == 0xB || u == 0xC || u == 0xD || u == 0x20 || u == 0x85
        || u == 0xA0 || u == 0x1680 || (0x2000 <= u && u <= 0x200A) || u == 0x2028 || u == 0x2029
        || u == 0x202F || u == 0x205F || u == 0x3000
}

fn space_char(c: char) -> (b: bool)
    ensures
        b == is_space_char(c),
{
    let u = c as u32;
    u == 0x9 || u == 0xA || u == 0xB || u == 0xC || u == 0xD || u == 0x20 || u == 0x85
        || u == 0xA0 || u == 0x1680 || (0x2000 <= u && u <= 0x200A) || u == 0x2028 || u == 0x2029
        || u == 0x202F || u == 0x205F || u == 0x3000
}

/// A character a tag or attribute name may consist of: an ASCII letter or
/// digit.
pub open spec fn is_tag_name_char(c: char) -> bool {
    let u = c as u32;
    (0x61 <= u && u <= 0x7A) || (0x41 <= u && u <= 0x5A) || (0x30 <= u && u <= 0x39)
}

fn tag_name_char(c: char) -> (b: bool)
    ensures
        b == is_tag_name_char(c),
{
    let u = c as u32;
    (0x61 <= u && u <= 0x7A) || (0x41 <= u && u <= 0x5A) || (0x30 <= u && u <= 0x39)
}

/// The whitespace predicate, as a function value.
pub open spec fn space_pred() -> spec_fn(char) -> bool {
    |c: char| is_space_char(c)
}

/// The tag-name predicate, as a function value.
pub open spec fn tag_name_pred() -> spec_fn(char) -> bool {
    |c: char| is_tag_name_char(c)
}

/// "Any character but `q`", as a function value.
pub open spec fn not_char_pred(q: char) -> spec_fn(char) -> bool {
    |c: char| c != q
}

/// The position where a maximal run of characters satisfying `p`,
/// starting at `i`, ends.
pub open spec fn take_while_end(s: Seq<char>, i: nat, p: spec_fn(char) -> bool) -> nat
    decreases s.len() - i,
{
    if i < s.len() && p(s[i as int]) {
        take_while_end(s, i + 1, p)
    } else {
        i
    }
}

/// Where the run ends: no earlier than `i`, no later than the input's end,
/// every character of the run satisfies `p`, the character after it (if any)
/// does not, and the end is a fixed point.
pub proof fn lemma_take_while_end(s: Seq<char>, i: nat, p: spec_fn(char) -> bool)
    ensures
        i <= take_while_end(s, i, p),
        i <= s.len() ==> take_while_end(s, i, p) <= s.len(),
        i > s.len() ==> take_while_end(s, i, p) == i,
        forall|k: int| i <= k < take_while_end(s, i, p) ==> p(#[trigger] s[k]),
        take_while_end(s, i, p) < s.len() ==> !p(s[take_while_end(s, i, p) as int]),
        take_while_end(s, take_while_end(s, i, p), p) == take_while_end(s, i, p),
    decreases s.len() - i,
{
    if i < s.len() && p(s[i as int]) {
        lemma_take_while_end(s, i + 1, p);
    }
}

/// `take_while_end` pinned from the other side: a run known to satisfy `p`
/// up to `j`, with `p` failing at `j` (or `j` the end), ends exactly at `j`.
pub proof fn lemma_take_while_end_exact(s: Seq<char>, i: nat, j: nat, p: spec_fn(char) -> bool)
    requires
        i <= j <= s.len(),
        forall|k: int| i <= k < j ==> p(#[trigger] s[k]),
        j < s.len() ==> !p(s[j as int]),
    ensures
        take_while_end(s, i, p) == j,
    decreases j - i,
{
    if i < j {
        lemma_take_while_end_exact(s, i + 1, j, p);
    }
}

/// Where whitespace starting at `i` ends.
pub open spec fn ws_end(s: Seq<char>, i: nat) -> nat {
    take_while_end(s, i, space_pred())
}

/// Where a tag name starting at `i` ends.
pub open spec fn tag_name_end(s: Seq<char>, i: nat) -> nat {
    take_while_end(s, i, tag_name_pred())
}

/// The remaining input at `i` begins with `pre`.
pub open spec fn spec_starts_with(s: Seq<char>, i: nat, pre: Seq<char>) -> bool {
    i + pre.len() <= s.len() && s.subrange(i as int, (i + pre.len()) as int) == pre
}

/// A text node read at `i`: the maximal run of characters other than `<`,
/// and the position after it.
pub open spec fn sp_text(s: Seq<char>, i: nat) -> (SpecNode, nat) {
    let e = take_while_end(s, i, not_char_pred('<'));
    (SpecNode::text(s.subrange(i as int, e as int)), e)
}

/// An attribute value read at `i`: an opening quote (`"` or `'`), characters
/// up to the next occurrence of the same quote, the closing quote. On
/// success: the characters between the quotes and the position after the
/// closing quote.
pub open spec fn sp_attr_value(s: Seq<char>, i: nat) -> Result<(Seq<char>, nat), SpecParseError> {
    if i >= s.len() {
        Err(SpecParseError::UnexpectedEndOfInput)
    } else {
        let q = s[i as int];
        if q != '"' && q != '\'' {
            Err(
                SpecParseError::UnexpectedCharacter {
                    expected: '"',
                    found: q,
                    position: i as int,
                },
            )
        } else {
            let e = take_while_end(s, i + 1, not_char_pred(q));
            if e >= s.len() {
                Err(SpecParseError::UnexpectedEndOfInput)
            } else {
                Ok((s.subrange((i + 1) as int, e as int), e + 1))
            }
        }
    }
}

/// An attribute read at `i`: a name, a literal `=`, a quoted value. On
/// success: the (name, value) pair and the position after the value.
pub open spec fn sp_attr(s: Seq<char>, i: nat) -> Result<
    ((Seq<char>, Seq<char>), nat),
    SpecParseError,
> {
    let ne = tag_name_end(s, i);
    let name = s.subrange(i as int, ne as int);
    if ne >= s.len() {
        Err(SpecParseError::UnexpectedEndOfInput)
    } else if s[ne as int] != '=' {
        Err(
            SpecParseError::UnexpectedCharacter {
                expected: '=',
                found: s[ne as int],
                position: ne as int,
            },
        )
    } else {
        match sp_attr_value(s, ne + 1) {
            Ok((v, j)) => Ok(((name, v), j)),
            Err(e) => Err(e),
        }
    }
}

/// On success an attribute value ends strictly beyond where it began, within
/// the input.
pub proof fn lemma_sp_attr_value_next(s: Seq<char>, i: nat)
    ensures
        sp_attr_value(s, i) matches Ok((v, j)) ==> i < j <= s.len(),
{
    if i < s.len() {
        lemma_take_while_end(s, i + 1, not_char_pred(s[i as int]));
    }
}

/// On success an attribute ends strictly beyond where it began, within the
/// input.
pub proof fn lemma_sp_attr_next(s: Seq<char>, i: nat)
    ensures
        sp_attr(s, i) matches Ok((nv, j)) ==> i < j <= s.len(),
{
    lemma_take_while_end(s, i, tag_name_pred());
    lemma_sp_attr_value_next(s, tag_name_end(s, i) + 1);
}

/// The attributes read from `i` up to a `>`, added to `acc`; whitespace is
/// skipped before each attribute and before the `>`. A later attribute with
/// the same name overwrites an earlier one. On success: the map and the
/// position of the `>`.
pub open spec fn sp_attrs(
    s: Seq<char>,
    i: nat,
    acc: Map<Seq<char>, Seq<char>>,
) -> Result<(Map<Seq<char>, Seq<char>>, nat), SpecParseError>
    decreases s.len() - i,
{
    let j = ws_end(s, i);
    if j >= s.len() {
        Err(SpecParseError::UnexpectedEndOfInput)
    } else if s[j as int] == '>' {
        Ok((acc, j))
    } else {
        match sp_attr(s, j) {
            Ok(((n, v), k)) => {
                proof {
                    lemma_take_while_end(s, i, space_pred());
                    lemma_sp_attr_next(s, j);
                }
                sp_attrs(s, k, acc.insert(n, v))
            },
            Err(e) => Err(e),
        }
    }
}

/// On success the attributes end at a `>` within the input, no earlier than
/// where they began.
pub proof fn lemma_sp_attrs_next(s: Seq<char>, i: nat, acc: Map<Seq<char>, Seq<char>>)
    ensures
        sp_attrs(s, i, acc) matches Ok((m, j)) ==> i <= j < s.len() && s[j as int] == '>',
    decreases s.len() - i,
{
    let j = ws_end(s, i);
    lemma_take_while_end(s, i, space_pred());
    if j < s.len() && s[j as int] != '>' {
        match sp_attr(s, j) {
            Ok(((n, v), k)) => {
                lemma_sp_attr_next(s, j);
                lemma_sp_attrs_next(s, k, acc.insert(n, v));
            },
            Err(e) => {},
        }
    }
}

/// The closing tag read at `k` for an element opened as `tag`: `<`, `/`, the
/// same tag name, `>`. On success: the finished element and the position
/// after the `>`.
pub open spec fn sp_close(
    s: Seq<char>,
    k: nat,
    tag: Seq<char>,
    attrs: Map<Seq<char>, Seq<char>>,
    children: Seq<SpecNode>,
) -> Result<(SpecNode, nat), SpecParseError> {
    if k >= s.len() {
        Err(SpecParseError::UnexpectedEndOfInput)
    } else if s[k as int] != '<' {
        Err(
            SpecParseError::UnexpectedCharacter {
                expected: '<',
                found: s[k as int],
                position: k as int,
            },
        )
    } else if k + 1 >= s.len() {
        Err(SpecParseError::UnexpectedEndOfInput)
    } else if s[(k + 1) as int] != '/' {
        Err(
            SpecParseError::UnexpectedCharacter {
                expected: '/',
                found: s[(k + 1) as int],
                position: (k + 1) as int,
            },
        )
    } else {
        let ce = tag_name_end(s, k + 2);
        let ctag = s.subrange((k + 2) as int, ce as int);
        if ctag != tag {
            Err(SpecParseError::TagMismatch { opening: tag, closing: ctag })
        } else if ce >= s.len() {
            Err(SpecParseError::UnexpectedEndOfInput)
        } else if s[ce as int] != '>' {
            Err(
                SpecParseError::UnexpectedCharacter {
                    expected: '>',
                    found: s[ce as int],
                    position: ce as int,
                },
            )
        } else {
            Ok((SpecNode::element(tag, attrs, children), ce + 1))
        }
    }
}

/// An element read at `i`: `<`, tag name, attributes, `>`, the child
/// sequence, then the matching closing tag. On success: the element and the
/// position after its closing tag.
pub open spec fn sp_element(s: Seq<char>, i: nat) -> Result<(SpecNode, nat), SpecParseError>
    decreases s.len() - i, 0int,
{
    if i >= s.len() {
        Err(SpecParseError::UnexpectedEndOfInput)
    } else if s[i as int] != '<' {
        Err(
            SpecParseError::UnexpectedCharacter {
                expected: '<',
                found: s[i as int],
                position: i as int,
            },
        )
    } else {
        let ne = tag_name_end(s, i + 1);
        let tag = s.subrange((i + 1) as int, ne as int);
        match sp_attrs(s, ne, Map::empty()) {
            Err(e) => Err(e),
            Ok((attrs, j)) => {
                proof {
                    lemma_take_while_end(s, i + 1, tag_name_pred());
                    lemma_sp_attrs_next(s, ne, Map::empty());
                }
                match sp_nodes(s, j + 1) {
                    Err(e) => Err(e),
                    Ok((children, k)) => sp_close(s, k, tag, attrs, children),
                }
            },
        }
    }
}

/// A node read at `i`: an element if the input continues with `<`, else a
/// text node.
pub open spec fn sp_node(s: Seq<char>, i: nat) -> Result<(SpecNode, nat), SpecParseError>
    decreases s.len() - i, 1int,
{
    if i >= s.len() {
        Err(SpecParseError::UnexpectedEndOfInput)
    } else if s[i as int] == '<' {
        sp_element(s, i)
    } else {
        Ok(sp_text(s, i))
    }
}

/// The sibling nodes read from `i`: whitespace is skipped before each node;
/// the sequence ends at end-of-input or before a closing-tag marker `</`.
/// On success: the nodes in document order and the position where they end.
pub open spec fn sp_nodes(s: Seq<char>, i: nat) -> Result<(Seq<SpecNode>, nat), SpecParseError>
    decreases s.len() - i, 2int,
{
    let j = ws_end(s, i);
    if j >= s.len() || (j + 2 <= s.len() && s[j as int] == '<' && s[(j + 1) as int] == '/') {
        Ok((Seq::empty(), j))
    } else {
        proof {
            lemma_take_while_end(s, i, space_pred());
        }
        match sp_node(s, j) {
            Err(e) => Err(e),
            Ok((n, k)) => {
                // a node always ends beyond where it began
                // (lemma_sp_node_next); the clamp serves the termination
                // measure only
                let k2: nat = if j < k <= s.len() {
                    k
                } else {
                    j + 1
                };
                match sp_nodes(s, k2) {
                    Err(e) => Err(e),
                    Ok((rest, m)) => Ok((seq![n] + rest, m)),
                }
            },
        }
    }
}

/// On success an element ends strictly beyond where it began, within the
/// input.
pub proof fn lemma_sp_element_next(s: Seq<char>, i: nat)
    ensures
        sp_element(s, i) matches Ok((n, k)) ==> i < k <= s.len(),
    decreases s.len() - i, 0int,
{
    if i < s.len() && s[i as int] == '<' {
        let ne = tag_name_end(s, i + 1);
        lemma_take_while_end(s, i + 1, tag_name_pred());
        match sp_attrs(s, ne, Map::empty()) {
            Ok((attrs, j)) => {
                lemma_sp_attrs_next(s, ne, Map::empty());
                lemma_sp_nodes_next(s, j + 1);
                match sp_nodes(s, j + 1) {
                    Ok((children, k)) => {
                        lemma_take_while_end(s, k + 2, tag_name_pred());
                    },
                    Err(e) => {},
                }
            },
            Err(e) => {},
        }
    }
}

/// On success a node ends strictly beyond where it began, within the input.
pub proof fn lemma_sp_node_next(s: Seq<char>, i: nat)
    ensures
        sp_node(s, i) matches Ok((n, k)) ==> i < k <= s.len(),
    decreases s.len() - i, 1int,
{
    if i < s.len() {
        if s[i as int] == '<' {
            lemma_sp_element_next(s, i);
        } else {
            lemma_take_while_end(s, i, not_char_pred('<'));
        }
    }
}

/// On success a node sequence ends no earlier than where it began, within
/// the input.
pub proof fn lemma_sp_nodes_next(s: Seq<char>, i: nat)
    ensures
        sp_nodes(s, i) matches Ok((ns, m)) ==> i <= m && (i <= s.len() ==> m <= s.len()),
    decreases s.len() - i, 2int,
{
    let j = ws_end(s, i);
    lemma_take_while_end(s, i, space_pred());
    if !(j >= s.len() || (j + 2 <= s.len() && s[j as int] == '<' && s[(j + 1) as int] == '/')) {
        match sp_node(s, j) {
            Ok((n, k)) => {
                lemma_sp_node_next(s, j);
                let k2: nat = if j < k <= s.len() {
                    k
                } else {
                    j + 1
                };
                lemma_sp_nodes_next(s, k2);
            },
            Err(e) => {},
        }
    }
}

/// A whole document: the top-level node sequence, under the normalization
/// rule. Exactly one top-level node is itself the root; otherwise the nodes
/// become the children of a synthetic `html` element with no attributes.
pub open spec fn sp_parse(s: Seq<char>) -> Result<SpecNode, SpecParseError> {
    match sp_nodes(s, 0) {
        Err(e) => Err(e),
        Ok((ns, m)) => if ns.len() == 1 {
            Ok(ns[0])
        } else {
            Ok(SpecNode::element(seq!['h', 't', 'm', 'l'], Map::empty(), ns))
        },
    }
}

/// The normalization rule of a whole parse: a document with exactly one
/// top-level node has that very node as its root, with no synthetic wrapper
/// around it; any other top-level count is wrapped in an attribute-less
/// `html` element holding the nodes in document order; and a failure of the
/// top-level node sequence is the failure of the whole parse.
pub proof fn lemma_parse_normalization(s: Seq<char>)
    ensures
        (match sp_nodes(s, 0) {
            Ok((ns, m)) => {
                if ns.len() == 1 {
                    sp_parse(s) == Ok::<SpecNode, SpecParseError>(ns[0])
                } else {
                    sp_parse(s) == Ok::<SpecNode, SpecParseError>(
                        SpecNode::element(seq!['h', 't', 'm', 'l'], Map::empty(), ns),
                    )
                }
            },
            Err(e) => sp_parse(s) == Err::<SpecNode, SpecParseError>(e),
        }),
{
}

/// A document as a serializer would write it: like the tree model, but the
/// attributes stand as an ordered list of (name, value) pairs, since written
/// text must pick some order for them. A text node carries no children.
pub enum SpecDoc {
    Text(Seq<char>),
    Element { tag: Seq<char>, attrs: Seq<(Seq<char>, Seq<char>)>, children: Seq<SpecDoc> },
}

/// The attribute map that a written attribute list denotes, added to `acc`:
/// later pairs overwrite earlier ones, exactly as the grammar reads them.
pub open spec fn attr_list_map(
    acc: Map<Seq<char>, Seq<char>>,
    al: Seq<(Seq<char>, Seq<char>)>,
) -> Map<Seq<char>, Seq<char>>
    decreases al.len(),
{
    if al.len() == 0 {
        acc
    } else {
        attr_list_map(acc.insert(al[0].0, al[0].1), al.drop_first())
    }
}

/// The tree that a written document denotes.
pub open spec fn doc_tree(d: SpecDoc) -> SpecNode
    decreases d, 1int,
{
    match d {
        SpecDoc::Text(t) => SpecNode::text(t),
        SpecDoc::Element { tag, attrs, children } => SpecNode::element(
            tag,
            attr_list_map(Map::empty(), attrs),
            docs_trees(children),
        ),
    }
}

/// The trees that a written child sequence denotes, in order.
pub open spec fn docs_trees(ds: Seq<SpecDoc>) -> Seq<SpecNode>
    decreases ds, 0int,
{
    if ds.len() == 0 {
        Seq::empty()
    } else {
        seq![doc_tree(ds[0])] + docs_trees(ds.drop_first())
    }
}

/// The serialized text of a written document: an element as `<tag`,
/// its attributes, `>`, its children, `</tag>`; a text node as its
/// characters. (The library itself offers no serialization; this form
/// exists to state the round-trip law below.)
pub open spec fn sp_write(d: SpecDoc) -> Seq<char>
    decreases d, 1int,
{
    match d {
        SpecDoc::Text(t) => t,
        SpecDoc::Element { tag, attrs, children } => seq!['<'] + tag + sp_write_attrs(attrs)
            + seq!['>'] + sp_write_seq(children) + seq!['<', '/'] + tag + seq!['>'],
    }
}

/// The serialized text of an attribute list: one space, the name, `='`,
/// the value, `'`, for each attribute in order.
pub open spec fn sp_write_attrs(al: Seq<(Seq<char>, Seq<char>)>) -> Seq<char>
    decreases al.len(),
{
    if al.len() == 0 {
        Seq::empty()
    } else {
        seq![' '] + al[0].0 + seq!['=', '\''] + al[0].1 + seq!['\''] + sp_write_attrs(
            al.drop_first(),
        )
    }
}

/// The serialized text of a written child sequence, in document order.
pub open spec fn sp_write_seq(ds: Seq<SpecDoc>) -> Seq<char>
    decreases ds, 0int,
{
    if ds.len() == 0 {
        Seq::empty()
    } else {
        sp_write(ds[0]) + sp_write_seq(ds.drop_first())
    }
}

/// Character data a parse reproduces exactly: non-empty, free of `<`, and
/// not beginning with whitespace (sibling parsing would skip it).
pub open spec fn wf_text(d: Seq<char>) -> bool {
    d.len() > 0 && !is_space_char(d[0]) && forall|k: int| 0 <= k < d.len() ==> #[trigger] d[k] != '<'
}

/// A tag name the grammar can read back: non-empty, ASCII letters/digits.
pub open spec fn wf_tag_name(tg: Seq<char>) -> bool {
    tg.len() > 0 && forall|k: int| 0 <= k < tg.len() ==> is_tag_name_char(#[trigger] tg[k])
}

/// An attribute the grammar can read back: a well-formed name, and a value
/// free of the single quote it is written in (the grammar has no escapes).
pub open spec fn wf_attr(nv: (Seq<char>, Seq<char>)) -> bool {
    wf_tag_name(nv.0) && forall|k: int| 0 <= k < nv.1.len() ==> #[trigger] nv.1[k] != '\''
}

/// A written document whose text parses back to the very tree it denotes:
/// tag names and attributes well formed, text well formed.
pub open spec fn wf_doc(d: SpecDoc) -> bool
    decreases d, 1int,
{
    match d {
        SpecDoc::Text(t) => wf_text(t),
        SpecDoc::Element { tag, attrs, children } => wf_tag_name(tag) && (forall|k: int|
            0 <= k < attrs.len() ==> wf_attr(#[trigger] attrs[k])) && wf_docs(children),
    }
}

/// A well-formed written child sequence: every child well formed, and no
/// two adjacent text children (their serialized texts would merge).
pub open spec fn wf_docs(ds: Seq<SpecDoc>) -> bool
    decreases ds, 0int,
{
    if ds.len() == 0 {
        true
    } else {
        wf_doc(ds[0]) && wf_docs(ds.drop_first()) && (ds.len() > 1 ==> !(ds[0] is Text
            && ds[1] is Text))
    }
}

/// Re-parsing a written well-formed attribute list embedded at `i`, with the
/// element's `>` right after it, yields the map the list denotes.
proof fn lemma_reparse_attrs(
    s: Seq<char>,
    i: nat,
    al: Seq<(Seq<char>, Seq<char>)>,
    acc: Map<Seq<char>, Seq<char>>,
)
    requires
        forall|k: int| 0 <= k < al.len() ==> wf_attr(#[trigger] al[k]),
        i + sp_write_attrs(al).len() < s.len(),
        s.subrange(i as int, (i + sp_write_attrs(al).len()) as int) == sp_write_attrs(al),
        s[(i + sp_write_attrs(al).len()) as int] == '>',
    ensures
        sp_attrs(s, i, acc) == Ok::<(Map<Seq<char>, Seq<char>>, nat), SpecParseError>(
            (attr_list_map(acc, al), (i + sp_write_attrs(al).len()) as nat),
        ),
    decreases al.len(),
{
    let u = sp_write_attrs(al);
    let j = (i + u.len()) as nat;
    assert forall|k: int| 0 <= k < u.len() implies s[i + k] == #[trigger] u[k] by {
        assert(s.subrange(i as int, j as int)[k] == s[i + k]);
    }
    if al.len() == 0 {
        assert(!is_space_char('>'));
        lemma_take_while_end_exact(s, i, i, space_pred());
        assert(sp_attrs(s, i, acc) == Ok::<(Map<Seq<char>, Seq<char>>, nat), SpecParseError>(
            (acc, i),
        ));
    } else {
        let n = al[0].0;
        let v = al[0].1;
        let rest = al.drop_first();
        let ru = sp_write_attrs(rest);
        let ne = (i + 1 + n.len()) as nat;
        let e = (ne + 2 + v.len()) as nat;
        let r0 = (e + 1) as nat;
        assert(u.len() == 1 + n.len() + 2 + v.len() + 1 + ru.len());
        assert(wf_attr(al[0]));
        assert(u[0] == ' ');
        assert(s[i as int] == ' ');
        assert forall|k: int| 0 <= k < n.len() implies s[i + 1 + k] == #[trigger] n[k] by {
            assert(s[i + 1 + k] == u[1 + k]);
            assert(u[1 + k] == n[k]);
        }
        assert(u[1 + n.len() as int] == '=');
        assert(s[ne as int] == '=');
        assert(u[2 + n.len() as int] == '\'');
        assert(s[ne as int + 1] == '\'');
        assert forall|k: int| 0 <= k < v.len() implies s[ne + 2 + k] == #[trigger] v[k] by {
            assert(s[ne + 2 + k] == u[3 + n.len() + k]);
            assert(u[3 + n.len() + k] == v[k]);
        }
        assert(u[3 + n.len() as int + v.len() as int] == '\'');
        assert(s[e as int] == '\'');
        assert forall|k: int| 0 <= k < ru.len() implies s[r0 + k] == #[trigger] ru[k] by {
            assert(s[r0 + k] == u[4 + n.len() + v.len() + k]);
            assert(u[4 + n.len() + v.len() + k] == ru[k]);
        }
        // the space before the attribute, and no more
        assert(s[i as int + 1] == n[0]);
        assert(is_tag_name_char(n[0]));
        lemma_take_while_end_exact(s, i, (i + 1) as nat, space_pred());
        // the attribute name
        assert forall|k: int| i + 1 <= k < ne implies is_tag_name_char(#[trigger] s[k]) by {
            assert(s[k] == n[k - i - 1]);
            assert(is_tag_name_char(n[k - i - 1]));
        }
        assert(!is_tag_name_char('='));
        lemma_take_while_end_exact(s, (i + 1) as nat, ne, tag_name_pred());
        assert(s.subrange((i + 1) as int, ne as int) =~= n);
        // the quoted value
        assert forall|k: int| ne + 2 <= k < e implies s[k] != '\'' by {
            assert(s[k] == v[k - ne - 2]);
            assert(v[k - ne - 2] != '\'');
        }
        lemma_take_while_end_exact(s, (ne + 2) as nat, e, not_char_pred('\''));
        assert(s.subrange((ne + 2) as int, e as int) =~= v);
        assert(sp_attr_value(s, (ne + 1) as nat) == Ok::<(Seq<char>, nat), SpecParseError>(
            (v, r0),
        ));
        assert(sp_attr(s, (i + 1) as nat) == Ok::<((Seq<char>, Seq<char>), nat), SpecParseError>(
            ((n, v), r0),
        ));
        // the remaining attributes
        assert forall|k: int| 0 <= k < rest.len() implies wf_attr(#[trigger] rest[k]) by {
            assert(rest[k] == al[k + 1]);
        }
        assert(s.subrange(r0 as int, (r0 + ru.len()) as int) =~= ru);
        lemma_reparse_attrs(s, r0, rest, acc.insert(n, v));
        assert(sp_attrs(s, i, acc) == Ok::<(Map<Seq<char>, Seq<char>>, nat), SpecParseError>(
            (attr_list_map(acc, al), j),
        ));
    }
}

/// Re-parsing a written well-formed node embedded at `i` in a larger text
/// yields the tree it denotes. A text node needs the character after it, if
/// any, to be a `<` (inside a document that is the next tag or the closing
/// tag).
proof fn lemma_reparse_doc(s: Seq<char>, i: nat, d: SpecDoc)
    requires
        wf_doc(d),
        i + sp_write(d).len() <= s.len(),
        s.subrange(i as int, (i + sp_write(d).len()) as int) == sp_write(d),
        d is Text ==> (i + sp_write(d).len() == s.len() || s[(i + sp_write(d).len()) as int]
            == '<'),
    ensures
        sp_node(s, i) == Ok::<(SpecNode, nat), SpecParseError>(
            (doc_tree(d), (i + sp_write(d).len()) as nat),
        ),
        sp_write(d).len() > 0,
        d is Element ==> s[i as int] == '<' && is_tag_name_char(s[i as int + 1]),
        d is Text ==> s[i as int] != '<' && !is_space_char(s[i as int]),
    decreases d, 1int,
{
    let u = sp_write(d);
    let j = (i + u.len()) as nat;
    assert forall|k: int| 0 <= k < u.len() implies s[i + k] == #[trigger] u[k] by {
        assert(s.subrange(i as int, j as int)[k] == s[i + k]);
    }
    match d {
        SpecDoc::Text(t) => {
            assert(u == t);
            assert(s[i as int] == t[0]);
            assert forall|k: int| i <= k < j implies s[k] != '<' by {
                assert(s[k] == u[k - i]);
                assert(t[k - i] != '<');
            }
            lemma_take_while_end_exact(s, i, j, not_char_pred('<'));
            assert(s.subrange(i as int, j as int) =~= t);
            assert(sp_node(s, i) == Ok::<(SpecNode, nat), SpecParseError>((doc_tree(d), j)));
        },
        SpecDoc::Element { tag, attrs, children } => {
            let aw = sp_write_attrs(attrs);
            let body = sp_write_seq(children);
            let ne = (i + 1 + tag.len()) as nat;
            let gt = (ne + aw.len()) as nat;
            let bstart = (gt + 1) as nat;
            let bend = (bstart + body.len()) as nat;
            let ce = (bend + 2 + tag.len()) as nat;
            assert(u.len() == 1 + tag.len() + aw.len() + 1 + body.len() + 2 + tag.len() + 1);
            assert(u[0] == '<');
            assert(s[i as int] == '<');
            assert forall|k: int| 0 <= k < tag.len() implies s[i + 1 + k] == #[trigger] tag[k] by {
                assert(s[i + 1 + k] == u[1 + k]);
                assert(u[1 + k] == tag[k]);
            }
            assert(s[i as int + 1] == tag[0]);
            assert(is_tag_name_char(tag[0]));
            assert forall|k: int| 0 <= k < aw.len() implies s[ne + k] == #[trigger] aw[k] by {
                assert(s[ne + k] == u[1 + tag.len() + k]);
                assert(u[1 + tag.len() + k] == aw[k]);
            }
            assert(u[1 + tag.len() as int + aw.len() as int] == '>');
            assert(s[gt as int] == '>');
            assert forall|k: int| 0 <= k < body.len() implies s[bstart + k] == #[trigger] body[k]
                by {
                assert(s[bstart + k] == u[2 + tag.len() + aw.len() + k]);
                assert(u[2 + tag.len() + aw.len() + k] == body[k]);
            }
            assert(u[2 + tag.len() as int + aw.len() as int + body.len() as int] == '<');
            assert(s[bend as int] == '<');
            assert(u[3 + tag.len() as int + aw.len() as int + body.len() as int] == '/');
            assert(s[bend as int + 1] == '/');
            assert forall|k: int| 0 <= k < tag.len() implies s[bend + 2 + k] == #[trigger] tag[k]
                by {
                assert(s[bend + 2 + k] == u[4 + tag.len() + aw.len() + body.len() + k]);
                assert(u[4 + tag.len() + aw.len() + body.len() + k] == tag[k]);
            }
            assert(u[4 + 2 * tag.len() as int + aw.len() as int + body.len() as int] == '>');
            assert(s[ce as int] == '>');
            // the opening tag name ends at the attributes (or at the `>`)
            assert forall|k: int| i + 1 <= k < ne implies is_tag_name_char(#[trigger] s[k]) by {
                assert(s[k] == tag[k - i - 1]);
                assert(is_tag_name_char(tag[k - i - 1]));
            }
            if aw.len() > 0 {
                assert(aw[0] == ' ');
                assert(!is_tag_name_char(s[ne as int]));
            } else {
                assert(!is_tag_name_char('>'));
            }
            lemma_take_while_end_exact(s, (i + 1) as nat, ne, tag_name_pred());
            assert(s.subrange((i + 1) as int, ne as int) =~= tag);
            // the attributes
            assert(s.subrange(ne as int, gt as int) =~= aw);
            lemma_reparse_attrs(s, ne, attrs, Map::empty());
            // the children
            assert(s.subrange(bstart as int, bend as int) =~= body);
            lemma_reparse_docs(s, bstart, children);
            // the closing tag
            assert forall|k: int| bend + 2 <= k < ce implies is_tag_name_char(#[trigger] s[k]) by {
                assert(s[k] == tag[k - bend - 2]);
                assert(is_tag_name_char(tag[k - bend - 2]));
            }
            lemma_take_while_end_exact(s, (bend + 2) as nat, ce, tag_name_pred());
            assert(s.subrange((bend + 2) as int, ce as int) =~= tag);
            assert(sp_element(s, i) == Ok::<(SpecNode, nat), SpecParseError>((doc_tree(d), j)));
        },
    }
}

/// Re-parsing a written well-formed child sequence embedded at `i` yields
/// the trees it denotes; right after it the text must continue with the
/// closing-tag marker `</`.
proof fn lemma_reparse_docs(s: Seq<char>, i: nat, ds: Seq<SpecDoc>)
    requires
        wf_docs(ds),
        i + sp_write_seq(ds).len() + 2 <= s.len(),
        s.subrange(i as int, (i + sp_write_seq(ds).len()) as int) == sp_write_seq(ds),
        s[(i + sp_write_seq(ds).len()) as int] == '<',
        s[(i + sp_write_seq(ds).len() + 1) as int] == '/',
    ensures
        sp_nodes(s, i) == Ok::<(Seq<SpecNode>, nat), SpecParseError>(
            (docs_trees(ds), (i + sp_write_seq(ds).len()) as nat),
        ),
    decreases ds, 0int,
{
    let body = sp_write_seq(ds);
    let j = (i + body.len()) as nat;
    assert forall|k: int| 0 <= k < body.len() implies s[i + k] == #[trigger] body[k] by {
        assert(s.subrange(i as int, j as int)[k] == s[i + k]);
    }
    if ds.len() == 0 {
        assert(!is_space_char('<'));
        lemma_take_while_end_exact(s, i, i, space_pred());
        assert(docs_trees(ds) =~= Seq::<SpecNode>::empty());
        assert(sp_nodes(s, i) == Ok::<(Seq<SpecNode>, nat), SpecParseError>((docs_trees(ds), i)));
    } else {
        let d0 = ds[0];
        let u0 = sp_write(d0);
        let rest = ds.drop_first();
        let rbody = sp_write_seq(rest);
        let k = (i + u0.len()) as nat;
        assert(body == u0 + rbody);
        assert(forall|m: int| 0 <= m < u0.len() ==> body[m] == #[trigger] u0[m]);
        assert(forall|m: int| 0 <= m < rbody.len() ==> body[u0.len() + m] == #[trigger] rbody[m]);
        assert(s.subrange(i as int, k as int) =~= u0);
        // what follows the first child begins with `<`: the next child (an
        // element, since adjacent texts are excluded) or the closing marker
        if d0 is Text && rest.len() > 0 {
            assert(!(rest[0] is Text));
            assert(rbody[0] == '<') by {
                assert(rbody == sp_write(rest[0]) + sp_write_seq(rest.drop_first()));
                assert(sp_write(rest[0])[0] == '<');
            }
            assert(s[k as int] == '<');
        }
        if rest.len() == 0 {
            assert(rbody =~= Seq::<char>::empty());
            assert(k == j);
        }
        lemma_reparse_doc(s, i, d0);
        assert(s.subrange(k as int, (k + rbody.len()) as int) =~= rbody);
        lemma_reparse_docs(s, k, rest);
        // whitespace skipping is the identity here, and the sequence does
        // not stop before the first child
        assert(!is_space_char(s[i as int]));
        lemma_take_while_end_exact(s, i, i, space_pred());
        if d0 is Element {
            assert(s[i as int + 1] != '/');
        }
        assert(seq![doc_tree(d0)] + docs_trees(rest) =~= docs_trees(ds));
        assert(sp_nodes(s, i) == Ok::<(Seq<SpecNode>, nat), SpecParseError>((docs_trees(ds), j)));
    }
}

/// Structural idempotence: the written text of a well-formed document
/// parses back to exactly the tree that document denotes, whatever order
/// its attributes were written in.
pub proof fn lemma_parse_write_round_trip(d: SpecDoc)
    requires
        wf_doc(d),
    ensures
        sp_parse(sp_write(d)) == Ok::<SpecNode, SpecParseError>(doc_tree(d)),
{
    let s = sp_write(d);
    assert(s.subrange(0, s.len() as int) =~= s);
    lemma_reparse_doc(s, 0, d);
    assert(!is_space_char(s[0])) by {
        if d is Element {
            assert(!is_space_char('<'));
        }
    }
    lemma_take_while_end_exact(s, 0, 0, space_pred());
    if d is Element {
        assert(s[1] != '/');
    }
    assert(sp_node(s, 0) == Ok::<(SpecNode, nat), SpecParseError>((doc_tree(d), s.len() as nat)));
    assert(sp_nodes(s, s.len() as nat) == Ok::<(Seq<SpecNode>, nat), SpecParseError>(
        (Seq::empty(), s.len() as nat),
    ));
    assert(sp_nodes(s, 0) == Ok::<(Seq<SpecNode>, nat), SpecParseError>(
        (seq![doc_tree(d)], s.len() as nat),
    ));
    assert(seq![doc_tree(d)][0] == doc_tree(d));
    assert(sp_parse(s) == Ok::<SpecNode, SpecParseError>(doc_tree(d)));
}

/// Relies on String::push: appends exactly the one character to the string.
#[verifier::external_body]
fn push_char(s: &mut String, c: char)
    ensures
        final(s)@ == old(s)@.push(c),
{
    s.push(c);
}

/// The parser: an input text buffer and a cursor, a character offset into
/// it. Single-use: one `parse` call builds one parser over its own input.
pub struct Parser {
    pub pos: usize,
    pub input: String,
}

impl Parser {
    /// The cursor is inside the input (or just past its last character).
    pub open spec fn wf(self) -> bool {
        self.pos <= self.input@.len()
    }

    /// The character at the cursor, without moving the cursor.
    pub fn next_char(&self) -> (r: Result<char, ParseError>)
        ensures
            self.pos < self.input@.len() ==> r == Ok::<char, ParseError>(
                self.input@[self.pos as int],
            ),
            self.pos >= self.input@.len() ==> r == Err::<char, ParseError>(
                ParseError::UnexpectedEndOfInput,
            ),
    {
        if self.eof() {
            Err(ParseError::UnexpectedEndOfInput)
        } else {
            Ok(self.input.as_str().get_char(self.pos))
        }
    }

    /// The remaining input begins with `s`.
    pub fn starts_with(&self, s: &str) -> (b: bool)
        requires
            self.wf(),
        ensures
            b == spec_starts_with(self.input@, self.pos as nat, s@),
    {
        let n = s.unicode_len();
        let rem = self.input.as_str().unicode_len() - self.pos;
        if n > rem {
            return false;
        }
        let mut k: usize = 0;
        while k < n
            invariant
                k <= n,
                n == s@.len(),
                self.wf(),
                self.pos + n <= self.input@.len(),
                self.input@.len() <= usize::MAX,
                forall|j: int| 0 <= j < k ==> self.input@[self.pos + j] == s@[j],
            decreases n - k,
        {
            if self.input.as_str().get_char(self.pos + k) != s.get_char(k) {
                proof {
                    let sub = self.input@.subrange(self.pos as int, (self.pos + n) as int);
                    assert(sub[k as int] == self.input@[self.pos + k]);
                }
                return false;
            }
            k = k + 1;
        }
        proof {
            assert(self.input@.subrange(self.pos as int, (self.pos + n) as int) =~= s@);
        }
        true
    }

    /// The cursor is at or past end-of-input.
    pub fn eof(&self) -> (b: bool)
        ensures
            b == (self.pos >= self.input@.len()),
    {
        self.pos >= self.input.as_str().unicode_len()
    }

    /// The character at the cursor; the cursor moves past it.
    pub fn consume_char(&mut self) -> (r: Result<char, ParseError>)
        ensures
            final(self).input == old(self).input,
            old(self).pos < old(self).input@.len() ==> final(self).pos == old(self).pos + 1 && r
                == Ok::<char, ParseError>(old(self).input@[old(self).pos as int]),
            old(self).pos >= old(self).input@.len() ==> *final(self) == *old(self) && r == Err::<
                char,
                ParseError,
            >(ParseError::UnexpectedEndOfInput),
    {
        let l = self.input.as_str().unicode_len();
        if self.pos >= l {
            Err(ParseError::UnexpectedEndOfInput)
        } else {
            let c = self.input.as_str().get_char(self.pos);
            self.pos = self.pos + 1;
            Ok(c)
        }
    }

    /// The maximal run of characters satisfying `test`, starting at the
    /// cursor; the cursor moves past it. `p` is the mathematical meaning of
    /// `test`.
    pub fn consume_while<F: Fn(char) -> bool>(
        &mut self,
        test: F,
        Ghost(p): Ghost<spec_fn(char) -> bool>,
    ) -> (result: String)
        requires
            old(self).wf(),
            forall|c: char| #[trigger] call_requires(test, (c,)),
            forall|c: char, b: bool| #[trigger] call_ensures(test, (c,), b) ==> b == p(c),
        ensures
            final(self).wf(),
            final(self).input == old(self).input,
            final(self).pos == take_while_end(old(self).input@, old(self).pos as nat, p),
            result@ == old(self).input@.subrange(old(self).pos as int, final(self).pos as int),
    {
        let mut result = String::new();
        proof {
            assert(result@ =~= self.input@.subrange(self.pos as int, self.pos as int));
        }
        loop
            invariant_except_break
                self.wf(),
                self.input == old(self).input,
                old(self).pos <= self.pos,
                take_while_end(self.input@, self.pos as nat, p) == take_while_end(
                    old(self).input@,
                    old(self).pos as nat,
                    p,
                ),
                result@ == self.input@.subrange(old(self).pos as int, self.pos as int),
                forall|c: char| #[trigger] call_requires(test, (c,)),
                forall|c: char, b: bool| #[trigger] call_ensures(test, (c,), b) ==> b == p(c),
            ensures
                self.wf(),
                self.input == old(self).input,
                self.pos == take_while_end(old(self).input@, old(self).pos as nat, p),
                result@ == old(self).input@.subrange(old(self).pos as int, self.pos as int),
            decreases self.input@.len() - self.pos,
        {
            if self.eof() {
                break;
            }
            let c = match self.next_char() {
                Ok(c) => c,
                Err(_) => {
                    proof {
                        assert(false);
                    }
                    break;
                },
            };
            if !test(c) {
                break;
            }
            let c2 = match self.consume_char() {
                Ok(c2) => c2,
                Err(_) => {
                    proof {
                        assert(false);
                    }
                    break;
                },
            };
            push_char(&mut result, c2);
            proof {
                assert(result@ =~= self.input@.subrange(old(self).pos as int, self.pos as int));
            }
        }
        result
    }

    /// Skip whitespace at the cursor.
    pub fn consume_whitespace(&mut self)
        requires
            old(self).wf(),
        ensures
            final(self).wf(),
            final(self).input == old(self).input,
            final(self).pos == ws_end(old(self).input@, old(self).pos as nat),
    {
        let test = |c: char| -> (b: bool)
            ensures
                b == is_space_char(c),
            { space_char(c) };
        let _ = self.consume_while(test, Ghost(space_pred()));
    }

    /// The tag (or attribute) name at the cursor: the maximal run of ASCII
    /// letters and digits, possibly empty.
    pub fn parse_tag_name(&mut self) -> (name: String)
        requires
            old(self).wf(),
        ensures
            final(self).wf(),
            final(self).input == old(self).input,
            final(self).pos == tag_name_end(old(self).input@, old(self).pos as nat),
            name@ == old(self).input@.subrange(old(self).pos as int, final(self).pos as int),
    {
        let test = |c: char| -> (b: bool)
            ensures
                b == is_tag_name_char(c),
            { tag_name_char(c) };
        self.consume_while(test, Ghost(tag_name_pred()))
    }

    /// The text node at the cursor: everything up to the next `<` (or the
    /// end of the input).
    pub fn parse_text(&mut self) -> (n: Node)
        requires
            old(self).wf(),
        ensures
            final(self).wf(),
            final(self).input == old(self).input,
            n@ == sp_text(old(self).input@, old(self).pos as nat).0,
            final(self).pos == sp_text(old(self).input@, old(self).pos as nat).1,
    {
        let test = |c: char| -> (b: bool)
            ensures
                b == not_char_pred('<')(c),
            { c != '<' };
        let data = self.consume_while(test, Ghost(not_char_pred('<')));
        text(data)
    }

    /// The quoted attribute value at the cursor.
    pub fn parse_attr_value(&mut self) -> (r: Result<String, ParseError>)
        requires
            old(self).wf(),
        ensures
            final(self).wf(),
            final(self).input == old(self).input,
            (match sp_attr_value(old(self).input@, old(self).pos as nat) {
                Ok((v, k)) => r matches Ok(val) && val@ == v && final(self).pos == k,
                Err(e) => r matches Err(err) && err@ == e,
            }),
    {
        let q_pos = self.pos;
        let open_quote = match self.consume_char() {
            Ok(c) => c,
            Err(e) => {
                return Err(e);
            },
        };
        if !(open_quote == '"' || open_quote == '\'') {
            return Err(ParseError::UnexpectedCharacter('"', open_quote, q_pos));
        }
        let test = |c: char| -> (b: bool)
            ensures
                b == not_char_pred(open_quote)(c),
            { c != open_quote };
        let value = self.consume_while(test, Ghost(not_char_pred(open_quote)));
        proof {
            lemma_take_while_end(
                old(self).input@,
                (q_pos + 1) as nat,
                not_char_pred(open_quote),
            );
        }
        match self.consume_char() {
            Err(e) => Err(e),
            Ok(c) => {
                if c == open_quote {
                    Ok(value)
                } else {
                    proof {
                        assert(false);
                    }
                    Err(ParseError::UnexpectedCharacter(open_quote, c, 0))
                }
            },
        }
    }

    /// The attribute at the cursor: a name, a literal `=`, a quoted value.
    pub fn parse_attr(&mut self) -> (r: Result<(String, String), ParseError>)
        requires
            old(self).wf(),
        ensures
            final(self).wf(),
            final(self).input == old(self).input,
            (match sp_attr(old(self).input@, old(self).pos as nat) {
                Ok(((n, v), k)) => r matches Ok(nv) && nv.0@ == n && nv.1@ == v
                    && final(self).pos == k,
                Err(e) => r matches Err(err) && err@ == e,
            }),
    {
        let name = self.parse_tag_name();
        let eq_pos = self.pos;
        match self.consume_char() {
            Err(e) => {
                return Err(e);
            },
            Ok(c) => {
                if c != '=' {
                    return Err(ParseError::UnexpectedCharacter('=', c, eq_pos));
                }
            },
        }
        match self.parse_attr_value() {
            Err(e) => Err(e),
            Ok(value) => Ok((name, value)),
        }
    }

    /// The attributes at the cursor, up to (not including) the closing `>`.
    /// A later attribute with the same name overwrites an earlier one.
    pub fn parse_attributes(&mut self) -> (r: Result<AttrMap, ParseError>)
        requires
            old(self).wf(),
        ensures
            final(self).wf(),
            final(self).input == old(self).input,
            (match sp_attrs(old(self).input@, old(self).pos as nat, Map::empty()) {
                Ok((m, j)) => r matches Ok(am) && am@ == m && final(self).pos == j,
                Err(e) => r matches Err(err) && err@ == e,
            }),
    {
        let mut attrs = AttrMap::new();
        loop
            invariant
                self.wf(),
                self.input == old(self).input,
                old(self).pos <= self.pos,
                sp_attrs(old(self).input@, old(self).pos as nat, Map::empty()) == sp_attrs(
                    self.input@,
                    self.pos as nat,
                    attrs@,
                ),
            decreases self.input@.len() - self.pos,
        {
            let ghost pre = *self;
            self.consume_whitespace();
            proof {
                lemma_take_while_end(pre.input@, pre.pos as nat, space_pred());
                assert(sp_attrs(self.input@, pre.pos as nat, attrs@) == sp_attrs(
                    self.input@,
                    self.pos as nat,
                    attrs@,
                ));
            }
            let c = match self.next_char() {
                Err(e) => {
                    return Err(e);
                },
                Ok(c) => c,
            };
            if c == '>' {
                return Ok(attrs);
            }
            let ghost p1 = self.pos as nat;
            match self.parse_attr() {
                Err(e) => {
                    return Err(e);
                },
                Ok((name, value)) => {
                    proof {
                        lemma_sp_attr_next(self.input@, p1);
                    }
                    attrs.insert(name, value);
                },
            }
        }
    }

    /// The node at the cursor: an element if the input continues with `<`,
    /// else a text node.
    pub fn parse_node(&mut self) -> (r: Result<Node, ParseError>)
        requires
            old(self).wf(),
        ensures
            final(self).wf(),
            final(self).input == old(self).input,
            (match sp_node(old(self).input@, old(self).pos as nat) {
                Ok((sn, k)) => r matches Ok(node) && node@ == sn && final(self).pos == k,
                Err(e) => r matches Err(err) && err@ == e,
            }),
        decreases self.input@.len() - self.pos, 1int,
    {
        match self.next_char() {
            Err(e) => Err(e),
            Ok(c) => {
                if c == '<' {
                    self.parse_element()
                } else {
                    Ok(self.parse_text())
                }
            },
        }
    }

    /// The element at the cursor: `<`, tag name, attributes, `>`, the child
    /// sequence, then `</`, the same tag name, `>`. A closing tag name that
    /// differs from the opening one is the parser's one structural
    /// well-formedness check.
    pub fn parse_element(&mut self) -> (r: Result<Node, ParseError>)
        requires
            old(self).wf(),
        ensures
            final(self).wf(),
            final(self).input == old(self).input,
            (match sp_element(old(self).input@, old(self).pos as nat) {
                Ok((sn, k)) => r matches Ok(node) && node@ == sn && final(self).pos == k,
                Err(e) => r matches Err(err) && err@ == e,
            }),
        decreases self.input@.len() - self.pos, 0int,
    {
        let lt_pos = self.pos;
        match self.consume_char() {
            Err(e) => {
                return Err(e);
            },
            Ok(c) => {
                if c != '<' {
                    return Err(ParseError::UnexpectedCharacter('<', c, lt_pos));
                }
            },
        }
        let tag_name = self.parse_tag_name();
        let ghost ne = self.pos as nat;
        let attrs = match self.parse_attributes() {
            Err(e) => {
                return Err(e);
            },
            Ok(a) => a,
        };
        proof {
            lemma_take_while_end(old(self).input@, (lt_pos + 1) as nat, tag_name_pred());
            lemma_sp_attrs_next(old(self).input@, ne, Map::empty());
        }
        match self.consume_char() {
            Err(e) => {
                proof {
                    assert(false);
                }
                return Err(e);
            },
            Ok(c) => {
                if c != '>' {
                    proof {
                        assert(false);
                    }
                    return Err(ParseError::UnexpectedCharacter('>', c, 0));
                }
            },
        }
        let children = match self.parse_nodes() {
            Err(e) => {
                return Err(e);
            },
            Ok(v) => v,
        };
        let lt2_pos = self.pos;
        match self.consume_char() {
            Err(e) => {
                return Err(e);
            },
            Ok(c) => {
                if c != '<' {
                    return Err(ParseError::UnexpectedCharacter('<', c, lt2_pos));
                }
            },
        }
        let sl_pos = self.pos;
        match self.consume_char() {
            Err(e) => {
                return Err(e);
            },
            Ok(c) => {
                if c != '/' {
                    return Err(ParseError::UnexpectedCharacter('/', c, sl_pos));
                }
            },
        }
        let closing = self.parse_tag_name();
        if !(closing == tag_name) {
            return Err(ParseError::TagMismatch(tag_name, closing));
        }
        let gt_pos = self.pos;
        match self.consume_char() {
            Err(e) => {
                return Err(e);
            },
            Ok(c) => {
                if c != '>' {
                    return Err(ParseError::UnexpectedCharacter('>', c, gt_pos));
                }
            },
        }
        Ok(elem(tag_name, attrs, children))
    }

    /// The sibling nodes from the cursor on: whitespace is skipped before
    /// each node; the sequence ends at end-of-input or before a closing-tag
    /// marker `</`.
    pub fn parse_nodes(&mut self) -> (r: Result<Vec<Node>, ParseError>)
        requires
            old(self).wf(),
        ensures
            final(self).wf(),
            final(self).input == old(self).input,
            (match sp_nodes(old(self).input@, old(self).pos as nat) {
                Ok((sns, m)) => r matches Ok(v) && nodes_view(v@) == sns && final(self).pos == m,
                Err(e) => r matches Err(err) && err@ == e,
            }),
        decreases self.input@.len() - self.pos, 2int,
    {
        let mut nodes: Vec<Node> = Vec::new();
        loop
            invariant
                self.wf(),
                self.input == old(self).input,
                old(self).pos <= self.pos,
                (match sp_nodes(self.input@, self.pos as nat) {
                    Ok((rest, m)) => sp_nodes(old(self).input@, old(self).pos as nat) == Ok::<
                        (Seq<SpecNode>, nat),
                        SpecParseError,
                    >((nodes_view(nodes@) + rest, m)),
                    Err(e) => sp_nodes(old(self).input@, old(self).pos as nat) == Err::<
                        (Seq<SpecNode>, nat),
                        SpecParseError,
                    >(e),
                }),
            decreases self.input@.len() - self.pos,
        {
            let ghost pre = *self;
            self.consume_whitespace();
            proof {
                lemma_take_while_end(pre.input@, pre.pos as nat, space_pred());
                assert(sp_nodes(self.input@, pre.pos as nat) == sp_nodes(
                    self.input@,
                    self.pos as nat,
                ));
            }
            let stop = self.eof() || self.starts_with("</");
            if stop {
                proof {
                    reveal_strlit("</");
                    if self.pos < self.input@.len() {
                        let s = self.input@;
                        let j = self.pos as int;
                        assert(s.subrange(j, j + 2)[0] == s[j]);
                        assert(s.subrange(j, j + 2)[1] == s[j + 1]);
                    }
                    assert(nodes_view(nodes@) + Seq::<SpecNode>::empty() =~= nodes_view(nodes@));
                }
                return Ok(nodes);
            }
            proof {
                reveal_strlit("</");
                let s = self.input@;
                let j = self.pos as int;
                if j + 2 <= s.len() && s[j] == '<' && s[j + 1] == '/' {
                    assert(s.subrange(j, j + 2) =~= "</"@);
                }
            }
            let ghost p1 = self.pos as nat;
            let node = match self.parse_node() {
                Err(e) => {
                    return Err(e);
                },
                Ok(n) => n,
            };
            proof {
                lemma_sp_node_next(self.input@, p1);
            }
            let ghost before = nodes@;
            nodes.push(node);
            proof {
                assert(nodes_view(nodes@) =~= nodes_view(before) + seq![node@]);
                assert(forall|rest: Seq<SpecNode>|
                    (nodes_view(before) + seq![node@]) + rest =~= nodes_view(before) + (seq![
                        node@,
                    ] + rest));
            }
        }
    }

    /// Parse a whole document: the top-level sibling nodes, then the
    /// normalization rule. Exactly one top-level node is itself the root;
    /// otherwise (none, or several) the nodes become the children of a
    /// synthetic `html` element with no attributes.
    pub fn parse(input: String) -> (r: Result<Node, ParseError>)
        ensures
            (match sp_parse(input@) {
                Ok(sn) => r matches Ok(node) && node@ == sn,
                Err(e) => r matches Err(err) && err@ == e,
            }),
    {
        let mut parser = Parser { pos: 0, input };
        let mut nodes = match parser.parse_nodes() {
            Err(e) => {
                return Err(e);
            },
            Ok(v) => v,
        };
        if nodes.len() == 1 {
            Ok(nodes.swap_remove(0))
        } else {
            let tag = "html".to_owned();
            proof {
                reveal_strlit("html");
                assert("html"@ =~= seq!['h', 't', 'm', 'l']);
            }
            Ok(elem(tag, AttrMap::new(), nodes))
        }
    }
}

} // verus!
