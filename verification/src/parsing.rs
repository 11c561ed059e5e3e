//! Parsing of trees written in bracket notation, such as `{a{b}{c}}`: every
//! node is an opening brace, its label, its children and a closing brace.  A
//! brace preceded by a backslash (itself not escaped) belongs to the label.

use crate::tree::{NodeId, TreeArena};
use vstd::prelude::*;
use vstd::string::StringExecFns;
use vstd::utf8::encode_utf8;

verus! {

/// Errors reported by `parse_tree`.
#[derive(Debug, PartialEq, Eq)]
pub enum TreeParseError {
    /// A label is not valid UTF-8 text.
    IsNotAscii,
    /// The bracket structure is wrong.
    IncorrectFormat(String),
    /// A token is neither an opening nor a closing brace.
    TokenizerError,
}

pub const TOKEN_OPEN_NODE: u8 = 123;  // b'{'

pub const TOKEN_CLOSE_NODE: u8 = 125;  // b'}'

pub const TOKEN_ESCAPE: u8 = 92;  // b'\\'

/// `memchr::memchr2`: the first position holding either needle, if any.
#[verifier::external_body]
fn memchr2(needle1: u8, needle2: u8, haystack: &[u8]) -> (r: Option<usize>)
    ensures
        r matches Some(i) ==> i < haystack@.len() && (haystack@[i as int] == needle1 || haystack@[i as int]
            == needle2),
        r matches Some(i) ==> forall|j: int|
            0 <= j < i ==> #[trigger] haystack@[j] != needle1 && haystack@[j] != needle2,
        r is None ==> forall|j: int|
            0 <= j < haystack@.len() ==> #[trigger] haystack@[j] != needle1 && haystack@[j] != needle2,
{
    memchr::memchr2(needle1, needle2, haystack)
}

/// `std::str::from_utf8`: the text whose UTF-8 encoding is `v`, if `v` is one.
#[verifier::external_body]
fn str_from_utf8(v: &[u8]) -> (r: Option<&str>)
    ensures
        r is Some <==> vstd::utf8::valid_utf8(v@),
        r matches Some(s) ==> encode_utf8(s@) == v@,
{
    std::str::from_utf8(v).ok()
}

pub open spec fn is_brace(x: u8) -> bool {
    x == TOKEN_OPEN_NODE || x == TOKEN_CLOSE_NODE
}

/// The byte at `offset` is escaped by a backslash that is not itself escaped.
pub open spec fn spec_is_escaped(b: Seq<u8>, offset: int) -> bool {
    offset > 0 && b[offset - 1] == TOKEN_ESCAPE && !(offset > 1 && b[offset - 2] == TOKEN_ESCAPE)
}

pub open spec fn is_token(b: Seq<u8>, i: int) -> bool {
    0 <= i < b.len() && is_brace(b[i]) && !spec_is_escaped(b, i)
}

/// Positions of the structural braces before `end`, in increasing order.
pub open spec fn tokens_before(b: Seq<u8>, end: int) -> Seq<int>
    decreases end,
{
    if end <= 0 {
        Seq::empty()
    } else if is_token(b, end - 1) {
        tokens_before(b, end - 1).push(end - 1)
    } else {
        tokens_before(b, end - 1)
    }
}

/// Positions of all structural braces.
pub open spec fn tokens(b: Seq<u8>) -> Seq<int> {
    tokens_before(b, b.len() as int)
}

/// Whether token `x` opens a node.
pub open spec fn opens(b: Seq<u8>, t: Seq<int>, x: int) -> bool {
    b[t[x]] == TOKEN_OPEN_NODE
}

/// Number of opening tokens among `t[1..x]`.
pub open spec fn opens_before(b: Seq<u8>, t: Seq<int>, x: int) -> int
    decreases x,
{
    if x <= 1 {
        0
    } else {
        opens_before(b, t, x - 1) + if opens(b, t, x - 1) {
            1int
        } else {
            0int
        }
    }
}

/// Number of open nodes once the root token and `t[1..x]` are read.
pub open spec fn open_before(b: Seq<u8>, t: Seq<int>, x: int) -> int
    decreases x,
{
    if x <= 1 {
        1
    } else {
        open_before(b, t, x - 1) + if opens(b, t, x - 1) {
            1int
        } else {
            -1int
        }
    }
}

/// The label text that follows token `x`.
pub open spec fn label_bytes(b: Seq<u8>, t: Seq<int>, x: int) -> Seq<u8> {
    b.subrange(t[x] + 1, t[x + 1])
}

/// The structure of the tokens is accepted.
pub open spec fn structure_ok(b: Seq<u8>) -> bool {
    let t = tokens(b);
    &&& b[0] != TOKEN_ESCAPE
    &&& forall|x: int| 1 <= x < t.len() ==> #[trigger] open_before(b, t, x) > 0
    &&& forall|x: int| 1 <= x < t.len() && #[trigger] opens(b, t, x) ==> x + 1 < t.len()
}

/// Every label is UTF-8 text.
pub open spec fn labels_ok(b: Seq<u8>) -> bool {
    let t = tokens(b);
    &&& vstd::utf8::valid_utf8(label_bytes(b, t, 0))
    &&& forall|x: int| 1 <= x < t.len() - 1 && #[trigger] opens(b, t, x) ==> vstd::utf8::valid_utf8(label_bytes(b, t, x))
}

/// The parsed tree: one node per opening token (the first token opens the
/// root), in token order, with the label that follows the token, at the depth
/// given by the tokens read before it.
pub open spec fn parsed(b: Seq<u8>, tree: TreeArena) -> bool {
    let t = tokens(b);
    &&& tree.wf()
    &&& tree.n() == 1 + opens_before(b, t, t.len() as int)
    &&& tree.size(0) == tree.n()
    &&& encode_utf8(tree.label(0)) == label_bytes(b, t, 0)
    &&& forall|x: int|
        1 <= x < t.len() && #[trigger] opens(b, t, x) ==> {
            let m = 1 + opens_before(b, t, x);
            &&& encode_utf8(tree.label(m)) == label_bytes(b, t, x)
            &&& tree.depth(m) == open_before(b, t, x)
        }
}

/// Whether the byte at `offset` is escaped.
pub fn is_escaped(byte_string: &[u8], offset: usize) -> (r: bool)
    requires
        offset < byte_string@.len(),
    ensures
        r == spec_is_escaped(byte_string@, offset as int),
{
    offset > 0 && byte_string[offset - 1] == TOKEN_ESCAPE && !(offset > 1 && byte_string[offset - 2]
        == TOKEN_ESCAPE)
}

proof fn lemma_tokens_skip(b: Seq<u8>, pos: int, end: int)
    requires
        0 <= pos <= end <= b.len(),
        forall|j: int| pos <= j < end ==> !is_brace(#[trigger] b[j]),
    ensures
        tokens_before(b, end) == tokens_before(b, pos),
    decreases end - pos,
{
    if end > pos {
        lemma_tokens_skip(b, pos, end - 1);
    }
}

proof fn lemma_tokens_bounds(b: Seq<u8>, end: int)
    requires
        0 <= end <= b.len(),
    ensures
        forall|x: int| 0 <= x < tokens_before(b, end).len() ==> 0 <= #[trigger] tokens_before(b, end)[x] < end,
        forall|x: int, y: int|
            0 <= x < y < tokens_before(b, end).len() ==> #[trigger] tokens_before(b, end)[x]
                < #[trigger] tokens_before(b, end)[y],
        forall|x: int| 0 <= x < tokens_before(b, end).len() ==> is_brace(b[#[trigger] tokens_before(b, end)[x]]),
        tokens_before(b, end).len() <= end,
    decreases end,
{
    if end > 0 {
        lemma_tokens_bounds(b, end - 1);
        let s = tokens_before(b, end - 1);
        if is_token(b, end - 1) {
            let r = s.push(end - 1);
            assert(tokens_before(b, end) == r);
            assert forall|x: int, y: int| 0 <= x < y < r.len() implies #[trigger] r[x] < #[trigger] r[y] by {
                if y < s.len() {
                    assert(s[x] < s[y]);
                } else {
                    assert(s[x] < end - 1);
                }
            }
        }
    }
}

/// Positions of the unescaped braces of `bytes`.
fn token_positions(bytes: &[u8]) -> (r: Vec<usize>)
    requires
        bytes@.len() < usize::MAX,
    ensures
        r@.len() == tokens(bytes@).len(),
        forall|x: int| 0 <= x < r@.len() ==> #[trigger] r@[x] as int == tokens(bytes@)[x],
{
    let mut r: Vec<usize> = Vec::new();
    let mut pos: usize = 0;
    let len = bytes.len();
    while pos < len
        invariant
            pos <= len,
            len == bytes@.len(),
            len < usize::MAX,
            r@.len() == tokens_before(bytes@, pos as int).len(),
            forall|x: int| 0 <= x < r@.len() ==> #[trigger] r@[x] as int == tokens_before(bytes@, pos as int)[x],
        decreases len - pos,
    {
        let rest = &bytes[pos..len];
        match memchr2(TOKEN_OPEN_NODE, TOKEN_CLOSE_NODE, rest) {
            Some(i) => {
                let tok = pos + i;
                proof {
                    assert forall|j: int| pos <= j < tok implies !is_brace(#[trigger] bytes@[j]) by {
                        assert(rest@[j - pos] == bytes@[j]);
                    }
                    lemma_tokens_skip(bytes@, pos as int, tok as int);
                    assert(rest@[i as int] == bytes@[tok as int]);
                }
                if !is_escaped(bytes, tok) {
                    r.push(tok);
                }
                pos = tok + 1;
            },
            None => {
                proof {
                    assert forall|j: int| pos <= j < len implies !is_brace(#[trigger] bytes@[j]) by {
                        assert(rest@[j - pos] == bytes@[j]);
                    }
                    lemma_tokens_skip(bytes@, pos as int, len as int);
                }
                pos = len;
            },
        }
    }
    r
}

/// Builds the label text held between two positions.
fn label_between(bytes: &[u8], from: usize, to: usize) -> (r: Option<String>)
    requires
        from <= to <= bytes@.len(),
    ensures
        r is Some <==> vstd::utf8::valid_utf8(bytes@.subrange(from as int, to as int)),
        r matches Some(s) ==> encode_utf8(s@) == bytes@.subrange(from as int, to as int),
{
    let slice = &bytes[from..to];
    match str_from_utf8(slice) {
        Some(s) => Some(s.to_owned()),
        None => None,
    }
}


/// Depth only depends on the parents up to the slot.
proof fn lemma_depth_stable(t1: TreeArena, t2: TreeArena, i: int)
    requires
        0 <= i < t1.n() <= t2.n(),
        forall|x: int| 0 <= x <= i ==> #[trigger] t1.par(x) == t2.par(x),
    ensures
        t1.depth(i) == t2.depth(i),
    decreases i,
{
    if i > 0 && t1.par(i) >= 0 && t1.par(i) < i {
        lemma_depth_stable(t1, t2, t1.par(i));
    }
}

proof fn lemma_open_step(b: Seq<u8>, t: Seq<int>, x: int)
    requires
        x >= 1,
    ensures
        opens_before(b, t, x + 1) == opens_before(b, t, x) + (if opens(b, t, x) { 1int } else { 0int }),
        open_before(b, t, x + 1) == open_before(b, t, x) + (if opens(b, t, x) { 1int } else { -1int }),
{
}

/// Number of unescaped braces in `bytes`; `parse_tree` needs at least two.
pub fn token_count(bytes: &[u8]) -> (r: usize)
    requires
        bytes@.len() < usize::MAX,
    ensures
        r == tokens(bytes@).len(),
{
    token_positions(bytes).len()
}

/// Parses a tree in bracket notation.
///
/// Unless it starts with a backslash, the input must hold at least two
/// structural braces, and its labels must be UTF-8 text.  Fails when it starts
/// with a backslash, when a closing brace has no open node to close, and when
/// an opening brace comes after the root was closed or is the last token.
/// Unclosed nodes at the end are accepted.  Each error names a fault of the
/// structure that the input has.
#[verifier::rlimit(60)]
pub fn parse_tree(tree_bracket_bytes: &[u8]) -> (r: Result<TreeArena, TreeParseError>)
    requires
        tree_bracket_bytes@.len() >= 1,
        tree_bracket_bytes@.len() < usize::MAX - 2,
        tree_bracket_bytes@[0] == TOKEN_ESCAPE || (tokens(tree_bracket_bytes@).len() >= 2 && labels_ok(
            tree_bracket_bytes@,
        )),
    ensures
        r is Ok <==> structure_ok(tree_bracket_bytes@),
        r matches Ok(tree) ==> parsed(tree_bracket_bytes@, tree),
        r matches Err(e) ==> e is IncorrectFormat,
{
    let ghost b = tree_bracket_bytes@;
    if tree_bracket_bytes[0] == TOKEN_ESCAPE {
        return Err(TreeParseError::IncorrectFormat("Tree bracket string starts with escape char \\".to_owned()));
    }
    let mut tree = TreeArena::with_capacity(tree_bracket_bytes.len() / 3);
    let token_positions = token_positions(tree_bracket_bytes);
    let ghost t = tokens(b);
    proof {
        lemma_tokens_bounds(b, b.len() as int);
    }
    let ntok = token_positions.len();
    let root_start = token_positions[0];
    let root_end = token_positions[1];
    let root_label = match label_between(tree_bracket_bytes, root_start + 1, root_end) {
        Some(l) => l,
        None => {
            return Err(TreeParseError::IsNotAscii);
        },
    };
    let root = tree.new_node(root_label);
    let mut node_stack: Vec<NodeId> = Vec::new();
    node_stack.push(root);
    let mut j: usize = 1;
    while j < ntok
        invariant
            1 <= j <= ntok,
            labels_ok(b),
            ntok == t.len(),
            token_positions@.len() == ntok,
            t == tokens(b),
            b == tree_bracket_bytes@,
            b.len() < usize::MAX - 2,
            b[0] != TOKEN_ESCAPE,
            forall|x: int| 0 <= x < ntok ==> #[trigger] token_positions@[x] as int == t[x],
            forall|x: int| 0 <= x < t.len() ==> 0 <= #[trigger] t[x] < b.len(),
            forall|x: int, y: int| 0 <= x < y < t.len() ==> #[trigger] t[x] < #[trigger] t[y],
            forall|x: int| 0 <= x < t.len() ==> is_brace(b[#[trigger] t[x]]),
            tree.wf(),
            tree.n() == 1 + opens_before(b, t, j as int),
            tree.n() <= j,
            t.len() <= b.len(),
            tree.size(0) == tree.n(),
            encode_utf8(tree.label(0)) == label_bytes(b, t, 0),
            vstd::utf8::valid_utf8(label_bytes(b, t, 0)),
            node_stack@.len() == open_before(b, t, j as int),
            node_stack@.len() > 0 ==> node_stack@[0].spec_index() == 0,
            forall|k: int| 0 <= k < node_stack@.len() ==> {
                let s = #[trigger] node_stack@[k];
                &&& s.valid()
                &&& 0 <= s.spec_index() < tree.n()
                &&& s.spec_index() + tree.size(s.spec_index()) == tree.n()
                &&& tree.depth(s.spec_index()) == k
            },
            forall|k: int, l: int| 0 <= k < l < node_stack@.len() ==> (#[trigger] node_stack@[k]).spec_index()
                < (#[trigger] node_stack@[l]).spec_index(),
            forall|x: int| 1 <= x < j ==> #[trigger] open_before(b, t, x) > 0,
            forall|x: int| 1 <= x < j && #[trigger] opens(b, t, x) ==> x + 1 < t.len(),
            forall|x: int| 1 <= x < j && #[trigger] opens(b, t, x) ==> vstd::utf8::valid_utf8(label_bytes(b, t, x)),
            forall|x: int|
                1 <= x < j && #[trigger] opens(b, t, x) ==> {
                    let m = 1 + opens_before(b, t, x);
                    &&& encode_utf8(tree.label(m)) == label_bytes(b, t, x)
                    &&& tree.depth(m) == open_before(b, t, x)
                },
        decreases ntok - j,
    {
        let token = token_positions[j];
        proof {
            lemma_open_step(b, t, j as int);
        }
        if tree_bracket_bytes[token] == TOKEN_OPEN_NODE {
            if j + 1 >= ntok {
                let mut msg = "Label has no ending token near col ".to_owned();
                msg.append(token.to_string().as_str());
                return Err(TreeParseError::IncorrectFormat(msg));
            }
            let token_end = token_positions[j + 1];
            let label = match label_between(tree_bracket_bytes, token + 1, token_end) {
                Some(l) => l,
                None => {
                    proof {
                        assert(opens(b, t, j as int));
                        assert(1 <= j < t.len() - 1);
                    }
                    return Err(TreeParseError::IsNotAscii);
                },
            };
            let ghost before = tree;
            let n = tree.new_node(label);
            if node_stack.len() == 0 {
                return Err(TreeParseError::IncorrectFormat("Reached unexpected end of tree string".to_owned()));
            }
            let last_node = node_stack[node_stack.len() - 1];
            let ghost mid = tree;
            proof {
                let top = node_stack@.len() - 1;
                assert(node_stack@[top].spec_index() + before.size(node_stack@[top].spec_index()) == before.n());
            }
            last_node.append(n, &mut tree);
            proof {
                let c = mid.n() - 1;
                let p = last_node.spec_index();
                let top = node_stack@.len() - 1;
                assert forall|x: int| 0 <= x <= c - 1 implies #[trigger] mid.par(x) == tree.par(x) by {}
                assert forall|x: int| 0 <= x <= c - 1 implies #[trigger] before.par(x) == mid.par(x) by {}
                assert(mid.par(c) == -1);
                assert(tree.depth(c) == tree.depth(p) + 1) by {
                    assert(tree.par(c) == p);
                }
                lemma_depth_stable(before, tree, p);
                assert forall|k: int| 0 <= k < node_stack@.len() implies {
                    let s = #[trigger] node_stack@[k];
                    &&& s.valid()
                    &&& 0 <= s.spec_index() < tree.n()
                    &&& s.spec_index() + tree.size(s.spec_index()) == tree.n()
                    &&& tree.depth(s.spec_index()) == k
                } by {
                    let s = node_stack@[k];
                    let si = s.spec_index();
                    if k < top {
                        assert(si < p);
                    }
                    assert(mid.size(si) == before.size(si));
                    assert(mid.is_anc_or_self(si, p));
                    assert(forall|x: int| 0 <= x <= si ==> #[trigger] before.par(x) == tree.par(x));
                    lemma_depth_stable(before, tree, si);
                }
                assert(mid.is_anc_or_self(0, p));
                assert forall|x: int|
                    1 <= x < j + 1 && #[trigger] opens(b, t, x) implies {
                        let m = 1 + opens_before(b, t, x);
                        &&& encode_utf8(tree.label(m)) == label_bytes(b, t, x)
                        &&& tree.depth(m) == open_before(b, t, x)
                    } by {
                    let m = 1 + opens_before(b, t, x);
                    if x < j {
                        lemma_opens_before_mono(b, t, x, j as int);
                        assert(m < c);
                        assert(tree.label(m) == mid.label(m));
                        assert(mid.label(m) == before.label(m));
                        assert(forall|y: int| 0 <= y <= m ==> #[trigger] before.par(y) == tree.par(y));
                        lemma_depth_stable(before, tree, m);
                    } else {
                        assert(m == c);
                        assert(tree.label(m) == mid.label(m));
                    }
                }
                assert(tree.label(0) == before.label(0));
            }
            node_stack.push(n);
            proof {
                let c = tree.n() - 1;
                assert forall|k: int, l: int| 0 <= k < l < node_stack@.len() implies (#[trigger] node_stack@[k]).spec_index()
                    < (#[trigger] node_stack@[l]).spec_index() by {
                    if l == node_stack@.len() - 1 {
                        assert(node_stack@[k].spec_index() < c);
                    }
                }
            }
        } else {
            if node_stack.len() == 0 {
                return Err(TreeParseError::IncorrectFormat("Wrong bracket pairing".to_owned()));
            }
            node_stack.pop();
            proof {
                assert(!opens(b, t, j as int));
            }
        }
        j = j + 1;
    }
    proof {
        assert(structure_ok(b));
        assert(labels_ok(b));
    }
    Ok(tree)
}

proof fn lemma_opens_before_mono(b: Seq<u8>, t: Seq<int>, x: int, y: int)
    requires
        1 <= x <= y,
        opens(b, t, x),
        x < y,
    ensures
        opens_before(b, t, x) < opens_before(b, t, y),
    decreases y - x,
{
    if y > x + 1 {
        lemma_opens_before_mono(b, t, x, y - 1);
    }
}

} // verus!
