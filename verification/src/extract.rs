//! The route-name extractor.
//!
//! Given a syntax tree, the extractor walks every node, recognizes calls to
//! the routing constructors `path` and `re_path`, and recovers the literal
//! bound to the `name` keyword argument of each such call.  The walk is a
//! pre-order descent; a call yields a route name exactly when a recognized
//! callee and a recovered `name=` literal are both present.  When several
//! keyword arguments of one call carry `name=`, the last one wins.

use vstd::prelude::*;
use vstd::string::*;

use crate::text::chars_of;
use crate::text::str_eq;
use crate::tree::SyntaxNode;
use crate::tree::parse_python;
use crate::tree::python_tree;

verus! {

/// Whether `name=` occurs somewhere in `s`.
pub open spec fn contains_name_eq(s: Seq<char>) -> bool {
    exists|i: int| 0 <= i && i + 5 <= s.len() && #[trigger] s.subrange(i, i + 5) == "name="@
}

/// The index of the first `=` in `s`, or `s.len()` if there is none.
pub open spec fn first_eq_at(s: Seq<char>) -> int
    decreases s.len(),
{
    if s.len() == 0 {
        0
    } else if s[0] == '=' {
        0
    } else {
        1 + first_eq_at(s.drop_first())
    }
}

/// `s` with one leading quote character (single or double) removed.
pub open spec fn strip_quote_left(s: Seq<char>) -> Seq<char> {
    if s.len() > 0 && (s[0] == '"' || s[0] == '\'') {
        s.drop_first()
    } else {
        s
    }
}

/// `s` with one trailing quote character (single or double) removed.
pub open spec fn strip_quote_right(s: Seq<char>) -> Seq<char> {
    if s.len() > 0 && (s.last() == '"' || s.last() == '\'') {
        s.drop_last()
    } else {
        s
    }
}

/// One layer of surrounding quotes removed: the inner characters verbatim.
pub open spec fn strip_quotes(s: Seq<char>) -> Seq<char> {
    strip_quote_right(strip_quote_left(s))
}

/// The route name a keyword-argument span yields: if the span contains
/// `name=`, the text after the first `=`, with one layer of quotes stripped;
/// otherwise nothing.
pub open spec fn name_of_kwarg(s: Seq<char>) -> Option<Seq<char>> {
    if contains_name_eq(s) {
        Some(strip_quotes(s.subrange(first_eq_at(s) + 1, s.len() as int)))
    } else {
        None
    }
}

/// The route name among an argument list's children: the last keyword
/// argument that yields one, or nothing.
pub open spec fn name_in_args(args: Seq<SyntaxNode>) -> Option<Seq<char>>
    decreases args.len(),
{
    if args.len() == 0 {
        None
    } else if args.last().kind@ == "keyword_argument"@ && name_of_kwarg(args.last().text@)
        is Some {
        name_of_kwarg(args.last().text@)
    } else {
        name_in_args(args.drop_last())
    }
}

/// The route name among a call's children: the last argument list holding
/// one, or nothing.
pub open spec fn name_in_children(children: Seq<SyntaxNode>) -> Option<Seq<char>>
    decreases children.len(),
{
    if children.len() == 0 {
        None
    } else if children.last().kind@ == "argument_list"@ && name_in_args(
        children.last().children@,
    ) is Some {
        name_in_args(children.last().children@)
    } else {
        name_in_children(children.drop_last())
    }
}

/// Whether a call's children include an identifier naming a routing
/// constructor (`path` or `re_path`).
pub open spec fn recognized_callee(children: Seq<SyntaxNode>) -> bool {
    exists|i: int|
        0 <= i < children.len() && children[i].kind@ == "identifier"@ && (children[i].text@
            == "path"@ || children[i].text@ == "re_path"@)
}

/// The route name a call node declares: present exactly when the callee is
/// recognized and a `name=` literal is recovered.
pub open spec fn spec_pattern_name(n: SyntaxNode) -> Option<Seq<char>> {
    if recognized_callee(n.children@) {
        name_in_children(n.children@)
    } else {
        None
    }
}

/// The route names the node itself declares: one for a call with a
/// recovered name, none otherwise.
pub open spec fn own_routes(n: SyntaxNode) -> Seq<Seq<char>> {
    if n.kind@ == "call"@ {
        match spec_pattern_name(n) {
            Some(r) => seq![r],
            None => Seq::empty(),
        }
    } else {
        Seq::empty()
    }
}

/// All route names declared in the subtree rooted at `n`, in pre-order.
pub open spec fn routes_of(n: SyntaxNode) -> Seq<Seq<char>>
    decreases n,
{
    own_routes(n) + routes_of_forest(n.children@)
}

/// All route names declared in a forest of subtrees, in order.
pub open spec fn routes_of_forest(f: Seq<SyntaxNode>) -> Seq<Seq<char>>
    decreases f,
{
    if f.len() == 0 {
        Seq::empty()
    } else {
        routes_of(f[0]) + routes_of_forest(f.drop_first())
    }
}

/// The route names of a whole source text: those of its syntax tree, or
/// none where parsing yields no tree.
pub open spec fn spec_extracted(s: Seq<char>) -> Seq<Seq<char>> {
    match python_tree(s) {
        Some(t) => routes_of(t),
        None => Seq::empty(),
    }
}

/// Whether no call in the subtree under `n` names a recognized routing
/// constructor.
pub open spec fn no_recognized_callee(n: SyntaxNode) -> bool
    decreases n,
{
    !recognized_callee(n.children@) && forall|i: int|
        0 <= i < n.children@.len() ==> no_recognized_callee(#[trigger] n.children@[i])
}

/// A tree whose calls all name identifiers outside the recognized set
/// yields no route names at all.
pub proof fn lemma_unrecognized_yields_nothing(n: SyntaxNode)
    requires
        no_recognized_callee(n),
    ensures
        routes_of(n) == Seq::<Seq<char>>::empty(),
    decreases n,
{
    lemma_unrecognized_forest(n.children@);
    assert(routes_of(n) =~= Seq::<Seq<char>>::empty());
}

proof fn lemma_unrecognized_forest(f: Seq<SyntaxNode>)
    requires
        forall|i: int| 0 <= i < f.len() ==> no_recognized_callee(#[trigger] f[i]),
    ensures
        routes_of_forest(f) == Seq::<Seq<char>>::empty(),
    decreases f,
{
    if f.len() > 0 {
        lemma_unrecognized_yields_nothing(f[0]);
        assert forall|i: int| 0 <= i < f.drop_first().len() implies no_recognized_callee(
            #[trigger] f.drop_first()[i],
        ) by {
            assert(f.drop_first()[i] == f[i + 1]);
        }
        lemma_unrecognized_forest(f.drop_first());
        assert(routes_of_forest(f) =~= Seq::<Seq<char>>::empty());
    }
}

/// The surrounding quotes of a literal are stripped exactly once: whatever
/// stands between the outer quotes, quotes of its own included, is
/// preserved verbatim.
pub proof fn lemma_quotes_stripped_once(s: Seq<char>, q1: char, q2: char)
    requires
        q1 == '"' || q1 == '\'',
        q2 == '"' || q2 == '\'',
    ensures
        strip_quotes(seq![q1] + s + seq![q2]) == s,
{
    let w = seq![q1] + s + seq![q2];
    assert(w[0] == q1);
    assert(w.drop_first() =~= s + seq![q2]);
    assert(strip_quote_left(w) == s + seq![q2]);
    assert((s + seq![q2]).last() == q2);
    assert((s + seq![q2]).drop_last() =~= s);
}

/// Whether `name=` occurs in `t`.
fn contains_name_eq_exec(t: &Vec<char>) -> (r: bool)
    ensures
        r == contains_name_eq(t@),
{
    proof {
        reveal_strlit("name=");
    }
    if t.len() < 5 {
        return false;
    }
    let stop = t.len() - 5;
    let mut i: usize = 0;
    while i <= stop
        invariant
            i <= stop + 1,
            stop == t@.len() - 5,
            t@.len() <= usize::MAX,
            forall|j: int| 0 <= j < i ==> #[trigger] t@.subrange(j, j + 5) != "name="@,
        decreases stop + 1 - i,
    {
        if t[i] == 'n' && t[i + 1] == 'a' && t[i + 2] == 'm' && t[i + 3] == 'e' && t[i + 4]
            == '=' {
            proof {
                reveal_strlit("name=");
                assert(t@.subrange(i as int, i as int + 5) =~= "name="@);
            }
            return true;
        }
        proof {
            reveal_strlit("name=");
            let j = i as int;
            if t@.subrange(j, j + 5) == "name="@ {
                assert(t@.subrange(j, j + 5)[0] == t@[j]);
                assert(t@.subrange(j, j + 5)[1] == t@[j + 1]);
                assert(t@.subrange(j, j + 5)[2] == t@[j + 2]);
                assert(t@.subrange(j, j + 5)[3] == t@[j + 3]);
                assert(t@.subrange(j, j + 5)[4] == t@[j + 4]);
            }
        }
        i = i + 1;
    }
    proof {
        assert forall|j: int| 0 <= j && j + 5 <= t@.len() implies #[trigger] t@.subrange(j, j + 5)
            != "name="@ by {
            assert(j < i);
        }
    }
    false
}

proof fn lemma_first_eq_at(s: Seq<char>, i: int)
    requires
        0 <= i <= s.len(),
        forall|j: int| 0 <= j < i ==> s[j] != '=',
        i < s.len() ==> s[i] == '=',
    ensures
        first_eq_at(s) == i,
    decreases i,
{
    if s.len() == 0 {
    } else if s[0] == '=' {
        assert(i == 0);
    } else {
        lemma_first_eq_at(s.drop_first(), i - 1);
    }
}

/// The index of the first `=` in `t`, or `t.len()` if there is none.
fn find_eq(t: &Vec<char>) -> (r: usize)
    ensures
        r == first_eq_at(t@),
        r <= t@.len(),
        r < t@.len() ==> t@[r as int] == '=',
        forall|j: int| 0 <= j < r ==> t@[j] != '=',
{
    let mut i: usize = 0;
    while i < t.len()
        invariant
            i <= t@.len(),
            forall|j: int| 0 <= j < i ==> t@[j] != '=',
        decreases t@.len() - i,
    {
        if t[i] == '=' {
            proof {
                lemma_first_eq_at(t@, i as int);
            }
            return i;
        }
        i = i + 1;
    }
    proof {
        lemma_first_eq_at(t@, i as int);
    }
    i
}

/// The route name a keyword-argument span yields, if any.
fn kwarg_name(text: &String) -> (r: Option<String>)
    ensures
        match r {
            Some(s) => name_of_kwarg(text@) == Some(s@),
            None => name_of_kwarg(text@) is None,
        },
{
    let t = chars_of(text.as_str());
    if !contains_name_eq_exec(&t) {
        return None;
    }
    proof {
        let j = choose|j: int|
            0 <= j && j + 5 <= t@.len() && #[trigger] t@.subrange(j, j + 5) == "name="@;
        reveal_strlit("name=");
        assert(t@.subrange(j, j + 5)[4] == t@[j + 4]);
        assert(t@[j + 4] == '=');
    }
    let e = find_eq(&t);
    assert(e < t.len());
    let mut a: usize = e + 1;
    let b0: usize = t.len();
    let mut b: usize = b0;
    let ghost rhs = t@.subrange(e + 1, t@.len() as int);
    if a < b && (t[a] == '"' || t[a] == '\'') {
        a = a + 1;
    }
    proof {
        assert(t@.subrange(a as int, t@.len() as int) =~= strip_quote_left(rhs));
    }
    let ghost left = strip_quote_left(rhs);
    if a < b && (t[b - 1] == '"' || t[b - 1] == '\'') {
        b = b - 1;
    }
    proof {
        assert(t@.subrange(a as int, b as int) =~= strip_quote_right(left));
    }
    let s = text.as_str().substring_char(a, b);
    Some(String::from_str(s))
}

/// The route name among an argument list's children, if any.
fn args_name(args: &Vec<SyntaxNode>) -> (r: Option<String>)
    ensures
        match r {
            Some(s) => name_in_args(args@) == Some(s@),
            None => name_in_args(args@) is None,
        },
{
    let mut name: Option<String> = None;
    let n = args.len();
    let mut i: usize = 0;
    while i < n
        invariant
            i <= n,
            n == args@.len(),
            match name {
                Some(s) => name_in_args(args@.subrange(0, i as int)) == Some(s@),
                None => name_in_args(args@.subrange(0, i as int)) is None,
            },
        decreases n - i,
    {
        let ghost pre = args@.subrange(0, i as int);
        let ghost post = args@.subrange(0, i as int + 1);
        proof {
            assert(post.drop_last() =~= pre);
            assert(post.last() == args@[i as int]);
        }
        if str_eq(args[i].kind.as_str(), "keyword_argument") {
            match kwarg_name(&args[i].text) {
                Some(s) => {
                    name = Some(s);
                },
                None => {},
            }
        }
        i = i + 1;
    }
    proof {
        assert(args@.subrange(0, n as int) =~= args@);
    }
    name
}

/// The route name a call node declares, if any: a recognized callee
/// (`path` or `re_path`) together with a recovered `name=` literal.
pub fn extract_pattern_name(node: &SyntaxNode) -> (r: Option<String>)
    ensures
        match r {
            Some(s) => spec_pattern_name(*node) == Some(s@),
            None => spec_pattern_name(*node) is None,
        },
{
    let mut found = false;
    let mut name: Option<String> = None;
    let n = node.children.len();
    let mut i: usize = 0;
    while i < n
        invariant
            i <= n,
            n == node.children@.len(),
            found == recognized_callee(node.children@.subrange(0, i as int)),
            match name {
                Some(s) => name_in_children(node.children@.subrange(0, i as int)) == Some(s@),
                None => name_in_children(node.children@.subrange(0, i as int)) is None,
            },
        decreases n - i,
    {
        let ghost pre = node.children@.subrange(0, i as int);
        let ghost post = node.children@.subrange(0, i as int + 1);
        proof {
            assert(post.drop_last() =~= pre);
            assert(post.last() == node.children@[i as int]);
            assert(forall|k: int| 0 <= k < pre.len() ==> post[k] == pre[k]);
        }
        let child = &node.children[i];
        if str_eq(child.kind.as_str(), "identifier") {
            if str_eq(child.text.as_str(), "path") || str_eq(child.text.as_str(), "re_path") {
                found = true;
            }
            proof {
                reveal_strlit("identifier");
                reveal_strlit("argument_list");
                assert("identifier"@.len() == 10);
                assert("argument_list"@.len() == 13);
                assert(child.kind@ != "argument_list"@);
            }
        } else if str_eq(child.kind.as_str(), "argument_list") {
            match args_name(&child.children) {
                Some(s) => {
                    name = Some(s);
                },
                None => {},
            }
        }
        i = i + 1;
    }
    proof {
        assert(node.children@.subrange(0, n as int) =~= node.children@);
    }
    if found {
        name
    } else {
        None
    }
}

proof fn lemma_forest_snoc(f: Seq<SyntaxNode>)
    requires
        f.len() > 0,
    ensures
        routes_of_forest(f) == routes_of_forest(f.drop_last()) + routes_of(f.last()),
    decreases f.len(),
{
    if f.len() == 1 {
        assert(f.drop_last() =~= Seq::<SyntaxNode>::empty());
        assert(f[0] == f.last());
        assert(routes_of_forest(f.drop_last()) + routes_of(f.last()) =~= routes_of(f[0])
            + routes_of_forest(f.drop_first()));
    } else {
        lemma_forest_snoc(f.drop_first());
        assert(f.drop_first().drop_last() =~= f.drop_last().drop_first());
        assert(f.drop_first().last() == f.last());
        assert(f.drop_last()[0] == f[0]);
        assert(routes_of_forest(f) == routes_of(f[0]) + routes_of_forest(f.drop_first()));
        assert(routes_of_forest(f.drop_last()) == routes_of(f[0]) + routes_of_forest(
            f.drop_last().drop_first(),
        ));
        assert(routes_of_forest(f) =~= routes_of_forest(f.drop_last()) + routes_of(f.last()));
    }
}

/// Walks the subtree under `root` and appends, in pre-order, every route
/// name a recognized call declares.
pub fn extract_from_tree(root: &SyntaxNode, patterns: &mut Vec<String>)
    ensures
        final (patterns).deep_view() == old(patterns).deep_view() + routes_of(*root),
    decreases *root,
{
    let ghost base = patterns.deep_view();
    if str_eq(root.kind.as_str(), "call") {
        match extract_pattern_name(root) {
            Some(s) => {
                patterns.push(s);
                proof {
                    assert(patterns.deep_view() =~= base + own_routes(*root));
                }
            },
            None => {
                proof {
                    assert(patterns.deep_view() =~= base + own_routes(*root));
                }
            },
        }
    } else {
        proof {
            assert(patterns.deep_view() =~= base + own_routes(*root));
        }
    }
    let n = root.children.len();
    let mut i: usize = 0;
    while i < n
        invariant
            i <= n,
            n == root.children@.len(),
            patterns.deep_view() == base + own_routes(*root) + routes_of_forest(
                root.children@.subrange(0, i as int),
            ),
        decreases n - i,
    {
        extract_from_tree(&root.children[i], patterns);
        proof {
            let post = root.children@.subrange(0, i as int + 1);
            assert(post.drop_last() =~= root.children@.subrange(0, i as int));
            assert(post.last() == root.children@[i as int]);
            lemma_forest_snoc(post);
        }
        i = i + 1;
    }
    proof {
        assert(root.children@.subrange(0, n as int) =~= root.children@);
        assert(base + own_routes(*root) + routes_of_forest(root.children@) =~= base + routes_of(
            *root,
        ));
    }
}

/// All route names declared in `source`: the file is parsed and its tree
/// walked; a text that yields no tree yields no names.
pub fn extract_url_patterns(source: &str) -> (r: Vec<String>)
    ensures
        r.deep_view() == spec_extracted(source@),
{
    match parse_python(source) {
        Some(root) => {
            let mut patterns: Vec<String> = Vec::new();
            proof {
                assert(patterns.deep_view() =~= Seq::<Seq<char>>::empty());
            }
            extract_from_tree(&root, &mut patterns);
            patterns
        },
        None => {
            let patterns: Vec<String> = Vec::new();
            proof {
                assert(patterns.deep_view() =~= Seq::<Seq<char>>::empty());
            }
            patterns
        },
    }
}

} // verus!
