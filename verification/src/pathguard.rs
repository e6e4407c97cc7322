//! Resolution of untrusted, percent-encoded path input against a
//! configured root, and the checks that keep every resolved path inside
//! that root.
use vstd::prelude::*;
use vstd::string::*;

use crate::strutil::{spec_starts_with, spec_ends_with, str_eq, str_starts_with, str_ends_with};
use crate::urlcodec::{spec_url_decode, url_decode};

verus! {

#[derive(Clone, Copy, PartialEq, Eq, Structural, Debug)]
pub enum PathError {
    /// The request would resolve outside the configured root.
    Traversal,
}

/// One normalization step: a finished segment is folded into the stack.
/// Empty and '.' segments vanish, '..' pops, and popping past the top is
/// the escape that fails the whole resolution.
pub open spec fn spec_close_segment(cur: Seq<char>, stack: Seq<Seq<char>>) -> Option<
    Seq<Seq<char>>,
> {
    if cur.len() == 0 || cur == "."@ {
        Some(stack)
    } else if cur == ".."@ {
        if stack.len() == 0 {
            None
        } else {
            Some(stack.drop_last())
        }
    } else {
        Some(stack.push(cur))
    }
}

/// Lexical resolution of a relative path: separators of either kind end a
/// segment, and the segments fold left to right.
pub open spec fn spec_lex(s: Seq<char>, cur: Seq<char>, stack: Seq<Seq<char>>) -> Option<
    Seq<Seq<char>>,
>
    decreases s.len(),
{
    if s.len() == 0 {
        spec_close_segment(cur, stack)
    } else if s[0] == '/' || s[0] == '\\' {
        match spec_close_segment(cur, stack) {
            None => None,
            Some(st) => spec_lex(s.skip(1), Seq::empty(), st),
        }
    } else {
        spec_lex(s.skip(1), cur.push(s[0]), stack)
    }
}

pub open spec fn spec_normalize(s: Seq<char>) -> Option<Seq<Seq<char>>> {
    spec_lex(s, Seq::empty(), Seq::empty())
}

/// The root with each segment appended behind one separator.
pub open spec fn spec_join(root: Seq<char>, segs: Seq<Seq<char>>) -> Seq<char>
    decreases segs.len(),
{
    if segs.len() == 0 {
        root
    } else {
        spec_join(root, segs.drop_last()) + seq!['/'] + segs.last()
    }
}

/// What resolving a request against a root means: percent-decode, refuse
/// an absolute or drive-qualified injection, resolve dot segments
/// lexically, and hang the rest under the root. None is an escape.
pub open spec fn spec_resolved_path(root: Seq<char>, requested: Seq<char>) -> Option<Seq<char>> {
    let d = spec_url_decode(requested);
    if d.len() > 0 && (d[0] == '/' || d[0] == '\\') {
        None
    } else if exists|i: int| 0 <= i < d.len() && d[i] == ':' {
        None
    } else {
        match spec_normalize(d) {
            None => None,
            Some(segs) => Some(spec_join(root, segs)),
        }
    }
}

/// Resolves untrusted percent-encoded path input under `root`, failing
/// closed on any escape: a `..` above the top, an absolute injection, or
/// a drive-qualified name. The result still names files through whatever
/// links the filesystem holds; callers canonicalize it and hold the
/// outcome against the root with `check_containment` before use.
pub fn resolve_request(root: &str, requested: &str) -> (r: Result<String, PathError>)
    ensures
        match r {
            Ok(p) => spec_resolved_path(root@, requested@) == Some(p@),
            Err(e) => e == PathError::Traversal && spec_resolved_path(root@, requested@) is None,
        },
{
    let decoded = url_decode(requested);
    let dlen = decoded.as_str().unicode_len();
    if dlen > 0 {
        let c0 = decoded.as_str().get_char(0);
        if c0 == '/' || c0 == '\\' {
            return Err(PathError::Traversal);
        }
    }
    let mut i: usize = 0;
    while i < dlen
        invariant
            decoded@ == spec_url_decode(requested@),
            dlen == decoded@.len(),
            0 <= i <= dlen,
            forall|j: int| 0 <= j < i ==> decoded@[j] != ':',
        decreases dlen - i,
    {
        if decoded.as_str().get_char(i) == ':' {
            proof {
                assert(decoded@ == spec_url_decode(requested@));
                assert(0 <= i < decoded@.len());
                assert(decoded@[i as int] == ':');
                assert(exists|j: int|
                    0 <= j < spec_url_decode(requested@).len() && spec_url_decode(requested@)[j]
                        == ':');
            }
            return Err(PathError::Traversal);
        }
        i = i + 1;
    }
    let mut cur = String::new();
    let mut stack: Vec<String> = Vec::new();
    let mut k: usize = 0;
    proof {
        assert(decoded@.skip(0) =~= decoded@);
        assert(stack.deep_view() =~= Seq::<Seq<char>>::empty());
    }
    while k < dlen
        invariant
            decoded@ == spec_url_decode(requested@),
            dlen == decoded@.len(),
            dlen == 0 || !(decoded@[0] == '/' || decoded@[0] == '\\'),
            forall|j: int| 0 <= j < dlen ==> decoded@[j] != ':',
            0 <= k <= dlen,
            spec_normalize(decoded@) == spec_lex(decoded@.skip(k as int), cur@, stack.deep_view()),
        decreases dlen - k,
    {
        let ghost t = decoded@.skip(k as int);
        proof {
            assert(t[0] == decoded@[k as int]);
            assert(t.skip(1) =~= decoded@.skip(k + 1));
        }
        let c = decoded.as_str().get_char(k);
        if c == '/' || c == '\\' {
            if !close_segment(&mut cur, &mut stack) {
                proof {
                    assert(spec_normalize(decoded@) is None);
                    assert(spec_resolved_path(root@, requested@) is None);
                }
                return Err(PathError::Traversal);
            }
        } else {
            cur.push(c);
        }
        k = k + 1;
    }
    proof {
        assert(decoded@.skip(dlen as int) =~= Seq::<char>::empty());
    }
    if !close_segment(&mut cur, &mut stack) {
        return Err(PathError::Traversal);
    }
    let mut out = String::from_str(root);
    let mut si: usize = 0;
    proof {
        assert(stack.deep_view().take(0) =~= Seq::<Seq<char>>::empty());
    }
    while si < stack.len()
        invariant
            0 <= si <= stack@.len(),
            out@ == spec_join(root@, stack.deep_view().take(si as int)),
        decreases stack@.len() - si,
    {
        proof {
            let pref = stack.deep_view().take(si + 1);
            assert(pref.drop_last() =~= stack.deep_view().take(si as int));
            assert(pref.last() == stack.deep_view()[si as int]);
        }
        out.push('/');
        out.append(stack[si].as_str());
        si = si + 1;
    }
    proof {
        assert(stack.deep_view().take(stack.deep_view().len() as int) =~= stack.deep_view());
    }
    Ok(out)
}

/// Folds the pending segment into the stack; false is the escape.
fn close_segment(cur: &mut String, stack: &mut Vec<String>) -> (r: bool)
    ensures
        r ==> Some(final(stack).deep_view()) == spec_close_segment(
            old(cur)@,
            old(stack).deep_view(),
        ),
        !r ==> spec_close_segment(old(cur)@, old(stack).deep_view()) is None,
        final(cur)@ == Seq::<char>::empty(),
{
    let is_empty = cur.as_str().unicode_len() == 0;
    let is_dot = str_eq(cur.as_str(), ".");
    let is_dotdot = str_eq(cur.as_str(), "..");
    if is_empty || is_dot {
        *cur = String::new();
        return true;
    }
    if is_dotdot {
        if stack.len() == 0 {
            *cur = String::new();
            return false;
        }
        let _dropped = stack.pop();
        proof {
            assert(stack.deep_view() =~= old(stack).deep_view().drop_last());
        }
        *cur = String::new();
        return true;
    }
    let seg = cur.clone();
    *cur = String::new();
    stack.push(seg);
    proof {
        assert(stack.deep_view() =~= old(stack).deep_view().push(old(cur)@));
    }
    true
}

/// Ancestry on canonical paths: the candidate is the root itself or lies
/// below it, component-wise. This is meant for paths the filesystem has
/// already canonicalized, never for raw request input.
pub open spec fn spec_contained(root: Seq<char>, canonical: Seq<char>) -> bool {
    canonical == root || spec_starts_with(canonical, root + seq!['/'])
}

/// Decides whether a canonicalized path stays at or under the root.
pub fn check_containment(root: &str, canonical: &str) -> (r: bool)
    ensures
        r == spec_contained(root@, canonical@),
{
    if str_eq(canonical, root) {
        return true;
    }
    let mut prefix = String::from_str(root);
    prefix.push('/');
    let res = str_starts_with(canonical, prefix.as_str());
    proof {
        assert(prefix@ == root@ + seq!['/']);
    }
    res
}

/// A file name is safe to plant under a directory when it is non-empty,
/// names no other directory (no separators), and is not a dot entry.
pub open spec fn spec_safe_filename(name: Seq<char>) -> bool {
    &&& name.len() > 0
    &&& forall|i: int| 0 <= i < name.len() ==> name[i] != '/' && name[i] != '\\' && name[i] != '\u{0}'
    &&& name != "."@
    &&& name != ".."@
}

/// Decides whether a client-supplied file name may be used as a single
/// path component.
pub fn safe_filename(name: &str) -> (r: bool)
    ensures
        r == spec_safe_filename(name@),
{
    let len = name.unicode_len();
    if len == 0 {
        return false;
    }
    let mut i: usize = 0;
    while i < len
        invariant
            len == name@.len(),
            0 <= i <= len,
            forall|j: int| 0 <= j < i ==> name@[j] != '/' && name@[j] != '\\' && name@[j] != '\u{0}',
        decreases len - i,
    {
        let c = name.get_char(i);
        if c == '/' || c == '\\' || c == '\u{0}' {
            return false;
        }
        i = i + 1;
    }
    proof {
        reveal_strlit(".");
        reveal_strlit("..");
    }
    if len == 1 && name.get_char(0) == '.' {
        proof {
            assert(name@ =~= "."@);
        }
        return false;
    }
    if len == 2 && name.get_char(0) == '.' && name.get_char(1) == '.' {
        proof {
            assert(name@ =~= ".."@);
        }
        return false;
    }
    proof {
        if name@ == "."@ {
            assert(name@.len() == 1 && name@[0] == '.');
        }
        if name@ == ".."@ {
            assert(name@.len() == 2 && name@[0] == '.' && name@[1] == '.');
        }
    }
    true
}


/// Decoding a string without percent signs changes nothing.
proof fn lemma_decode_plain(s: Seq<char>)
    requires
        forall|i: int| 0 <= i < s.len() ==> s[i] != '%',
    ensures
        spec_url_decode(s) == s,
    decreases s.len(),
{
    if s.len() == 0 {
    } else {
        lemma_decode_plain(s.skip(1));
        assert(seq![s[0]] + s.skip(1) =~= s);
    }
}

/// Processing a run without separators only grows the pending segment.
proof fn lemma_lex_tail(s: Seq<char>, cur: Seq<char>, stack: Seq<Seq<char>>)
    requires
        forall|i: int| 0 <= i < s.len() ==> s[i] != '/' && s[i] != '\\',
    ensures
        spec_lex(s, cur, stack) == spec_close_segment(cur + s, stack),
    decreases s.len(),
{
    if s.len() == 0 {
        assert(cur + s =~= cur);
    } else {
        lemma_lex_tail(s.skip(1), cur.push(s[0]), stack);
        assert(cur.push(s[0]) + s.skip(1) =~= cur + s);
    }
}

/// Processing up to the first separator closes one segment and goes on
/// after it.
proof fn lemma_lex_split(s: Seq<char>, j: int, cur: Seq<char>, stack: Seq<Seq<char>>)
    requires
        0 <= j < s.len(),
        s[j] == '/' || s[j] == '\\',
        forall|i: int| 0 <= i < j ==> s[i] != '/' && s[i] != '\\',
    ensures
        spec_lex(s, cur, stack) == match spec_close_segment(cur + s.take(j), stack) {
            None => None,
            Some(st) => spec_lex(s.skip(j + 1), Seq::empty(), st),
        },
    decreases j,
{
    if j == 0 {
        assert(cur + s.take(0) =~= cur);
    } else {
        lemma_lex_split(s.skip(1), j - 1, cur.push(s[0]), stack);
        assert(cur.push(s[0]) + s.skip(1).take(j - 1) =~= cur + s.take(j));
        assert(s.skip(1).skip(j) =~= s.skip(j + 1));
    }
}

/// Character sequences differing in their first position differ.
proof fn lemma_neq_first(a: Seq<char>, b: Seq<char>)
    requires
        a.len() > 0,
        b.len() > 0,
        a[0] != b[0],
    ensures
        a != b,
{
    if a == b {
        assert(a[0] == b[0]);
    }
}

/// A request that steps to the parent of the root fails closed with a
/// traversal, whatever the configured root is.
pub proof fn lemma_parent_escape(root: Seq<char>)
    ensures
        spec_resolved_path(root, "../secrets"@) is None,
{
    reveal_strlit("../secrets");
    reveal_strlit("..");
    reveal_strlit(".");
    let d = spec_url_decode("../secrets"@);
    lemma_decode_plain("../secrets"@);
    assert(d == "../secrets"@);
    lemma_lex_split(d, 2, Seq::empty(), Seq::empty());
    let seg = Seq::<char>::empty() + d.take(2);
    assert(seg =~= ".."@);
    assert(spec_close_segment(seg, Seq::empty()) is None);
    assert(spec_normalize(d) is None);
}

/// A dot-dot inside the request that stays below the root resolves to
/// the lexical path under the root: here, the root's "a/c.txt" entry.
/// What the filesystem then makes of that path (existence, links) is
/// checked outside, against check_containment.
pub proof fn lemma_inner_dotdot_resolves(root: Seq<char>)
    ensures
        spec_resolved_path(root, "a/b/../c.txt"@) == Some(root + "/a/c.txt"@),
{
    reveal_strlit("a/b/../c.txt");
    reveal_strlit("/a/c.txt");
    reveal_strlit("a");
    reveal_strlit("c.txt");
    reveal_strlit("..");
    reveal_strlit(".");
    let d = spec_url_decode("a/b/../c.txt"@);
    lemma_decode_plain("a/b/../c.txt"@);
    assert(d == "a/b/../c.txt"@);
    let e = Seq::<char>::empty();
    let es = Seq::<Seq<char>>::empty();

    lemma_lex_split(d, 1, e, es);
    let seg_a = e + d.take(1);
    assert(seg_a =~= "a"@);
    assert(seg_a[0] == 'a' && "."@[0] == '.' && ".."@[0] == '.');
    lemma_neq_first(seg_a, "."@);
    lemma_neq_first(seg_a, ".."@);
    assert(spec_close_segment(seg_a, es) == Some(es.push("a"@)));
    let st1 = es.push("a"@);
    let d2 = d.skip(2);

    assert(d2[1] == '/' && d2[0] == 'b');
    lemma_lex_split(d2, 1, e, st1);
    let seg_b = e + d2.take(1);
    assert(seg_b =~= seq!['b']);
    lemma_neq_first(seg_b, "."@);
    lemma_neq_first(seg_b, ".."@);
    assert(spec_close_segment(seg_b, st1) == Some(st1.push(seq!['b'])));
    let st2 = st1.push(seq!['b']);
    assert(d2.skip(2) =~= d.skip(4));
    let d4 = d.skip(4);

    assert(d4[0] == '.' && d4[1] == '.' && d4[2] == '/');
    lemma_lex_split(d4, 2, e, st2);
    let seg_dd = e + d4.take(2);
    assert(seg_dd =~= ".."@);
    assert(st2.drop_last() =~= st1);
    assert(spec_close_segment(seg_dd, st2) == Some(st1));
    assert(d4.skip(3) =~= d.skip(7));
    let d7 = d.skip(7);

    assert(forall|i: int| 0 <= i < d7.len() ==> d7[i] != '/' && d7[i] != '\\');
    lemma_lex_tail(d7, e, st1);
    let seg_c = e + d7;
    assert(seg_c =~= "c.txt"@);
    lemma_neq_first(seg_c, "."@);
    lemma_neq_first(seg_c, ".."@);
    assert(spec_close_segment(seg_c, st1) == Some(st1.push("c.txt"@)));
    let segs = st1.push("c.txt"@);
    assert(spec_normalize(d) == Some(segs));

    assert(segs.drop_last() =~= st1);
    assert(st1.drop_last() =~= es);
    assert(segs.last() == "c.txt"@);
    assert(st1.last() == "a"@);
    assert(spec_join(root, segs) == spec_join(root, segs.drop_last()) + seq!['/'] + segs.last());
    assert(spec_join(root, segs.drop_last()) == spec_join(root, st1));
    assert(spec_join(root, st1) == spec_join(root, st1.drop_last()) + seq!['/'] + st1.last());
    assert(spec_join(root, st1.drop_last()) == spec_join(root, es));
    assert(spec_join(root, es) == root);
    assert(spec_join(root, segs) =~= root + "/a/c.txt"@);
}


/// The last position holding '/', or a negative number when none does.
pub open spec fn spec_rfind_slash(s: Seq<char>) -> int
    decreases s.len(),
{
    if s.len() == 0 {
        -1
    } else if s.last() == '/' {
        s.len() - 1
    } else {
        spec_rfind_slash(s.drop_last())
    }
}

/// Where "up one level" from a browsing URL leads: the path up to its
/// last separator, except that the browsing root, or anything directly
/// under it, goes back to the root itself. One trailing slash is ignored.
pub open spec fn spec_get_parent_url(url_path: Seq<char>) -> Seq<char> {
    let p = if url_path.len() > 0 && url_path.last() == '/' {
        url_path.drop_last()
    } else {
        url_path
    };
    let pos = spec_rfind_slash(p);
    if pos < 0 {
        "/browse"@
    } else if pos == 0 || spec_ends_with(p.take(pos), "/browse"@) {
        "/browse"@
    } else {
        p.take(pos)
    }
}

/// Picks the URL one level above the given browsing path.
pub fn get_parent_url(url_path: &str) -> (r: &str)
    ensures
        r@ == spec_get_parent_url(url_path@),
{
    let len = url_path.unicode_len();
    let plen: usize = if len > 0 && url_path.get_char(len - 1) == '/' {
        len - 1
    } else {
        len
    };
    let p = url_path.substring_char(0, plen);
    proof {
        assert(p@ =~= (if url_path@.len() > 0 && url_path@.last() == '/' {
            url_path@.drop_last()
        } else {
            url_path@
        }));
    }
    let mut idx: usize = plen;
    proof {
        assert(p@.take(plen as int) =~= p@);
    }
    while idx > 0 && p.get_char(idx - 1) != '/'
        invariant
            plen == p@.len(),
            0 <= idx <= plen,
            spec_rfind_slash(p@) == spec_rfind_slash(p@.take(idx as int)),
        decreases idx,
    {
        proof {
            assert(p@.take(idx as int).last() == p@[idx - 1]);
            assert(p@.take(idx as int).drop_last() =~= p@.take(idx - 1));
        }
        idx = idx - 1;
    }
    if idx == 0 {
        proof {
            assert(spec_rfind_slash(p@) < 0);
        }
        return "/browse";
    }
    let pos = idx - 1;
    proof {
        assert(p@.take(idx as int).last() == p@[pos as int]);
        assert(spec_rfind_slash(p@) == pos);
    }
    if pos == 0 {
        return "/browse";
    }
    let prefix = p.substring_char(0, pos);
    proof {
        assert(prefix@ =~= p@.take(pos as int));
    }
    if str_ends_with(prefix, "/browse") {
        return "/browse";
    }
    prefix
}

} // verus!
