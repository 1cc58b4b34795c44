//! Destinations and the patterns that match them.

use crate::{agreement, text};
use vstd::prelude::*;

verus! {

/// What becomes of a message sent to a destination.
#[derive(Clone, Copy, Debug, Eq, PartialEq, Structural)]
pub enum DestinationKind {
    /// Every subscriber gets it.
    Topic,
    /// One subscriber gets it.
    Queue,
}

/// The kind of a destination, by what it begins with.
pub open spec fn kind_of(destination: Seq<char>) -> Option<DestinationKind> {
    if text::begins_with(destination, "/topic/"@) {
        Some(DestinationKind::Topic)
    } else if text::begins_with(destination, "/queue/"@) {
        Some(DestinationKind::Queue)
    } else {
        None
    }
}

/// The kind of a destination.
pub fn classify_destination(destination: &str) -> (kind: Option<DestinationKind>)
    ensures
        kind == kind_of(destination@),
{
    if text::starts_with(destination, "/topic/") {
        Some(DestinationKind::Topic)
    } else if text::starts_with(destination, "/queue/") {
        Some(DestinationKind::Queue)
    } else {
        None
    }
}

/// The segments of a path.
pub open spec fn segments(path: Seq<char>) -> Seq<Seq<char>> {
    text::split(path, '/')
}

/// The segment that stands for any one segment.
pub open spec fn star() -> Seq<char> {
    seq!['*']
}

/// The segment that stands for the rest of a path.
pub open spec fn double_star() -> Seq<char> {
    seq!['*', '*']
}

/// Whether a path holds a wildcard.
pub open spec fn has_wildcard(path: Seq<char>) -> bool {
    exists|i: int|
        0 <= i < segments(path).len() && {
            let segment = #[trigger] segments(path)[i];
            segment == star() || segment == double_star()
        }
}

fn is_star(segment: &Vec<char>) -> (yes: bool)
    ensures
        yes == (segment@ == star()),
{
    let yes = segment.len() == 1 && segment[0] == '*';
    assert(yes ==> segment@ =~= star());
    yes
}

fn is_double_star(segment: &Vec<char>) -> (yes: bool)
    ensures
        yes == (segment@ == double_star()),
{
    let yes = segment.len() == 2 && segment[0] == '*' && segment[1] == '*';
    assert(yes ==> segment@ =~= double_star());
    yes
}

/// Whether a destination holds a wildcard.
pub fn contains_wildcard(destination: &str) -> (yes: bool)
    ensures
        yes == has_wildcard(destination@),
{
    let pieces = text::split_text(destination, '/');
    let ghost all = segments(destination@);
    let mut i: usize = 0;
    while i < pieces.len()
        invariant
            i <= pieces@.len(),
            all == segments(destination@),
            text::runs(pieces@) == all,
            forall|j: int|
                0 <= j < i ==> {
                    let segment = #[trigger] all[j];
                    segment != star() && segment != double_star()
                },
        decreases pieces@.len() - i,
    {
        assert(text::runs(pieces@)[i as int] == pieces@[i as int]@);
        if is_star(&pieces[i]) || is_double_star(&pieces[i]) {
            return true;
        }
        i += 1;
    }
    false
}

/// Whether the first `n` segments of a pattern match those of a path, one by
/// one.
pub open spec fn matches_up_to(pattern: Seq<Seq<char>>, path: Seq<Seq<char>>, n: int) -> bool {
    forall|i: int|
        0 <= i < n ==> i < path.len() && {
            let p = #[trigger] pattern[i];
            p == star() || p == path[i]
        }
}

/// Whether a pattern matches a path: segment by segment, or up to a segment
/// that stands for the rest.
pub open spec fn path_matches(pattern: Seq<char>, path: Seq<char>) -> bool {
    let p = segments(pattern);
    let d = segments(path);
    ||| p.len() == d.len() && matches_up_to(p, d, p.len() as int)
    ||| exists|j: int| 0 <= j < p.len() && #[trigger] p[j] == double_star() && matches_up_to(p, d, j)
}

/// Whether a pattern matches a destination.
pub fn matches_destination(pattern: &str, destination: &str) -> (yes: bool)
    ensures
        yes == path_matches(pattern@, destination@),
{
    let pat = text::split_text(pattern, '/');
    let dest = text::split_text(destination, '/');
    let ghost p = segments(pattern@);
    let ghost d = segments(destination@);
    let mut i: usize = 0;
    while i < pat.len()
        invariant
            i <= pat@.len(),
            p == segments(pattern@),
            d == segments(destination@),
            text::runs(pat@) == p,
            text::runs(dest@) == d,
            matches_up_to(p, d, i as int),
            forall|j: int| 0 <= j < i ==> #[trigger] p[j] != double_star(),
        decreases pat@.len() - i,
    {
        assert(text::runs(pat@)[i as int] == pat@[i as int]@);
        if is_double_star(&pat[i]) {
            return true;
        }
        if i >= dest.len() {
            assert(p[i as int] != double_star() && i >= d.len());
            return false;
        }
        assert(text::runs(dest@)[i as int] == dest@[i as int]@);
        if !is_star(&pat[i]) && !text::chars_eq(&pat[i], &dest[i]) {
            assert(p[i as int] != star() && p[i as int] != d[i as int]);
            return false;
        }
        i += 1;
    }
    assert(p.len() == pat@.len() && d.len() == dest@.len());
    pat.len() == dest.len()
}

/// Where the segments of a path are the same, the paths are the same.
pub proof fn segments_tell_paths_apart(a: Seq<char>, b: Seq<char>)
    requires
        segments(a) == segments(b),
    ensures
        a == b,
    decreases a.len(),
{
    segments_of_the_rest(a);
    segments_of_the_rest(b);
    if a.len() == 0 && b.len() == 0 {
        assert(a =~= b);
    } else {
        let s = segments(a);
        if a.len() > 0 && b.len() > 0 {
            let x = a.drop_last();
            let y = b.drop_last();
            text::split_is_never_empty(x, '/');
            text::split_is_never_empty(y, '/');
            if a.last() == '/' {
                assert(s.last() == Seq::<char>::empty());
                assert(b.last() == '/');
                assert(segments(x) =~= s.drop_last());
                assert(segments(y) =~= s.drop_last());
            } else {
                assert(s.last() == segments(x).last().push(a.last()));
                assert(b.last() != '/');
                assert(s.last() == segments(y).last().push(b.last()));
                assert(s.last().last() == a.last());
                assert(s.last().drop_last() =~= segments(x).last());
                assert(s.last().drop_last() =~= segments(y).last());
                assert(s.drop_last() =~= segments(x).drop_last());
                assert(s.drop_last() =~= segments(y).drop_last());
                assert(segments(x) =~= segments(x).drop_last().push(segments(x).last()));
                assert(segments(y) =~= segments(y).drop_last().push(segments(y).last()));
            }
            segments_tell_paths_apart(x, y);
            assert(a =~= x.push(a.last()));
            assert(b =~= y.push(b.last()));
        }
    }
}

/// A path that is not empty has two segments, or one that is not empty.
proof fn segments_of_the_rest(path: Seq<char>)
    ensures
        path.len() == 0 ==> segments(path) == seq![Seq::<char>::empty()],
        path.len() > 0 ==> segments(path).len() > 1 || segments(path).last().len() > 0,
{
    if path.len() > 0 {
        text::split_is_never_empty(path.drop_last(), '/');
    }
}

/// A path without a wildcard, used as a pattern, matches itself and nothing
/// else.
pub proof fn exact_patterns_match_themselves(path: Seq<char>, other: Seq<char>)
    requires
        !has_wildcard(path),
    ensures
        path_matches(path, other) <==> path == other,
{
    let p = segments(path);
    let d = segments(other);
    assert(forall|i: int| 0 <= i < p.len() ==> #[trigger] p[i] != star() && p[i] != double_star());
    assert(matches_up_to(p, p, p.len() as int));
    if path_matches(path, other) {
        assert(p =~= d);
        segments_tell_paths_apart(path, other);
    }
}

/// A pattern whose segments match those of a path one by one, `*` matching any
/// one segment, matches it.
pub proof fn star_matches_one_segment(pattern: Seq<char>, path: Seq<char>)
    requires
        segments(pattern).len() == segments(path).len(),
        forall|i: int|
            0 <= i < segments(path).len() ==> {
                let p = #[trigger] segments(pattern)[i];
                p == star() || p == segments(path)[i]
            },
    ensures
        path_matches(pattern, path),
{
    assert(matches_up_to(segments(pattern), segments(path), segments(pattern).len() as int));
}

/// A pattern that ends in `**` matches every path that the segments before it
/// match, however much follows.
pub proof fn double_star_matches_the_rest(pattern: Seq<char>, path: Seq<char>)
    requires
        segments(pattern).last() == double_star(),
    ensures
        matches_up_to(segments(pattern), segments(path), segments(pattern).len() - 1)
            ==> path_matches(pattern, path),
{
    text::split_is_never_empty(pattern, '/');
    let p = segments(pattern);
    assert(p[p.len() - 1] == double_star());
}

/// No destination is of two kinds.
pub proof fn kinds_exclude_each_other(destination: Seq<char>)
    ensures
        !(text::begins_with(destination, "/topic/"@) && text::begins_with(
            destination,
            "/queue/"@,
        )),
{
    reveal_strlit("/topic/");
    reveal_strlit("/queue/");
    if text::begins_with(destination, "/topic/"@) && text::begins_with(destination, "/queue/"@) {
        assert(destination.take(7)[1] == 't');
        assert(destination.take(7)[1] == 'q');
    }
}

/// A slash separates segments, and nothing else does: the segments of two paths
/// with a slash between them are those of the one and then those of the other,
/// and a path without a slash is its own only segment.
pub proof fn slashes_separate_segments(a: Seq<char>, b: Seq<char>)
    ensures
        segments(a + seq!['/'] + b) == segments(a) + segments(b),
        !a.contains('/') ==> segments(a) == seq![a],
{
    agreement::split_of_joined_text(a, b, '/');
    if !a.contains('/') {
        agreement::split_of_plain_text(a, '/');
    }
}

/// What a pattern matches, in full. Up to its first segment `**`, or to its end
/// where there is none, each segment of the pattern must have its counterpart in
/// the path: any segment for `*`, and the same segment for everything else. After
/// that, nothing more is asked where `**` was found, and the path must be at its
/// end where it was not.
pub proof fn patterns_match_segment_by_segment(pattern: Seq<char>, path: Seq<char>, n: int)
    requires
        0 <= n <= segments(pattern).len(),
        forall|i: int| 0 <= i < n ==> #[trigger] segments(pattern)[i] != seq!['*', '*'],
        n < segments(pattern).len() ==> segments(pattern)[n] == seq!['*', '*'],
    ensures
        path_matches(pattern, path) <==> {
            &&& n <= segments(path).len()
            &&& n == segments(pattern).len() ==> segments(path).len() == n
            &&& forall|i: int|
                0 <= i < n ==> {
                    let p = #[trigger] segments(pattern)[i];
                    p == seq!['*'] || p == segments(path)[i]
                }
        },
{
    let p = segments(pattern);
    let d = segments(path);
    if path_matches(pattern, path) {
        if !(p.len() == d.len() && matches_up_to(p, d, p.len() as int)) {
            let j = choose|j: int|
                0 <= j < p.len() && #[trigger] p[j] == double_star() && matches_up_to(p, d, j);
            assert(j >= n);
            if n > 0 {
                assert(p[n - 1] == p[n - 1]);
                assert(n - 1 < d.len());
            }
        }
        assert(matches_up_to(p, d, n));
    } else if n <= d.len() && (n == p.len() ==> d.len() == n) && (forall|i: int|
        0 <= i < n ==> {
            let q = #[trigger] p[i];
            q == seq!['*'] || q == d[i]
        }) {
        if n > 0 {
            assert(p[n - 1] == p[n - 1]);
            assert(n <= d.len());
        }
        assert(matches_up_to(p, d, n));
    }
}

/// A segment of a pattern that is no wildcard rules out every path with another
/// segment in its place, or none, if it comes before the first `**`.
pub proof fn other_segments_do_not_match(pattern: Seq<char>, path: Seq<char>, k: int)
    requires
        0 <= k < segments(pattern).len(),
        forall|i: int| 0 <= i <= k ==> #[trigger] segments(pattern)[i] != seq!['*', '*'],
        segments(pattern)[k] != seq!['*'],
        k >= segments(path).len() || segments(pattern)[k] != segments(path)[k],
    ensures
        !path_matches(pattern, path),
{
    let p = segments(pattern);
    let d = segments(path);
    if path_matches(pattern, path) {
        if p.len() == d.len() && matches_up_to(p, d, p.len() as int) {
            assert(p[k] == star() || p[k] == d[k]);
        } else {
            let j = choose|j: int|
                0 <= j < p.len() && #[trigger] p[j] == double_star() && matches_up_to(p, d, j);
            assert(j > k);
            assert(p[k] == star() || p[k] == d[k]);
        }
    }
}

/// A common front makes no difference to how far segments match.
proof fn fronts_match(f: Seq<Seq<char>>, p: Seq<Seq<char>>, d: Seq<Seq<char>>, n: int)
    requires
        0 <= n <= p.len(),
    ensures
        matches_up_to(f + p, f + d, f.len() + n) <==> matches_up_to(p, d, n),
{
    let k = f.len() as int;
    let a = f + p;
    let b = f + d;
    if matches_up_to(p, d, n) {
        assert forall|i: int| 0 <= i < k + n implies i < b.len() && (#[trigger] a[i] == star()
            || a[i] == b[i]) by {
            if i >= k {
                assert(a[i] == p[i - k]);
                assert(i - k < d.len());
                assert(b[i] == d[i - k]);
            }
        }
        if k + n > 0 {
            assert(a[k + n - 1] == a[k + n - 1]);
            assert(k + n <= b.len());
        }
        assert(matches_up_to(a, b, k + n));
    }
    if matches_up_to(a, b, k + n) {
        assert forall|i: int| 0 <= i < n implies i < d.len() && (#[trigger] p[i] == star() || p[i]
            == d[i]) by {
            assert(a[k + i] == p[i]);
            assert(k + i < b.len());
            assert(b[k + i] == d[i]);
        }
        if n > 0 {
            assert(p[n - 1] == p[n - 1]);
            assert(n <= d.len());
        }
        assert(matches_up_to(p, d, n));
    }
}

/// Patterns and paths with a common front match as what is left of them does, if
/// that front holds no `**`.
pub proof fn common_fronts_do_not_matter(front: Seq<char>, pattern: Seq<char>, path: Seq<char>)
    requires
        forall|i: int|
            0 <= i < segments(front).len() ==> #[trigger] segments(front)[i] != seq!['*', '*'],
    ensures
        path_matches(front + seq!['/'] + pattern, front + seq!['/'] + path) <==> path_matches(
            pattern,
            path,
        ),
{
    let f = segments(front);
    let p = segments(pattern);
    let d = segments(path);
    slashes_separate_segments(front, pattern);
    slashes_separate_segments(front, path);
    let k = f.len() as int;
    fronts_match(f, p, d, p.len() as int);
    if path_matches(pattern, path) && !(p.len() == d.len() && matches_up_to(
        p,
        d,
        p.len() as int,
    )) {
        let j = choose|j: int|
            0 <= j < p.len() && #[trigger] p[j] == double_star() && matches_up_to(p, d, j);
        fronts_match(f, p, d, j);
        assert((f + p)[k + j] == double_star());
    }
    if path_matches(front + seq!['/'] + pattern, front + seq!['/'] + path) && !((f + p).len()
        == (f + d).len() && matches_up_to(f + p, f + d, (f + p).len() as int)) {
        let j = choose|j: int|
            0 <= j < (f + p).len() && #[trigger] (f + p)[j] == double_star() && matches_up_to(
                f + p,
                f + d,
                j,
            );
        if j < k {
            assert(f[j] == (f + p)[j]);
        }
        assert(p[j - k] == double_star());
        fronts_match(f, p, d, j - k);
    }
}

/// A path holds a wildcard where one of its parts does, and a part without a
/// slash is a wildcard where it is `*` or `**`, and nowhere else.
pub proof fn wildcards_are_whole_segments(a: Seq<char>, b: Seq<char>)
    ensures
        has_wildcard(a + seq!['/'] + b) <==> has_wildcard(a) || has_wildcard(b),
        !a.contains('/') ==> (has_wildcard(a) <==> a == seq!['*'] || a == seq!['*', '*']),
{
    let x = segments(a);
    let y = segments(b);
    let z = segments(a + seq!['/'] + b);
    slashes_separate_segments(a, b);
    if has_wildcard(a + seq!['/'] + b) {
        let i = choose|i: int|
            0 <= i < z.len() && {
                let s = #[trigger] z[i];
                s == star() || s == double_star()
            };
        if i < x.len() {
            assert(x[i] == z[i]);
        } else {
            assert(y[i - x.len()] == z[i]);
        }
    }
    if has_wildcard(a) {
        let i = choose|i: int|
            0 <= i < x.len() && {
                let s = #[trigger] x[i];
                s == star() || s == double_star()
            };
        assert(z[i] == x[i]);
    }
    if has_wildcard(b) {
        let i = choose|i: int|
            0 <= i < y.len() && {
                let s = #[trigger] y[i];
                s == star() || s == double_star()
            };
        assert(z[x.len() + i] == y[i]);
    }
    if !a.contains('/') {
        assert(x[0] == a);
    }
}

/// A destination is a topic where it is `/topic/` and something after that, a
/// queue where it is `/queue/` and something after that, and unknown otherwise.
pub proof fn kinds_are_told_by_the_front(destination: Seq<char>, rest: Seq<char>)
    ensures
        kind_of("/topic/"@ + rest) == Some(DestinationKind::Topic),
        kind_of("/queue/"@ + rest) == Some(DestinationKind::Queue),
        kind_of(destination) == Some(DestinationKind::Topic) ==> destination == "/topic/"@
            + destination.skip(7),
        kind_of(destination) == Some(DestinationKind::Queue) ==> destination == "/queue/"@
            + destination.skip(7),
{
    reveal_strlit("/topic/");
    reveal_strlit("/queue/");
    let t = "/topic/"@ + rest;
    let q = "/queue/"@ + rest;
    assert(t.take(7) =~= "/topic/"@);
    assert(q.take(7) =~= "/queue/"@);
    kinds_exclude_each_other(q);
    if destination.len() >= 7 {
        assert(destination =~= destination.take(7) + destination.skip(7));
    }
}

} // verus!
