//! Logical working-directory arithmetic, done on strings alone.
//!
//! A logical path is an absolute location held as its list of non-empty
//! segments: `/usr/local` is `["usr", "local"]` and `/` is the empty list.
//! A `cd` target is applied to such a list segment by segment; nothing here
//! looks at the filesystem.
use vstd::prelude::*;

use crate::text::{
    chars_of, copy_chars, lemma_split_on_nonempty, pieces_view, push_char, split_chars, split_on,
};

verus! {

/// Why a `cd` target cannot be resolved.
#[derive(Clone, Copy, Debug, PartialEq, Eq, Structural)]
pub enum CdError {
    /// The target starts with `~` and no home directory is known.
    HomeNotSet,
    /// A `..` segment would climb above the root.
    AboveRoot,
}

impl CdError {
    /// The message shown to the user.
    pub fn message(&self) -> (r: String)
        ensures
            *self == CdError::HomeNotSet ==> r@ == "cd: HOME not set"@,
            *self == CdError::AboveRoot ==> r@ == "Tried going above root"@,
    {
        match self {
            CdError::HomeNotSet => String::from_str("cd: HOME not set"),
            CdError::AboveRoot => String::from_str("Tried going above root"),
        }
    }
}

/// The non-empty `/`-separated segments of `p`.
pub open spec fn segments(p: Seq<char>) -> Seq<Seq<char>> {
    split_on(p, '/').filter(|x: Seq<char>| x.len() > 0)
}

/// The segments written out after a `/` each.
pub open spec fn join_abs(segs: Seq<Seq<char>>) -> Seq<char>
    decreases segs.len(),
{
    if segs.len() == 0 {
        seq![]
    } else {
        join_abs(segs.drop_last()) + seq!['/'] + segs.last()
    }
}

/// The absolute path string of a segment list: `/` for the root.
pub open spec fn render(segs: Seq<Seq<char>>) -> Seq<char> {
    if segs.len() == 0 {
        seq!['/']
    } else {
        join_abs(segs)
    }
}

pub open spec fn dot() -> Seq<char> {
    seq!['.']
}

pub open spec fn dot_dot() -> Seq<char> {
    seq!['.', '.']
}

pub open spec fn tilde() -> Seq<char> {
    seq!['~']
}

/// Applies the target segments `rest` to `base`, left to right: `..` drops
/// the last segment (none if there is nothing to drop), an empty segment
/// stops the walk, and any other segment is appended.
pub open spec fn walk(base: Seq<Seq<char>>, rest: Seq<Seq<char>>) -> Option<Seq<Seq<char>>>
    decreases rest.len(),
{
    if rest.len() == 0 || rest[0].len() == 0 {
        Some(base)
    } else if rest[0] == dot_dot() {
        if base.len() == 0 {
            None
        } else {
            walk(base.drop_last(), rest.drop_first())
        }
    } else {
        walk(base.push(rest[0]), rest.drop_first())
    }
}

/// The result of walking `rest` from `base`, rendered.
pub open spec fn walk_result(base: Seq<Seq<char>>, rest: Seq<Seq<char>>) -> Result<
    Seq<char>,
    CdError,
> {
    match walk(base, rest) {
        Some(segs) => Ok(render(segs)),
        None => Err(CdError::AboveRoot),
    }
}

/// The new logical directory for `cd target` from `current`, with `home` the
/// home directory if one is known.
///
/// An absolute target is the result as it stands. Otherwise the first
/// segment of the target picks the base: `~` the home directory, `.` the
/// current directory, `..` the current directory less its last segment;
/// any other first segment is walked from the current directory like the
/// rest.
pub open spec fn resolve_cd(current: Seq<char>, target: Seq<char>, home: Option<Seq<char>>) -> Result<
    Seq<char>,
    CdError,
> {
    let parts = split_on(target, '/');
    let cur = segments(current);
    if target.len() > 0 && target[0] == '/' {
        Ok(target)
    } else if parts[0] == tilde() {
        match home {
            Some(h) => walk_result(segments(h), parts.drop_first()),
            None => Err(CdError::HomeNotSet),
        }
    } else if parts[0] == dot() {
        walk_result(cur, parts.drop_first())
    } else if parts[0] == dot_dot() {
        if cur.len() == 0 {
            Err(CdError::AboveRoot)
        } else {
            walk_result(cur.drop_last(), parts.drop_first())
        }
    } else {
        walk_result(cur, parts)
    }
}

pub open spec fn opt_view(o: Option<&str>) -> Option<Seq<char>> {
    match o {
        Some(s) => Some(s@),
        None => None,
    }
}

fn is_dot(p: &Vec<char>) -> (r: bool)
    ensures
        r == (p@ == dot()),
{
    let r = p.len() == 1 && p[0] == '.';
    assert(r ==> p@ =~= dot());
    r
}

fn is_dot_dot(p: &Vec<char>) -> (r: bool)
    ensures
        r == (p@ == dot_dot()),
{
    let r = p.len() == 2 && p[0] == '.' && p[1] == '.';
    assert(r ==> p@ =~= dot_dot());
    r
}

fn is_tilde(p: &Vec<char>) -> (r: bool)
    ensures
        r == (p@ == tilde()),
{
    let r = p.len() == 1 && p[0] == '~';
    assert(r ==> p@ =~= tilde());
    r
}

/// The non-empty segments of the path `s`.
fn path_segments(s: &str) -> (r: Vec<Vec<char>>)
    ensures
        pieces_view(r@) == segments(s@),
{
    let cs = chars_of(s);
    let parts = split_chars(&cs, '/');
    let ghost all = pieces_view(parts@);
    let mut kept: Vec<Vec<char>> = Vec::new();
    for i in 0..parts.len()
        invariant
            all == pieces_view(parts@),
            pieces_view(kept@) == all.take(i as int).filter(|x: Seq<char>| x.len() > 0),
    {
        proof {
            reveal(Seq::filter);
            assert(all.take(i + 1).drop_last() == all.take(i as int));
        }
        if parts[i].len() > 0 {
            let ghost before = pieces_view(kept@);
            kept.push(copy_chars(&parts[i]));
            assert(pieces_view(kept@) =~= before.push(all[i as int]));
        }
    }
    assert(all.take(parts.len() as int) == all);
    kept
}

/// Appends the characters of `p` to `s`.
fn push_chars(s: &mut String, p: &Vec<char>)
    ensures
        final(s)@ == old(s)@ + p@,
{
    for i in 0..p.len()
        invariant
            s@ == old(s)@ + p@.take(i as int),
    {
        push_char(s, p[i]);
        assert(p@.take(i + 1) == p@.take(i as int).push(p@[i as int]));
    }
    assert(p@.take(p.len() as int) == p@);
}

/// The absolute path string of `segs`.
fn render_segments(segs: &Vec<Vec<char>>) -> (r: String)
    ensures
        r@ == render(pieces_view(segs@)),
{
    let ghost all = pieces_view(segs@);
    let mut r = String::new();
    if segs.len() == 0 {
        push_char(&mut r, '/');
        assert(r@ =~= seq!['/']);
        return r;
    }
    for i in 0..segs.len()
        invariant
            all == pieces_view(segs@),
            r@ == join_abs(all.take(i as int)),
    {
        assert(all.take(i + 1).drop_last() == all.take(i as int));
        push_char(&mut r, '/');
        push_chars(&mut r, &segs[i]);
        assert(r@ =~= join_abs(all.take(i + 1)));
    }
    assert(all.take(segs.len() as int) == all);
    r
}

/// Applies the parts of a target from index `start` on to `segs`; false
/// where a `..` would climb above the root.
fn walk_parts(segs: &mut Vec<Vec<char>>, parts: &Vec<Vec<char>>, start: usize) -> (r: bool)
    requires
        start <= parts.len(),
    ensures
        r == (walk(pieces_view(old(segs)@), pieces_view(parts@).skip(start as int)) is Some),
        r ==> walk(pieces_view(old(segs)@), pieces_view(parts@).skip(start as int)) == Some(
            pieces_view(final(segs)@),
        ),
{
    let ghost all = pieces_view(parts@);
    let ghost goal = walk(pieces_view(segs@), all.skip(start as int));
    let mut i = start;
    while i < parts.len()
        invariant
            all == pieces_view(parts@),
            start <= i <= parts.len(),
            walk(pieces_view(segs@), all.skip(i as int)) == goal,
            goal == walk(pieces_view(old(segs)@), all.skip(start as int)),
        ensures
            goal == Some(pieces_view(segs@)),
        decreases parts.len() - i,
    {
        let p = &parts[i];
        assert(all.skip(i as int)[0] == p@);
        assert(all.skip(i as int).drop_first() == all.skip(i + 1));
        if p.len() == 0 {
            break;
        }
        if is_dot_dot(p) {
            if segs.len() == 0 {
                return false;
            }
            let ghost before = pieces_view(segs@);
            segs.pop();
            assert(pieces_view(segs@) =~= before.drop_last());
        } else {
            let ghost before = pieces_view(segs@);
            segs.push(copy_chars(p));
            assert(pieces_view(segs@) =~= before.push(p@));
        }
        i = i + 1;
    }
    true
}

/// Computes the new logical directory for `cd next` from `curr`, as
/// `resolve_cd` states it; `home` is the home directory, if one is known.
/// Nothing is checked against the filesystem.
pub fn get_path_string(curr: &str, next: &str, home: Option<&str>) -> (r: Result<String, CdError>)
    ensures
        r matches Ok(s) ==> resolve_cd(curr@, next@, opt_view(home)) == Ok::<Seq<char>, CdError>(
            s@,
        ),
        r matches Err(e) ==> resolve_cd(curr@, next@, opt_view(home)) == Err::<Seq<char>, CdError>(
            e,
        ),
{
    let tgt = chars_of(next);
    if tgt.len() > 0 && tgt[0] == '/' {
        return Ok(String::from_str(next));
    }
    let parts = split_chars(&tgt, '/');
    proof {
        lemma_split_on_nonempty(next@, '/');
    }
    let ghost all = pieces_view(parts@);
    assert(all[0] == parts@[0]@);
    let (mut segs, start) = if is_tilde(&parts[0]) {
        match home {
            Some(h) => (path_segments(h), 1),
            None => {
                return Err(CdError::HomeNotSet);
            },
        }
    } else if is_dot(&parts[0]) {
        (path_segments(curr), 1)
    } else if is_dot_dot(&parts[0]) {
        let mut segs = path_segments(curr);
        if segs.len() == 0 {
            return Err(CdError::AboveRoot);
        }
        let ghost before = pieces_view(segs@);
        segs.pop();
        assert(pieces_view(segs@) =~= before.drop_last());
        (segs, 1)
    } else {
        assert(all.skip(0) == all);
        (path_segments(curr), 0)
    };
    if walk_parts(&mut segs, &parts, start) {
        Ok(render_segments(&segs))
    } else {
        Err(CdError::AboveRoot)
    }
}

/// The working directory after a `cd`: the resolved directory where the
/// arithmetic succeeded and the caller could list that directory, else the
/// old one unchanged.
pub fn next_pwd(old: &str, resolved: Result<String, CdError>, listable: bool) -> (r: String)
    ensures
        r@ == (match resolved {
            Ok(new) => if listable {
                new@
            } else {
                old@
            },
            Err(_) => old@,
        }),
{
    match resolved {
        Ok(new) => if listable {
            new
        } else {
            String::from_str(old)
        },
        Err(_) => String::from_str(old),
    }
}

/// Segments that make up a logical path: each non-empty and free of `/`.
pub open spec fn valid_segments(segs: Seq<Seq<char>>) -> bool {
    forall|i: int|
        0 <= i < segs.len() ==> (#[trigger] segs[i]).len() > 0 && !segs[i].contains('/')
}

proof fn lemma_split_after_separator(s: Seq<char>, x: Seq<char>)
    requires
        !x.contains('/'),
    ensures
        split_on(s + seq!['/'] + x, '/') == split_on(s, '/').push(x),
    decreases x.len(),
{
    let t = s + seq!['/'] + x;
    if x.len() == 0 {
        assert(t.drop_last() =~= s);
        assert(t.last() == '/');
        assert(x =~= Seq::<char>::empty());
    } else {
        let y = x.drop_last();
        assert(!y.contains('/')) by {
            if y.contains('/') {
                let j = choose|j: int| 0 <= j < y.len() && y[j] == '/';
                assert(x[j] == '/');
            }
        }
        lemma_split_after_separator(s, y);
        assert(t.drop_last() =~= s + seq!['/'] + y);
        assert(x.last() != '/') by {
            assert(x[x.len() - 1] == x.last());
        }
        assert(t.last() == x.last());
        assert(y.push(x.last()) =~= x);
        let p = split_on(s, '/').push(y);
        assert(p.update(p.len() - 1, p.last().push(x.last())) =~= split_on(s, '/').push(x));
    }
}

proof fn lemma_split_without_separator(x: Seq<char>)
    requires
        !x.contains('/'),
    ensures
        split_on(x, '/') == seq![x],
    decreases x.len(),
{
    if x.len() == 0 {
        assert(x =~= Seq::<char>::empty());
    } else {
        let y = x.drop_last();
        assert(!y.contains('/')) by {
            if y.contains('/') {
                let j = choose|j: int| 0 <= j < y.len() && y[j] == '/';
                assert(x[j] == '/');
            }
        }
        lemma_split_without_separator(y);
        assert(x.last() != '/') by {
            assert(x[x.len() - 1] == x.last());
        }
        assert(y.push(x.last()) =~= x);
        assert(seq![y].update(0, y.push(x.last())) =~= seq![x]);
    }
}

proof fn lemma_segments_of_join(segs: Seq<Seq<char>>)
    requires
        valid_segments(segs),
    ensures
        segments(join_abs(segs)) == segs,
    decreases segs.len(),
{
    reveal_with_fuel(Seq::filter, 2);
    if segs.len() == 0 {
        assert(split_on(seq![], '/') == seq![Seq::<char>::empty()]);
        assert(seq![Seq::<char>::empty()].drop_last() =~= Seq::<Seq<char>>::empty());
        assert(segments(join_abs(segs)) =~= segs);
    } else {
        let init = segs.drop_last();
        let x = segs.last();
        assert(valid_segments(init)) by {
            assert forall|i: int| 0 <= i < init.len() implies (#[trigger] init[i]).len() > 0
                && !init[i].contains('/') by {
                assert(init[i] == segs[i]);
            }
        }
        lemma_segments_of_join(init);
        lemma_split_after_separator(join_abs(init), x);
        let p = split_on(join_abs(init), '/');
        assert(p.push(x).drop_last() == p);
        assert(segments(join_abs(segs)) == segments(join_abs(init)).push(x));
        assert(init.push(x) =~= segs);
    }
}

/// A logical path read back from its rendering gives its segments again.
pub proof fn lemma_segments_of_render(segs: Seq<Seq<char>>)
    requires
        valid_segments(segs),
    ensures
        segments(render(segs)) == segs,
{
    if segs.len() == 0 {
        reveal_with_fuel(Seq::filter, 3);
        let root = seq!['/'];
        assert(root.drop_last() =~= Seq::<char>::empty());
        assert(split_on(Seq::<char>::empty(), '/') == seq![Seq::<char>::empty()]);
        assert(seq![Seq::<char>::empty()].push(Seq::<char>::empty()) =~= seq![Seq::<char>::empty(), Seq::<char>::empty()]);
        assert(split_on(root, '/') == seq![Seq::<char>::empty(), Seq::<char>::empty()]);
        let p = seq![Seq::<char>::empty(), Seq::<char>::empty()];
        assert(p.drop_last() =~= seq![Seq::<char>::empty()]);
        assert(p.drop_last().drop_last() =~= Seq::<Seq<char>>::empty());
        assert(segments(root) =~= segs);
    } else {
        lemma_segments_of_join(segs);
    }
}

/// An absolute target is the new directory as it stands, whatever the
/// current directory.
pub proof fn lemma_absolute_target(current: Seq<char>, target: Seq<char>, home: Option<Seq<char>>)
    requires
        target.len() > 0,
        target[0] == '/',
    ensures
        resolve_cd(current, target, home) == Ok::<Seq<char>, CdError>(target),
{
}

/// `cd .` leaves every logical path as it is.
pub proof fn lemma_dot_keeps_directory(segs: Seq<Seq<char>>, home: Option<Seq<char>>)
    requires
        valid_segments(segs),
    ensures
        resolve_cd(render(segs), dot(), home) == Ok::<Seq<char>, CdError>(render(segs)),
{
    lemma_segments_of_render(segs);
    lemma_split_without_separator(dot());
    assert(seq![dot()].drop_first() =~= Seq::<Seq<char>>::empty());
}

/// `cd ..` drops the last segment of a logical path, and fails at the root.
pub proof fn lemma_dot_dot_goes_to_parent(segs: Seq<Seq<char>>, home: Option<Seq<char>>)
    requires
        valid_segments(segs),
    ensures
        segs.len() > 0 ==> resolve_cd(render(segs), dot_dot(), home) == Ok::<Seq<char>, CdError>(
            render(segs.drop_last()),
        ),
        segs.len() == 0 ==> resolve_cd(render(segs), dot_dot(), home) == Err::<Seq<char>, CdError>(
            CdError::AboveRoot,
        ),
{
    lemma_segments_of_render(segs);
    lemma_split_without_separator(dot_dot());
    assert(seq![dot_dot()].drop_first() =~= Seq::<Seq<char>>::empty());
}

} // verus!
