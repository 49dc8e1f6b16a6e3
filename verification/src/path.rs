use vstd::prelude::*;

use crate::text::{seqs_view, chars_contain, chars_to_string, copy_chars, lowercase, str_to_chars, to_lowercase};

verus! {

/// Splits `p` at every '/', the way `str::split('/')` does, with `cur` as the
/// part of the first segment that lies before `p`.
pub open spec fn split_rec(p: Seq<char>, cur: Seq<char>) -> Seq<Seq<char>>
    decreases p.len(),
{
    if p.len() == 0 {
        seq![cur]
    } else if p[0] == '/' {
        seq![cur] + split_rec(p.drop_first(), seq![])
    } else {
        split_rec(p.drop_first(), cur.push(p[0]))
    }
}

/// The segments of `p` between slashes (`str::split('/')`).
pub open spec fn segments(p: Seq<char>) -> Seq<Seq<char>> {
    split_rec(p, seq![])
}

/// One path segment applied to a stack of components: empty and "." segments
/// change nothing, ".." drops a component (and fails at the root), a segment
/// with ':' or NUL is refused, anything else is pushed.
pub open spec fn resolve_step(stack: Seq<Seq<char>>, seg: Seq<char>) -> Option<Seq<Seq<char>>> {
    if seg.len() == 0 || seg == seq!['.'] {
        Some(stack)
    } else if seg == seq!['.', '.'] {
        if stack.len() == 0 {
            None
        } else {
            Some(stack.drop_last())
        }
    } else if seg.contains(':') || seg.contains('\0') {
        None
    } else {
        Some(stack.push(seg))
    }
}

/// All segments applied in order.
pub open spec fn resolve(stack: Seq<Seq<char>>, segs: Seq<Seq<char>>) -> Option<Seq<Seq<char>>>
    decreases segs.len(),
{
    if segs.len() == 0 {
        Some(stack)
    } else {
        match resolve_step(stack, segs[0]) {
            None => None,
            Some(next) => resolve(next, segs.drop_first()),
        }
    }
}

/// Components joined behind slashes, without the root case.
pub open spec fn join_rec(comps: Seq<Seq<char>>) -> Seq<char>
    decreases comps.len(),
{
    if comps.len() == 0 {
        seq![]
    } else {
        join_rec(comps.drop_last()) + seq!['/'] + comps.last()
    }
}

/// The absolute path of a list of components: "/" for the root.
pub open spec fn join_abs(comps: Seq<Seq<char>>) -> Seq<char> {
    if comps.len() == 0 {
        seq!['/']
    } else {
        join_rec(comps)
    }
}

/// Backslashes read as slashes.
pub open spec fn forward_slashes(p: Seq<char>) -> Seq<char> {
    p.map_values(|c: char| if c == '\\' { '/' } else { c })
}

/// The components that a guest path names, seen from the directory `cwd`:
/// backslashes become slashes, the whole path is lowercased, a path that
/// starts with '/' is absolute, and escaping above the root is refused.
pub open spec fn normalize(cwd: Seq<Seq<char>>, path: Seq<char>) -> Option<Seq<Seq<char>>> {
    let p = lowercase(forward_slashes(path));
    let start = if p.len() > 0 && p[0] == '/' {
        Seq::<Seq<char>>::empty()
    } else {
        cwd
    };
    resolve(start, segments(p))
}

/// The absolute path that a guest path names, if any.
pub open spec fn normalized_path(cwd: Seq<Seq<char>>, path: Seq<char>) -> Option<Seq<char>> {
    match normalize(cwd, path) {
        Some(comps) => Some(join_abs(comps)),
        None => None,
    }
}

/// The directories strictly above the path made of `comps`.
pub open spec fn ancestors(comps: Seq<Seq<char>>) -> Set<Seq<char>> {
    Set::new(|d: Seq<char>| exists|i: int| 1 <= i < comps.len() && d == join_abs(#[trigger] comps.take(i)))
}

/// Index of the last occurrence of `c`, or -1.
pub open spec fn last_index_of(p: Seq<char>, c: char) -> int
    decreases p.len(),
{
    if p.len() == 0 {
        -1
    } else if p.last() == c {
        p.len() - 1
    } else {
        last_index_of(p.drop_last(), c)
    }
}

/// Parent of a path: what lies before its last slash, or "/" when that is
/// empty or there is no slash.
pub open spec fn parent_path(p: Seq<char>) -> Seq<char> {
    let i = last_index_of(p, '/');
    if i <= 0 {
        seq!['/']
    } else {
        p.take(i)
    }
}

/// The last non-empty segment of a list of segments.
pub open spec fn last_nonempty(segs: Seq<Seq<char>>) -> Option<Seq<char>>
    decreases segs.len(),
{
    if segs.len() == 0 {
        None
    } else if segs.last().len() > 0 {
        Some(segs.last())
    } else {
        last_nonempty(segs.drop_last())
    }
}

/// Last name of a path: its last non-empty segment.
pub open spec fn file_name(p: Seq<char>) -> Option<Seq<char>> {
    last_nonempty(segments(p))
}

proof fn lemma_split_step(p: Seq<char>, i: int, cur: Seq<char>)
    requires
        0 <= i < p.len(),
    ensures
        p[i] == '/' ==> split_rec(p.subrange(i, p.len() as int), cur) == seq![cur] + split_rec(
            p.subrange(i + 1, p.len() as int),
            seq![],
        ),
        p[i] != '/' ==> split_rec(p.subrange(i, p.len() as int), cur) == split_rec(
            p.subrange(i + 1, p.len() as int),
            cur.push(p[i]),
        ),
{
    assert(p.subrange(i, p.len() as int).drop_first() =~= p.subrange(i + 1, p.len() as int));
}

/// The segments of `p` between slashes.
pub fn split_slashes(p: &[char]) -> (segs: Vec<Vec<char>>)
    ensures
        seqs_view(segs@) == segments(p@),
{
    let mut segs: Vec<Vec<char>> = Vec::new();
    let mut cur: Vec<char> = Vec::new();
    let mut i: usize = 0;
    assert(p@.subrange(0, p@.len() as int) =~= p@);
    while i < p.len()
        invariant
            i <= p@.len(),
            seqs_view(segs@) + split_rec(p@.subrange(i as int, p@.len() as int), cur@)
                == segments(p@),
        decreases p@.len() - i,
    {
        proof {
            lemma_split_step(p@, i as int, cur@);
        }
        if p[i] == '/' {
            let ghost old_segs = seqs_view(segs@);
            let ghost old_cur = cur@;
            let done = cur;
            segs.push(done);
            cur = Vec::new();
            assert(seqs_view(segs@) =~= old_segs.push(old_cur));
            assert(old_segs + (seq![old_cur] + split_rec(p@.subrange(i + 1, p@.len() as int), seq![]))
                =~= old_segs.push(old_cur) + split_rec(p@.subrange(i + 1, p@.len() as int), seq![]));
            assert(cur@ =~= Seq::<char>::empty());
        } else {
            cur.push(p[i]);
        }
        i += 1;
    }
    let ghost old_segs = seqs_view(segs@);
    let ghost old_cur = cur@;
    assert(p@.subrange(i as int, p@.len() as int) =~= Seq::<char>::empty());
    segs.push(cur);
    assert(seqs_view(segs@) =~= old_segs + seq![old_cur]);
    segs
}

/// One segment applied to a component stack, in place; false when refused.
fn resolve_segment(stack: &mut Vec<Vec<char>>, seg: Vec<char>) -> (ok: bool)
    ensures
        ok == resolve_step(seqs_view(old(stack)@), seg@) is Some,
        ok ==> resolve_step(seqs_view(old(stack)@), seg@) == Some(
            seqs_view(final(stack)@),
        ),
{
    let ghost before = seqs_view(stack@);
    if seg.len() == 0 || (seg.len() == 1 && seg[0] == '.') {
        assert(seg@.len() == 1 ==> seg@ =~= seq!['.']);
        return true;
    }
    assert(seg@ != seq!['.']);
    if seg.len() == 2 && seg[0] == '.' && seg[1] == '.' {
        assert(seg@ =~= seq!['.', '.']);
        if stack.len() == 0 {
            return false;
        }
        stack.pop();
        assert(seqs_view(stack@) =~= before.drop_last());
        return true;
    }
    assert(seg@ != seq!['.', '.']);
    if chars_contain(seg.as_slice(), ':') || chars_contain(seg.as_slice(), '\0') {
        return false;
    }
    let ghost sv = seg@;
    stack.push(seg);
    assert(seqs_view(stack@) =~= before.push(sv));
    true
}

/// Applies all segments to a component stack.
pub fn resolve_segments(start: Vec<Vec<char>>, segs: &Vec<Vec<char>>) -> (result: Option<Vec<Vec<char>>>)
    ensures
        result matches Some(r) ==> resolve(
            seqs_view(start@),
            seqs_view(segs@),
        ) == Some(seqs_view(r@)),
        result is None ==> resolve(
            seqs_view(start@),
            seqs_view(segs@),
        ) is None,
{
    let ghost all = seqs_view(segs@);
    let ghost first = seqs_view(start@);
    let mut stack = start;
    let mut i: usize = 0;
    assert(all.subrange(0, all.len() as int) =~= all);
    while i < segs.len()
        invariant
            i <= segs@.len(),
            all == seqs_view(segs@),
            first == seqs_view(start@),
            resolve(first, all) == resolve(
                seqs_view(stack@),
                all.subrange(i as int, all.len() as int),
            ),
        decreases segs@.len() - i,
    {
        let ghost before = seqs_view(stack@);
        let ghost rest = all.subrange(i as int, all.len() as int);
        assert(rest[0] == all[i as int]);
        assert(rest.drop_first() =~= all.subrange(i + 1, all.len() as int));
        let seg = copy_chars(segs[i].as_slice());
        assert(seg@ == rest[0]);
        if !resolve_segment(&mut stack, seg) {
            assert(resolve(before, rest) is None);
            return None;
        }
        i += 1;
    }
    Some(stack)
}

/// The absolute path of a list of components.
pub fn join_components(comps: &Vec<Vec<char>>) -> (path: Vec<char>)
    ensures
        path@ == join_abs(seqs_view(comps@)),
{
    let ghost all = seqs_view(comps@);
    if comps.len() == 0 {
        let mut root: Vec<char> = Vec::new();
        root.push('/');
        assert(root@ =~= seq!['/']);
        return root;
    }
    let mut path: Vec<char> = Vec::new();
    let mut i: usize = 0;
    while i < comps.len()
        invariant
            i <= comps@.len(),
            all == seqs_view(comps@),
            path@ == join_rec(all.take(i as int)),
        decreases comps@.len() - i,
    {
        assert(all.take(i + 1).drop_last() =~= all.take(i as int));
        path.push('/');
        let comp = &comps[i];
        let mut j: usize = 0;
        let ghost base = path@;
        while j < comp.len()
            invariant
                j <= comp@.len(),
                path@ == base + comp@.take(j as int),
            decreases comp@.len() - j,
        {
            path.push(comp[j]);
            assert(comp@.take(j + 1) =~= comp@.take(j as int).push(comp@[j as int]));
            assert(path@ =~= base + comp@.take(j + 1));
            j += 1;
        }
        assert(comp@.take(comp@.len() as int) =~= comp@);
        assert(path@ =~= join_rec(all.take(i as int)) + seq!['/'] + all[i as int]);
        i += 1;
    }
    assert(all.take(all.len() as int) =~= all);
    path
}

/// The characters of a path with backslashes turned into slashes.
pub fn forward_slashes_of(p: &[char]) -> (out: Vec<char>)
    ensures
        out@ == forward_slashes(p@),
{
    let mut out: Vec<char> = Vec::with_capacity(p.len());
    let mut i: usize = 0;
    while i < p.len()
        invariant
            i <= p@.len(),
            out@ == forward_slashes(p@.take(i as int)),
        decreases p@.len() - i,
    {
        let c = p[i];
        out.push(if c == '\\' { '/' } else { c });
        assert(forward_slashes(p@.take(i + 1)) =~= forward_slashes(p@.take(i as int)).push(
            if c == '\\' { '/' } else { c },
        ));
        i += 1;
    }
    assert(p@.take(p@.len() as int) =~= p@);
    out
}

/// Components of a guest path relative to `cwd` (see `normalize`).
pub fn normalize_path(cwd: &Vec<Vec<char>>, path: &str) -> (result: Option<Vec<Vec<char>>>)
    ensures
        match result {
            Some(r) => normalize(seqs_view(cwd@), path@) == Some(
                seqs_view(r@),
            ),
            None => normalize(seqs_view(cwd@), path@) is None,
        },
{
    let raw = str_to_chars(path);
    let slashed = forward_slashes_of(raw.as_slice());
    let joined = chars_to_string(slashed.as_slice());
    let lowered = to_lowercase(joined.as_str());
    let p = str_to_chars(lowered.as_str());
    let start: Vec<Vec<char>> = if p.len() > 0 && p[0] == '/' {
        Vec::new()
    } else {
        copy_components(cwd)
    };
    assert(seqs_view(start@) =~= (if p@.len() > 0 && p@[0] == '/' {
        Seq::<Seq<char>>::empty()
    } else {
        seqs_view(cwd@)
    }));
    let segs = split_slashes(p.as_slice());
    resolve_segments(start, &segs)
}

/// A copy of a list of components.
pub fn copy_components(comps: &Vec<Vec<char>>) -> (copy: Vec<Vec<char>>)
    ensures
        seqs_view(copy@) == seqs_view(comps@),
{
    let mut copy: Vec<Vec<char>> = Vec::new();
    let mut i: usize = 0;
    while i < comps.len()
        invariant
            i <= comps@.len(),
            seqs_view(copy@) == seqs_view(comps@).take(i as int),
        decreases comps@.len() - i,
    {
        let ghost before = seqs_view(copy@);
        let c = copy_chars(comps[i].as_slice());
        let ghost cv = c@;
        copy.push(c);
        assert(seqs_view(copy@) =~= before.push(cv));
        assert(seqs_view(comps@).take(i + 1) =~= seqs_view(comps@).take(i as int).push(cv));
        i += 1;
    }
    assert(seqs_view(comps@).take(comps@.len() as int) =~= seqs_view(comps@));
    copy
}

proof fn lemma_last_index_bounds(p: Seq<char>, c: char)
    ensures
        -1 <= last_index_of(p, c) < p.len(),
        last_index_of(p, c) >= 0 ==> p[last_index_of(p, c)] == c,
    decreases p.len(),
{
    if p.len() > 0 && p.last() != c {
        lemma_last_index_bounds(p.drop_last(), c);
    }
}

/// Index of the last '/' in `p`.
fn last_slash(p: &[char]) -> (index: Option<usize>)
    ensures
        index matches Some(i) ==> i as int == last_index_of(p@, '/'),
        index is None ==> last_index_of(p@, '/') == -1,
{
    let mut i: usize = p.len();
    assert(p@.take(i as int) =~= p@);
    while i > 0
        invariant
            i <= p@.len(),
            last_index_of(p@, '/') == last_index_of(p@.take(i as int), '/'),
        decreases i,
    {
        if p[i - 1] == '/' {
            return Some(i - 1);
        }
        assert(p@.take(i as int).drop_last() =~= p@.take(i - 1));
        i -= 1;
    }
    None
}

/// The parent of a path (see `parent_path`).
pub fn parent_of(p: &[char]) -> (parent: Vec<char>)
    ensures
        parent@ == parent_path(p@),
{
    proof {
        lemma_last_index_bounds(p@, '/');
    }
    match last_slash(p) {
        Some(i) if i > 0 => {
            let taken = copy_chars(&p[0..i]);
            assert(p@.subrange(0, i as int) =~= p@.take(i as int));
            taken
        },
        _ => {
            let mut root: Vec<char> = Vec::new();
            root.push('/');
            assert(root@ =~= seq!['/']);
            root
        },
    }
}

/// The last name of a path (see `file_name`).
pub fn name_of(p: &[char]) -> (name: Option<Vec<char>>)
    ensures
        match name {
            Some(n) => file_name(p@) == Some(n@),
            None => file_name(p@) is None,
        },
{
    let segs = split_slashes(p);
    let ghost all = seqs_view(segs@);
    let mut i: usize = segs.len();
    assert(all.take(i as int) =~= all);
    while i > 0
        invariant
            i <= segs@.len(),
            all == seqs_view(segs@),
            all == segments(p@),
            last_nonempty(all) == last_nonempty(all.take(i as int)),
        decreases i,
    {
        assert(all.take(i as int).last() == all[i - 1]);
        assert(all[i - 1] == segs@[i - 1]@);
        assert(all.take(i as int).drop_last() =~= all.take(i - 1));
        if segs[i - 1].len() > 0 {
            let n = copy_chars(segs[i - 1].as_slice());
            assert(n@ == all[i - 1]);
            assert(all.take(i as int).len() == i);
            assert(last_nonempty(all.take(i as int)) == Some(all[i - 1]));
            return Some(n);
        }
        i -= 1;
    }
    None
}


/// A plain name: not empty, not "." or "..", without '/', ':' or NUL.
pub open spec fn is_name(seg: Seq<char>) -> bool {
    &&& seg.len() > 0
    &&& seg != seq!['.']
    &&& seg != seq!['.', '.']
    &&& !seg.contains('/')
    &&& !seg.contains(':')
    &&& !seg.contains('\0')
}

/// Every component is a plain name.
pub open spec fn all_names(comps: Seq<Seq<char>>) -> bool {
    forall|i: int| 0 <= i < comps.len() ==> is_name(#[trigger] comps[i])
}

/// No part of a split holds the separator.
proof fn lemma_split_no_slash(p: Seq<char>, cur: Seq<char>)
    requires
        !cur.contains('/'),
    ensures
        forall|i: int| 0 <= i < split_rec(p, cur).len() ==> !(#[trigger] split_rec(p, cur)[i]).contains('/'),
    decreases p.len(),
{
    if p.len() > 0 {
        if p[0] == '/' {
            lemma_split_no_slash(p.drop_first(), seq![]);
            let rest = split_rec(p.drop_first(), seq![]);
            assert(split_rec(p, cur) == seq![cur] + rest);
            assert forall|i: int| 0 <= i < split_rec(p, cur).len() implies !(#[trigger] split_rec(p, cur)[i]).contains('/') by {
                if i > 0 {
                    assert(split_rec(p, cur)[i] == rest[i - 1]);
                } else {
                    assert(split_rec(p, cur)[i] == cur);
                }
            }
        } else {
            assert(!cur.push(p[0]).contains('/')) by {
                assert forall|j: int| 0 <= j < cur.push(p[0]).len() implies cur.push(p[0])[j] != '/' by {
                    if j < cur.len() {
                        assert(cur.push(p[0])[j] == cur[j]);
                    }
                }
            }
            lemma_split_no_slash(p.drop_first(), cur.push(p[0]));
            assert(split_rec(p, cur) == split_rec(p.drop_first(), cur.push(p[0])));
        }
    } else {
        assert(split_rec(p, cur) == seq![cur]);
        assert forall|i: int| 0 <= i < split_rec(p, cur).len() implies !(#[trigger] split_rec(p, cur)[i]).contains('/') by {
            assert(split_rec(p, cur)[i] == cur);
        }
    }
}

/// A split of text without the separator is the text itself.
proof fn lemma_split_plain(s: Seq<char>, cur: Seq<char>)
    requires
        !s.contains('/'),
    ensures
        split_rec(s, cur) == seq![cur + s],
    decreases s.len(),
{
    if s.len() > 0 {
        assert(s[0] != '/');
        assert(!s.drop_first().contains('/')) by {
            assert forall|j: int| 0 <= j < s.drop_first().len() implies s.drop_first()[j] != '/' by {
                assert(s.drop_first()[j] == s[j + 1]);
            }
        }
        lemma_split_plain(s.drop_first(), cur.push(s[0]));
        assert(cur.push(s[0]) + s.drop_first() =~= cur + s);
    } else {
        assert(cur + s =~= cur);
    }
}

/// Splitting at a separator splits each side.
proof fn lemma_split_concat(a: Seq<char>, b: Seq<char>, cur: Seq<char>)
    ensures
        split_rec(a + seq!['/'] + b, cur) == split_rec(a, cur) + split_rec(b, seq![]),
    decreases a.len(),
{
    let t = a + seq!['/'] + b;
    if a.len() == 0 {
        assert(t[0] == '/');
        assert(t.drop_first() =~= b);
    } else {
        assert(t[0] == a[0]);
        assert(t.drop_first() =~= a.drop_first() + seq!['/'] + b);
        if a[0] == '/' {
            lemma_split_concat(a.drop_first(), b, seq![]);
            assert(seq![cur] + (split_rec(a.drop_first(), seq![]) + split_rec(b, seq![])) =~= seq![cur] + split_rec(
                a.drop_first(),
                seq![],
            ) + split_rec(b, seq![]));
        } else {
            lemma_split_concat(a.drop_first(), b, cur.push(a[0]));
        }
    }
}

/// The parts of a joined path: an empty one before the first slash, then
/// the components.
proof fn lemma_segments_of_join(comps: Seq<Seq<char>>)
    requires
        forall|i: int| 0 <= i < comps.len() ==> !(#[trigger] comps[i]).contains('/'),
    ensures
        segments(join_rec(comps)) == seq![Seq::<char>::empty()] + comps,
    decreases comps.len(),
{
    if comps.len() == 0 {
        assert(seq![Seq::<char>::empty()] + comps =~= seq![Seq::<char>::empty()]);
    } else {
        let init = comps.drop_last();
        assert forall|i: int| 0 <= i < init.len() implies !(#[trigger] init[i]).contains('/') by {
            assert(init[i] == comps[i]);
        }
        lemma_segments_of_join(init);
        lemma_split_concat(join_rec(init), comps.last(), seq![]);
        assert(comps.last() == comps[comps.len() - 1]);
        lemma_split_plain(comps.last(), seq![]);
        assert(Seq::<char>::empty() + comps.last() =~= comps.last());
        assert(seq![Seq::<char>::empty()] + init + seq![comps.last()] =~= seq![Seq::<char>::empty()] + comps);
    }
}

/// The name of a path made of plain names is its last component.
pub proof fn lemma_file_name_of_join(comps: Seq<Seq<char>>)
    requires
        all_names(comps),
        comps.len() > 0,
    ensures
        file_name(join_abs(comps)) == Some(comps.last()),
{
    lemma_segments_of_join(comps);
    let segs = seq![Seq::<char>::empty()] + comps;
    assert(segs.last() == comps.last());
    assert(comps.last() == comps[comps.len() - 1]);
}

proof fn lemma_resolve_names(stack: Seq<Seq<char>>, segs: Seq<Seq<char>>)
    requires
        all_names(stack),
        forall|i: int| 0 <= i < segs.len() ==> !(#[trigger] segs[i]).contains('/'),
    ensures
        resolve(stack, segs) matches Some(comps) ==> all_names(comps),
    decreases segs.len(),
{
    if segs.len() > 0 {
        if let Some(next) = resolve_step(stack, segs[0]) {
            assert(!segs[0].contains('/'));
            assert(all_names(next));
            assert forall|i: int| 0 <= i < segs.drop_first().len() implies !(#[trigger] segs.drop_first()[i]).contains('/') by {
                assert(segs.drop_first()[i] == segs[i + 1]);
            }
            lemma_resolve_names(next, segs.drop_first());
        }
    }
}

/// Guest paths stay inside the virtual root: whatever a path says, the
/// components it resolves to are plain names, so no ".." survives and no
/// path leads above "/".
pub proof fn law_paths_stay_inside_root(cwd: Seq<Seq<char>>, path: Seq<char>)
    requires
        all_names(cwd),
    ensures
        normalize(cwd, path) matches Some(comps) ==> all_names(comps),
{
    let p = lowercase(forward_slashes(path));
    let start = if p.len() > 0 && p[0] == '/' {
        Seq::<Seq<char>>::empty()
    } else {
        cwd
    };
    lemma_split_no_slash(p, seq![]);
    lemma_resolve_names(start, segments(p));
}

} // verus!
