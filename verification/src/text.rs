use vstd::prelude::*;

verus! {

/// The character sequences held in a vector of character vectors.
pub open spec fn seqs_view(v: Seq<Vec<char>>) -> Seq<Seq<char>> {
    v.map_values(|s: Vec<char>| s@)
}

/// Lexicographic order of character sequences, by code point; this is the
/// order in which Rust compares strings.
pub open spec fn lex_lt(a: Seq<char>, b: Seq<char>) -> bool
    decreases a.len(),
{
    if a.len() == 0 {
        b.len() > 0
    } else if b.len() == 0 {
        false
    } else if a[0] != b[0] {
        (a[0] as int) < (b[0] as int)
    } else {
        lex_lt(a.drop_first(), b.drop_first())
    }
}

/// `a` comes no later than `b`.
pub open spec fn lex_le(a: Seq<char>, b: Seq<char>) -> bool {
    a == b || lex_lt(a, b)
}

/// Every element comes strictly before the next one.
pub open spec fn strictly_sorted(s: Seq<Seq<char>>) -> bool {
    forall|i: int, j: int| 0 <= i < j < s.len() ==> lex_lt(#[trigger] s[i], #[trigger] s[j])
}

/// Every element comes no later than the next one.
pub open spec fn sorted(s: Seq<Seq<char>>) -> bool {
    forall|i: int, j: int| 0 <= i < j < s.len() ==> lex_le(#[trigger] s[i], #[trigger] s[j])
}

pub proof fn lemma_lex_irreflexive(a: Seq<char>)
    ensures
        !lex_lt(a, a),
    decreases a.len(),
{
    if a.len() > 0 {
        lemma_lex_irreflexive(a.drop_first());
    }
}

pub proof fn lemma_lex_asymmetric(a: Seq<char>, b: Seq<char>)
    ensures
        !(lex_lt(a, b) && lex_lt(b, a)),
    decreases a.len(),
{
    if a.len() > 0 && b.len() > 0 && a[0] == b[0] {
        lemma_lex_asymmetric(a.drop_first(), b.drop_first());
    }
}

pub proof fn lemma_lex_transitive(a: Seq<char>, b: Seq<char>, c: Seq<char>)
    requires
        lex_lt(a, b),
        lex_lt(b, c),
    ensures
        lex_lt(a, c),
    decreases a.len(),
{
    if a.len() > 0 && b.len() > 0 && c.len() > 0 && a[0] == b[0] && b[0] == c[0] {
        lemma_lex_transitive(a.drop_first(), b.drop_first(), c.drop_first());
    }
}

pub proof fn lemma_lex_total(a: Seq<char>, b: Seq<char>)
    ensures
        a == b || lex_lt(a, b) || lex_lt(b, a),
    decreases a.len(),
{
    if a.len() > 0 && b.len() > 0 && a[0] == b[0] {
        lemma_lex_total(a.drop_first(), b.drop_first());
        if a.drop_first() == b.drop_first() {
            assert(a =~= seq![a[0]] + a.drop_first());
            assert(b =~= seq![b[0]] + b.drop_first());
        }
    } else if a.len() > 0 && b.len() > 0 {
        assert((a[0] as int) != (b[0] as int));
    } else if a.len() == 0 && b.len() == 0 {
        assert(a =~= b);
    }
}

proof fn lemma_lex_skip(a: Seq<char>, b: Seq<char>, i: int)
    requires
        0 <= i <= a.len(),
        i <= b.len(),
        a.subrange(0, i) == b.subrange(0, i),
    ensures
        lex_lt(a, b) == lex_lt(a.subrange(i, a.len() as int), b.subrange(i, b.len() as int)),
    decreases i,
{
    if i > 0 {
        assert(a[0] == a.subrange(0, i)[0]);
        assert(b[0] == b.subrange(0, i)[0]);
        assert(a.drop_first().subrange(0, i - 1) =~= a.subrange(0, i).drop_first());
        assert(b.drop_first().subrange(0, i - 1) =~= b.subrange(0, i).drop_first());
        lemma_lex_skip(a.drop_first(), b.drop_first(), i - 1);
        assert(a.drop_first().subrange(i - 1, a.len() - 1) =~= a.subrange(i, a.len() as int));
        assert(b.drop_first().subrange(i - 1, b.len() - 1) =~= b.subrange(i, b.len() as int));
    } else {
        assert(a.subrange(0, a.len() as int) =~= a);
        assert(b.subrange(0, b.len() as int) =~= b);
    }
}

/// Compares two character sequences in string order.
pub fn chars_lt(a: &[char], b: &[char]) -> (lt: bool)
    ensures
        lt == lex_lt(a@, b@),
{
    let mut i: usize = 0;
    while i < a.len() && i < b.len() && a[i] == b[i]
        invariant
            i <= a@.len(),
            i <= b@.len(),
            a@.subrange(0, i as int) == b@.subrange(0, i as int),
        decreases a@.len() - i,
    {
        assert(a@.subrange(0, i + 1) =~= a@.subrange(0, i as int).push(a@[i as int]));
        assert(b@.subrange(0, i + 1) =~= b@.subrange(0, i as int).push(b@[i as int]));
        i += 1;
    }
    proof {
        lemma_lex_skip(a@, b@, i as int);
    }
    if i == a.len() {
        i < b.len()
    } else if i == b.len() {
        false
    } else {
        a[i] < b[i]
    }
}

/// True when the two character sequences are equal.
pub fn chars_eq(a: &[char], b: &[char]) -> (eq: bool)
    ensures
        eq == (a@ == b@),
{
    if a.len() != b.len() {
        return false;
    }
    let mut i: usize = 0;
    while i < a.len()
        invariant
            a@.len() == b@.len(),
            i <= a@.len(),
            forall|j: int| 0 <= j < i ==> a@[j] == b@[j],
        decreases a@.len() - i,
    {
        if a[i] != b[i] {
            return false;
        }
        i += 1;
    }
    assert(a@ =~= b@);
    true
}

/// A copy of a character sequence.
pub fn copy_chars(a: &[char]) -> (copy: Vec<char>)
    ensures
        copy@ == a@,
{
    let mut copy: Vec<char> = Vec::with_capacity(a.len());
    let mut i: usize = 0;
    while i < a.len()
        invariant
            i <= a@.len(),
            copy@ == a@.subrange(0, i as int),
        decreases a@.len() - i,
    {
        copy.push(a[i]);
        i += 1;
    }
    copy
}

/// The characters of a string slice.
pub fn str_to_chars(s: &str) -> (chars: Vec<char>)
    ensures
        chars@ == s@,
{
    let length = s.unicode_len();
    let mut chars: Vec<char> = Vec::with_capacity(length);
    let mut i: usize = 0;
    while i < length
        invariant
            length == s@.len(),
            i <= length,
            chars@ == s@.subrange(0, i as int),
        decreases length - i,
    {
        chars.push(s.get_char(i));
        i += 1;
    }
    chars
}

/// `String::push`: appends one character.
#[verifier::external_body]
fn push_char(s: &mut String, c: char)
    ensures
        final(s)@ == old(s)@.push(c),
{
    s.push(c);
}

/// A string holding the given characters.
pub(crate) fn chars_to_string(chars: &[char]) -> (s: String)
    ensures
        s@ == chars@,
{
    let mut s = String::new();
    let mut i: usize = 0;
    while i < chars.len()
        invariant
            i <= chars@.len(),
            s@ == chars@.take(i as int),
        decreases chars@.len() - i,
    {
        push_char(&mut s, chars[i]);
        i += 1;
        assert(s@ =~= chars@.take(i as int));
    }
    assert(chars@.take(chars@.len() as int) =~= chars@);
    s
}

/// The result of `str::to_lowercase` on a string: Unicode lowercase mapping of
/// the whole string, which for some letters depends on their neighbours.
pub uninterp spec fn lowercase(s: Seq<char>) -> Seq<char>;

/// An ASCII letter in lower case; other characters as they are.
pub open spec fn ascii_lower_char(c: char) -> char {
    if 'A' <= c <= 'Z' {
        ((c as u32) + 32) as char
    } else {
        c
    }
}

/// `str::to_lowercase`. Text that is all ASCII lowercases letter by letter:
/// the Unicode lowercase mapping of ASCII is `A`..`Z` to `a`..`z`, every
/// other ASCII character unchanged.
#[verifier::external_body]
pub(crate) fn to_lowercase(s: &str) -> (lower: String)
    ensures
        lower@ == lowercase(s@),
        (forall|i: int| 0 <= i < s@.len() ==> (s@[i] as u32) < 0x80) ==> lower@ == Seq::new(
            s@.len(),
            |i: int| ascii_lower_char(s@[i]),
        ),
{
    s.to_lowercase()
}

/// Whether `s` contains `c`.
pub fn chars_contain(s: &[char], c: char) -> (found: bool)
    ensures
        found == s@.contains(c),
{
    let mut i: usize = 0;
    while i < s.len()
        invariant
            i <= s@.len(),
            forall|j: int| 0 <= j < i ==> s@[j] != c,
        decreases s@.len() - i,
    {
        if s[i] == c {
            return true;
        }
        i += 1;
    }
    false
}

/// Sorts a vector of character sequences into string order.
pub fn sort_names(names: Vec<Vec<char>>) -> (out: Vec<Vec<char>>)
    ensures
        sorted(seqs_view(out@)),
        seqs_view(out@).to_multiset() == seqs_view(names@).to_multiset(),
{
    let ghost input = seqs_view(names@);
    let mut out: Vec<Vec<char>> = Vec::new();
    let mut names = names;
    let ghost taken: Seq<Seq<char>> = Seq::empty();
    let mut i: usize = 0;
    let n = names.len();
    assert(input.subrange(0, 0) =~= seqs_view(out@));
    while i < n
        invariant
            n == names@.len(),
            i <= n,
            input == seqs_view(names@),
            sorted(seqs_view(out@)),
            seqs_view(out@).to_multiset() == input.subrange(
                0,
                i as int,
            ).to_multiset(),
        decreases n - i,
    {
        let name = copy_chars(names[i].as_slice());
        let ghost view = seqs_view(out@);
        let mut pos: usize = 0;
        while pos < out.len() && !chars_lt(name.as_slice(), out[pos].as_slice())
            invariant
                pos <= out@.len(),
                view == seqs_view(out@),
                forall|j: int| 0 <= j < pos ==> !lex_lt(name@, #[trigger] view[j]),
            decreases out@.len() - pos,
        {
            pos += 1;
        }
        let ghost nm = name@;
        out.insert(pos, name);
        proof {
            let new_view = seqs_view(out@);
            assert(new_view =~= view.insert(pos as int, nm));
            assert forall|a: int, b: int| 0 <= a < b < new_view.len() implies lex_le(
                #[trigger] new_view[a],
                #[trigger] new_view[b],
            ) by {
                if a < pos && b == pos {
                    lemma_lex_total(nm, view[a]);
                } else if a < pos && b > pos {
                    assert(lex_le(view[a], view[b - 1]));
                } else if a == pos && b > pos {
                    if pos < view.len() {
                        assert(lex_lt(nm, view[pos as int]));
                        if b - 1 > pos {
                            assert(lex_le(view[pos as int], view[b - 1]));
                            if view[pos as int] != view[b - 1] {
                                lemma_lex_transitive(nm, view[pos as int], view[b - 1]);
                            }
                        }
                    }
                } else if a > pos {
                    assert(lex_le(view[a - 1], view[b - 1]));
                }
            }
            vstd::seq_lib::to_multiset_insert(view, pos as int, nm);
            assert(input.subrange(0, i + 1) =~= input.subrange(0, i as int).push(input[i as int]));
            input.subrange(0, i as int).to_multiset_ensures();
        }
        i += 1;
    }
    assert(input.subrange(0, n as int) =~= input);
    out
}

} // verus!
