//! Strings as lists of characters.
use vstd::prelude::*;

verus! {

/// Whether `s` holds `t` somewhere.
pub open spec fn holds_text(s: Seq<char>, t: Seq<char>) -> bool {
    exists|i: int| 0 <= i <= s.len() - t.len() && #[trigger] s.subrange(i, i + t.len()) == t
}

/// The characters of a string.
pub(crate) fn chars_of(s: &str) -> (r: Vec<char>)
    ensures
        r@ == s@,
{
    let n: usize = s.unicode_len();
    let mut r: Vec<char> = Vec::new();
    let mut i: usize = 0;
    while i < n
        invariant
            0 <= i <= n,
            n == s@.len(),
            r@ == s@.take(i as int),
        decreases n - i,
    {
        r.push(s.get_char(i));
        assert(r@ =~= s@.take(i + 1));
        i += 1;
    }
    assert(s@.take(n as int) =~= s@);
    r
}

/// Tells whether two strings are equal.
pub(crate) fn same_chars(a: &Vec<char>, b: &Vec<char>) -> (r: bool)
    ensures
        r == (a@ == b@),
{
    if a.len() != b.len() {
        return false;
    }
    let mut i: usize = 0;
    while i < a.len()
        invariant
            0 <= i <= a@.len(),
            a@.len() == b@.len(),
            forall|j: int| 0 <= j < i ==> #[trigger] a@[j] == b@[j],
        decreases a@.len() - i,
    {
        if a[i] != b[i] {
            assert(a@[i as int] != b@[i as int]);
            return false;
        }
        i += 1;
    }
    assert(a@ =~= b@);
    true
}

/// The characters of `s` from `from` up to `to`.
pub(crate) fn chars_between(s: &Vec<char>, from: usize, to: usize) -> (r: Vec<char>)
    requires
        from <= to <= s@.len(),
    ensures
        r@ == s@.subrange(from as int, to as int),
{
    let mut r: Vec<char> = Vec::new();
    let mut i: usize = from;
    while i < to
        invariant
            from <= i <= to <= s@.len(),
            r@ == s@.subrange(from as int, i as int),
        decreases to - i,
    {
        r.push(s[i]);
        assert(r@ =~= s@.subrange(from as int, i + 1));
        i += 1;
    }
    r
}

/// `a` followed by `b`.
pub(crate) fn joined(a: &Vec<char>, b: &str) -> (r: Vec<char>)
    ensures
        r@ == a@ + b@,
{
    let mut r = chars_between(a, 0, a.len());
    let mut tail = chars_of(b);
    let ghost (x, y) = (r@, tail@);
    r.append(&mut tail);
    assert(x =~= a@);
    r
}

/// Tells whether a string holds another somewhere.
pub(crate) fn contains(s: &Vec<char>, text: &str) -> (r: bool)
    ensures
        r == holds_text(s@, text@),
{
    let t = chars_of(text);
    if s.len() < t.len() {
        return false;
    }
    let n: usize = s.len();
    let last: usize = n - t.len();
    let mut i: usize = 0;
    loop
        invariant
            0 <= i <= last,
            n == s@.len(),
            last == n - t@.len(),
            t@ == text@,
            forall|j: int| 0 <= j < i ==> #[trigger] s@.subrange(j, j + t@.len()) != t@,
        decreases last - i,
    {
        let piece = chars_between(s, i, i + t.len());
        if same_chars(&piece, &t) {
            assert(s@.subrange(i as int, i + t@.len()) == text@);
            return true;
        }
        if i == last {
            return false;
        }
        i += 1;
    }
}

/// A text holds what stands anywhere in it, whatever is before and behind.
pub proof fn lemma_text_is_found(before: Seq<char>, text: Seq<char>, behind: Seq<char>)
    ensures
        holds_text(before + text + behind, text),
{
    let s = before + text + behind;
    let i = before.len() as int;
    assert(s.subrange(i, i + text.len()) =~= text);
}

/// What a text holds stands somewhere in it; what is before and behind is given back.
pub proof fn lemma_found_text_is_there(s: Seq<char>, text: Seq<char>) -> (r: (Seq<char>, Seq<char>))
    requires
        holds_text(s, text),
    ensures
        s == r.0 + text + r.1,
{
    let i = choose|i: int|
        0 <= i <= s.len() - text.len() && #[trigger] s.subrange(i, i + text.len()) == text;
    let (a, b) = (s.take(i), s.skip(i + text.len()));
    assert forall|k: int| 0 <= k < s.len() implies #[trigger] s[k] == (a + text + b)[k] by {
        if i <= k < i + text.len() {
            assert(s[k] == s.subrange(i, i + text.len())[k - i]);
        }
    }
    assert(s =~= a + text + b);
    (a, b)
}

} // verus!
