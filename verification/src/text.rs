//! Character-level text model: whitespace, trimming, token scanning and
//! line splitting, with the executable routines proved against the
//! specification functions.

use vstd::prelude::*;

verus! {

/// The whitespace characters this library recognizes when trimming a line
/// or splitting it into tokens.
pub open spec fn is_space(c: char) -> bool {
    c == ' ' || c == '\t' || c == '\n' || c == '\r' || c == '\u{b}' || c == '\u{c}'
}

pub fn is_space_exec(c: char) -> (r: bool)
    ensures
        r == is_space(c),
{
    c == ' ' || c == '\t' || c == '\n' || c == '\r' || c == '\u{b}' || c == '\u{c}'
}

/// The text with its leading whitespace removed.
pub open spec fn trim_start(s: Seq<char>) -> Seq<char>
    decreases s.len(),
{
    if s.len() == 0 {
        s
    } else if is_space(s[0]) {
        trim_start(s.drop_first())
    } else {
        s
    }
}

/// The text with its trailing whitespace removed.
pub open spec fn trim_end(s: Seq<char>) -> Seq<char>
    decreases s.len(),
{
    if s.len() == 0 {
        s
    } else if is_space(s.last()) {
        trim_end(s.drop_last())
    } else {
        s
    }
}

/// The text with whitespace removed from both ends.
pub open spec fn spec_trim(s: Seq<char>) -> Seq<char> {
    trim_end(trim_start(s))
}

pub proof fn lemma_trim_start_at(s: Seq<char>, i: int)
    requires
        0 <= i <= s.len(),
        forall|k: int| 0 <= k < i ==> is_space(s[k]),
        i == s.len() || !is_space(s[i]),
    ensures
        trim_start(s) == s.skip(i),
    decreases i,
{
    if i == 0 {
        assert(s.skip(0) =~= s);
    } else {
        let t = s.drop_first();
        assert(forall|k: int| 0 <= k < i - 1 ==> is_space(#[trigger] t[k]));
        lemma_trim_start_at(t, i - 1);
        assert(t.skip(i - 1) =~= s.skip(i));
    }
}

pub proof fn lemma_trim_end_at(s: Seq<char>, j: int)
    requires
        0 <= j <= s.len(),
        forall|k: int| j <= k < s.len() ==> is_space(s[k]),
        j == 0 || !is_space(s[j - 1]),
    ensures
        trim_end(s) == s.take(j),
    decreases s.len(),
{
    if j == s.len() {
        assert(s.take(j) =~= s);
    } else {
        let t = s.drop_last();
        assert(is_space(s.last()));
        assert(forall|k: int| j <= k < t.len() ==> is_space(#[trigger] t[k]));
        lemma_trim_end_at(t, j);
        assert(t.take(j) =~= s.take(j));
    }
}

/// The length of the leading run of non-whitespace characters.
pub open spec fn token_len(s: Seq<char>) -> int
    decreases s.len(),
{
    if s.len() == 0 || is_space(s[0]) {
        0
    } else {
        1 + token_len(s.drop_first())
    }
}

pub proof fn lemma_token_len_at(s: Seq<char>, j: int)
    requires
        0 <= j <= s.len(),
        forall|k: int| 0 <= k < j ==> !is_space(s[k]),
        j == s.len() || is_space(s[j]),
    ensures
        token_len(s) == j,
    decreases j,
{
    if j == 0 {
    } else {
        let t = s.drop_first();
        assert(forall|k: int| 0 <= k < j - 1 ==> !is_space(#[trigger] t[k]));
        lemma_token_len_at(t, j - 1);
    }
}

/// The first whitespace-separated token of the text (empty if there is none).
pub open spec fn first_token(s: Seq<char>) -> Seq<char> {
    trim_start(s).take(token_len(trim_start(s)))
}

/// What remains of the text after its first token.
pub open spec fn rest_after_token(s: Seq<char>) -> Seq<char> {
    trim_start(s).skip(token_len(trim_start(s)))
}

/// The position of the first line break, or the length if there is none.
pub open spec fn line_break(s: Seq<char>) -> int
    decreases s.len(),
{
    if s.len() == 0 {
        0
    } else if s[0] == '\n' {
        0
    } else {
        1 + line_break(s.drop_first())
    }
}

pub proof fn lemma_line_break_bounds(s: Seq<char>)
    ensures
        0 <= line_break(s) <= s.len(),
    decreases s.len(),
{
    if s.len() == 0 || s[0] == '\n' {
    } else {
        lemma_line_break_bounds(s.drop_first());
    }
}

pub proof fn lemma_line_break_at(s: Seq<char>, k: int)
    requires
        0 <= k <= s.len(),
        forall|i: int| 0 <= i < k ==> s[i] != '\n',
        k == s.len() || s[k] == '\n',
    ensures
        line_break(s) == k,
    decreases k,
{
    if k == 0 {
    } else {
        let t = s.drop_first();
        assert(forall|i: int| 0 <= i < k - 1 ==> #[trigger] t[i] != '\n');
        lemma_line_break_at(t, k - 1);
    }
}

/// The lines of the text: maximal runs of characters between line breaks.
/// A final line break ends the last line rather than opening an empty one.
pub open spec fn spec_lines(s: Seq<char>) -> Seq<Seq<char>>
    decreases s.len(),
    via spec_lines_dec
{
    if s.len() == 0 {
        Seq::empty()
    } else {
        let k = line_break(s);
        if k >= s.len() {
            seq![s]
        } else {
            seq![s.take(k)] + spec_lines(s.skip(k + 1))
        }
    }
}

#[via_fn]
proof fn spec_lines_dec(s: Seq<char>) {
    lemma_line_break_bounds(s);
}

/// The lines joined back into one text, each followed by a line break.
pub open spec fn join_lines(ls: Seq<Seq<char>>) -> Seq<char>
    decreases ls.len(),
{
    if ls.len() == 0 {
        Seq::empty()
    } else {
        ls[0] + seq!['\n'] + join_lines(ls.drop_first())
    }
}

pub proof fn lemma_join_lines_snoc(ls: Seq<Seq<char>>, l: Seq<char>)
    ensures
        join_lines(ls.push(l)) == join_lines(ls) + l + seq!['\n'],
    decreases ls.len(),
{
    if ls.len() == 0 {
        assert(ls.push(l)[0] == l);
        assert(ls.push(l).drop_first() =~= Seq::<Seq<char>>::empty());
        assert(join_lines(ls.push(l)) == l + seq!['\n'] + join_lines(
            Seq::<Seq<char>>::empty(),
        ));
        assert(l + seq!['\n'] + join_lines(Seq::<Seq<char>>::empty()) =~= join_lines(ls) + l
            + seq!['\n']);
    } else {
        assert(ls.push(l).drop_first() =~= ls.drop_first().push(l));
        assert(ls.push(l)[0] == ls[0]);
        lemma_join_lines_snoc(ls.drop_first(), l);
        assert(join_lines(ls.push(l)) == ls[0] + seq!['\n'] + (join_lines(ls.drop_first()) + l
            + seq!['\n']));
        assert(ls[0] + seq!['\n'] + (join_lines(ls.drop_first()) + l + seq!['\n'])
            =~= join_lines(ls) + l + seq!['\n']);
    }
}

/// Splitting a text at its lines and rejoining them restores it, provided
/// the text is empty or ends with a line break.
pub proof fn lemma_join_of_lines(s: Seq<char>)
    requires
        s.len() == 0 || s.last() == '\n',
    ensures
        join_lines(spec_lines(s)) == s,
    decreases s.len(),
{
    if s.len() == 0 {
    } else {
        let k = line_break(s);
        lemma_line_break_props(s);
        assert(k < s.len());
        let rest = s.skip(k + 1);
        if rest.len() > 0 {
            assert(rest.last() == s.last());
        }
        lemma_join_of_lines(rest);
        assert(spec_lines(s) == seq![s.take(k)] + spec_lines(rest));
        assert((seq![s.take(k)] + spec_lines(rest)).drop_first() =~= spec_lines(rest));
        assert((seq![s.take(k)] + spec_lines(rest))[0] == s.take(k));
        assert(s.take(k) + seq!['\n'] + rest =~= s);
    }
}

/// The first-line-break position lies in range, precedes no line break,
/// and lands on one unless it is the length.
pub proof fn lemma_line_break_props(s: Seq<char>)
    ensures
        0 <= line_break(s) <= s.len(),
        forall|i: int| 0 <= i < line_break(s) ==> s[i] != '\n',
        line_break(s) < s.len() ==> s[line_break(s)] == '\n',
    decreases s.len(),
{
    if s.len() == 0 || s[0] == '\n' {
    } else {
        let t = s.drop_first();
        lemma_line_break_props(t);
        assert(line_break(s) == 1 + line_break(t));
        assert forall|i: int| 0 <= i < line_break(s) implies s[i] != '\n' by {
            if i >= 1 {
                assert(t[i - 1] == s[i]);
                assert(t[i - 1] != '\n');
            }
        }
    }
}

/// Lines distribute over concatenation when the first part is empty or
/// ends with a line break.
pub proof fn lemma_lines_append(a: Seq<char>, b: Seq<char>)
    requires
        a.len() == 0 || a.last() == '\n',
    ensures
        spec_lines(a + b) == spec_lines(a) + spec_lines(b),
    decreases a.len(),
{
    if a.len() == 0 {
        assert(a + b =~= b);
        assert(spec_lines(a) + spec_lines(b) =~= spec_lines(b));
    } else {
        lemma_line_break_props(a);
        let k = line_break(a);
        assert(k < a.len());
        lemma_line_break_at(a + b, k);
        let a1 = a.skip(k + 1);
        if a1.len() > 0 {
            assert(a1.last() == a.last());
        }
        lemma_lines_append(a1, b);
        assert((a + b).take(k) =~= a.take(k));
        assert((a + b).skip(k + 1) =~= a1 + b);
        if (a + b).len() == k {
        } else {
            assert(spec_lines(a + b) == seq![a.take(k)] + (spec_lines(a1) + spec_lines(b)));
            assert(seq![a.take(k)] + (spec_lines(a1) + spec_lines(b)) =~= (seq![a.take(k)]
                + spec_lines(a1)) + spec_lines(b));
        }
    }
}

/// A line-break-free text followed by one line break is a single line.
pub proof fn lemma_lines_single(x: Seq<char>)
    requires
        forall|i: int| 0 <= i < x.len() ==> x[i] != '\n',
    ensures
        spec_lines(x + seq!['\n']) == seq![x],
{
    let s = x + seq!['\n'];
    assert forall|i: int| 0 <= i < x.len() implies s[i] != '\n' by {
        assert(s[i] == x[i]);
    }
    assert(s[x.len() as int] == '\n');
    lemma_line_break_at(s, x.len() as int);
    assert(s.take(x.len() as int) =~= x);
    assert(s.skip(x.len() as int + 1) =~= Seq::<char>::empty());
    assert(spec_lines(s) == seq![s.take(x.len() as int)] + spec_lines(
        s.skip(x.len() as int + 1),
    ));
    assert(seq![x] + spec_lines(Seq::<char>::empty()) =~= seq![x]);
}

/// Concatenation keeps texts free of whitespace.
pub proof fn lemma_append_non_space(a: Seq<char>, b: Seq<char>)
    requires
        forall|i: int| 0 <= i < a.len() ==> !is_space(a[i]),
        forall|i: int| 0 <= i < b.len() ==> !is_space(b[i]),
    ensures
        forall|i: int| 0 <= i < (a + b).len() ==> !is_space(#[trigger] (a + b)[i]),
{
    assert forall|i: int| 0 <= i < (a + b).len() implies !is_space((a + b)[i]) by {
        if i < a.len() {
            assert((a + b)[i] == a[i]);
        } else {
            assert((a + b)[i] == b[i - a.len()]);
        }
    }
}

/// The characters of a string, in order.
pub fn str_to_chars(s: &str) -> (r: Vec<char>)
    ensures
        r@ == s@,
{
    let n: usize = s.unicode_len();
    let mut v: Vec<char> = Vec::new();
    let mut i: usize = 0;
    while i < n
        invariant
            i <= n,
            n == s@.len(),
            v@ == s@.take(i as int),
        decreases n - i,
    {
        let c = s.get_char(i);
        v.push(c);
        proof {
            assert(s@.take(i as int).push(s@[i as int]) =~= s@.take(i + 1 as int));
        }
        i += 1;
    }
    proof {
        assert(s@.take(n as int) =~= s@);
    }
    v
}

/// Relies on `String::push`: appends exactly the given character.
#[verifier::external_body]
fn push_char(s: &mut String, c: char)
    ensures
        final(s)@ == old(s)@.push(c),
{
    s.push(c);
}

/// A string holding the given range of characters.
pub fn chars_to_string(v: &Vec<char>, from: usize, to: usize) -> (r: String)
    requires
        from <= to <= v@.len(),
    ensures
        r@ == v@.subrange(from as int, to as int),
{
    let mut s = String::new();
    let mut i = from;
    while i < to
        invariant
            from <= i <= to <= v@.len(),
            s@ == v@.subrange(from as int, i as int),
        decreases to - i,
    {
        push_char(&mut s, v[i]);
        proof {
            assert(v@.subrange(from as int, i as int).push(v@[i as int]) =~= v@.subrange(
                from as int,
                i + 1 as int,
            ));
        }
        i += 1;
    }
    s
}

/// Whether two strings hold the same characters.
pub fn str_eq(a: &str, b: &str) -> (r: bool)
    ensures
        r == (a@ == b@),
{
    let na = a.unicode_len();
    let nb = b.unicode_len();
    if na != nb {
        return false;
    }
    let mut i: usize = 0;
    while i < na
        invariant
            i <= na,
            na == a@.len(),
            na == b@.len(),
            forall|k: int| 0 <= k < i ==> a@[k] == b@[k],
        decreases na - i,
    {
        if a.get_char(i) != b.get_char(i) {
            return false;
        }
        i += 1;
    }
    proof {
        assert(a@ =~= b@);
    }
    true
}

/// Appends every character of the string to the vector.
pub fn push_str_chars(dst: &mut Vec<char>, s: &str)
    ensures
        final(dst)@ == old(dst)@ + s@,
{
    let n: usize = s.unicode_len();
    let mut i: usize = 0;
    while i < n
        invariant
            i <= n,
            n == s@.len(),
            dst@ == old(dst)@ + s@.take(i as int),
        decreases n - i,
    {
        let c = s.get_char(i);
        dst.push(c);
        proof {
            assert(old(dst)@ + s@.take(i as int).push(s@[i as int]) =~= old(dst)@ + s@.take(
                i + 1 as int,
            ));
        }
        i += 1;
    }
    proof {
        assert(old(dst)@ + s@.take(n as int) =~= old(dst)@ + s@);
    }
}

/// Appends every character of the source vector.
pub fn extend_chars(dst: &mut Vec<char>, src: &Vec<char>)
    ensures
        final(dst)@ == old(dst)@ + src@,
{
    let n = src.len();
    let mut i: usize = 0;
    while i < n
        invariant
            i <= n,
            n == src@.len(),
            dst@ == old(dst)@ + src@.take(i as int),
        decreases n - i,
    {
        dst.push(src[i]);
        proof {
            assert(old(dst)@ + src@.take(i as int).push(src@[i as int]) =~= old(dst)@ + src@.take(
                i + 1 as int,
            ));
        }
        i += 1;
    }
    proof {
        assert(old(dst)@ + src@.take(n as int) =~= old(dst)@ + src@);
    }
}

/// A copy of the given range of a character vector.
pub fn vec_range(v: &Vec<char>, from: usize, to: usize) -> (r: Vec<char>)
    requires
        from <= to <= v@.len(),
    ensures
        r@ == v@.subrange(from as int, to as int),
{
    let mut r: Vec<char> = Vec::new();
    let mut i = from;
    while i < to
        invariant
            from <= i <= to <= v@.len(),
            r@ == v@.subrange(from as int, i as int),
        decreases to - i,
    {
        r.push(v[i]);
        proof {
            assert(v@.subrange(from as int, i as int).push(v@[i as int]) =~= v@.subrange(
                from as int,
                i + 1 as int,
            ));
        }
        i += 1;
    }
    r
}

/// The position of the first non-space character at or after `from`.
pub fn skip_spaces(v: &Vec<char>, from: usize) -> (r: usize)
    requires
        from <= v@.len(),
    ensures
        from <= r <= v@.len(),
        forall|k: int| from <= k < r ==> is_space(v@[k]),
        r < v@.len() ==> !is_space(v@[r as int]),
{
    let n = v.len();
    let mut i = from;
    while i < n && is_space_exec(v[i])
        invariant
            from <= i <= n,
            n == v@.len(),
            forall|k: int| from <= k < i ==> is_space(v@[k]),
        decreases n - i,
    {
        i += 1;
    }
    i
}

/// The position of the first space character at or after `from`.
pub fn scan_token(v: &Vec<char>, from: usize) -> (r: usize)
    requires
        from <= v@.len(),
    ensures
        from <= r <= v@.len(),
        forall|k: int| from <= k < r ==> !is_space(v@[k]),
        r < v@.len() ==> is_space(v@[r as int]),
{
    let n = v.len();
    let mut i = from;
    while i < n && !is_space_exec(v[i])
        invariant
            from <= i <= n,
            n == v@.len(),
            forall|k: int| from <= k < i ==> !is_space(v@[k]),
        decreases n - i,
    {
        i += 1;
    }
    i
}

/// The bounds of the text that trimming the vector's characters leaves.
pub fn trim_range(v: &Vec<char>) -> (r: (usize, usize))
    ensures
        r.0 <= r.1 <= v@.len(),
        spec_trim(v@) == v@.subrange(r.0 as int, r.1 as int),
{
    let n = v.len();
    let a = skip_spaces(v, 0);
    let mut b = n;
    while b > a && is_space_exec(v[b - 1])
        invariant
            a <= b <= n,
            n == v@.len(),
            forall|k: int| b <= k < n ==> is_space(v@[k]),
        decreases b,
    {
        b -= 1;
    }
    proof {
        lemma_trim_start_at(v@, a as int);
        let t = v@.skip(a as int);
        assert(forall|k: int| b - a <= k < t.len() ==> is_space(#[trigger] t[k]));
        lemma_trim_end_at(t, b - a);
        assert(t.take(b - a) =~= v@.subrange(a as int, b as int));
    }
    (a, b)
}

} // verus!
