//! Character-level ground work: whitespace runs, trimming, searching and
//! line splitting, each as a specification function together with the
//! verified executable routine that computes it.

use vstd::prelude::*;

verus! {

/// Whitespace that may surround a token inside a single line.
pub open spec fn is_line_ws(c: char) -> bool {
    c == ' ' || c == '\t' || c == '\r'
}

/// Whitespace anywhere in the input: line whitespace or a line break.
/// The flag picks between the two families.
pub open spec fn is_ws(c: char, nl: bool) -> bool {
    is_line_ws(c) || (nl && c == '\n')
}

/// Length of the whitespace run that starts at position `i`.
pub open spec fn ws_run(s: Seq<char>, i: int, nl: bool) -> nat
    decreases s.len() - i,
{
    if 0 <= i < s.len() && is_ws(s[i], nl) {
        (1 + ws_run(s, i + 1, nl)) as nat
    } else {
        0
    }
}

/// Length of the whitespace run that ends just before position `i`.
pub open spec fn tail_ws_run(s: Seq<char>, i: int, nl: bool) -> nat
    decreases i,
{
    if 0 < i <= s.len() && is_ws(s[i - 1], nl) {
        (1 + tail_ws_run(s, i - 1, nl)) as nat
    } else {
        0
    }
}

/// `s` with whitespace removed from both ends.
pub open spec fn trim(s: Seq<char>, nl: bool) -> Seq<char> {
    let lead = ws_run(s, 0, nl) as int;
    if lead >= s.len() {
        Seq::empty()
    } else {
        s.subrange(lead, s.len() - tail_ws_run(s, s.len() as int, nl))
    }
}

/// Distance from `i` to the first occurrence of `c` at or after `i`
/// (reaches the end of `s` when `c` does not occur).
pub open spec fn dist_to(s: Seq<char>, i: int, c: char) -> nat
    decreases s.len() - i,
{
    if 0 <= i < s.len() && s[i] != c {
        (1 + dist_to(s, i + 1, c)) as nat
    } else {
        0
    }
}

/// The lines of `s`, split at every line break.  Splitting never loses
/// text: an input without a line break is a single line, and a trailing
/// line break yields a final empty line.
pub open spec fn split_lines_from(s: Seq<char>, i: int) -> Seq<Seq<char>>
    decreases s.len() - i,
{
    let n = dist_to(s, i, '\n') as int;
    if i + n >= s.len() {
        seq![s.subrange(i, s.len() as int)]
    } else {
        seq![s.subrange(i, i + n)] + split_lines_from(s, i + n + 1)
    }
}

/// The lines of `s`.
pub open spec fn split_lines(s: Seq<char>) -> Seq<Seq<char>> {
    split_lines_from(s, 0)
}

/// A well-formed section name: non-empty, free of brackets and line breaks.
pub open spec fn valid_name(n: Seq<char>) -> bool {
    n.len() > 0 && forall|j: int|
        0 <= j < n.len() ==> (#[trigger] n[j]) != '[' && n[j] != ']' && n[j] != '\n'
}

/// A key token as the grammar captures it: non-empty, free of `=` and
/// line breaks, and carrying no whitespace at either end.
pub open spec fn key_token(k: Seq<char>) -> bool {
    &&& k.len() > 0
    &&& forall|j: int| 0 <= j < k.len() ==> (#[trigger] k[j]) != '=' && k[j] != '\n'
    &&& trim(k, false) == k
}

/// A key as it can appear in a parsed document: a key token that does not
/// open a section header or a comment.
pub open spec fn valid_key(k: Seq<char>) -> bool {
    key_token(k) && k[0] != '[' && k[0] != ';'
}

/// A value token: free of line breaks and carrying no whitespace at
/// either end; it may be empty.
pub open spec fn value_token(v: Seq<char>) -> bool {
    &&& forall|j: int| 0 <= j < v.len() ==> (#[trigger] v[j]) != '\n'
    &&& trim(v, false) == v
}

pub proof fn lemma_ws_run(s: Seq<char>, i: int, nl: bool)
    requires
        0 <= i <= s.len(),
    ensures
        i + ws_run(s, i, nl) <= s.len(),
        forall|j: int| i <= j < i + ws_run(s, i, nl) ==> is_ws(#[trigger] s[j], nl),
        i + ws_run(s, i, nl) < s.len() ==> !is_ws(s[i + ws_run(s, i, nl)], nl),
    decreases s.len() - i,
{
    if i < s.len() && is_ws(s[i], nl) {
        lemma_ws_run(s, i + 1, nl);
    }
}

pub proof fn lemma_tail_ws_run(s: Seq<char>, i: int, nl: bool)
    requires
        0 <= i <= s.len(),
    ensures
        tail_ws_run(s, i, nl) <= i,
        forall|j: int| i - tail_ws_run(s, i, nl) <= j < i ==> is_ws(#[trigger] s[j], nl),
        i - tail_ws_run(s, i, nl) > 0 ==> !is_ws(s[i - tail_ws_run(s, i, nl) - 1], nl),
    decreases i,
{
    if 0 < i && is_ws(s[i - 1], nl) {
        lemma_tail_ws_run(s, i - 1, nl);
    }
}

/// The bounds of the trimmed middle of `s` are well formed, the trimmed
/// copy carries no whitespace at either end, and trimming an already
/// trimmed sequence changes nothing.
pub proof fn lemma_trim(s: Seq<char>, nl: bool)
    ensures
        trim(s, nl).len() <= s.len(),
        ws_run(s, 0, nl) == s.len() <==> trim(s, nl).len() == 0,
        trim(s, nl).len() > 0 ==> !is_ws(trim(s, nl)[0], nl),
        trim(s, nl).len() > 0 ==> !is_ws(trim(s, nl)[trim(s, nl).len() - 1], nl),
        forall|j: int|
            0 <= j < trim(s, nl).len() ==> #[trigger] trim(s, nl)[j] == s[ws_run(s, 0, nl) + j],
        trim(trim(s, nl), nl) == trim(s, nl),
{
    lemma_ws_run(s, 0, nl);
    lemma_tail_ws_run(s, s.len() as int, nl);
    let lead = ws_run(s, 0, nl) as int;
    let tail = tail_ws_run(s, s.len() as int, nl) as int;
    if lead < s.len() {
        // the leading run stops at a non-whitespace character, so the
        // trailing run cannot reach past it
        assert(!is_ws(s[lead], nl));
        assert(s.len() - tail > lead);
        let t = trim(s, nl);
        assert(t.len() == s.len() - tail - lead);
        assert(!is_ws(t[0], nl));
        assert(!is_ws(t[t.len() - 1], nl));
        assert(ws_run(t, 0, nl) == 0) by {
            lemma_ws_run(t, 0, nl);
        }
        assert(tail_ws_run(t, t.len() as int, nl) == 0) by {
            lemma_tail_ws_run(t, t.len() as int, nl);
        }
        assert(trim(t, nl) =~= t);
    } else {
        assert(trim(s, nl) =~= Seq::<char>::empty());
        assert(trim(trim(s, nl), nl) =~= Seq::<char>::empty());
    }
}

pub proof fn lemma_dist_to(s: Seq<char>, i: int, c: char)
    requires
        0 <= i <= s.len(),
    ensures
        i + dist_to(s, i, c) <= s.len(),
        forall|j: int| i <= j < i + dist_to(s, i, c) ==> #[trigger] s[j] != c,
        i + dist_to(s, i, c) < s.len() ==> s[i + dist_to(s, i, c)] == c,
    decreases s.len() - i,
{
    if i < s.len() && s[i] != c {
        lemma_dist_to(s, i + 1, c);
    }
}

/// Every line produced by splitting is free of line breaks.
pub proof fn lemma_split_lines_from(s: Seq<char>, i: int)
    requires
        0 <= i <= s.len(),
    ensures
        split_lines_from(s, i).len() >= 1,
        forall|k: int, j: int|
            0 <= k < split_lines_from(s, i).len() && 0 <= j < split_lines_from(s, i)[k].len()
                ==> #[trigger] split_lines_from(s, i)[k][j] != '\n',
    decreases s.len() - i,
{
    lemma_dist_to(s, i, '\n');
    let n = dist_to(s, i, '\n') as int;
    if i + n < s.len() {
        lemma_split_lines_from(s, i + n + 1);
        let first = s.subrange(i, i + n);
        let rest = split_lines_from(s, i + n + 1);
        assert forall|k: int, j: int|
            0 <= k < split_lines_from(s, i).len() && 0 <= j < split_lines_from(s, i)[k].len()
            implies #[trigger] split_lines_from(s, i)[k][j] != '\n' by {
            if k == 0 {
                assert(split_lines_from(s, i)[k][j] == s[i + j]);
            } else {
                assert(split_lines_from(s, i)[k] == rest[k - 1]);
            }
        }
    }
}

/// Whether `c` counts as whitespace for the chosen family.
pub fn ws_char(c: char, nl: bool) -> (r: bool)
    ensures
        r == is_ws(c, nl),
{
    c == ' ' || c == '\t' || c == '\r' || (nl && c == '\n')
}

/// First position at or after `from` holding a character that is not
/// whitespace.
pub fn scan_ws(s: &str, from: usize, nl: bool) -> (r: usize)
    requires
        from <= s@.len(),
    ensures
        r == from + ws_run(s@, from as int, nl),
        r <= s@.len(),
{
    let n = s.unicode_len();
    let mut i: usize = from;
    while i < n && ws_char(s.get_char(i), nl)
        invariant
            from <= i <= n,
            n == s@.len(),
            ws_run(s@, from as int, nl) == (i - from) + ws_run(s@, i as int, nl),
        decreases n - i,
    {
        i = i + 1;
    }
    proof {
        lemma_ws_run(s@, i as int, nl);
    }
    i
}

/// Position right after the last character of `s[..to]` that is not
/// whitespace (zero when all of it is).
pub fn scan_back_ws(s: &str, to: usize, nl: bool) -> (r: usize)
    requires
        to <= s@.len(),
    ensures
        r == to - tail_ws_run(s@, to as int, nl),
{
    let mut i: usize = to;
    while i > 0 && ws_char(s.get_char(i - 1), nl)
        invariant
            i <= to <= s@.len(),
            tail_ws_run(s@, to as int, nl) == (to - i) + tail_ws_run(s@, i as int, nl),
        decreases i,
    {
        i = i - 1;
    }
    i
}

/// First position at or after `from` holding `c`, or the length of `s`
/// when `c` does not occur there.
pub fn find_char(s: &str, from: usize, c: char) -> (r: usize)
    requires
        from <= s@.len(),
    ensures
        r == from + dist_to(s@, from as int, c),
        r <= s@.len(),
{
    let n = s.unicode_len();
    let mut i: usize = from;
    while i < n && s.get_char(i) != c
        invariant
            from <= i <= n,
            n == s@.len(),
            dist_to(s@, from as int, c) == (i - from) + dist_to(s@, i as int, c),
        decreases n - i,
    {
        i = i + 1;
    }
    proof {
        lemma_dist_to(s@, i as int, c);
    }
    i
}

/// A copy of `s[lo..hi]` with surrounding line whitespace removed.
pub fn trimmed_copy(s: &str, lo: usize, hi: usize) -> (r: String)
    requires
        lo <= hi <= s@.len(),
    ensures
        r@ == trim(s@.subrange(lo as int, hi as int), false),
{
    let sub = s.substring_char(lo, hi);
    proof {
        lemma_trim(sub@, false);
        lemma_ws_run(sub@, 0, false);
        lemma_tail_ws_run(sub@, sub@.len() as int, false);
    }
    let n = sub.unicode_len();
    let a = scan_ws(sub, 0, false);
    if a == n {
        let r = String::new();
        proof {
            assert(r@ =~= trim(sub@, false));
        }
        r
    } else {
        let b = scan_back_ws(sub, n, false);
        let r = sub.substring_char(a, b).to_owned();
        r
    }
}

/// Whether two string slices hold the same characters.
pub fn str_eq(a: &str, b: &str) -> (r: bool)
    ensures
        r == (a@ == b@),
{
    let na = a.unicode_len();
    let nb = b.unicode_len();
    if na != nb {
        return false;
    }
    let mut i: usize = 0;
    while i < na
        invariant
            i <= na,
            na == a@.len(),
            na == b@.len(),
            forall|j: int| 0 <= j < i ==> a@[j] == b@[j],
        decreases na - i,
    {
        if a.get_char(i) != b.get_char(i) {
            return false;
        }
        i = i + 1;
    }
    proof {
        assert(a@ =~= b@);
    }
    true
}

/// The lines of `s`, as owned strings.
pub fn split_lines_vec(s: &str) -> (r: Vec<String>)
    ensures
        r@.map_values(|x: String| x@) == split_lines(s@),
{
    let n = s.unicode_len();
    let mut out: Vec<String> = Vec::new();
    let mut cur: usize = 0;
    loop
        invariant
            cur <= n,
            n == s@.len(),
            split_lines(s@) == out@.map_values(|x: String| x@) + split_lines_from(
                s@,
                cur as int,
            ),
        decreases n - cur,
    {
        let p = find_char(s, cur, '\n');
        let piece = s.substring_char(cur, p).to_owned();
        proof {
            lemma_dist_to(s@, cur as int, '\n');
        }
        out.push(piece);
        if p == n {
            proof {
                let mapped = out@.map_values(|x: String| x@);
                let prev = out@.drop_last().map_values(|x: String| x@);
                assert(prev.push(out@.last()@) =~= mapped);
                assert(split_lines_from(s@, cur as int) =~= seq![
                    s@.subrange(cur as int, n as int),
                ]);
                assert(prev + split_lines_from(s@, cur as int) =~= mapped);
            }
            return out;
        }
        proof {
            let mapped = out@.map_values(|x: String| x@);
            let prev = out@.drop_last().map_values(|x: String| x@);
            assert(prev.push(out@.last()@) =~= mapped);
            assert(seq![s@.subrange(cur as int, p as int)] + split_lines_from(s@, p + 1)
                =~= split_lines_from(s@, cur as int));
            assert(prev + split_lines_from(s@, cur as int) =~= mapped + split_lines_from(
                s@,
                p + 1,
            ));
        }
        cur = p + 1;
    }
}

} // verus!
