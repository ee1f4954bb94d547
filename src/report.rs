//! Reading the network name out of the operating system's one-line report,
//! `Current Wi-Fi Network: <name>`.

use vstd::prelude::*;

verus! {

/// Unicode's `White_Space` property.
pub open spec fn is_white_space(c: char) -> bool {
    let u = c as u32;
    ||| 0x09 <= u <= 0x0D
    ||| u == 0x20
    ||| u == 0x85
    ||| u == 0xA0
    ||| u == 0x1680
    ||| 0x2000 <= u <= 0x200A
    ||| u == 0x2028
    ||| u == 0x2029
    ||| u == 0x202F
    ||| u == 0x205F
    ||| u == 0x3000
}

/// `s` without its leading white space.
pub open spec fn trim_start(s: Seq<char>) -> Seq<char>
    decreases s.len(),
{
    if s.len() > 0 && is_white_space(s[0]) {
        trim_start(s.drop_first())
    } else {
        s
    }
}

/// `s` without its trailing white space.
pub open spec fn trim_end(s: Seq<char>) -> Seq<char>
    decreases s.len(),
{
    if s.len() > 0 && is_white_space(s.last()) {
        trim_end(s.drop_last())
    } else {
        s
    }
}

/// `s` without white space at either end.
pub open spec fn trim(s: Seq<char>) -> Seq<char> {
    trim_end(trim_start(s))
}

/// A separator `": "` starts at `i`.
pub open spec fn is_sep(s: Seq<char>, i: int) -> bool {
    0 <= i && i + 1 < s.len() && s[i] == ':' && s[i + 1] == ' '
}

/// The first separator at or after `from`, or `s.len()` if there is none.
pub open spec fn next_sep(s: Seq<char>, from: int) -> int
    decreases s.len() - from,
{
    if from < 0 || from + 1 >= s.len() {
        s.len() as int
    } else if is_sep(s, from) {
        from
    } else {
        next_sep(s, from + 1)
    }
}

/// The network named by a report: the text between the first separator and
/// the next one (or the end), without surrounding white space; none where
/// the report holds no separator.
pub open spec fn network_in(s: Seq<char>) -> Option<Seq<char>> {
    let p = next_sep(s, 0);
    if p == s.len() {
        None
    } else {
        Some(trim(s.subrange(p + 2, next_sep(s, p + 2))))
    }
}

pub fn is_white_space_char(c: char) -> (r: bool)
    ensures
        r == is_white_space(c),
{
    let u = c as u32;
    (0x09 <= u && u <= 0x0D) || u == 0x20 || u == 0x85 || u == 0xA0 || u == 0x1680
        || (0x2000 <= u && u <= 0x200A) || u == 0x2028 || u == 0x2029 || u == 0x202F
        || u == 0x205F || u == 0x3000
}

proof fn lemma_next_sep_bounds(s: Seq<char>, from: int)
    requires
        0 <= from,
    ensures
        from <= next_sep(s, from) <= s.len() || next_sep(s, from) == s.len(),
        next_sep(s, from) < s.len() ==> is_sep(s, next_sep(s, from)),
        forall|k: int| from <= k < next_sep(s, from) ==> !is_sep(s, k),
    decreases s.len() - from,
{
    if from + 1 < s.len() && !is_sep(s, from) {
        lemma_next_sep_bounds(s, from + 1);
    }
}

/// The first separator at or after `from`, or the length of `s`.
fn find_sep(s: &str, n: usize, from: usize) -> (r: usize)
    requires
        n == s@.len(),
        from <= n,
    ensures
        r as int == next_sep(s@, from as int),
{
    let mut i = from;
    while i < n && n - i > 1 && !(s.get_char(i) == ':' && s.get_char(i + 1) == ' ')
        invariant
            n == s@.len(),
            from <= i <= n,
            next_sep(s@, i as int) == next_sep(s@, from as int),
        decreases n - i,
    {
        i = i + 1;
    }
    if i < n && n - i > 1 {
        i
    } else {
        n
    }
}

/// White space removed from both ends of `s`.
pub fn trim_text(s: &str) -> (r: String)
    ensures
        r@ == trim(s@),
{
    let n = s.unicode_len();
    let mut a: usize = 0;
    assert(s@.subrange(0, n as int) =~= s@);
    while a < n && is_white_space_char(s.get_char(a))
        invariant
            n == s@.len(),
            0 <= a <= n,
            trim_start(s@) == trim_start(s@.subrange(a as int, n as int)),
        decreases n - a,
    {
        assert(s@.subrange(a as int, n as int).drop_first() =~= s@.subrange(a + 1, n as int));
        a = a + 1;
    }
    assert(trim_start(s@) == s@.subrange(a as int, n as int));
    let ghost t = s@.subrange(a as int, n as int);
    let mut b: usize = n;
    while b > a && is_white_space_char(s.get_char(b - 1))
        invariant
            n == s@.len(),
            0 <= a <= b <= n,
            t == s@.subrange(a as int, n as int),
            trim_end(t) == trim_end(s@.subrange(a as int, b as int)),
        decreases b - a,
    {
        assert(s@.subrange(a as int, b as int).drop_last() =~= s@.subrange(a as int, b - 1));
        b = b - 1;
    }
    assert(trim_end(t) == s@.subrange(a as int, b as int));
    String::from_str(s.substring_char(a, b))
}

/// The network named by a report of the operating system, if it names one.
pub fn network_from_report(report: &str) -> (r: Option<String>)
    ensures
        match network_in(report@) {
            Some(name) => r is Some && r->Some_0@ == name,
            None => r is None,
        },
{
    let n = report.unicode_len();
    let p = find_sep(report, n, 0);
    if p == n {
        None
    } else {
        proof {
            lemma_next_sep_bounds(report@, 0);
        }
        let q = find_sep(report, n, p + 2);
        proof {
            lemma_next_sep_bounds(report@, p + 2);
        }
        Some(trim_text(report.substring_char(p + 2, q)))
    }
}

} // verus!
