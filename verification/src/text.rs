//! Verified text primitives for the router: splitting, searching,
//! trimming, joining, equality and decimal rendering over `&str` /
//! `String`, each specified against a recursive spec function on
//! `Seq<char>`.

use vstd::prelude::*;

verus! {

use vstd::string::StrSliceExecFns;
use vstd::string::StringExecFns;

// ---------------------------------------------------------------------
// Splitting on a single separator character
// ---------------------------------------------------------------------

/// The segments of `s` split on `sep`.  There is always at least one
/// segment; the empty sequence splits into one empty segment, and a
/// separator at either end contributes an empty segment.
pub open spec fn split_char_spec(s: Seq<char>, sep: char) -> Seq<Seq<char>>
    decreases s.len(),
{
    if s.len() == 0 {
        seq![Seq::<char>::empty()]
    } else if s[0] == sep {
        seq![Seq::<char>::empty()] + split_char_spec(s.skip(1), sep)
    } else {
        let rest = split_char_spec(s.skip(1), sep);
        rest.update(0, seq![s[0]] + rest[0])
    }
}

pub proof fn lemma_split_char_len(s: Seq<char>, sep: char)
    ensures
        split_char_spec(s, sep).len() >= 1,
    decreases s.len(),
{
    if s.len() != 0 {
        lemma_split_char_len(s.skip(1), sep);
    }
}

/// The tail of the split of `s` from position `i`, with the pending
/// characters `s[start..i]` prepended to its first segment.  The loop
/// in `split_char` has turned `s[..start]` into whole segments already
/// pushed and has scanned `s[start..i]` without finding a separator.
spec fn split_char_pending(s: Seq<char>, sep: char, start: int, i: int) -> Seq<Seq<char>> {
    let rest = split_char_spec(s.skip(i), sep);
    rest.update(0, s.subrange(start, i) + rest[0])
}

pub fn split_char(s: &str, sep: char) -> (r: Vec<String>)
    ensures
        r.deep_view() == split_char_spec(s@, sep),
{
    let n = s.unicode_len();
    let mut segs: Vec<String> = Vec::new();
    let mut start: usize = 0;
    let mut i: usize = 0;
    proof {
        assert(s@.skip(0) =~= s@);
        lemma_split_char_len(s@, sep);
        assert(segs.deep_view() =~~= Seq::<Seq<char>>::empty());
        assert(split_char_spec(s@, sep) =~~= segs.deep_view() + split_char_pending(
            s@,
            sep,
            0,
            0,
        ));
    }
    while i < n
        invariant
            n == s@.len(),
            start <= i <= n,
            split_char_spec(s@, sep) == segs.deep_view() + split_char_pending(
                s@,
                sep,
                start as int,
                i as int,
            ),
        decreases n - i,
    {
        proof {
            lemma_split_char_len(s@.skip(i as int), sep);
            lemma_split_char_len(s@.skip(i + 1), sep);
            assert(s@.skip(i as int).skip(1) =~= s@.skip(i + 1));
            assert(s@.skip(i as int)[0] == s@[i as int]);
        }
        let ghost segs0 = segs.deep_view();
        let c = s.get_char(i);
        if c == sep {
            let seg = s.substring_char(start, i).to_owned();
            segs.push(seg);
            proof {
                assert(segs.deep_view() =~~= segs0.push(seg@));
                assert(s@.subrange(i + 1, i + 1) =~= Seq::<char>::empty());
                assert(split_char_pending(s@, sep, start as int, i as int) =~~= seq![
                    s@.subrange(start as int, i as int),
                ] + split_char_pending(s@, sep, i + 1, i + 1));
                assert(split_char_spec(s@, sep) =~~= segs.deep_view() + split_char_pending(
                    s@,
                    sep,
                    i + 1,
                    i + 1,
                ));
            }
            start = i + 1;
        } else {
            proof {
                let rest = split_char_spec(s@.skip(i + 1), sep);
                assert(s@.subrange(start as int, i as int) + seq![s@[i as int]] + rest[0]
                    =~= s@.subrange(start as int, i + 1) + rest[0]);
                assert(split_char_pending(s@, sep, start as int, i as int)
                    =~~= split_char_pending(s@, sep, start as int, i + 1));
            }
        }
        i = i + 1;
    }
    let ghost segs0 = segs.deep_view();
    let seg = s.substring_char(start, n).to_owned();
    segs.push(seg);
    proof {
        assert(segs.deep_view() =~~= segs0.push(seg@));
        assert(s@.skip(n as int) =~= Seq::<char>::empty());
        assert(split_char_pending(s@, sep, start as int, n as int) =~~= seq![
            s@.subrange(start as int, n as int),
        ]);
        assert(segs.deep_view() =~~= split_char_spec(s@, sep));
    }
    segs
}

// ---------------------------------------------------------------------
// Splitting on CRLF
// ---------------------------------------------------------------------

/// The lines of `s` split on the two-character separator `\r\n`.
/// Always at least one line; a lone `\r` or `\n` stays inside a line.
pub open spec fn split_crlf_spec(s: Seq<char>) -> Seq<Seq<char>>
    decreases s.len(),
{
    if s.len() == 0 {
        seq![Seq::<char>::empty()]
    } else if s.len() >= 2 && s[0] == '\r' && s[1] == '\n' {
        seq![Seq::<char>::empty()] + split_crlf_spec(s.skip(2))
    } else {
        let rest = split_crlf_spec(s.skip(1));
        rest.update(0, seq![s[0]] + rest[0])
    }
}

pub proof fn lemma_split_crlf_len(s: Seq<char>)
    ensures
        split_crlf_spec(s).len() >= 1,
    decreases s.len(),
{
    if s.len() == 0 {
    } else if s.len() >= 2 && s[0] == '\r' && s[1] == '\n' {
        lemma_split_crlf_len(s.skip(2));
    } else {
        lemma_split_crlf_len(s.skip(1));
    }
}

/// Like `split_char_pending`, for the CRLF split.
spec fn split_crlf_pending(s: Seq<char>, start: int, i: int) -> Seq<Seq<char>> {
    let rest = split_crlf_spec(s.skip(i));
    rest.update(0, s.subrange(start, i) + rest[0])
}

pub fn split_crlf(s: &str) -> (r: Vec<String>)
    ensures
        r.deep_view() == split_crlf_spec(s@),
{
    let n = s.unicode_len();
    let mut segs: Vec<String> = Vec::new();
    let mut start: usize = 0;
    let mut i: usize = 0;
    proof {
        assert(s@.skip(0) =~= s@);
        lemma_split_crlf_len(s@);
        assert(split_crlf_spec(s@) =~~= segs.deep_view() + split_crlf_pending(s@, 0, 0));
    }
    while i < n
        invariant
            n == s@.len(),
            start <= i <= n,
            split_crlf_spec(s@) == segs.deep_view() + split_crlf_pending(
                s@,
                start as int,
                i as int,
            ),
        decreases n - i,
    {
        proof {
            lemma_split_crlf_len(s@.skip(i as int));
            lemma_split_crlf_len(s@.skip(i + 1));
            assert(s@.skip(i as int).skip(1) =~= s@.skip(i + 1));
            assert(s@.skip(i as int)[0] == s@[i as int]);
            if i + 1 < n {
                assert(s@.skip(i as int)[1] == s@[i + 1]);
            }
        }
        let ghost segs0 = segs.deep_view();
        let c = s.get_char(i);
        if c == '\r' && i + 1 < n && s.get_char(i + 1) == '\n' {
            let seg = s.substring_char(start, i).to_owned();
            segs.push(seg);
            proof {
                lemma_split_crlf_len(s@.skip(i + 2));
                assert(s@.skip(i as int).skip(2) =~= s@.skip(i + 2));
                assert(segs.deep_view() =~~= segs0.push(seg@));
                assert(s@.subrange(i + 2, i + 2) =~= Seq::<char>::empty());
                assert(split_crlf_pending(s@, start as int, i as int) =~~= seq![
                    s@.subrange(start as int, i as int),
                ] + split_crlf_pending(s@, i + 2, i + 2));
                assert(split_crlf_spec(s@) =~~= segs.deep_view() + split_crlf_pending(
                    s@,
                    i + 2,
                    i + 2,
                ));
            }
            start = i + 2;
            i = i + 2;
        } else {
            proof {
                let rest = split_crlf_spec(s@.skip(i + 1));
                assert(s@.subrange(start as int, i as int) + seq![s@[i as int]] + rest[0]
                    =~= s@.subrange(start as int, i + 1) + rest[0]);
                assert(split_crlf_pending(s@, start as int, i as int) =~~= split_crlf_pending(
                    s@,
                    start as int,
                    i + 1,
                ));
            }
            i = i + 1;
        }
    }
    let ghost segs0 = segs.deep_view();
    let seg = s.substring_char(start, n).to_owned();
    segs.push(seg);
    proof {
        assert(segs.deep_view() =~~= segs0.push(seg@));
        assert(s@.skip(n as int) =~= Seq::<char>::empty());
        assert(split_crlf_pending(s@, start as int, n as int) =~~= seq![
            s@.subrange(start as int, n as int),
        ]);
        assert(segs.deep_view() =~~= split_crlf_spec(s@));
    }
    segs
}

// ---------------------------------------------------------------------
// First occurrence of a character
// ---------------------------------------------------------------------

/// Index of the first occurrence of `c` in `s`, if any.
pub open spec fn find_char_spec(s: Seq<char>, c: char) -> Option<int>
    decreases s.len(),
{
    if s.len() == 0 {
        None
    } else if s[0] == c {
        Some(0int)
    } else {
        match find_char_spec(s.skip(1), c) {
            None => None,
            Some(k) => Some(k + 1),
        }
    }
}

/// `find_char_spec` returns the first index holding `c`, and `None`
/// exactly when `c` does not occur.
pub proof fn lemma_find_char_spec(s: Seq<char>, c: char)
    ensures
        match find_char_spec(s, c) {
            Some(k) => 0 <= k < s.len() && s[k] == c && (forall|j: int| 0 <= j < k ==> s[j] != c),
            None => forall|j: int| 0 <= j < s.len() ==> s[j] != c,
        },
    decreases s.len(),
{
    if s.len() == 0 {
    } else if s[0] == c {
    } else {
        lemma_find_char_spec(s.skip(1), c);
        assert forall|j: int| 1 <= j < s.len() implies s[j] == s.skip(1)[j - 1] by {}
    }
}

pub fn find_char(s: &str, c: char) -> (r: Option<usize>)
    ensures
        match r {
            Some(k) => find_char_spec(s@, c) == Some(k as int),
            None => find_char_spec(s@, c) is None,
        },
{
    let n = s.unicode_len();
    let mut i: usize = 0;
    while i < n
        invariant
            n == s@.len(),
            i <= n,
            forall|j: int| 0 <= j < i ==> s@[j] != c,
        decreases n - i,
    {
        if s.get_char(i) == c {
            proof {
                lemma_find_char_spec(s@, c);
            }
            return Some(i);
        }
        i = i + 1;
    }
    proof {
        lemma_find_char_spec(s@, c);
    }
    None
}

// ---------------------------------------------------------------------
// Character-for-character string equality
// ---------------------------------------------------------------------

pub fn str_eq(a: &str, b: &str) -> (r: bool)
    ensures
        r == (a@ == b@),
{
    let na = a.unicode_len();
    let nb = b.unicode_len();
    if na != nb {
        return false;
    }
    let mut i: usize = 0;
    while i < na
        invariant
            na == a@.len(),
            na == b@.len(),
            i <= na,
            forall|j: int| 0 <= j < i ==> a@[j] == b@[j],
        decreases na - i,
    {
        if a.get_char(i) != b.get_char(i) {
            return false;
        }
        i = i + 1;
    }
    proof {
        assert(a@ =~= b@);
    }
    true
}

// ---------------------------------------------------------------------
// Trimming surrounding whitespace
// ---------------------------------------------------------------------

/// ASCII whitespace, as found around header values.
pub open spec fn is_space_char(c: char) -> bool {
    c == ' ' || c == '\t' || c == '\n' || c == '\u{c}' || c == '\r'
}

pub open spec fn trim_front_spec(s: Seq<char>) -> Seq<char>
    decreases s.len(),
{
    if s.len() > 0 && is_space_char(s[0]) {
        trim_front_spec(s.skip(1))
    } else {
        s
    }
}

pub open spec fn trim_back_spec(s: Seq<char>) -> Seq<char>
    decreases s.len(),
{
    if s.len() > 0 && is_space_char(s.last()) {
        trim_back_spec(s.drop_last())
    } else {
        s
    }
}

/// `s` with leading and trailing ASCII whitespace removed.
pub open spec fn trim_spec(s: Seq<char>) -> Seq<char> {
    trim_back_spec(trim_front_spec(s))
}

fn is_space(c: char) -> (r: bool)
    ensures
        r == is_space_char(c),
{
    c == ' ' || c == '\t' || c == '\n' || c == '\u{c}' || c == '\r'
}

pub fn trim(s: &str) -> (r: String)
    ensures
        r@ == trim_spec(s@),
{
    let n = s.unicode_len();
    let mut a: usize = 0;
    proof {
        assert(s@.skip(0) =~= s@);
    }
    while a < n && is_space(s.get_char(a))
        invariant
            n == s@.len(),
            a <= n,
            trim_front_spec(s@) == trim_front_spec(s@.skip(a as int)),
        decreases n - a,
    {
        proof {
            assert(s@.skip(a as int).skip(1) =~= s@.skip(a + 1));
            assert(s@.skip(a as int)[0] == s@[a as int]);
        }
        a = a + 1;
    }
    proof {
        assert(trim_front_spec(s@) == s@.skip(a as int));
        assert(s@.subrange(a as int, n as int) =~= s@.skip(a as int));
    }
    let mut b: usize = n;
    while b > a && is_space(s.get_char(b - 1))
        invariant
            n == s@.len(),
            a <= b <= n,
            trim_back_spec(s@.skip(a as int)) == trim_back_spec(s@.subrange(a as int, b as int)),
        decreases b,
    {
        proof {
            assert(s@.subrange(a as int, b as int).drop_last() =~= s@.subrange(a as int, b - 1));
            assert(s@.subrange(a as int, b as int).last() == s@[b - 1]);
        }
        b = b - 1;
    }
    proof {
        assert(trim_back_spec(s@.subrange(a as int, b as int)) == s@.subrange(a as int, b as int));
    }
    s.substring_char(a, b).to_owned()
}

/// Rejoining the segments of a `/`-split with `/` gives the original
/// sequence back: the segments of a path carry all of its characters.
pub proof fn lemma_join_split_slash(s: Seq<char>)
    ensures
        join_slash_spec(split_char_spec(s, '/')) == s,
    decreases s.len(),
{
    if s.len() == 0 {
        assert(join_slash_spec(seq![Seq::<char>::empty()]) == Seq::<char>::empty());
        assert(s =~= Seq::<char>::empty());
    } else {
        lemma_join_split_slash(s.skip(1));
        lemma_split_char_len(s.skip(1), '/');
        let r = split_char_spec(s.skip(1), '/');
        if s[0] == '/' {
            let whole = seq![Seq::<char>::empty()] + r;
            assert(split_char_spec(s, '/') == whole);
            assert(whole[0] =~= Seq::<char>::empty());
            assert(whole.skip(1) =~~= r);
            assert(join_slash_spec(whole) == whole[0] + seq!['/'] + join_slash_spec(r));
            assert(whole[0] + seq!['/'] + s.skip(1) =~= s);
        } else {
            let whole = r.update(0, seq![s[0]] + r[0]);
            assert(split_char_spec(s, '/') == whole);
            if r.len() == 1 {
                assert(join_slash_spec(whole) == whole[0]);
                assert(join_slash_spec(r) == r[0]);
                assert(seq![s[0]] + r[0] =~= s);
            } else {
                assert(whole.skip(1) =~~= r.skip(1));
                assert(join_slash_spec(whole) == whole[0] + seq!['/'] + join_slash_spec(
                    whole.skip(1),
                ));
                assert(join_slash_spec(r) == r[0] + seq!['/'] + join_slash_spec(r.skip(1)));
                assert((seq![s[0]] + r[0]) + seq!['/'] + join_slash_spec(r.skip(1)) =~= seq![s[0]]
                    + (r[0] + seq!['/'] + join_slash_spec(r.skip(1))));
                assert(seq![s[0]] + s.skip(1) =~= s);
            }
        }
    }
}

// ---------------------------------------------------------------------
// Stripping a leading prefix
// ---------------------------------------------------------------------

/// `s` without the prefix `p`, or `s` itself when `p` is not a prefix.
/// Used to turn a file path under the serving directory into its
/// route path.
pub open spec fn strip_prefix_spec(s: Seq<char>, p: Seq<char>) -> Seq<char> {
    if p.len() <= s.len() && s.take(p.len() as int) == p {
        s.skip(p.len() as int)
    } else {
        s
    }
}

pub fn strip_prefix(s: &str, p: &str) -> (r: String)
    ensures
        r@ == strip_prefix_spec(s@, p@),
{
    let n = s.unicode_len();
    let m = p.unicode_len();
    if m <= n && str_eq(s.substring_char(0, m), p) {
        proof {
            assert(s@.subrange(0, m as int) =~= s@.take(m as int));
        }
        s.substring_char(m, n).to_owned()
    } else {
        proof {
            if m <= n {
                assert(s@.subrange(0, m as int) =~= s@.take(m as int));
            }
        }
        s.to_owned()
    }
}

// ---------------------------------------------------------------------
// Joining segments with '/'
// ---------------------------------------------------------------------

/// The segments rejoined with `/` between them.
pub open spec fn join_slash_spec(segs: Seq<Seq<char>>) -> Seq<char>
    decreases segs.len(),
{
    if segs.len() == 0 {
        Seq::empty()
    } else if segs.len() == 1 {
        segs[0]
    } else {
        segs[0] + seq!['/'] + join_slash_spec(segs.skip(1))
    }
}

pub proof fn lemma_join_slash_push(segs: Seq<Seq<char>>, x: Seq<char>)
    requires
        segs.len() >= 1,
    ensures
        join_slash_spec(segs.push(x)) == join_slash_spec(segs) + seq!['/'] + x,
    decreases segs.len(),
{
    if segs.len() == 1 {
        assert(segs.push(x).skip(1) =~~= seq![x]);
        assert(segs.push(x)[0] == segs[0]);
        assert(join_slash_spec(seq![x]) == x);
    } else {
        lemma_join_slash_push(segs.skip(1), x);
        assert(segs.push(x).skip(1) =~~= segs.skip(1).push(x));
        assert(segs.push(x)[0] == segs[0]);
        assert(segs[0] + seq!['/'] + (join_slash_spec(segs.skip(1)) + seq!['/'] + x) =~= (segs[0]
            + seq!['/'] + join_slash_spec(segs.skip(1))) + seq!['/'] + x);
    }
    assert(join_slash_spec(segs.push(x)) =~= join_slash_spec(segs) + seq!['/'] + x);
}

// ---------------------------------------------------------------------
// Decimal rendering of an unsigned integer
// ---------------------------------------------------------------------

pub open spec fn digit_char_spec(d: nat) -> char {
    if d == 0 {
        '0'
    } else if d == 1 {
        '1'
    } else if d == 2 {
        '2'
    } else if d == 3 {
        '3'
    } else if d == 4 {
        '4'
    } else if d == 5 {
        '5'
    } else if d == 6 {
        '6'
    } else if d == 7 {
        '7'
    } else if d == 8 {
        '8'
    } else {
        '9'
    }
}

/// The usual decimal digits of `n`, most significant first, no sign,
/// no leading zero except for `n == 0` itself.
pub open spec fn dec_str_spec(n: nat) -> Seq<char>
    decreases n,
{
    if n < 10 {
        seq![digit_char_spec(n)]
    } else {
        dec_str_spec(n / 10).push(digit_char_spec(n % 10))
    }
}

/// Decimal digits are never carriage returns or line feeds, so a
/// rendered length cannot form a header/body separator.
pub proof fn lemma_dec_str_digits(n: nat)
    ensures
        forall|k: int|
            0 <= k < dec_str_spec(n).len() ==> #[trigger] dec_str_spec(n)[k] != '\r'
                && dec_str_spec(n)[k] != '\n',
    decreases n,
{
    if n < 10 {
        assert(dec_str_spec(n)[0] == digit_char_spec(n));
    } else {
        lemma_dec_str_digits(n / 10);
        let prev = dec_str_spec(n / 10);
        let whole = dec_str_spec(n);
        assert forall|k: int| 0 <= k < whole.len() implies #[trigger] whole[k] != '\r' && whole[k]
            != '\n' by {
            if k < prev.len() {
                assert(whole[k] == prev[k]);
            } else {
                assert(whole[k] == digit_char_spec(n % 10));
            }
        }
    }
}

fn digit_str(d: u64) -> (r: &'static str)
    requires
        d < 10,
    ensures
        r@ == seq![digit_char_spec(d as nat)],
{
    proof {
        reveal_strlit("0");
        reveal_strlit("1");
        reveal_strlit("2");
        reveal_strlit("3");
        reveal_strlit("4");
        reveal_strlit("5");
        reveal_strlit("6");
        reveal_strlit("7");
        reveal_strlit("8");
        reveal_strlit("9");
    }
    let r = if d == 0 {
        "0"
    } else if d == 1 {
        "1"
    } else if d == 2 {
        "2"
    } else if d == 3 {
        "3"
    } else if d == 4 {
        "4"
    } else if d == 5 {
        "5"
    } else if d == 6 {
        "6"
    } else if d == 7 {
        "7"
    } else if d == 8 {
        "8"
    } else {
        "9"
    };
    proof {
        assert(r@ =~= seq![digit_char_spec(d as nat)]);
    }
    r
}

pub fn u64_to_dec(n: u64) -> (r: String)
    ensures
        r@ == dec_str_spec(n as nat),
    decreases n,
{
    if n < 10 {
        digit_str(n).to_owned()
    } else {
        let mut r = u64_to_dec(n / 10);
        r.append(digit_str(n % 10));
        proof {
            assert((n / 10) as nat == (n as nat) / 10);
            assert((n % 10) as nat == (n as nat) % 10);
            assert(r@ =~= dec_str_spec(n as nat));
        }
        r
    }
}

} // verus!
