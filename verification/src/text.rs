//! Text helpers for the library index: case folding, artist-name
//! normalization, substring search, and the semicolon lists used by the
//! settings store. Everything here is verified except the two thin calls
//! into the standard library (`to_lowercase`, `is_whitespace`), whose
//! results are only given names.

use vstd::prelude::*;
use vstd::string::StrSliceExecFns;
use vstd::string::StringExecFns;

verus! {

// ---------------------------------------------------------------------
// Case folding and whitespace, named after the standard library calls.
// ---------------------------------------------------------------------

/// What `str::to_lowercase` returns for a given character sequence.
pub uninterp spec fn lower_of(s: Seq<char>) -> Seq<char>;

/// Relies on `str::to_lowercase`: the result depends on the characters
/// alone, and an empty string stays empty.
#[verifier::external_body]
pub(crate) fn lowercase(s: &str) -> (r: String)
    ensures
        r@ == lower_of(s@),
        s@.len() == 0 ==> r@.len() == 0,
{
    s.to_lowercase()
}

/// Whether `char::is_whitespace` holds of a given character.
pub uninterp spec fn white_space(c: char) -> bool;

/// Relies on `char::is_whitespace`: the result depends on the character
/// alone.
#[verifier::external_body]
pub(crate) fn is_space(c: char) -> (r: bool)
    ensures
        r == white_space(c),
{
    c.is_whitespace()
}

// ---------------------------------------------------------------------
// Scanning for the first character that satisfies a predicate.
// ---------------------------------------------------------------------

/// Index of the first position at or after `i` whose character satisfies
/// `f`, or `s.len()` if there is none.
pub open spec fn scan_to(s: Seq<char>, f: spec_fn(char) -> bool, i: int) -> int
    decreases s.len() - i,
        when 0 <= i <= s.len()
{
    if i >= s.len() {
        i
    } else if f(s[i]) {
        i
    } else {
        scan_to(s, f, i + 1)
    }
}

pub proof fn lemma_scan_to_bounds(s: Seq<char>, f: spec_fn(char) -> bool, i: int)
    requires
        0 <= i <= s.len(),
    ensures
        i <= scan_to(s, f, i) <= s.len(),
        scan_to(s, f, i) < s.len() ==> f(s[scan_to(s, f, i)]),
        forall|j: int| i <= j < scan_to(s, f, i) ==> !f(s[j]),
    decreases s.len() - i,
{
    if i < s.len() && !f(s[i]) {
        lemma_scan_to_bounds(s, f, i + 1);
    }
}

pub proof fn lemma_scan_to_found(s: Seq<char>, f: spec_fn(char) -> bool, i: int, e: int)
    requires
        0 <= i <= e <= s.len(),
        forall|j: int| i <= j < e ==> !f(s[j]),
        e == s.len() || f(s[e]),
    ensures
        scan_to(s, f, i) == e,
    decreases e - i,
{
    if i < e {
        lemma_scan_to_found(s, f, i + 1, e);
    }
}

// ---------------------------------------------------------------------
// Substring search (used by the library filter).
// ---------------------------------------------------------------------

/// `needle` occurs in `hay` starting at position `k`.
pub open spec fn occurs_at(hay: Seq<char>, needle: Seq<char>, k: int) -> bool {
    0 <= k && k + needle.len() <= hay.len() && hay.subrange(k, k + needle.len()) == needle
}

/// `needle` occurs somewhere in `hay`; every string contains the empty one.
pub open spec fn contains_seq(hay: Seq<char>, needle: Seq<char>) -> bool {
    exists|k: int| occurs_at(hay, needle, k)
}

/// Substring test over the characters of two strings.
pub fn contains_str(hay: &str, needle: &str) -> (r: bool)
    ensures
        r == contains_seq(hay@, needle@),
{
    let hl = hay.unicode_len();
    let nl = needle.unicode_len();
    if nl == 0 {
        proof {
            assert(hay@.subrange(0, 0) =~= needle@);
            assert(occurs_at(hay@, needle@, 0));
        }
        return true;
    }
    if nl > hl {
        proof {
            assert(forall|k: int| !occurs_at(hay@, needle@, k));
        }
        return false;
    }
    let mut k: usize = 0;
    while k <= hl - nl
        invariant
            hl == hay@.len(),
            nl == needle@.len(),
            0 < nl <= hl,
            k <= hl - nl + 1,
            forall|j: int| 0 <= j < k ==> !occurs_at(hay@, needle@, j),
        decreases hl - nl + 1 - k,
    {
        let mut i: usize = 0;
        let mut mismatch = false;
        while i < nl && !mismatch
            invariant
                hl == hay@.len(),
                nl == needle@.len(),
                k + nl <= hl,
                i <= nl,
                !mismatch ==> forall|m: int| 0 <= m < i ==> hay@[k + m] == needle@[m],
                mismatch ==> !occurs_at(hay@, needle@, k as int),
            decreases nl - i,
        {
            let hc = hay.get_char(k + i);
            let nc = needle.get_char(i);
            if hc != nc {
                proof {
                    let kk = k as int;
                    if occurs_at(hay@, needle@, kk) {
                        assert(hay@.subrange(kk, kk + nl)[i as int] == needle@[i as int]);
                    }
                }
                mismatch = true;
            }
            i = i + 1;
        }
        if !mismatch {
            proof {
                assert(hay@.subrange(k as int, k + nl) =~= needle@);
                assert(occurs_at(hay@, needle@, k as int));
            }
            return true;
        }
        k = k + 1;
    }
    proof {
        assert forall|j: int| !occurs_at(hay@, needle@, j) by {
            if occurs_at(hay@, needle@, j) {
                assert(0 <= j < k);
            }
        }
    }
    false
}

// ---------------------------------------------------------------------
// Character-wise string equality.
// ---------------------------------------------------------------------

pub fn str_eq(a: &str, b: &str) -> (r: bool)
    ensures
        r == (a@ == b@),
{
    let n = a.unicode_len();
    if n != b.unicode_len() {
        return false;
    }
    let mut i: usize = 0;
    while i < n
        invariant
            n == a@.len(),
            n == b@.len(),
            i <= n,
            forall|j: int| 0 <= j < i ==> a@[j] == b@[j],
        decreases n - i,
    {
        if a.get_char(i) != b.get_char(i) {
            return false;
        }
        i = i + 1;
    }
    proof {
        assert(a@ =~= b@);
    }
    true
}

/// Whether some string in `v` has exactly the characters of `x`.
pub fn contains_string(v: &Vec<String>, x: &str) -> (r: bool)
    ensures
        r == exists|k: int| 0 <= k < v@.len() && v@[k]@ == x@,
{
    let mut i: usize = 0;
    while i < v.len()
        invariant
            i <= v@.len(),
            forall|k: int| 0 <= k < i ==> v@[k]@ != x@,
        decreases v@.len() - i,
    {
        if str_eq(v[i].as_str(), x) {
            return true;
        }
        i = i + 1;
    }
    false
}

// ---------------------------------------------------------------------
// Trimming (leans on the named whitespace predicate).
// ---------------------------------------------------------------------

pub open spec fn trim_front(s: Seq<char>) -> Seq<char>
    decreases s.len(),
{
    if s.len() > 0 && white_space(s[0]) {
        trim_front(s.drop_first())
    } else {
        s
    }
}

pub open spec fn trim_back(s: Seq<char>) -> Seq<char>
    decreases s.len(),
{
    if s.len() > 0 && white_space(s.last()) {
        trim_back(s.drop_last())
    } else {
        s
    }
}

/// The characters of `s` with leading and trailing whitespace removed.
pub open spec fn trim_spec(s: Seq<char>) -> Seq<char> {
    trim_back(trim_front(s))
}

/// The trimmed copy of the characters of `s` between `lo` and `hi`.
fn trimmed_segment(s: &str, lo: usize, hi: usize) -> (r: String)
    requires
        lo <= hi <= s@.len(),
    ensures
        r@ == trim_spec(s@.subrange(lo as int, hi as int)),
{
    let mut a = lo;
    while a < hi
        invariant
            lo <= a <= hi <= s@.len(),
            trim_front(s@.subrange(lo as int, hi as int)) == trim_front(
                s@.subrange(a as int, hi as int),
            ),
        ensures
            lo <= a <= hi,
            trim_front(s@.subrange(lo as int, hi as int)) == trim_front(
                s@.subrange(a as int, hi as int),
            ),
            a == hi || !white_space(s@[a as int]),
        decreases hi - a,
    {
        let c = s.get_char(a);
        if !is_space(c) {
            break;
        }
        proof {
            assert(s@.subrange(a as int, hi as int).drop_first() =~= s@.subrange(
                a + 1,
                hi as int,
            ));
        }
        a = a + 1;
    }
    proof {
        if a < hi {
            assert(s@.subrange(a as int, hi as int)[0] == s@[a as int]);
        }
        assert(trim_front(s@.subrange(a as int, hi as int)) == s@.subrange(a as int, hi as int));
    }
    let mut b = hi;
    while b > a
        invariant
            a <= b <= hi <= s@.len(),
            trim_back(s@.subrange(a as int, hi as int)) == trim_back(
                s@.subrange(a as int, b as int),
            ),
        ensures
            a <= b <= hi,
            trim_back(s@.subrange(a as int, hi as int)) == trim_back(
                s@.subrange(a as int, b as int),
            ),
            b == a || !white_space(s@[b - 1]),
        decreases b,
    {
        let c = s.get_char(b - 1);
        if !is_space(c) {
            break;
        }
        proof {
            assert(s@.subrange(a as int, b as int).last() == s@[b - 1]);
            assert(s@.subrange(a as int, b as int).drop_last() =~= s@.subrange(a as int, b - 1));
        }
        b = b - 1;
    }
    proof {
        if b > a {
            assert(s@.subrange(a as int, b as int).last() == s@[b - 1]);
        }
        assert(trim_back(s@.subrange(a as int, b as int)) == s@.subrange(a as int, b as int));
    }
    String::from_str(s.substring_char(a, b))
}

// ---------------------------------------------------------------------
// Primary-artist normalization: split the raw artist string on ',', '&'
// and '/', take the first segment whose trimmed form is non-empty, and
// fall back to the whole string when every segment is blank.
// ---------------------------------------------------------------------

/// The characters that separate artists in a combined credit.
pub open spec fn is_sep(c: char) -> bool {
    c == ',' || c == '&' || c == '/'
}

fn is_sep_char(c: char) -> (r: bool)
    ensures
        r == is_sep(c),
{
    c == ',' || c == '&' || c == '/'
}

/// End of the segment that starts at `i`: the first separator at or after
/// `i`, or the end of the string.
pub open spec fn seg_end(s: Seq<char>, i: int) -> int {
    scan_to(s, |c: char| is_sep(c), i)
}

/// The first non-blank trimmed segment at or after position `i`, if any.
pub open spec fn primary_from(s: Seq<char>, i: int) -> Option<Seq<char>>
    decreases s.len() - i,
        when 0 <= i <= s.len() via primary_from_decreases
{
    let e = seg_end(s, i);
    let seg = trim_spec(s.subrange(i, e));
    if seg.len() > 0 {
        Some(seg)
    } else if e >= s.len() {
        None
    } else {
        primary_from(s, e + 1)
    }
}

#[via_fn]
proof fn primary_from_decreases(s: Seq<char>, i: int) {
    lemma_scan_to_bounds(s, |c: char| is_sep(c), i);
}

/// The album key's artist component: the primary artist when one segment
/// is non-blank, the raw artist string otherwise.
pub open spec fn normalized_artist(artist: Seq<char>) -> Seq<char> {
    match primary_from(artist, 0) {
        Some(p) => p,
        None => artist,
    }
}

/// Computes the normalized primary artist of a raw artist credit.
pub fn normalize_artist(artist: &str) -> (r: String)
    ensures
        r@ == normalized_artist(artist@),
{
    let n = artist.unicode_len();
    let mut i: usize = 0;
    loop
        invariant
            i <= n,
            n == artist@.len(),
            primary_from(artist@, 0) == primary_from(artist@, i as int),
        decreases n - i,
    {
        let mut e: usize = i;
        while e < n
            invariant
                i <= e <= n,
                n == artist@.len(),
                forall|j: int| i <= j < e ==> !is_sep(artist@[j]),
            ensures
                i <= e <= n,
                forall|j: int| i <= j < e ==> !is_sep(artist@[j]),
                e == n || is_sep(artist@[e as int]),
            decreases n - e,
        {
            let c = artist.get_char(e);
            if is_sep_char(c) {
                break;
            }
            e = e + 1;
        }
        proof {
            lemma_scan_to_found(artist@, |c: char| is_sep(c), i as int, e as int);
            assert(seg_end(artist@, i as int) == e as int);
        }
        let t = trimmed_segment(artist, i, e);
        if t.as_str().unicode_len() > 0 {
            proof {
                assert(primary_from(artist@, i as int) == Some(t@));
            }
            return t;
        }
        if e == n {
            proof {
                assert(primary_from(artist@, i as int) is None);
            }
            return String::from_str(artist);
        }
        i = e + 1;
    }
}

// ---------------------------------------------------------------------
// Shortening a label to a character budget.
// ---------------------------------------------------------------------

/// What `ellipsize` returns: the text itself when it fits, else its first
/// `max - 1` characters with an ellipsis appended.
pub open spec fn spec_ellipsize(t: Seq<char>, max: int) -> Seq<char> {
    if t.len() <= max {
        t
    } else {
        t.subrange(
            0,
            if max >= 1 {
                max - 1
            } else {
                0
            },
        ) + seq!['…']
    }
}

/// Shortens a display label to at most `max_chars` characters, marking a
/// cut with an ellipsis.
pub fn ellipsize(text: &str, max_chars: usize) -> (r: String)
    ensures
        r@ == spec_ellipsize(text@, max_chars as int),
{
    let n = text.unicode_len();
    if n <= max_chars {
        String::from_str(text)
    } else {
        let cut = if max_chars >= 1 {
            max_chars - 1
        } else {
            0
        };
        let mut r = String::from_str(text.substring_char(0, cut));
        r.append("…");
        proof {
            reveal_strlit("…");
            assert("…"@ =~= seq!['…']);
        }
        r
    }
}

// ---------------------------------------------------------------------
// Semicolon-joined lists (the settings store's directory list).
// ---------------------------------------------------------------------

/// The views of a sequence of strings.
pub open spec fn views_of(ss: Seq<String>) -> Seq<Seq<char>> {
    ss.map_values(|s: String| s@)
}

/// The parts joined with a semicolon between each pair.
pub open spec fn join_semis(parts: Seq<Seq<char>>) -> Seq<char>
    decreases parts.len(),
{
    if parts.len() == 0 {
        Seq::empty()
    } else if parts.len() == 1 {
        parts[0]
    } else {
        parts[0] + seq![';'] + join_semis(parts.drop_first())
    }
}

pub proof fn lemma_join_push(parts: Seq<Seq<char>>, p: Seq<char>)
    ensures
        parts.len() == 0 ==> join_semis(parts.push(p)) == p,
        parts.len() > 0 ==> join_semis(parts.push(p)) == join_semis(parts) + seq![';'] + p,
    decreases parts.len(),
{
    if parts.len() == 0 {
        assert(parts.push(p)[0] == p);
        assert(join_semis(parts.push(p)) == p);
    } else if parts.len() == 1 {
        assert(parts.push(p).drop_first() =~= seq![p]);
        assert(parts.push(p)[0] == parts[0]);
        assert(seq![p][0] == p);
        assert(join_semis(seq![p]) == p);
        assert(join_semis(parts.push(p)) == parts[0] + seq![';'] + p);
    } else {
        lemma_join_push(parts.drop_first(), p);
        assert(parts.push(p).drop_first() =~= parts.drop_first().push(p));
    }
}

/// Joins directory names with semicolons, as the settings store keeps them.
pub fn join_dirs(parts: &Vec<String>) -> (r: String)
    ensures
        r@ == join_semis(views_of(parts@)),
{
    let mut out = String::new();
    let mut i: usize = 0;
    proof {
        assert(views_of(parts@.subrange(0, 0)) =~= Seq::<Seq<char>>::empty());
    }
    while i < parts.len()
        invariant
            i <= parts@.len(),
            out@ == join_semis(views_of(parts@.subrange(0, i as int))),
        decreases parts@.len() - i,
    {
        if i > 0 {
            out.append(";");
            proof {
                reveal_strlit(";");
                assert(";"@ =~= seq![';']);
            }
        }
        out.append(parts[i].as_str());
        proof {
            let prev = views_of(parts@.subrange(0, i as int));
            lemma_join_push(prev, parts@[i as int]@);
            assert(views_of(parts@.subrange(0, i + 1)) =~= prev.push(parts@[i as int]@));
        }
        i = i + 1;
    }
    proof {
        assert(parts@.subrange(0, parts@.len() as int) =~= parts@);
    }
    out
}

/// Splits a semicolon-joined list back into its parts: the parts joined
/// again give the input, and no part holds a semicolon.
pub fn split_dirs(s: &str) -> (r: Vec<String>)
    ensures
        join_semis(views_of(r@)) == s@,
        r@.len() >= 1,
        forall|k: int| 0 <= k < r@.len() ==> !r@[k]@.contains(';'),
{
    let n = s.unicode_len();
    let mut r: Vec<String> = Vec::new();
    let mut i: usize = 0;
    loop
        invariant
            i <= n,
            n == s@.len(),
            r@.len() == 0 ==> i == 0,
            r@.len() > 0 ==> join_semis(views_of(r@)) + seq![';'] =~= s@.subrange(0, i as int),
            forall|k: int| 0 <= k < r@.len() ==> !r@[k]@.contains(';'),
        decreases n - i,
    {
        let mut e: usize = i;
        while e < n
            invariant
                i <= e <= n,
                n == s@.len(),
                forall|j: int| i <= j < e ==> s@[j] != ';',
            ensures
                i <= e <= n,
                forall|j: int| i <= j < e ==> s@[j] != ';',
                e == n || s@[e as int] == ';',
            decreases n - e,
        {
            if s.get_char(e) == ';' {
                break;
            }
            e = e + 1;
        }
        let part = String::from_str(s.substring_char(i, e));
        proof {
            assert forall|j: int| 0 <= j < part@.len() implies part@[j] != ';' by {
                assert(part@[j] == s@[i + j]);
            }
            assert(!part@.contains(';'));
            let prev = views_of(r@);
            lemma_join_push(prev, part@);
            assert(views_of(r@.push(part)) =~= prev.push(part@));
        }
        let ghost old_r = r@;
        r.push(part);
        if e == n {
            proof {
                if old_r.len() == 0 {
                    assert(join_semis(views_of(r@)) =~= s@);
                } else {
                    assert(join_semis(views_of(r@)) =~= s@.subrange(0, i as int) + s@.subrange(
                        i as int,
                        n as int,
                    ));
                    assert(s@.subrange(0, i as int) + s@.subrange(i as int, n as int) =~= s@);
                }
            }
            return r;
        }
        proof {
            if old_r.len() == 0 {
                assert(join_semis(views_of(r@)) + seq![';'] =~= s@.subrange(0, e + 1));
            } else {
                assert(join_semis(views_of(r@)) + seq![';'] =~= s@.subrange(0, i as int) + s@
                    .subrange(i as int, e as int) + seq![';']);
                assert(s@.subrange(0, i as int) + s@.subrange(i as int, e as int) + seq![';']
                    =~= s@.subrange(0, e + 1));
            }
        }
        i = e + 1;
    }
}

} // verus!
