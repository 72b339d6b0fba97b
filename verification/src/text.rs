//! Text as a sequence of characters.
//!
//! The ledger grammar is written over `Seq<char>`; this module holds its
//! vocabulary (white space, trimming, prefixes, search, lines, order), the
//! executable counterparts over `&[char]`, and the facts that the proofs
//! elsewhere rest on.

use vstd::prelude::*;
use vstd::slice::*;
use vstd::string::*;

verus! {

/// `String::push`: the text grows by exactly the given character, at its end.
pub assume_specification[ String::push ](s: &mut String, c: char)
    ensures
        final(s)@ == old(s)@.push(c),
;

// ---------------------------------------------------------------------------
// White space
// ---------------------------------------------------------------------------

/// The characters with the Unicode property `White_Space`.
pub open spec fn is_space(c: char) -> bool {
    let u = c as u32;
    ||| 0x9 <= u <= 0xd
    ||| u == 0x20
    ||| u == 0x85
    ||| u == 0xa0
    ||| u == 0x1680
    ||| 0x2000 <= u <= 0x200a
    ||| u == 0x2028
    ||| u == 0x2029
    ||| u == 0x202f
    ||| u == 0x205f
    ||| u == 0x3000
}

/// Tells white space from other characters.
pub fn char_is_space(c: char) -> (r: bool)
    ensures
        r == is_space(c),
{
    let u: u32 = c as u32;
    (0x9 <= u && u <= 0xd) || u == 0x20 || u == 0x85 || u == 0xa0 || u == 0x1680 || (0x2000 <= u
        && u <= 0x200a) || u == 0x2028 || u == 0x2029 || u == 0x202f || u == 0x205f || u == 0x3000
}

/// `s` without its leading white space.
pub open spec fn trim_start(s: Seq<char>) -> Seq<char>
    decreases s.len(),
{
    if s.len() > 0 && is_space(s[0]) {
        trim_start(s.skip(1))
    } else {
        s
    }
}

/// `s` without its trailing white space.
pub open spec fn trim_end(s: Seq<char>) -> Seq<char>
    decreases s.len(),
{
    if s.len() > 0 && is_space(s.last()) {
        trim_end(s.drop_last())
    } else {
        s
    }
}

/// `s` without white space at either end.
pub open spec fn trim(s: Seq<char>) -> Seq<char> {
    trim_start(trim_end(s))
}

/// Trimming at the front leaves a suffix that is empty or begins with
/// something else than white space.
pub proof fn lemma_trim_start_suffix(s: Seq<char>)
    ensures
        trim_start(s).len() <= s.len(),
        trim_start(s) == s.skip(s.len() - trim_start(s).len()),
        trim_start(s).len() > 0 ==> !is_space(trim_start(s)[0]),
    decreases s.len(),
{
    if s.len() > 0 && is_space(s[0]) {
        let t = s.skip(1);
        lemma_trim_start_suffix(t);
        assert(s.skip(s.len() - trim_start(s).len()) =~= t.skip(t.len() - trim_start(t).len()));
    } else {
        assert(s.skip(0) =~= s);
    }
}

/// Trimming at the end leaves a prefix that is empty or ends with something
/// else than white space.
pub proof fn lemma_trim_end_prefix(s: Seq<char>)
    ensures
        trim_end(s).len() <= s.len(),
        trim_end(s) == s.take(trim_end(s).len() as int),
        trim_end(s).len() > 0 ==> !is_space(trim_end(s).last()),
    decreases s.len(),
{
    if s.len() > 0 && is_space(s.last()) {
        let t = s.drop_last();
        lemma_trim_end_prefix(t);
        assert(s.take(trim_end(s).len() as int) =~= t.take(trim_end(t).len() as int));
    } else {
        assert(s.take(s.len() as int) =~= s);
    }
}

/// Trimming the end does not reach past a character that is no white space.
pub proof fn lemma_trim_end_after(a: Seq<char>, b: Seq<char>)
    requires
        a.len() > 0,
        !is_space(a.last()),
    ensures
        trim_end(a + b) == a + trim_end(b),
    decreases b.len(),
{
    if b.len() == 0 {
        assert(a + b =~= a);
        assert(a + trim_end(b) =~= a);
    } else if is_space(b.last()) {
        assert((a + b).drop_last() =~= a + b.drop_last());
        lemma_trim_end_after(a, b.drop_last());
    } else {
        assert((a + b).last() == b.last());
    }
}

/// Trimming twice at the end is trimming once.
pub proof fn lemma_trim_end_twice(s: Seq<char>)
    ensures
        trim_end(trim_end(s)) == trim_end(s),
{
    lemma_trim_end_prefix(s);
}

/// White space put in front is trimmed away.
pub proof fn lemma_trim_leading_space(s: Seq<char>)
    ensures
        trim(seq![' '] + s) == trim(s),
    decreases s.len(),
{
    let w = seq![' '] + s;
    if s.len() == 0 {
        assert(w.drop_last() =~= s);
        assert(is_space(w.last()));
    } else if is_space(s.last()) {
        assert(w.last() == s.last());
        assert(w.drop_last() =~= seq![' '] + s.drop_last());
        lemma_trim_leading_space(s.drop_last());
    } else {
        assert(w.last() == s.last());
        assert(trim_end(w) == w);
        assert(trim_end(s) == s);
        assert(w.skip(1) =~= s);
        assert(is_space(w[0]));
    }
}

/// A trimmed text has no white space at its ends.
pub proof fn lemma_trim(s: Seq<char>)
    ensures
        trim(trim(s)) == trim(s),
        trim_end(trim(s)) == trim(s),
        trim_start(trim(s)) == trim(s),
{
    let t = trim_end(s);
    lemma_trim_end_prefix(s);
    lemma_trim_start_suffix(t);
    let u = trim_start(t);
    if u.len() > 0 {
        assert(u.last() == t.last());
    }
}

/// Trimming takes white space off the ends and nothing else.
pub proof fn law_trimming(s: Seq<char>)
    ensures
        forall|i: int| trim_end(s).len() <= i < s.len() ==> is_space(#[trigger] s[i]),
        trim_end(s) == s.take(trim_end(s).len() as int),
        trim_end(s).len() > 0 ==> !is_space(trim_end(s).last()),
        forall|i: int| 0 <= i < s.len() - trim_start(s).len() ==> is_space(#[trigger] s[i]),
        trim_start(s) == s.skip(s.len() - trim_start(s).len()),
        trim_start(s).len() > 0 ==> !is_space(trim_start(s)[0]),
    decreases s.len(),
{
    lemma_trim_end_prefix(s);
    lemma_trim_start_suffix(s);
    if s.len() > 0 && is_space(s.last()) {
        let t = s.drop_last();
        law_trimming(t);
        assert forall|i: int| trim_end(s).len() <= i < s.len() implies is_space(
            #[trigger] s[i],
        ) by {
            if i < t.len() {
                assert(t[i] == s[i]);
            }
        }
    }
    if s.len() > 0 && is_space(s[0]) {
        let t = s.skip(1);
        law_trimming(t);
        assert forall|i: int| 0 <= i < s.len() - trim_start(s).len() implies is_space(
            #[trigger] s[i],
        ) by {
            if i > 0 {
                assert(t[i - 1] == s[i]);
            }
        }
    }
}

/// Among the ASCII characters the blank and those from tab to carriage return
/// are white space; no letter, digit or sign is. Beyond them the next line,
/// the separators of lines and paragraphs, and the blanks of any width are,
/// those that allow no break among them.
pub proof fn law_white_space(c: char)
    ensures
        (c as u32) < 128 ==> (is_space(c) <==> c == ' ' || ('\t' as u32 <= c as u32 <= '\r' as u32)),
        (c as u32) >= 128 ==> (is_space(c) <==> c == '\u{85}' || c == '\u{a0}' || c == '\u{1680}' || (
        '\u{2000}' as u32 <= c as u32 <= '\u{200a}' as u32) || c == '\u{2028}' || c == '\u{2029}' || c
            == '\u{202f}' || c == '\u{205f}' || c == '\u{3000}'),
{
}

/// Drops leading white space.
pub fn trimmed_start(s: &[char]) -> (r: &[char])
    ensures
        r@ == trim_start(s@),
{
    let n: usize = s.len();
    let mut i: usize = 0;
    assert(s@.skip(0) =~= s@);
    while i < n && char_is_space(s[i])
        invariant
            n == s@.len(),
            0 <= i <= n,
            trim_start(s@) == trim_start(s@.skip(i as int)),
        decreases n - i,
    {
        assert(s@.skip(i as int).skip(1) =~= s@.skip(i as int + 1));
        i = i + 1;
    }
    assert(s@.skip(i as int) =~= s@.subrange(i as int, n as int));
    slice_subrange(s, i, n)
}

/// Drops trailing white space.
pub fn trimmed_end(s: &[char]) -> (r: &[char])
    ensures
        r@ == trim_end(s@),
{
    let mut n: usize = s.len();
    assert(s@.take(n as int) =~= s@);
    while n > 0 && char_is_space(s[n - 1])
        invariant
            0 <= n <= s@.len(),
            trim_end(s@) == trim_end(s@.take(n as int)),
        decreases n,
    {
        assert(s@.take(n as int).drop_last() =~= s@.take(n as int - 1));
        n = n - 1;
    }
    assert(s@.take(n as int) =~= s@.subrange(0, n as int));
    slice_subrange(s, 0, n)
}

/// Drops white space at both ends.
pub fn trimmed(s: &[char]) -> (r: &[char])
    ensures
        r@ == trim(s@),
{
    trimmed_start(trimmed_end(s))
}

// ---------------------------------------------------------------------------
// Prefixes and search
// ---------------------------------------------------------------------------

/// What follows `prefix` in `s`, if `s` begins with it.
pub open spec fn strip(s: Seq<char>, prefix: Seq<char>) -> Option<Seq<char>> {
    if prefix.len() <= s.len() && s.take(prefix.len() as int) == prefix {
        Some(s.skip(prefix.len() as int))
    } else {
        None
    }
}

/// The first place of `c` in `s`.
pub open spec fn find(s: Seq<char>, c: char) -> Option<int>
    decreases s.len(),
{
    if s.len() == 0 {
        None
    } else if s[0] == c {
        Some(0)
    } else {
        match find(s.skip(1), c) {
            Some(i) => Some(i + 1),
            None => None,
        }
    }
}

/// The last place of `c` in `s`.
pub open spec fn rfind(s: Seq<char>, c: char) -> Option<int>
    decreases s.len(),
{
    if s.len() == 0 {
        None
    } else if s.last() == c {
        Some(s.len() - 1)
    } else {
        rfind(s.drop_last(), c)
    }
}

/// A found place holds the character and no earlier one does.
pub proof fn lemma_find(s: Seq<char>, c: char)
    ensures
        match find(s, c) {
            Some(i) => 0 <= i < s.len() && s[i] == c && forall|j: int| 0 <= j < i ==> s[j] != c,
            None => forall|j: int| 0 <= j < s.len() ==> s[j] != c,
        },
    decreases s.len(),
{
    if s.len() > 0 && s[0] != c {
        let t = s.skip(1);
        lemma_find(t, c);
        match find(t, c) {
            Some(i) => {
                assert forall|j: int| 0 <= j < i + 1 implies s[j] != c by {
                    if j > 0 {
                        assert(s[j] == t[j - 1]);
                    }
                }
            },
            None => {
                assert forall|j: int| 0 <= j < s.len() implies s[j] != c by {
                    if j > 0 {
                        assert(s[j] == t[j - 1]);
                    }
                }
            },
        }
    }
}

/// A place that holds the character, with none before it, is the found one.
pub proof fn lemma_find_at(s: Seq<char>, c: char, i: int)
    requires
        0 <= i < s.len(),
        s[i] == c,
        forall|j: int| 0 <= j < i ==> s[j] != c,
    ensures
        find(s, c) == Some(i),
{
    lemma_find(s, c);
}

/// A found last place holds the character and no later one does.
pub proof fn lemma_rfind(s: Seq<char>, c: char)
    ensures
        match rfind(s, c) {
            Some(i) => 0 <= i < s.len() && s[i] == c && forall|j: int|
                i < j < s.len() ==> s[j] != c,
            None => forall|j: int| 0 <= j < s.len() ==> s[j] != c,
        },
    decreases s.len(),
{
    if s.len() > 0 && s.last() != c {
        let t = s.drop_last();
        lemma_rfind(t, c);
        assert forall|j: int|
            (rfind(t, c) matches Some(i) ==> i < j) && 0 <= j < s.len() implies s[j] != c by {
            if j < s.len() - 1 {
                assert(s[j] == t[j]);
            }
        }
    }
}

/// What follows `prefix` in `s`, if `s` begins with it.
pub fn strip_prefix<'a>(s: &'a [char], prefix: &str) -> (r: Option<&'a [char]>)
    ensures
        match r {
            Some(rest) => strip(s@, prefix@) == Some(rest@),
            None => strip(s@, prefix@) is None,
        },
{
    let p: Vec<char> = chars_of(prefix);
    let k: usize = p.len();
    if s.len() < k {
        return None;
    }
    let mut i: usize = 0;
    while i < k
        invariant
            0 <= i <= k,
            k == p@.len(),
            k <= s@.len(),
            p@ == prefix@,
            s@.take(i as int) == p@.take(i as int),
        decreases k - i,
    {
        if s[i] != p[i] {
            assert(s@.take(k as int)[i as int] != prefix@[i as int]);
            return None;
        }
        assert(s@.take(i as int + 1) =~= s@.take(i as int).push(s@[i as int]));
        assert(p@.take(i as int + 1) =~= p@.take(i as int).push(p@[i as int]));
        i = i + 1;
    }
    assert(p@.take(k as int) =~= p@);
    assert(s@.subrange(k as int, s@.len() as int) =~= s@.skip(k as int));
    Some(slice_subrange(s, k, s.len()))
}

/// The first place of `c` in `s`.
pub fn find_char(s: &[char], c: char) -> (r: Option<usize>)
    ensures
        match r {
            Some(i) => i < s@.len() && find(s@, c) == Some(i as int),
            None => find(s@, c) is None,
        },
{
    let n: usize = s.len();
    let mut i: usize = 0;
    while i < n
        invariant
            0 <= i <= n,
            n == s@.len(),
            forall|j: int| 0 <= j < i ==> s@[j] != c,
        decreases n - i,
    {
        if s[i] == c {
            proof {
                lemma_find_at(s@, c, i as int);
            }
            return Some(i);
        }
        i = i + 1;
    }
    proof {
        lemma_find(s@, c);
    }
    None
}

/// The last place of `c` in `s`.
pub fn rfind_char(s: &[char], c: char) -> (r: Option<usize>)
    ensures
        match r {
            Some(i) => i < s@.len() && rfind(s@, c) == Some(i as int),
            None => rfind(s@, c) is None,
        },
{
    let mut n: usize = s.len();
    while n > 0
        invariant
            0 <= n <= s@.len(),
            forall|j: int| n <= j < s@.len() ==> s@[j] != c,
        decreases n,
    {
        if s[n - 1] == c {
            proof {
                lemma_rfind(s@, c);
            }
            return Some(n - 1);
        }
        n = n - 1;
    }
    proof {
        lemma_rfind(s@, c);
    }
    None
}

// ---------------------------------------------------------------------------
// Between strings and characters
// ---------------------------------------------------------------------------

/// The characters of a string.
pub fn chars_of(s: &str) -> (r: Vec<char>)
    ensures
        r@ == s@,
{
    let mut r: Vec<char> = Vec::new();
    for c in it: s.chars()
        invariant
            r@ == it.seq().take(it.index() as int),
            it.seq() == s@,
    {
        r.push(c);
        assert(it.seq().take(it.index() + 1) =~= it.seq().take(it.index() as int).push(c));
    }
    assert(s@.take(s@.len() as int) =~= s@);
    r
}

/// The string made of the given characters.
pub fn string_of(s: &[char]) -> (r: String)
    ensures
        r@ == s@,
{
    let n: usize = s.len();
    let mut r: String = String::new();
    let mut i: usize = 0;
    while i < n
        invariant
            0 <= i <= n,
            n == s@.len(),
            r@ == s@.take(i as int),
        decreases n - i,
    {
        r.push(s[i]);
        assert(s@.take(i as int + 1) =~= s@.take(i as int).push(s@[i as int]));
        i = i + 1;
    }
    assert(s@.take(n as int) =~= s@);
    r
}

/// Appends a string to another.
pub fn push_str(out: &mut String, s: &str)
    ensures
        final(out)@ == old(out)@ + s@,
{
    out.append(s);
}

/// An owned copy of a string.
pub fn owned(s: &str) -> (r: String)
    ensures
        r@ == s@,
{
    s.to_owned()
}

/// Three strings, one after the other.
pub fn concat3(a: &str, b: &str, c: &str) -> (r: String)
    ensures
        r@ == a@ + b@ + c@,
{
    let mut r: String = owned(a);
    push_str(&mut r, b);
    push_str(&mut r, c);
    r
}

/// Whether two strings have the same text.
pub fn same_text(a: &str, b: &str) -> (r: bool)
    ensures
        r == (a@ == b@),
{
    let x: Vec<char> = chars_of(a);
    let y: Vec<char> = chars_of(b);
    if x.len() != y.len() {
        return false;
    }
    let n: usize = x.len();
    let mut i: usize = 0;
    while i < n
        invariant
            0 <= i <= n,
            n == x@.len() == y@.len(),
            x@ == a@,
            y@ == b@,
            forall|j: int| 0 <= j < i ==> x@[j] == y@[j],
        decreases n - i,
    {
        if x[i] != y[i] {
            return false;
        }
        i = i + 1;
    }
    assert(a@ =~= b@);
    true
}

// ---------------------------------------------------------------------------
// Lines
// ---------------------------------------------------------------------------

/// `s` without a carriage return at its end, if it has one.
pub open spec fn chomp(s: Seq<char>) -> Seq<char> {
    if s.len() > 0 && s.last() == '\r' {
        s.drop_last()
    } else {
        s
    }
}

/// The first line of `s`, without its ending, and the text after that ending.
/// A line ends at a line feed; a carriage return right before it belongs to
/// the ending.
pub open spec fn split_line(s: Seq<char>) -> (Seq<char>, Seq<char>) {
    match find(s, '\n') {
        Some(i) => (chomp(s.take(i)), s.skip(i + 1)),
        None => (s, Seq::empty()),
    }
}

/// The lines of `s`. The ending of the last one is optional.
pub open spec fn lines(s: Seq<char>) -> Seq<Seq<char>>
    decreases s.len(),
    via lines_decreases
{
    if s.len() == 0 {
        Seq::empty()
    } else {
        let (line, rest) = split_line(s);
        seq![line] + lines(rest)
    }
}

#[via_fn]
proof fn lines_decreases(s: Seq<char>) {
    lemma_find(s, '\n');
}

/// The first line of `s` and the text after it.
pub fn next_line(s: &[char]) -> (r: (&[char], &[char]))
    ensures
        split_line(s@) == (r.0@, r.1@),
        s@.len() > 0 ==> r.1@.len() < s@.len(),
{
    let n: usize = s.len();
    match find_char(s, '\n') {
        Some(i) => {
            let rest = slice_subrange(s, i + 1, n);
            assert(rest@ =~= s@.skip(i as int + 1));
            let line = slice_subrange(s, 0, i);
            assert(line@ =~= s@.take(i as int));
            if i > 0 && line[i - 1] == '\r' {
                let cut = slice_subrange(line, 0, i - 1);
                assert(cut@ =~= line@.drop_last());
                (cut, rest)
            } else {
                (line, rest)
            }
        },
        None => {
            let rest = slice_subrange(s, n, n);
            assert(rest@ =~= Seq::<char>::empty());
            (s, rest)
        },
    }
}

// ---------------------------------------------------------------------------
// Order
// ---------------------------------------------------------------------------

/// The order of strings: by the first character that differs, a proper prefix
/// first.
pub open spec fn before(a: Seq<char>, b: Seq<char>) -> bool
    decreases a.len(),
{
    if b.len() == 0 {
        false
    } else if a.len() == 0 {
        true
    } else if a[0] != b[0] {
        (a[0] as u32) < (b[0] as u32)
    } else {
        before(a.skip(1), b.skip(1))
    }
}

/// Whether `a` comes before `b`.
pub fn str_before(a: &str, b: &str) -> (r: bool)
    ensures
        r == before(a@, b@),
{
    let x: Vec<char> = chars_of(a);
    let y: Vec<char> = chars_of(b);
    let mut i: usize = 0;
    assert(x@.skip(0) =~= a@);
    assert(y@.skip(0) =~= b@);
    while i < x.len() && i < y.len() && x[i] == y[i]
        invariant
            0 <= i <= x@.len(),
            i <= y@.len(),
            before(a@, b@) == before(x@.skip(i as int), y@.skip(i as int)),
        decreases x@.len() - i,
    {
        assert(x@.skip(i as int).skip(1) =~= x@.skip(i as int + 1));
        assert(y@.skip(i as int).skip(1) =~= y@.skip(i as int + 1));
        i = i + 1;
    }
    if i == y.len() {
        false
    } else if i == x.len() {
        true
    } else {
        (x[i] as u32) < (y[i] as u32)
    }
}

/// Different characters have different code points.
pub proof fn lemma_char_code(x: char, y: char)
    requires
        x != y,
    ensures
        x as u32 != y as u32,
{
}

/// No text comes before itself.
pub proof fn lemma_before_irreflexive(a: Seq<char>)
    ensures
        !before(a, a),
    decreases a.len(),
{
    if a.len() > 0 {
        lemma_before_irreflexive(a.skip(1));
    }
}

/// The order is transitive.
pub proof fn lemma_before_transitive(a: Seq<char>, b: Seq<char>, c: Seq<char>)
    requires
        before(a, b),
        before(b, c),
    ensures
        before(a, c),
    decreases a.len(),
{
    if a.len() > 0 && a[0] == b[0] && b[0] == c[0] {
        lemma_before_transitive(a.skip(1), b.skip(1), c.skip(1));
    }
}

/// Of two different texts one comes before the other.
pub proof fn lemma_before_total(a: Seq<char>, b: Seq<char>)
    ensures
        before(a, b) || before(b, a) || a == b,
    decreases a.len(),
{
    if a.len() == 0 {
        if b.len() == 0 {
            assert(a =~= b);
        }
    } else if b.len() > 0 && a[0] != b[0] {
        lemma_char_code(a[0], b[0]);
    } else if b.len() > 0 {
        lemma_before_total(a.skip(1), b.skip(1));
        if a.skip(1) == b.skip(1) {
            assert(a =~= seq![a[0]] + a.skip(1));
            assert(b =~= seq![b[0]] + b.skip(1));
        }
    }
}

/// Texts of the same length are compared before what follows them.
pub proof fn lemma_before_concat(a: Seq<char>, b: Seq<char>, x: Seq<char>, y: Seq<char>)
    requires
        a.len() == b.len(),
    ensures
        before(a + x, b + y) <==> before(a, b) || (a == b && before(x, y)),
    decreases a.len(),
{
    if a.len() == 0 {
        assert(a + x =~= x);
        assert(b + y =~= y);
        assert(a =~= b);
    } else {
        assert((a + x).skip(1) =~= a.skip(1) + x);
        assert((b + y).skip(1) =~= b.skip(1) + y);
        if a[0] == b[0] {
            lemma_before_concat(a.skip(1), b.skip(1), x, y);
            assert(a =~= seq![a[0]] + a.skip(1));
            assert(b =~= seq![b[0]] + b.skip(1));
        }
    }
}

/// Texts are ordered by the first place where they differ; one that goes on
/// comes after one that has ended there.
pub proof fn law_order(p: Seq<char>, a: char, b: char, x: Seq<char>, y: Seq<char>)
    ensures
        a != b ==> (before(p + (seq![a] + x), p + (seq![b] + y)) <==> (a as u32) < (b as u32)),
        before(p, p + (seq![a] + x)),
        !before(p + x, p),
{
    lemma_before_irreflexive(p);
    lemma_before_concat(p, p, seq![a] + x, seq![b] + y);
    let none = Seq::<char>::empty();
    lemma_before_concat(p, p, none, seq![a] + x);
    lemma_before_concat(p, p, x, none);
    assert(p + none =~= p);
}

// ---------------------------------------------------------------------------
// Bytes
// ---------------------------------------------------------------------------

/// The number of bytes of a character in UTF-8.
pub open spec fn char_width(c: char) -> nat {
    let u = c as u32;
    if u < 0x80 {
        1
    } else if u < 0x800 {
        2
    } else if u < 0x1_0000 {
        3
    } else {
        4
    }
}

/// The number of bytes of a text in UTF-8.
pub open spec fn byte_width(s: Seq<char>) -> nat
    decreases s.len(),
{
    if s.len() == 0 {
        0
    } else {
        byte_width(s.drop_last()) + char_width(s.last())
    }
}

/// The first `n` bytes of `s` as text, all of `s` if it has no more than
/// `n`; `None` if they end inside a character.
pub open spec fn byte_prefix(s: Seq<char>, n: nat) -> Option<Seq<char>>
    decreases s.len(),
{
    if byte_width(s) <= n {
        Some(s)
    } else if byte_width(s.drop_last()) < n {
        None
    } else {
        byte_prefix(s.drop_last(), n)
    }
}

/// The number of bytes of a character in UTF-8.
fn width_of(c: char) -> (r: usize)
    ensures
        r == char_width(c),
        1 <= r <= 4,
{
    let u: u32 = c as u32;
    if u < 0x80 {
        1
    } else if u < 0x800 {
        2
    } else if u < 0x1_0000 {
        3
    } else {
        4
    }
}

/// Longer texts are wider.
proof fn lemma_width_grows(s: Seq<char>, i: int)
    requires
        0 <= i < s.len(),
    ensures
        byte_width(s.take(i)) < byte_width(s.take(i + 1)) <= byte_width(s),
        byte_width(s.take(i + 1)) == byte_width(s.take(i)) + char_width(s[i]),
    decreases s.len() - i,
{
    assert(s.take(i + 1).drop_last() =~= s.take(i));
    assert(s.take(i + 1).last() == s[i]);
    if i + 1 < s.len() {
        lemma_width_grows(s, i + 1);
    } else {
        assert(s.take(i + 1) =~= s);
    }
}

/// Where the first `n` bytes end.
proof fn lemma_byte_prefix(s: Seq<char>, n: nat, i: int)
    requires
        0 <= i <= s.len(),
        byte_width(s.take(i)) <= n,
        i < s.len() ==> n < byte_width(s.take(i + 1)),
    ensures
        i == s.len() ==> byte_prefix(s, n) == Some(s),
        i < s.len() && byte_width(s.take(i)) < n ==> byte_prefix(s, n) is None,
        i < s.len() && byte_width(s.take(i)) == n ==> byte_prefix(s, n) == Some(s.take(i)),
    decreases s.len(),
{
    if i == s.len() {
        assert(s.take(i) =~= s);
    } else {
        lemma_width_grows(s, i);
        let t = s.drop_last();
        assert(t.take(i) =~= s.take(i));
        if i == t.len() {
            assert(s.take(i) =~= t);
            if byte_width(t) == n {
                assert(byte_prefix(t, n) == Some(t));
            }
        } else {
            assert(t.take(i + 1) =~= s.take(i + 1));
            lemma_width_grows(t, i);
            lemma_byte_prefix(t, n, i);
        }
    }
}

/// The width of a character is the length of its encoding.
pub proof fn law_char_width(c: char)
    ensures
        char_width(c) == 1 <==> vstd::utf8::has_width_1_encoding(c as u32),
        char_width(c) == 2 <==> vstd::utf8::has_width_2_encoding(c as u32),
        char_width(c) == 3 <==> vstd::utf8::has_width_3_encoding(c as u32),
        char_width(c) == 4 <==> vstd::utf8::has_width_4_encoding(c as u32),
{
}

/// The width of a text is that of its parts together.
pub proof fn law_width_of_parts(a: Seq<char>, b: Seq<char>)
    ensures
        byte_width(a + b) == byte_width(a) + byte_width(b),
        a.len() <= byte_width(a) <= 4 * a.len(),
        (forall|i: int| 0 <= i < a.len() ==> (#[trigger] a[i] as u32) < 128) ==> byte_width(a)
            == a.len(),
    decreases b.len(), a.len(),
{
    if b.len() == 0 {
        assert(a + b =~= a);
        if a.len() > 0 {
            law_width_of_parts(a.drop_last(), b);
            assert(a[a.len() - 1] == a.last());
            if forall|i: int| 0 <= i < a.len() ==> (#[trigger] a[i] as u32) < 128 {
                assert forall|i: int| 0 <= i < a.drop_last().len() implies (
                #[trigger] a.drop_last()[i] as u32) < 128 by {
                    assert(a[i] as u32 <= 127);
                }
            }
        }
    } else {
        law_width_of_parts(a, b.drop_last());
        assert((a + b).drop_last() =~= a + b.drop_last());
        assert((a + b).last() == b.last());
    }
}

/// The first `n` bytes of a text are a beginning of it of that width, or all of
/// it if it is no wider; there are none if no beginning has the width.
pub proof fn law_first_bytes(s: Seq<char>, n: nat)
    ensures
        match byte_prefix(s, n) {
            Some(p) => p.len() <= s.len() && p == s.take(p.len() as int) && if byte_width(s) <= n {
                p == s
            } else {
                byte_width(p) == n
            },
            None => byte_width(s) > n && forall|k: int|
                0 <= k <= s.len() ==> byte_width(#[trigger] s.take(k)) != n,
        },
    decreases s.len(),
{
    assert(s.take(s.len() as int) =~= s);
    if byte_width(s) > n {
        let t = s.drop_last();
        law_first_bytes(t, n);
        if byte_width(t) < n {
            assert forall|k: int| 0 <= k <= s.len() implies byte_width(#[trigger] s.take(k)) != n by {
                if k < s.len() {
                    assert(s.take(k) =~= t.take(k));
                    lemma_width_upto(t, k);
                }
            }
        } else {
            match byte_prefix(t, n) {
                Some(p) => {
                    assert(t.take(p.len() as int) =~= s.take(p.len() as int));
                },
                None => {
                    assert forall|k: int| 0 <= k <= s.len() implies byte_width(#[trigger] s.take(k))
                        != n by {
                        if k < s.len() {
                            assert(s.take(k) =~= t.take(k));
                        }
                    }
                },
            }
        }
    }
}

proof fn lemma_width_upto(s: Seq<char>, k: int)
    requires
        0 <= k <= s.len(),
    ensures
        byte_width(s.take(k)) <= byte_width(s),
{
    law_width_of_parts(s.take(k), s.skip(k));
    assert(s.take(k) + s.skip(k) =~= s);
}

/// Whether `s` has at most `n` bytes.
pub fn at_most_bytes(s: &str, n: usize) -> (r: bool)
    requires
        n <= usize::MAX - 4,
    ensures
        r == (byte_width(s@) <= n),
{
    let cs: Vec<char> = chars_of(s);
    let len: usize = cs.len();
    let mut i: usize = 0;
    let mut width: usize = 0;
    assert(s@.take(0) =~= Seq::empty());
    while i < len
        invariant
            len == cs@.len(),
            cs@ == s@,
            0 <= i <= len,
            n <= usize::MAX - 4,
            width <= n,
            width == byte_width(s@.take(i as int)),
        decreases len - i,
    {
        proof {
            lemma_width_grows(s@, i as int);
        }
        width = width + width_of(cs[i]);
        if width > n {
            return false;
        }
        i = i + 1;
    }
    assert(s@.take(len as int) =~= s@);
    true
}

/// The first `n` bytes of `s`.
pub fn first_bytes(s: &str, n: usize) -> (r: Option<String>)
    requires
        n <= usize::MAX - 4,
    ensures
        match byte_prefix(s@, n as nat) {
            Some(p) => r matches Some(t) && t@ == p,
            None => r is None,
        },
{
    let cs: Vec<char> = chars_of(s);
    let len: usize = cs.len();
    let mut out: String = String::new();
    let mut i: usize = 0;
    let mut width: usize = 0;
    assert(s@.take(0) =~= Seq::empty());
    while i < len
        invariant
            len == cs@.len(),
            cs@ == s@,
            0 <= i <= len,
            n <= usize::MAX - 4,
            width <= n,
            width == byte_width(s@.take(i as int)),
            out@ == s@.take(i as int),
        decreases len - i,
    {
        proof {
            lemma_width_grows(s@, i as int);
        }
        let next: usize = width + width_of(cs[i]);
        if next > n {
            proof {
                lemma_byte_prefix(s@, n as nat, i as int);
            }
            if width == n {
                return Some(out);
            }
            return None;
        }
        out.push(cs[i]);
        assert(s@.take(i as int + 1) =~= s@.take(i as int).push(s@[i as int]));
        width = next;
        i = i + 1;
    }
    proof {
        lemma_byte_prefix(s@, n as nat, len as int);
    }
    assert(s@.take(len as int) =~= s@);
    Some(out)
}

} // verus!
