//! Character-level string helpers with contracts over `Seq<char>` views.
//!
//! Every function here states its result over the `Seq<char>` view of its
//! arguments; the rest of the library builds its IRI, XML and DDL handling on
//! these.
use vstd::prelude::*;
use vstd::string::*;

verus! {

broadcast use vstd::string::group_string_axioms;

// ── spec vocabulary ─────────────────────────────────────────────────────────

/// `p` is a prefix of `s`.
pub open spec fn has_prefix(s: Seq<char>, p: Seq<char>) -> bool {
    p.len() <= s.len() && s.subrange(0, p.len() as int) == p
}

/// `p` is a suffix of `s`.
pub open spec fn has_suffix(s: Seq<char>, p: Seq<char>) -> bool {
    p.len() <= s.len() && s.subrange(s.len() - p.len(), s.len() as int) == p
}

/// `i` is the position of the first occurrence of `c` in `s`.
pub open spec fn is_first(s: Seq<char>, c: char, i: int) -> bool {
    &&& 0 <= i < s.len()
    &&& s[i] == c
    &&& forall|j: int| 0 <= j < i ==> s[j] != c
}

/// `i` is the position of the last occurrence of `c` in `s`.
pub open spec fn is_last(s: Seq<char>, c: char, i: int) -> bool {
    &&& 0 <= i < s.len()
    &&& s[i] == c
    &&& forall|j: int| i < j < s.len() ==> s[j] != c
}

/// The position of the first `c` in `s`, if any.
pub open spec fn first_pos(s: Seq<char>, c: char) -> Option<int> {
    if exists|i: int| is_first(s, c, i) {
        Some(choose|i: int| is_first(s, c, i))
    } else {
        None
    }
}

/// The position of the last `c` in `s`, if any.
pub open spec fn last_pos(s: Seq<char>, c: char) -> Option<int> {
    if exists|i: int| is_last(s, c, i) {
        Some(choose|i: int| is_last(s, c, i))
    } else {
        None
    }
}

/// `str::split_once(c)`: the parts before and after the first `c`.
pub open spec fn split_once(s: Seq<char>, c: char) -> Option<(Seq<char>, Seq<char>)> {
    match first_pos(s, c) {
        Some(i) => Some((s.subrange(0, i), s.subrange(i + 1, s.len() as int))),
        None => None,
    }
}

/// `str::rsplit_once(c)`: the parts before and after the last `c`.
pub open spec fn rsplit_once(s: Seq<char>, c: char) -> Option<(Seq<char>, Seq<char>)> {
    match last_pos(s, c) {
        Some(i) => Some((s.subrange(0, i), s.subrange(i + 1, s.len() as int))),
        None => None,
    }
}

/// Lexicographic order on character sequences by code point — the order Rust
/// gives `String` (UTF-8 byte order coincides with code-point order).
pub open spec fn seq_less(a: Seq<char>, b: Seq<char>) -> bool
    decreases a.len(),
{
    if a.len() == 0 {
        b.len() > 0
    } else if b.len() == 0 {
        false
    } else if a[0] != b[0] {
        (a[0] as u32) < (b[0] as u32)
    } else {
        seq_less(a.drop_first(), b.drop_first())
    }
}

/// Rust's `char::is_whitespace`: the Unicode `White_Space` property.
pub open spec fn is_ws(c: char) -> bool {
    let u = c as u32;
    ||| 0x9 <= u <= 0xD
    ||| u == 0x20
    ||| u == 0x85
    ||| u == 0xA0
    ||| u == 0x1680
    ||| 0x2000 <= u <= 0x200A
    ||| u == 0x2028
    ||| u == 0x2029
    ||| u == 0x202F
    ||| u == 0x205F
    ||| u == 0x3000
}

/// Every character of `s` is whitespace (`s.trim().is_empty()`).
pub open spec fn all_ws(s: Seq<char>) -> bool {
    forall|i: int| 0 <= i < s.len() ==> is_ws(s[i])
}

/// `str::trim_start`.
pub open spec fn trim_start(s: Seq<char>) -> Seq<char>
    decreases s.len(),
{
    if s.len() > 0 && is_ws(s[0]) {
        trim_start(s.drop_first())
    } else {
        s
    }
}

/// `str::trim_end`.
pub open spec fn trim_end(s: Seq<char>) -> Seq<char>
    decreases s.len(),
{
    if s.len() > 0 && is_ws(s.last()) {
        trim_end(s.drop_last())
    } else {
        s
    }
}

/// `str::trim`.
pub open spec fn trim(s: Seq<char>) -> Seq<char> {
    trim_end(trim_start(s))
}

/// `str::find(p)` from position `from`: the first `i >= from` at which `p`
/// occurs in `s`.
pub open spec fn occurs_at(s: Seq<char>, p: Seq<char>, i: int) -> bool {
    0 <= i && i + p.len() <= s.len() && s.subrange(i, i + p.len()) == p
}

// ── lemmas ─────────────────────────────────────────────────────────────────

proof fn lemma_first_unique(s: Seq<char>, c: char, i: int, k: int)
    requires
        is_first(s, c, i),
        is_first(s, c, k),
    ensures
        i == k,
{
}

proof fn lemma_last_unique(s: Seq<char>, c: char, i: int, k: int)
    requires
        is_last(s, c, i),
        is_last(s, c, k),
    ensures
        i == k,
{
}

/// `first_pos` is the position found by a left-to-right scan.
pub proof fn lemma_first_pos(s: Seq<char>, c: char, i: int)
    requires
        is_first(s, c, i),
    ensures
        first_pos(s, c) == Some(i),
{
    let k = choose|k: int| is_first(s, c, k);
    lemma_first_unique(s, c, i, k);
}

/// No `c` anywhere means no first position.
pub proof fn lemma_first_pos_none(s: Seq<char>, c: char)
    requires
        forall|j: int| 0 <= j < s.len() ==> s[j] != c,
    ensures
        first_pos(s, c) is None,
{
}

/// `last_pos` is the position found by a right-to-left scan.
pub proof fn lemma_last_pos(s: Seq<char>, c: char, i: int)
    requires
        is_last(s, c, i),
    ensures
        last_pos(s, c) == Some(i),
{
    let k = choose|k: int| is_last(s, c, k);
    lemma_last_unique(s, c, i, k);
}

/// `seq_less` is irreflexive.
pub proof fn lemma_less_irreflexive(a: Seq<char>)
    ensures
        !seq_less(a, a),
    decreases a.len(),
{
    if a.len() > 0 {
        lemma_less_irreflexive(a.drop_first());
    }
}

/// `seq_less` is asymmetric.
pub proof fn lemma_less_asymmetric(a: Seq<char>, b: Seq<char>)
    requires
        seq_less(a, b),
    ensures
        !seq_less(b, a),
    decreases a.len(),
{
    if a.len() > 0 && b.len() > 0 && a[0] == b[0] {
        lemma_less_asymmetric(a.drop_first(), b.drop_first());
    }
}

/// `seq_less` is transitive.
pub proof fn lemma_less_transitive(a: Seq<char>, b: Seq<char>, c: Seq<char>)
    requires
        seq_less(a, b),
        seq_less(b, c),
    ensures
        seq_less(a, c),
    decreases a.len(),
{
    if a.len() > 0 && b.len() > 0 && c.len() > 0 && a[0] == b[0] && b[0] == c[0] {
        lemma_less_transitive(a.drop_first(), b.drop_first(), c.drop_first());
    }
}

/// Distinct sequences are ordered one way or the other.
pub proof fn lemma_less_total(a: Seq<char>, b: Seq<char>)
    requires
        a != b,
    ensures
        seq_less(a, b) || seq_less(b, a),
    decreases a.len(),
{
    if a.len() == 0 && b.len() == 0 {
        assert(a =~= b);
    } else if a.len() > 0 && b.len() > 0 && a[0] == b[0] {
        if a.drop_first() == b.drop_first() {
            assert(a =~= seq![a[0]] + a.drop_first());
            assert(b =~= seq![b[0]] + b.drop_first());
        }
        lemma_less_total(a.drop_first(), b.drop_first());
    } else if a.len() > 0 && b.len() > 0 {
        lemma_char_u32_injective(a[0], b[0]);
    }
}

proof fn lemma_char_u32_injective(c: char, d: char)
    requires
        c != d,
    ensures
        (c as u32) != (d as u32),
{
    assert((c as int) != (d as int));
}

pub proof fn lemma_trim_start_skip(s: Seq<char>, i: int)
    requires
        0 <= i <= s.len(),
        forall|j: int| 0 <= j < i ==> is_ws(s[j]),
    ensures
        trim_start(s) == trim_start(s.skip(i)),
    decreases i,
{
    if i > 0 {
        assert(s.drop_first().skip(i - 1) =~= s.skip(i));
        lemma_trim_start_skip(s.drop_first(), i - 1);
    } else {
        assert(s.skip(0) =~= s);
    }
}

pub proof fn lemma_trim_end_take(s: Seq<char>, i: int)
    requires
        0 <= i <= s.len(),
        forall|j: int| i <= j < s.len() ==> is_ws(s[j]),
    ensures
        trim_end(s) == trim_end(s.take(i)),
    decreases s.len() - i,
{
    if i < s.len() {
        assert(s.drop_last().take(i) =~= s.take(i));
        lemma_trim_end_take(s.drop_last(), i);
    } else {
        assert(s.take(i) =~= s);
    }
}

// ── exec helpers ────────────────────────────────────────────────────────────

/// The characters of `s`, in order.
pub fn chars_of(s: &str) -> (v: Vec<char>)
    ensures
        v@ == s@,
{
    let mut v: Vec<char> = Vec::new();
    for c in it: s.chars()
        invariant
            it.seq() == s@,
            v@ == it.seq().take(it.index() as int),
    {
        v.push(c);
    }
    v
}

/// Whether two strings hold the same characters.
pub fn str_eq(a: &str, b: &str) -> (res: bool)
    ensures
        res == (a@ == b@),
{
    let va = chars_of(a);
    let vb = chars_of(b);
    chars_eq(&va, &vb)
}

/// Whether two character vectors are equal.
pub fn chars_eq(va: &Vec<char>, vb: &Vec<char>) -> (res: bool)
    ensures
        res == (va@ == vb@),
{
    if va.len() != vb.len() {
        return false;
    }
    let mut i: usize = 0;
    while i < va.len()
        invariant
            va.len() == vb.len(),
            i <= va.len(),
            forall|j: int| 0 <= j < i ==> va@[j] == vb@[j],
        decreases va.len() - i,
    {
        if va[i] != vb[i] {
            return false;
        }
        i += 1;
    }
    assert(va@ =~= vb@);
    true
}

/// Whether `cs[at..]` begins with `p`.
pub fn chars_occur_at(cs: &Vec<char>, p: &Vec<char>, at: usize) -> (res: bool)
    ensures
        res == occurs_at(cs@, p@, at as int),
{
    if at > cs.len() || p.len() > cs.len() - at {
        return false;
    }
    let mut i: usize = 0;
    while i < p.len()
        invariant
            at + p.len() <= cs.len(),
            i <= p.len(),
            forall|j: int| 0 <= j < i ==> cs@[at + j] == p@[j],
        decreases p.len() - i,
    {
        if cs[at + i] != p[i] {
            assert(cs@.subrange(at as int, at + p.len())[i as int] != p@[i as int]);
            return false;
        }
        i += 1;
    }
    assert(cs@.subrange(at as int, at + p.len()) =~= p@);
    true
}

/// `s.starts_with(p)`.
pub fn starts_with(s: &str, p: &str) -> (res: bool)
    ensures
        res == has_prefix(s@, p@),
{
    let cs = chars_of(s);
    let cp = chars_of(p);
    chars_occur_at(&cs, &cp, 0)
}

/// `s.ends_with(p)`.
pub fn ends_with(s: &str, p: &str) -> (res: bool)
    ensures
        res == has_suffix(s@, p@),
{
    let cs = chars_of(s);
    let cp = chars_of(p);
    if cp.len() > cs.len() {
        return false;
    }
    chars_occur_at(&cs, &cp, cs.len() - cp.len())
}

/// The first position of `c` in `cs`.
pub fn chars_find(cs: &Vec<char>, c: char) -> (res: Option<usize>)
    ensures
        res matches Some(i) ==> first_pos(cs@, c) == Some(i as int) && i < cs.len(),
        res is None ==> first_pos(cs@, c) is None,
        res is None <==> !cs@.contains(c),
{
    let mut i: usize = 0;
    while i < cs.len()
        invariant
            i <= cs.len(),
            forall|j: int| 0 <= j < i ==> cs@[j] != c,
        decreases cs.len() - i,
    {
        if cs[i] == c {
            proof {
                lemma_first_pos(cs@, c, i as int);
            }
            return Some(i);
        }
        i += 1;
    }
    proof {
        lemma_first_pos_none(cs@, c);
    }
    None
}

/// The last position of `c` in `cs`.
pub fn chars_rfind(cs: &Vec<char>, c: char) -> (res: Option<usize>)
    ensures
        res matches Some(i) ==> last_pos(cs@, c) == Some(i as int) && i < cs.len(),
        res is None ==> last_pos(cs@, c) is None,
{
    let mut i: usize = cs.len();
    while i > 0
        invariant
            i <= cs.len(),
            forall|j: int| i <= j < cs.len() ==> cs@[j] != c,
        decreases i,
    {
        if cs[i - 1] == c {
            proof {
                lemma_last_pos(cs@, c, i - 1);
            }
            return Some(i - 1);
        }
        i -= 1;
    }
    None
}

/// Whether `c` occurs in `s`.
pub fn contains_char(s: &str, c: char) -> (res: bool)
    ensures
        res == s@.contains(c),
{
    let cs = chars_of(s);
    chars_find(&cs, c).is_some()
}

/// `s.split_once(c)`.
pub fn split_once_char<'a>(s: &'a str, c: char) -> (res: Option<(&'a str, &'a str)>)
    ensures
        match res {
            Some((a, b)) => split_once(s@, c) == Some((a@, b@)),
            None => split_once(s@, c) is None,
        },
{
    let cs = chars_of(s);
    match chars_find(&cs, c) {
        Some(i) => {
            let a = s.substring_char(0, i);
            let b = s.substring_char(i + 1, cs.len());
            Some((a, b))
        },
        None => None,
    }
}

/// `s.rsplit_once(c)`.
pub fn rsplit_once_char<'a>(s: &'a str, c: char) -> (res: Option<(&'a str, &'a str)>)
    ensures
        match res {
            Some((a, b)) => rsplit_once(s@, c) == Some((a@, b@)),
            None => rsplit_once(s@, c) is None,
        },
{
    let cs = chars_of(s);
    match chars_rfind(&cs, c) {
        Some(i) => {
            let a = s.substring_char(0, i);
            let b = s.substring_char(i + 1, cs.len());
            Some((a, b))
        },
        None => None,
    }
}

/// `s.strip_prefix(p)`.
pub fn strip_prefix<'a>(s: &'a str, p: &str) -> (res: Option<&'a str>)
    ensures
        match res {
            Some(r) => has_prefix(s@, p@) && r@ == s@.subrange(p@.len() as int, s@.len() as int),
            None => !has_prefix(s@, p@),
        },
{
    let cs = chars_of(s);
    let cp = chars_of(p);
    if chars_occur_at(&cs, &cp, 0) {
        Some(s.substring_char(cp.len(), cs.len()))
    } else {
        None
    }
}

/// A substring by character positions.
pub fn substring<'a>(s: &'a str, from: usize, to: usize) -> (res: &'a str)
    requires
        from <= to <= s@.len(),
    ensures
        res@ == s@.subrange(from as int, to as int),
{
    s.substring_char(from, to)
}

/// An owned copy of `s`.
pub fn to_owned_string(s: &str) -> (res: String)
    ensures
        res@ == s@,
{
    s.to_owned()
}

/// An owned copy of `cs[from..to]`, where `cs` holds the characters of `s`.
pub fn owned_sub(s: &str, from: usize, to: usize) -> (res: String)
    requires
        from <= to <= s@.len(),
    ensures
        res@ == s@.subrange(from as int, to as int),
{
    s.substring_char(from, to).to_owned()
}

/// `char::is_whitespace`.
pub fn is_whitespace(c: char) -> (res: bool)
    ensures
        res == is_ws(c),
{
    let u = c as u32;
    (0x9 <= u && u <= 0xD) || u == 0x20 || u == 0x85 || u == 0xA0 || u == 0x1680 || (0x2000
        <= u && u <= 0x200A) || u == 0x2028 || u == 0x2029 || u == 0x202F || u == 0x205F || u
        == 0x3000
}

/// `s.trim().is_empty()`.
pub fn is_blank(s: &str) -> (res: bool)
    ensures
        res == all_ws(s@),
{
    let cs = chars_of(s);
    let mut i: usize = 0;
    while i < cs.len()
        invariant
            cs@ == s@,
            i <= cs.len(),
            forall|j: int| 0 <= j < i ==> is_ws(cs@[j]),
        decreases cs.len() - i,
    {
        if !is_whitespace(cs[i]) {
            return false;
        }
        i += 1;
    }
    true
}

/// The bounds `(start, end)` of `trim(cs[from..to])` inside `cs`.
pub fn trim_bounds(cs: &Vec<char>, from: usize, to: usize) -> (res: (usize, usize))
    requires
        from <= to <= cs.len(),
    ensures
        from <= res.0 <= res.1 <= to,
        cs@.subrange(res.0 as int, res.1 as int) == trim(cs@.subrange(from as int, to as int)),
{
    let ghost s = cs@.subrange(from as int, to as int);
    let mut a = from;
    while a < to && is_whitespace(cs[a])
        invariant
            from <= a <= to <= cs.len(),
            forall|j: int| from <= j < a ==> is_ws(cs@[j]),
        decreases to - a,
    {
        a += 1;
    }
    proof {
        lemma_trim_start_skip(s, a - from);
        assert(s.skip(a - from) =~= cs@.subrange(a as int, to as int));
        let t = cs@.subrange(a as int, to as int);
        if t.len() > 0 {
            assert(t[0] == cs@[a as int]);
        }
    }
    let mut b = to;
    while b > a && is_whitespace(cs[b - 1])
        invariant
            from <= a <= b <= to <= cs.len(),
            forall|j: int| b <= j < to ==> is_ws(cs@[j]),
        decreases b,
    {
        b -= 1;
    }
    proof {
        let t = cs@.subrange(a as int, to as int);
        lemma_trim_end_take(t, b - a);
        assert(t.take(b - a) =~= cs@.subrange(a as int, b as int));
        let u = cs@.subrange(a as int, b as int);
        if u.len() > 0 {
            assert(u.last() == cs@[b - 1]);
        }
    }
    (a, b)
}

/// `s.trim()`.
pub fn trim_str<'a>(s: &'a str) -> (res: &'a str)
    ensures
        res@ == trim(s@),
{
    let cs = chars_of(s);
    let (a, b) = trim_bounds(&cs, 0, cs.len());
    assert(cs@.subrange(0, cs@.len() as int) =~= s@);
    s.substring_char(a, b)
}

/// The first position `i >= from` at which `p` occurs in `cs`.
pub fn find_from(cs: &Vec<char>, p: &Vec<char>, from: usize) -> (res: Option<usize>)
    ensures
        res matches Some(i) ==> from <= i && occurs_at(cs@, p@, i as int) && forall|j: int|
            from <= j < i ==> !occurs_at(cs@, p@, j),
        res is None ==> forall|j: int| from <= j ==> !occurs_at(cs@, p@, j),
{
    if p.len() > cs.len() {
        return None;
    }
    let last = cs.len() - p.len();
    let mut i = from;
    while i <= last
        invariant
            from <= i,
            last + p.len() == cs.len(),
            forall|j: int| from <= j < i ==> !occurs_at(cs@, p@, j),
        decreases last + 1 - i,
    {
        if chars_occur_at(cs, p, i) {
            return Some(i);
        }
        if i == last {
            return None;
        }
        i += 1;
    }
    None
}

/// Exec `seq_less` on strings.
pub fn str_less(a: &str, b: &str) -> (res: bool)
    ensures
        res == seq_less(a@, b@),
{
    let va = chars_of(a);
    let vb = chars_of(b);
    chars_less(&va, &vb)
}

proof fn lemma_less_common_prefix(a: Seq<char>, b: Seq<char>, i: int)
    requires
        0 <= i <= a.len(),
        i <= b.len(),
        forall|j: int| 0 <= j < i ==> a[j] == b[j],
    ensures
        seq_less(a, b) == seq_less(a.skip(i), b.skip(i)),
    decreases i,
{
    if i > 0 {
        assert(a.drop_first().skip(i - 1) =~= a.skip(i));
        assert(b.drop_first().skip(i - 1) =~= b.skip(i));
        lemma_less_common_prefix(a.drop_first(), b.drop_first(), i - 1);
    } else {
        assert(a.skip(0) =~= a);
        assert(b.skip(0) =~= b);
    }
}

/// Exec `seq_less` on character vectors.
pub fn chars_less(va: &Vec<char>, vb: &Vec<char>) -> (res: bool)
    ensures
        res == seq_less(va@, vb@),
{
    let mut i: usize = 0;
    while i < va.len() && i < vb.len()
        invariant
            i <= va.len(),
            i <= vb.len(),
            forall|j: int| 0 <= j < i ==> va@[j] == vb@[j],
        decreases va.len() - i,
    {
        if va[i] != vb[i] {
            proof {
                lemma_less_common_prefix(va@, vb@, i as int);
                assert(va@.skip(i as int)[0] == va@[i as int]);
                assert(vb@.skip(i as int)[0] == vb@[i as int]);
            }
            return (va[i] as u32) < (vb[i] as u32);
        }
        i += 1;
    }
    proof {
        lemma_less_common_prefix(va@, vb@, i as int);
    }
    va.len() < vb.len()
}

/// The first position at or after `from` where `p` occurs in `s`.
pub open spec fn find_seq(s: Seq<char>, p: Seq<char>, from: int) -> Option<int>
    decreases s.len() + 1 - from,
{
    if from < 0 || from + p.len() > s.len() {
        None
    } else if occurs_at(s, p, from) {
        Some(from)
    } else {
        find_seq(s, p, from + 1)
    }
}

/// The first position at or after `from` holding `c`.
pub open spec fn find_char(s: Seq<char>, c: char, from: int) -> Option<int>
    decreases s.len() - from,
{
    if from < 0 || from >= s.len() {
        None
    } else if s[from] == c {
        Some(from)
    } else {
        find_char(s, c, from + 1)
    }
}

/// What [`find_seq`] finds lies at or after `from` and is an occurrence.
pub proof fn lemma_find_seq_range(s: Seq<char>, p: Seq<char>, from: int)
    ensures
        find_seq(s, p, from) matches Some(i) ==> from <= i && occurs_at(s, p, i),
    decreases s.len() + 1 - from,
{
    if !(from < 0 || from + p.len() > s.len()) && !occurs_at(s, p, from) {
        lemma_find_seq_range(s, p, from + 1);
    }
}

/// What [`find_char`] finds lies at or after `from` and holds `c`.
pub proof fn lemma_find_char_range(s: Seq<char>, c: char, from: int)
    ensures
        find_char(s, c, from) matches Some(i) ==> from <= i < s.len() && s[i] == c,
    decreases s.len() - from,
{
    if !(from < 0 || from >= s.len()) && s[from] != c {
        lemma_find_char_range(s, c, from + 1);
    }
}

/// A first occurrence at or after `from` is what [`find_seq`] finds.
pub proof fn lemma_find_seq_first(s: Seq<char>, p: Seq<char>, from: int, i: int)
    requires
        0 <= from <= i,
        occurs_at(s, p, i),
        forall|j: int| from <= j < i ==> !occurs_at(s, p, j),
    ensures
        find_seq(s, p, from) == Some(i),
    decreases i - from,
{
    if from < i {
        lemma_find_seq_first(s, p, from + 1, i);
    }
}

/// With no occurrence at or after `from`, [`find_seq`] finds nothing.
pub proof fn lemma_find_seq_none(s: Seq<char>, p: Seq<char>, from: int)
    requires
        0 <= from,
        forall|j: int| from <= j ==> !occurs_at(s, p, j),
    ensures
        find_seq(s, p, from) is None,
    decreases s.len() + 1 - from,
{
    if from + p.len() <= s.len() {
        lemma_find_seq_none(s, p, from + 1);
    }
}

/// [`find_seq`] on character vectors.
pub fn find_seq_from(cs: &Vec<char>, p: &Vec<char>, from: usize) -> (res: Option<usize>)
    ensures
        match res {
            Some(i) => find_seq(cs@, p@, from as int) == Some(i as int),
            None => find_seq(cs@, p@, from as int) is None,
        },
{
    match find_from(cs, p, from) {
        Some(i) => {
            proof {
                lemma_find_seq_first(cs@, p@, from as int, i as int);
            }
            Some(i)
        },
        None => {
            proof {
                lemma_find_seq_none(cs@, p@, from as int);
            }
            None
        },
    }
}

/// [`find_char`] on character vectors.
pub fn find_char_from(cs: &Vec<char>, c: char, from: usize) -> (res: Option<usize>)
    ensures
        match res {
            Some(i) => find_char(cs@, c, from as int) == Some(i as int),
            None => find_char(cs@, c, from as int) is None,
        },
{
    let mut i = from;
    while i < cs.len()
        invariant
            from <= i,
            find_char(cs@, c, from as int) == find_char(cs@, c, i as int),
        decreases cs@.len() - i,
    {
        if cs[i] == c {
            return Some(i);
        }
        i += 1;
    }
    None
}

} // verus!
