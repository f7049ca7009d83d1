//! View-stratum seam: field projections harvested from Odoo `ir.ui.view`
//! records, and the projection bits minted from them.
//!
//! A view is a field-projection of a model. This module scans view XML,
//! splits the referenced fields into this-model fields and comodel hops, and
//! mints the projection as plain bit-words: LSB-first within each `u64`,
//! word `i` covering universe indices `[64·i, 64·i + 64)`.
//!
//! The scanner is a hand-rolled tag scanner, not a general XML parser: it
//! handles tags spanning lines, quoted attribute values, `<!-- -->` comments
//! and self-closing elements, and nothing more (no CDATA, no processing
//! instructions, no malformed markup).
//!
//! Inside a view's `<field name="arch">` payload, `<field name="X">`
//! elements come in two strata: top-level ones are fields of the view's
//! model ([`ViewFields::fields`]); ones nested inside another field's
//! subtree belong to that field's comodel ([`ViewFields::relation_hops`] as
//! `(outer_field, inner_field)`). The record's own metadata fields (`name`,
//! `model`, the `arch` wrapper) are never counted.
use vstd::prelude::*;
use crate::strset::{contains_str, sorted, sorted_insert, view_strs};
use crate::text::{
    chars_occur_at, chars_of, find_char, find_char_from, find_seq, find_seq_from, is_whitespace, is_ws,
    lemma_find_char_range, lemma_find_seq_none, lemma_find_seq_range, lemma_trim_end_take,
    lemma_trim_start_skip, occurs_at, owned_sub, str_eq, substring, to_owned_string, trim, trim_end,
    trim_start, trim_str,
};
use crate::triple::{is_cross_record, member_of, model_of, spec_member_of, spec_model_of, Triple};

verus! {

// ── masks ────────────────────────────────────────────────────────────────────

/// Bit `i` of the words: LSB-first within each word, word `i / 64`.
pub open spec fn bit_at(ws: Seq<u64>, i: int) -> bool {
    &&& 0 <= i
    &&& i / 64 < ws.len()
    &&& (ws[i / 64] >> ((i % 64) as u64)) & 1u64 == 1u64
}

/// The number of set bits among indices `0..n`.
pub open spec fn count_set(ws: Seq<u64>, n: nat) -> nat
    decreases n,
{
    if n == 0 {
        0
    } else {
        count_set(ws, (n - 1) as nat) + if bit_at(ws, n - 1) {
            1nat
        } else {
            0nat
        }
    }
}

/// The minted projection bits: LSB-first within each `u64`, word `i`
/// covering universe indices `[64·i, 64·i + 64)`.
#[derive(Debug, Clone, PartialEq, Eq)]
pub struct MaskWords(pub Vec<u64>);

proof fn lemma_split_index(w: int, k: int)
    requires
        0 <= w,
        0 <= k < 64,
    ensures
        (64 * w + k) / 64 == w,
        (64 * w + k) % 64 == k,
{
    vstd::arithmetic::div_mod::lemma_fundamental_div_mod_converse(64 * w + k, 64, w, k);
}

impl MaskWords {
    /// Number of set bits across all words.
    pub fn popcount(&self) -> (n: u32)
        requires
            self.0@.len() * 64 <= u32::MAX,
        ensures
            n == count_set(self.0@, (64 * self.0@.len()) as nat),
    {
        let ghost ws = self.0@;
        let mut total: u32 = 0;
        let mut w: usize = 0;
        while w < self.0.len()
            invariant
                ws == self.0@,
                ws.len() * 64 <= u32::MAX,
                w <= ws.len(),
                total == count_set(ws, (64 * w) as nat),
                total <= 64 * w,
            decreases ws.len() - w,
        {
            let word = self.0[w];
            let mut k: u64 = 0;
            while k < 64
                invariant
                    ws == self.0@,
                    ws.len() * 64 <= u32::MAX,
                    w < ws.len(),
                    word == ws[w as int],
                    k <= 64,
                    total == count_set(ws, (64 * w + k) as nat),
                    total <= 64 * w + k,
                decreases 64 - k,
            {
                proof {
                    lemma_split_index(w as int, k as int);
                    assert(bit_at(ws, 64 * w + k) == ((word >> k) & 1u64 == 1u64));
                }
                if (word >> k) & 1 == 1 {
                    total = total + 1;
                }
                k += 1;
            }
            w += 1;
        }
        total
    }

    /// Whether universe index `i` is set. Out-of-range indices read as unset
    /// (the mask is conceptually zero-extended).
    pub fn is_set(&self, i: usize) -> (b: bool)
        ensures
            b == bit_at(self.0@, i as int),
    {
        let w = i / 64;
        if w < self.0.len() {
            (self.0[w] >> ((i % 64) as u64)) & 1 == 1
        } else {
            false
        }
    }
}

/// Setting bit `k` of a word changes bit `k` only.
proof fn lemma_set_bit(x: u64, k: u64, m: u64)
    requires
        k < 64,
        m < 64,
    ensures
        ((x | (1u64 << k)) >> m) & 1u64 == if m == k {
            1u64
        } else {
            (x >> m) & 1u64
        },
{
    assert(((x | (1u64 << k)) >> m) & 1u64 == if m == k {
        1u64
    } else {
        (x >> m) & 1u64
    }) by (bit_vector)
        requires
            k < 64,
            m < 64,
    ;
}

/// No bit of the zero word is set.
proof fn lemma_zero_bits(m: u64)
    requires
        m < 64,
    ensures
        (0u64 >> m) & 1u64 == 0u64,
{
    assert((0u64 >> m) & 1u64 == 0u64) by (bit_vector);
}

/// `universe[i]` is among `present`.
pub open spec fn in_present(universe: Seq<String>, present: Seq<String>, i: int) -> bool {
    view_strs(present).contains(universe[i]@)
}

/// `bit i of the mask == (universe[i] ∈ present)`, over `universe.len()`
/// indices rounded up to whole words.
pub open spec fn mask_of(ws: Seq<u64>, universe: Seq<String>, present: Seq<String>) -> bool {
    &&& ws.len() == (universe.len() + 63) / 64
    &&& forall|i: int|
        0 <= i < 64 * ws.len() ==> (#[trigger] bit_at(ws, i) <==> (i < universe.len() && in_present(universe, present, i)))
}

/// Mint the projection mask: bit `i` is set iff `universe[i]` is in
/// `present`; `universe.len()` rounded up to whole words (none for an empty
/// universe). Names in `present` that are not in `universe` set no bit.
pub fn mint_mask(universe: &[String], present: &[String]) -> (m: MaskWords)
    ensures
        mask_of(m.0@, universe@, present@),
{
    let n = universe.len();
    let nwords = n / 64 + if n % 64 != 0 {
        1
    } else {
        0
    };
    proof {
        assert(nwords == (n + 63) / 64) by (nonlinear_arith)
            requires
                nwords == n / 64 + if n % 64 != 0 {
                    1int
                } else {
                    0int
                },
        ;
        assert(n <= 64 * nwords) by (nonlinear_arith)
            requires
                nwords == (n + 63) / 64,
        ;
    }
    let mut words: Vec<u64> = Vec::new();
    while words.len() < nwords
        invariant
            words@.len() <= nwords,
            forall|j: int| 0 <= j < words@.len() ==> words@[j] == 0u64,
        decreases nwords - words@.len(),
    {
        words.push(0);
    }
    proof {
        assert forall|j: int| 0 <= j < 64 * words@.len() implies !bit_at(words@, j) by {
            if 0 <= j {
                let w = j / 64;
                let k = j % 64;
                assert(0 <= k < 64);
                assert(w < words@.len()) by (nonlinear_arith)
                    requires
                        0 <= j < 64 * words@.len(),
                        w == j / 64,
                ;
                lemma_zero_bits(k as u64);
            }
        }
    }
    let mut i: usize = 0;
    while i < n
        invariant
            n == universe@.len(),
            words@.len() == nwords,
            nwords == (n + 63) / 64,
            n <= 64 * nwords,
            i <= n,
            forall|j: int|
                0 <= j < 64 * words@.len() ==> (#[trigger] bit_at(words@, j) <==> (j < i && in_present(universe@, present@, j))),
        decreases n - i,
    {
        let hit = contains_str(present, universe[i].as_str());
        if hit {
            let w = i / 64;
            let k = (i % 64) as u64;
            let ghost before = words@;
            proof {
                assert(w < nwords) by (nonlinear_arith)
                    requires
                        i < n,
                        n <= 64 * nwords,
                        w == i / 64,
                ;
            }
            let nw = words[w] | (1u64 << k);
            words.set(w, nw);
            proof {
                assert forall|j: int|
                    0 <= j < 64 * words@.len() implies (#[trigger] bit_at(words@, j) <==> (j < i + 1 && in_present(universe@, present@, j))) by {
                    let jw = j / 64;
                    let jk = j % 64;
                    assert(0 <= jk < 64);
                    assert(0 <= jw < words@.len()) by (nonlinear_arith)
                        requires
                            0 <= j < 64 * words@.len(),
                            jw == j / 64,
                    ;
                    lemma_split_index(jw, jk);
                    assert(j == 64 * jw + jk) by (nonlinear_arith)
                        requires
                            jw == j / 64,
                            jk == j % 64,
                    ;
                    assert(i == 64 * w + k) by (nonlinear_arith)
                        requires
                            w == i / 64,
                            k == i % 64,
                    ;
                    assert(bit_at(words@, j) == ((words@[jw] >> (jk as u64)) & 1u64 == 1u64));
                    assert(bit_at(before, j) == ((before[jw] >> (jk as u64)) & 1u64 == 1u64));
                    if jw == w {
                        lemma_set_bit(before[w as int], k, jk as u64);
                        assert(words@[jw] == nw);
                        if jk == k {
                            assert(j == i);
                            assert(bit_at(words@, j));
                        } else {
                            assert(j != i);
                            assert(bit_at(words@, j) == bit_at(before, j));
                        }
                    } else {
                        assert(words@[jw] == before[jw]);
                        assert(j != i);
                        assert(bit_at(words@, j) == bit_at(before, j));
                    }
                }
            }
        } else {
            proof {
                assert(!view_strs(present@).contains(universe@[i as int]@));
                assert forall|j: int|
                    0 <= j < 64 * words@.len() implies (#[trigger] bit_at(words@, j) <==> (j < i + 1 && in_present(universe@, present@, j))) by {
                    if j == i {
                        assert(universe@[j]@ == universe@[i as int]@);
                        assert(!bit_at(words@, j));
                    }
                }
            }
        }
        i += 1;
    }
    MaskWords(words)
}

/// The number of universe positions among `0..n` whose field is present.
pub open spec fn present_count(universe: Seq<String>, present: Seq<String>, n: nat) -> nat
    decreases n,
{
    if n == 0 {
        0
    } else {
        present_count(universe, present, (n - 1) as nat) + if in_present(universe, present, n - 1) {
            1nat
        } else {
            0nat
        }
    }
}

proof fn lemma_count_prefix(ws: Seq<u64>, universe: Seq<String>, present: Seq<String>, n: nat)
    requires
        mask_of(ws, universe, present),
        n <= 64 * ws.len(),
    ensures
        count_set(ws, n) == present_count(universe, present, if n <= universe.len() {
            n
        } else {
            universe.len()
        }),
    decreases n,
{
    if n > 0 {
        lemma_count_prefix(ws, universe, present, (n - 1) as nat);
        assert(bit_at(ws, n - 1) <==> (n - 1 < universe.len() && in_present(universe, present, n - 1)));
    }
}

/// The mask round-trips: bit `i` of a minted mask reads as whether
/// `universe[i]` is present, at every index (indices past the universe read
/// unset), and the mask's popcount is the number of present universe fields.
pub proof fn law_mask_roundtrip(ws: Seq<u64>, universe: Seq<String>, present: Seq<String>)
    requires
        mask_of(ws, universe, present),
    ensures
        forall|i: int| 0 <= i ==> (#[trigger] bit_at(ws, i) <==> (i < universe.len() && in_present(universe, present, i))),
        count_set(ws, (64 * ws.len()) as nat) == present_count(universe, present, universe.len()),
{
    assert(universe.len() <= 64 * ws.len());
    assert forall|i: int| 0 <= i implies (#[trigger] bit_at(ws, i) <==> (i < universe.len() && in_present(universe, present, i))) by {
        if i >= 64 * ws.len() {
            assert(i / 64 >= ws.len()) by {
                vstd::arithmetic::div_mod::lemma_fundamental_div_mod(i, 64);
            }
        }
    }
    lemma_count_prefix(ws, universe, present, (64 * ws.len()) as nat);
}

/// A refusal to mint a mask.
#[derive(Debug, Clone, PartialEq, Eq)]
pub enum WideMaskError {
    /// The universe has more fields than a single mask's `u8` positions can
    /// address (256).
    UniverseExceedsSocCap {
        /// The universe's field count.
        fields: usize,
    },
}

/// The most fields a single wide mask addresses: positions are `u8`.
pub const WIDE_MASK_CAP: usize = 256;

/// Mint the projection mask for a universe of at most [`WIDE_MASK_CAP`]
/// fields; a larger universe is refused loudly rather than truncated.
pub fn mint_wide_mask(universe: &[String], present: &[String]) -> (r: Result<MaskWords, WideMaskError>)
    ensures
        match r {
            Ok(m) => universe@.len() <= WIDE_MASK_CAP && mask_of(m.0@, universe@, present@),
            Err(WideMaskError::UniverseExceedsSocCap { fields }) => universe@.len() > WIDE_MASK_CAP && fields
                == universe@.len(),
        },
{
    if universe.len() > WIDE_MASK_CAP {
        Err(WideMaskError::UniverseExceedsSocCap { fields: universe.len() })
    } else {
        Ok(mint_mask(universe, present))
    }
}

// ── field universe ───────────────────────────────────────────────────────────

/// The direct field a triple declares for `model`: the member of an
/// `odoo:<model>.<field>` subject typed `rdf:type ogit:Property`, when the
/// member is not a dotted (cross-record) path.
pub open spec fn declared_field(t: Triple, model: Seq<char>) -> Option<Seq<char>> {
    if t.p@ == "rdf:type"@ && t.o@ == "ogit:Property"@ && spec_model_of(t.s@) == model {
        match spec_member_of(t.s@) {
            Some(m) => if m.contains('.') {
                None
            } else {
                Some(m)
            },
            None => None,
        }
    } else {
        None
    }
}

/// Every direct field the triples declare for `model`.
pub open spec fn declared_fields(ts: Seq<Triple>, model: Seq<char>) -> Set<Seq<char>> {
    Set::new(|f: Seq<char>| exists|i: int| 0 <= i < ts.len() && declared_field(ts[i], model) == Some(f))
}

/// The model's ordered field universe from the corpus: its direct fields,
/// ascending.
pub fn field_universe(triples: &[Triple], model: &str) -> (u: Vec<String>)
    ensures
        sorted(view_strs(u@)),
        view_strs(u@).to_set() == declared_fields(triples@, model@),
{
    let ghost ts = triples@;
    let mut out: Vec<String> = Vec::new();
    let mut i: usize = 0;
    proof {
        assert(view_strs(out@).to_set() =~= declared_fields(ts.take(0), model@));
    }
    while i < triples.len()
        invariant
            ts == triples@,
            i <= ts.len(),
            sorted(view_strs(out@)),
            view_strs(out@).to_set() == declared_fields(ts.take(i as int), model@),
        decreases ts.len() - i,
    {
        let t = &triples[i];
        let ghost before = view_strs(out@).to_set();
        if str_eq(t.p.as_str(), "rdf:type") && str_eq(t.o.as_str(), "ogit:Property") && str_eq(
            model_of(t.s.as_str()),
            model,
        ) {
            if let Some(member) = member_of(t.s.as_str()) {
                if !is_cross_record(member) {
                    sorted_insert(&mut out, member);
                }
            }
        }
        proof {
            let tk0 = ts.take(i as int);
            let tk1 = ts.take(i + 1);
            assert(tk1 =~= tk0.push(ts[i as int]));
            let now = view_strs(out@).to_set();
            assert(now == match declared_field(ts[i as int], model@) {
                Some(f) => before.insert(f),
                None => before,
            });
            assert forall|f: Seq<char>| now.contains(f) <==> declared_fields(tk1, model@).contains(f) by {
                if declared_fields(tk1, model@).contains(f) {
                    let j = choose|j: int| 0 <= j < tk1.len() && declared_field(tk1[j], model@) == Some(f);
                    if j < i {
                        assert(tk0[j] == tk1[j]);
                        assert(declared_fields(tk0, model@).contains(f));
                    }
                }
                if before.contains(f) {
                    let j = choose|j: int| 0 <= j < tk0.len() && declared_field(tk0[j], model@) == Some(f);
                    assert(tk1[j] == tk0[j]);
                }
                if declared_field(ts[i as int], model@) == Some(f) {
                    assert(tk1[i as int] == ts[i as int]);
                }
            }
            assert(now =~= declared_fields(tk1, model@));
        }
        i += 1;
    }
    proof {
        assert(ts.take(ts.len() as int) =~= ts);
    }
    out
}

// ── the tag scanner ──────────────────────────────────────────────────────────

/// `s[st..st + 4]` is `<!--`.
pub open spec fn comment_open_at(s: Seq<char>, st: int) -> bool {
    occurs_at(s, seq!['<', '!', '-', '-'], st)
}

/// The position of the `>` closing a tag, scanning from `j` with `quote` the
/// open quote character if any: a `>` inside quotes does not close the tag.
pub open spec fn tag_close(s: Seq<char>, j: int, quote: Option<char>) -> Option<int>
    decreases s.len() - j,
{
    if j < 0 || j >= s.len() {
        None
    } else {
        let c = s[j];
        match quote {
            Some(q) => tag_close(s, j + 1, if c == q { None } else { quote }),
            None => if c == '"' || c == '\'' {
                tag_close(s, j + 1, Some(c))
            } else if c == '>' {
                Some(j)
            } else {
                tag_close(s, j + 1, None)
            },
        }
    }
}

proof fn lemma_tag_close_range(s: Seq<char>, j: int, quote: Option<char>)
    ensures
        tag_close(s, j, quote) matches Some(e) ==> j <= e < s.len(),
    decreases s.len() - j,
{
    if 0 <= j < s.len() {
        let c = s[j];
        match quote {
            Some(q) => lemma_tag_close_range(s, j + 1, if c == q { None } else { quote }),
            None => if c == '"' || c == '\'' {
                lemma_tag_close_range(s, j + 1, Some(c));
            } else if c != '>' {
                lemma_tag_close_range(s, j + 1, None);
            },
        }
    }
}

/// The next tag at or after `from` as its `[start, end)` span, both angle
/// brackets included. `<!-- -->` comments are skipped, not yielded; `None`
/// at the end of input or on an unterminated construct.
pub open spec fn next_tag(s: Seq<char>, from: int) -> Option<(int, int)>
    decreases s.len() - from,
{
    match find_char(s, '<', from) {
        None => None,
        Some(st) => {
            proof {
                lemma_find_char_range(s, '<', from);
            }
            if comment_open_at(s, st) {
                match find_seq(s, seq!['-', '-', '>'], st) {
                    None => None,
                    Some(k) => {
                        proof {
                            lemma_find_seq_range(s, seq!['-', '-', '>'], st);
                        }
                        next_tag(s, k + 3)
                    },
                }
            } else {
                match tag_close(s, st + 1, None) {
                    None => None,
                    Some(j) => Some((st, j + 1)),
                }
            }
        },
    }
}

/// A tag [`next_tag`] finds lies at or after `from`, inside `s`.
pub proof fn lemma_next_tag_range(s: Seq<char>, from: int)
    ensures
        next_tag(s, from) matches Some((a, b)) ==> from <= a < b <= s.len(),
    decreases s.len() - from,
{
    lemma_find_char_range(s, '<', from);
    match find_char(s, '<', from) {
        None => {},
        Some(st) => {
            if comment_open_at(s, st) {
                lemma_find_seq_range(s, seq!['-', '-', '>'], st);
                match find_seq(s, seq!['-', '-', '>'], st) {
                    None => {},
                    Some(k) => {
                        lemma_next_tag_range(s, k + 3);
                    },
                }
            } else {
                lemma_tag_close_range(s, st + 1, None);
            }
        },
    }
}

/// A character that may follow an element name in an opening tag.
pub open spec fn open_follow(c: char) -> bool {
    c == ' ' || c == '\t' || c == '\n' || c == '\r' || c == '/' || c == '>'
}

/// `t` opens element `elem` (`<elem ...>`, `<elem>`, `<elem/>`), without
/// matching longer names (`<field` does not open `fieldset`).
pub open spec fn is_open(t: Seq<char>, elem: Seq<char>) -> bool {
    &&& t.len() > elem.len() + 1
    &&& t[0] == '<'
    &&& occurs_at(t, elem, 1)
    &&& open_follow(t[elem.len() + 1int])
}

/// `t` closes element `elem` (`</elem>`, whitespace allowed before `>`).
pub open spec fn is_close(t: Seq<char>, elem: Seq<char>) -> bool {
    &&& t.len() >= elem.len() + 2
    &&& t[0] == '<'
    &&& t[1] == '/'
    &&& occurs_at(t, elem, 2)
    &&& trim_start(t.subrange(elem.len() + 2int, t.len() as int)) == seq!['>']
}

/// `t` with every trailing `>` removed.
pub open spec fn strip_gt(t: Seq<char>) -> Seq<char>
    decreases t.len(),
{
    if t.len() > 0 && t.last() == '>' {
        strip_gt(t.drop_last())
    } else {
        t
    }
}

/// `t` is self-closing (`... />`).
pub open spec fn is_self_closing(t: Seq<char>) -> bool {
    let u = trim_end(strip_gt(t));
    u.len() > 0 && u.last() == '/'
}

/// The span of the value of `pat` (an attribute name followed by `="`)
/// searching from `search`: an occurrence counts only when whitespace
/// precedes it, so `name=` never matches `inverse_name=`.
pub open spec fn attr_from(t: Seq<char>, pat: Seq<char>, search: int) -> Option<(int, int)>
    decreases t.len() + 1 - search,
{
    if pat.len() == 0 {
        None
    } else {
        match find_seq(t, pat, search) {
            None => None,
            Some(pos) => {
                proof {
                    lemma_find_seq_range(t, pat, search);
                }
                let vs = pos + pat.len();
                if pos > 0 && is_ws(t[pos - 1]) {
                    match find_char(t, '"', vs) {
                        None => None,
                        Some(q) => Some((vs, q)),
                    }
                } else {
                    attr_from(t, pat, vs)
                }
            },
        }
    }
}

/// The value of `attr="..."` inside the tag text `t`.
pub open spec fn attr_text(t: Seq<char>, attr: Seq<char>) -> Option<Seq<char>> {
    match attr_from(t, attr + seq!['=', '"'], 0) {
        Some((a, b)) => Some(t.subrange(a, b)),
        None => None,
    }
}

proof fn lemma_attr_from_range(t: Seq<char>, pat: Seq<char>, search: int)
    ensures
        attr_from(t, pat, search) matches Some((a, b)) ==> 0 <= a <= b < t.len(),
    decreases t.len() + 1 - search,
{
    if pat.len() > 0 {
        lemma_find_seq_range(t, pat, search);
        match find_seq(t, pat, search) {
            None => {},
            Some(pos) => {
                let vs = pos + pat.len();
                if pos > 0 && is_ws(t[pos - 1]) {
                    lemma_find_char_range(t, '"', vs);
                } else {
                    lemma_attr_from_range(t, pat, vs);
                }
            },
        }
    }
}

/// The characters `cs[a..b]`.
fn slice_chars(cs: &Vec<char>, a: usize, b: usize) -> (r: Vec<char>)
    requires
        a <= b <= cs@.len(),
    ensures
        r@ == cs@.subrange(a as int, b as int),
{
    let mut out: Vec<char> = Vec::new();
    let mut k = a;
    while k < b
        invariant
            a <= k <= b <= cs@.len(),
            out@ == cs@.subrange(a as int, k as int),
        decreases b - k,
    {
        out.push(cs[k]);
        proof {
            assert(out@ =~= cs@.subrange(a as int, k + 1));
        }
        k += 1;
    }
    out
}

/// Exec [`next_tag`].
fn scan_next_tag(cs: &Vec<char>, from: usize) -> (r: Option<(usize, usize)>)
    requires
        from <= cs@.len(),
    ensures
        match r {
            Some((a, b)) => next_tag(cs@, from as int) == Some((a as int, b as int)),
            None => next_tag(cs@, from as int) is None,
        },
    decreases cs@.len() - from,
{
    let st = match find_char_from(cs, '<', from) {
        None => return None,
        Some(st) => st,
    };
    proof {
        lemma_find_char_range(cs@, '<', from as int);
    }
    if cs.len() - st > 3 && cs[st] == '<' && cs[st + 1] == '!' && cs[st + 2] == '-' && cs[st + 3] == '-' {
        proof {
            assert(cs@.subrange(st as int, st + 4) =~= seq!['<', '!', '-', '-']);
        }
        let dashes = vec!['-', '-', '>'];
        proof {
            assert(dashes@ =~= seq!['-', '-', '>']);
        }
        match find_seq_from(cs, &dashes, st) {
            None => None,
            Some(k) => {
                proof {
                    lemma_find_seq_range(cs@, seq!['-', '-', '>'], st as int);
                }
                scan_next_tag(cs, k + 3)
            },
        }
    } else {
        proof {
            if comment_open_at(cs@, st as int) {
                assert(cs@.subrange(st as int, st + 4)[1] == '!');
                assert(cs@.subrange(st as int, st + 4)[2] == '-');
                assert(cs@.subrange(st as int, st + 4)[3] == '-');
            }
        }
        let mut quote: Option<char> = None;
        let mut j = st + 1;
        while j < cs.len()
            invariant
                st < cs@.len(),
                from <= st,
                find_char(cs@, '<', from as int) == Some(st as int),
                !comment_open_at(cs@, st as int),
                st + 1 <= j <= cs@.len(),
                tag_close(cs@, st + 1, None) == tag_close(cs@, j as int, quote),
            decreases cs@.len() - j,
        {
            let c = cs[j];
            match quote {
                Some(q) => {
                    if c == q {
                        quote = None;
                    }
                },
                None => {
                    if c == '"' || c == '\'' {
                        quote = Some(c);
                    } else if c == '>' {
                        return Some((st, j + 1));
                    }
                },
            }
            j += 1;
        }
        None
    }
}

/// Exec [`is_open`].
fn tag_is_open(t: &Vec<char>, elem: &str) -> (b: bool)
    ensures
        b == is_open(t@, elem@),
{
    let e = chars_of(elem);
    if t.len() > e.len() && t.len() - e.len() > 1 && t[0] == '<' && chars_occur_at(t, &e, 1) {
        let c = t[e.len() + 1];
        c == ' ' || c == '\t' || c == '\n' || c == '\r' || c == '/' || c == '>'
    } else {
        false
    }
}

/// Exec [`is_close`].
fn tag_is_close(t: &Vec<char>, elem: &str) -> (b: bool)
    ensures
        b == is_close(t@, elem@),
{
    let e = chars_of(elem);
    if t.len() >= e.len() && t.len() - e.len() >= 2 && t[0] == '<' && t[1] == '/' && chars_occur_at(t, &e, 2) {
        let from = e.len() + 2;
        let mut a = from;
        while a < t.len() && is_whitespace(t[a])
            invariant
                from <= a <= t@.len(),
                forall|j: int| from <= j < a ==> is_ws(t@[j]),
            decreases t@.len() - a,
        {
            a += 1;
        }
        proof {
            let r = t@.subrange(from as int, t@.len() as int);
            lemma_trim_start_skip(r, a - from);
            assert(r.skip(a - from) =~= t@.subrange(a as int, t@.len() as int));
            let u = t@.subrange(a as int, t@.len() as int);
            if u.len() > 0 {
                assert(u[0] == t@[a as int]);
            }
            assert(trim_start(u) == u);
            if a + 1 == t.len() && t@[a as int] == '>' {
                assert(u =~= seq!['>']);
            }
        }
        a < t.len() && t.len() - a == 1 && t[a] == '>'
    } else {
        false
    }
}

proof fn lemma_strip_gt_take(t: Seq<char>, e: int)
    requires
        0 <= e <= t.len(),
        forall|j: int| e <= j < t.len() ==> t[j] == '>',
        e == 0 || t[e - 1] != '>',
    ensures
        strip_gt(t) == t.take(e),
    decreases t.len() - e,
{
    if e < t.len() {
        assert(t.drop_last().take(e) =~= t.take(e));
        lemma_strip_gt_take(t.drop_last(), e);
    } else {
        assert(t.take(e) =~= t);
    }
}

/// Exec [`is_self_closing`].
fn tag_is_self_closing(t: &Vec<char>) -> (b: bool)
    ensures
        b == is_self_closing(t@),
{
    let mut e = t.len();
    while e > 0 && t[e - 1] == '>'
        invariant
            e <= t@.len(),
            forall|j: int| e <= j < t@.len() ==> t@[j] == '>',
        decreases e,
    {
        e -= 1;
    }
    proof {
        lemma_strip_gt_take(t@, e as int);
    }
    let ghost u = t@.take(e as int);
    let mut f = e;
    while f > 0 && is_whitespace(t[f - 1])
        invariant
            f <= e <= t@.len(),
            u == t@.take(e as int),
            forall|j: int| f <= j < e ==> is_ws(t@[j]),
        decreases f,
    {
        f -= 1;
    }
    proof {
        lemma_trim_end_take(u, f as int);
        assert(u.take(f as int) =~= t@.take(f as int));
        let w = t@.take(f as int);
        if w.len() > 0 {
            assert(w.last() == t@[f - 1]);
        }
    }
    f > 0 && t[f - 1] == '/'
}

/// Exec [`attr_from`] for the pattern `attr="`.
fn tag_attr(t: &Vec<char>, attr: &str) -> (r: Option<(usize, usize)>)
    ensures
        match r {
            Some((a, b)) => attr_from(t@, attr@ + seq!['=', '"'], 0) == Some((a as int, b as int)),
            None => attr_from(t@, attr@ + seq!['=', '"'], 0) is None,
        },
{
    let mut pat = chars_of(attr);
    pat.push('=');
    pat.push('"');
    let ghost pv = attr@ + seq!['=', '"'];
    proof {
        assert(pat@ =~= pv);
    }
    let mut search: usize = 0;
    loop
        invariant
            pat@ == pv,
            pv == attr@ + seq!['=', '"'],
            pv.len() >= 2,
            search <= t@.len() + 1,
            attr_from(t@, pv, 0) == attr_from(t@, pv, search as int),
        decreases t@.len() + 1 - search,
    {
        if search > t.len() {
            proof {
                assert(find_seq(t@, pv, search as int) is None);
                assert(attr_from(t@, pv, search as int) is None);
            }
            return None;
        }
        match find_seq_from(t, &pat, search) {
            None => {
                proof {
                    assert(attr_from(t@, pv, search as int) is None);
                }
                return None;
            },
            Some(pos) => {
                proof {
                    lemma_find_seq_range(t@, pv, search as int);
                }
                let vs = pos + pat.len();
                if pos > 0 && is_whitespace(t[pos - 1]) {
                    return match find_char_from(t, '"', vs) {
                        None => None,
                        Some(q) => Some((vs, q)),
                    };
                }
                search = vs;
            },
        }
    }
}

/// The value of attribute `attr` in the tag `t`, which sits at `ts` in
/// `xml`, as an owned string.
fn tag_attr_value(xml: &str, ts: usize, t: &Vec<char>, attr: &str) -> (r: Option<String>)
    requires
        ts + t@.len() <= xml@.len(),
        xml@.len() <= usize::MAX,
        t@ == xml@.subrange(ts as int, ts + t@.len()),
    ensures
        match r {
            Some(v) => attr_text(t@, attr@) == Some(v@),
            None => attr_text(t@, attr@) is None,
        },
{
    match tag_attr(t, attr) {
        None => None,
        Some((a, b)) => {
            proof {
                lemma_attr_from_range(t@, attr@ + seq!['=', '"'], 0);
                assert(t@.subrange(a as int, b as int) =~= xml@.subrange(ts + a, ts + b));
            }
            Some(owned_sub(xml, ts + a, ts + b))
        },
    }
}

// ── the record scanner ───────────────────────────────────────────────────────

/// The field-projection harvested from one `ir.ui.view` record.
#[derive(Debug, Clone, PartialEq, Eq)]
pub struct ViewFields {
    /// The view's `<field name="name">` text (`account.move.form`).
    pub view_name: String,
    /// The view's `<field name="model">` text (`account.move`).
    pub model: String,
    /// Top-level arch fields: fields of this model, document order, first
    /// occurrence only.
    pub fields: Vec<String>,
    /// `(outer_field, inner_field)` for fields nested inside another
    /// field's subtree (the inner field belongs to the outer field's
    /// comodel); document order, first occurrence only.
    pub relation_hops: Vec<(String, String)>,
}

/// The views of a vector of string pairs.
pub open spec fn pairs_view(v: Seq<(String, String)>) -> Seq<(Seq<char>, Seq<char>)> {
    v.map_values(|p: (String, String)| (p.0@, p.1@))
}

/// The abstract harvest of one view.
pub struct ViewModel {
    /// The view's name text.
    pub view_name: Seq<char>,
    /// The view's model text.
    pub model: Seq<char>,
    /// Top-level arch fields.
    pub fields: Seq<Seq<char>>,
    /// Nested `(outer, inner)` field pairs.
    pub hops: Seq<(Seq<char>, Seq<char>)>,
}

impl ViewFields {
    /// The abstract harvest.
    pub open spec fn model_view(&self) -> ViewModel {
        ViewModel {
            view_name: self.view_name@,
            model: self.model@,
            fields: view_strs(self.fields@),
            hops: pairs_view(self.relation_hops@),
        }
    }
}

/// The abstract harvests of a vector of views.
pub open spec fn views_view(v: Seq<ViewFields>) -> Seq<ViewModel> {
    v.map_values(|f: ViewFields| f.model_view())
}

/// Which metadata text a pending capture targets.
#[derive(Debug, Clone, Copy, PartialEq, Eq, Structural)]
pub enum MetaSlot {
    /// The view's name.
    ViewName,
    /// The view's model.
    Model,
}

/// The in-flight scan of one `ir.ui.view` record.
pub struct RecModel {
    /// Captured name text.
    pub view_name: Seq<char>,
    /// Captured model text.
    pub model: Seq<char>,
    /// Top-level arch fields so far.
    pub fields: Seq<Seq<char>>,
    /// Nested pairs so far.
    pub hops: Seq<(Seq<char>, Seq<char>)>,
    /// Names of the `<field>` elements open inside arch.
    pub stack: Seq<Seq<char>>,
    /// Inside the arch payload.
    pub in_arch: bool,
    /// A metadata capture in flight: its slot and where its text starts.
    pub pending: Option<(MetaSlot, int)>,
}

/// The scanner state: harvested views and the record in flight.
pub struct ScanModel {
    /// Views harvested so far.
    pub out: Seq<ViewModel>,
    /// The `ir.ui.view` record being scanned.
    pub cur: Option<RecModel>,
}

/// A record scan before any of its tags.
pub open spec fn fresh_rec() -> RecModel {
    RecModel {
        view_name: Seq::empty(),
        model: Seq::empty(),
        fields: Seq::empty(),
        hops: Seq::empty(),
        stack: Seq::empty(),
        in_arch: false,
        pending: None,
    }
}

/// A tag inside the arch payload: a `<field>` adds a top-level field or a
/// nested pair (first occurrence only) and, unless self-closing, opens a
/// level; a `</field>` closes a level, or, with none open, the arch wrapper.
pub open spec fn arch_step(rec: RecModel, tag: Seq<char>) -> RecModel {
    if is_open(tag, "field"@) {
        let name = match attr_text(tag, "name"@) {
            Some(v) => v,
            None => Seq::empty(),
        };
        let r1 = if rec.stack.len() > 0 {
            let hop = (rec.stack.last(), name);
            if rec.hops.contains(hop) {
                rec
            } else {
                RecModel { hops: rec.hops.push(hop), ..rec }
            }
        } else if rec.fields.contains(name) {
            rec
        } else {
            RecModel { fields: rec.fields.push(name), ..rec }
        };
        if is_self_closing(tag) {
            r1
        } else {
            RecModel { stack: r1.stack.push(name), ..r1 }
        }
    } else if is_close(tag, "field"@) {
        if rec.stack.len() == 0 {
            RecModel { in_arch: false, ..rec }
        } else {
            RecModel { stack: rec.stack.drop_last(), ..rec }
        }
    } else {
        rec
    }
}

/// A `</field>` outside arch ends the pending capture, storing the trimmed
/// text between the opening tag and `a`.
pub open spec fn close_meta(rec: RecModel, s: Seq<char>, a: int) -> RecModel {
    match rec.pending {
        Some((slot, ts)) => {
            let text = trim(s.subrange(ts, a));
            match slot {
                MetaSlot::ViewName => RecModel { view_name: text, pending: None, ..rec },
                MetaSlot::Model => RecModel { model: text, pending: None, ..rec },
            }
        },
        None => rec,
    }
}

/// A `<field>` outside arch: `name="arch"` enters the payload;
/// `name="name"` / `name="model"` start a capture at `b`.
pub open spec fn open_meta(rec: RecModel, tag: Seq<char>, b: int) -> RecModel {
    let r0 = RecModel { pending: None, ..rec };
    if is_self_closing(tag) {
        r0
    } else {
        match attr_text(tag, "name"@) {
            Some(v) => if v == "arch"@ {
                RecModel { in_arch: true, ..r0 }
            } else if v == "name"@ {
                RecModel { pending: Some((MetaSlot::ViewName, b)), ..r0 }
            } else if v == "model"@ {
                RecModel { pending: Some((MetaSlot::Model, b)), ..r0 }
            } else {
                r0
            },
            None => r0,
        }
    }
}

/// The harvest of a finished record.
pub open spec fn rec_result(rec: RecModel) -> ViewModel {
    ViewModel { view_name: rec.view_name, model: rec.model, fields: rec.fields, hops: rec.hops }
}

/// One tag `s[a..b]` through the scanner.
pub open spec fn scan_step(s: Seq<char>, st: ScanModel, a: int, b: int) -> ScanModel {
    let tag = s.subrange(a, b);
    match st.cur {
        None => if is_open(tag, "record"@) && !is_self_closing(tag) && attr_text(tag, "model"@) == Some(
            "ir.ui.view"@,
        ) {
            ScanModel { out: st.out, cur: Some(fresh_rec()) }
        } else {
            st
        },
        Some(rec) => if rec.in_arch {
            ScanModel { out: st.out, cur: Some(arch_step(rec, tag)) }
        } else if is_close(tag, "field"@) {
            ScanModel { out: st.out, cur: Some(close_meta(rec, s, a)) }
        } else if is_open(tag, "field"@) {
            ScanModel { out: st.out, cur: Some(open_meta(rec, tag, b)) }
        } else if is_close(tag, "record"@) {
            ScanModel { out: st.out.push(rec_result(rec)), cur: None }
        } else {
            ScanModel { out: st.out, cur: Some(RecModel { pending: None, ..rec }) }
        },
    }
}

/// The scanner run over every tag from `from` on.
pub open spec fn scan_from(s: Seq<char>, from: int, st: ScanModel) -> ScanModel
    decreases s.len() - from,
{
    match next_tag(s, from) {
        None => st,
        Some((a, b)) => {
            proof {
                lemma_next_tag_range(s, from);
            }
            scan_from(s, b, scan_step(s, st, a, b))
        },
    }
}

/// Every `ir.ui.view` record of the document, harvested in order.
pub open spec fn harvest(s: Seq<char>) -> Seq<ViewModel> {
    scan_from(s, 0, ScanModel { out: Seq::empty(), cur: None }).out
}

/// A record scan lists each top-level field and each nested pair once.
pub open spec fn rec_no_dups(r: RecModel) -> bool {
    r.fields.no_duplicates() && r.hops.no_duplicates()
}

/// Every harvested view and the record in flight list each field and each
/// nested pair once.
pub open spec fn scan_no_dups(st: ScanModel) -> bool {
    &&& forall|i: int| 0 <= i < st.out.len() ==> (#[trigger] st.out[i]).fields.no_duplicates() && st.out[i].hops.no_duplicates()
    &&& st.cur matches Some(r) ==> rec_no_dups(r)
}

proof fn lemma_push_fresh<A>(q: Seq<A>, x: A)
    requires
        q.no_duplicates(),
        !q.contains(x),
    ensures
        q.push(x).no_duplicates(),
{
    assert forall|i: int, j: int| 0 <= i < j < q.push(x).len() implies q.push(x)[i] != q.push(x)[j] by {
        if j == q.len() {
            assert(q.push(x)[i] == q[i]);
        }
    }
}

proof fn lemma_scan_step_no_dups(s: Seq<char>, st: ScanModel, a: int, b: int)
    requires
        scan_no_dups(st),
    ensures
        scan_no_dups(scan_step(s, st, a, b)),
{
    let tag = s.subrange(a, b);
    let nx = scan_step(s, st, a, b);
    match st.cur {
        None => {},
        Some(rec) => {
            if rec.in_arch {
                if is_open(tag, "field"@) {
                    let name = match attr_text(tag, "name"@) {
                        Some(v) => v,
                        None => Seq::empty(),
                    };
                    if rec.stack.len() > 0 {
                        let hop = (rec.stack.last(), name);
                        if !rec.hops.contains(hop) {
                            lemma_push_fresh(rec.hops, hop);
                        }
                    } else if !rec.fields.contains(name) {
                        lemma_push_fresh(rec.fields, name);
                    }
                }
            } else if !is_close(tag, "field"@) && !is_open(tag, "field"@) && is_close(tag, "record"@) {
                assert forall|i: int| 0 <= i < nx.out.len() implies (#[trigger] nx.out[i]).fields.no_duplicates()
                    && nx.out[i].hops.no_duplicates() by {
                    if i < st.out.len() {
                        assert(nx.out[i] == st.out[i]);
                    }
                }
            }
        },
    }
}

proof fn lemma_scan_from_no_dups(s: Seq<char>, from: int, st: ScanModel)
    requires
        scan_no_dups(st),
    ensures
        scan_no_dups(scan_from(s, from, st)),
    decreases s.len() - from,
{
    lemma_next_tag_range(s, from);
    match next_tag(s, from) {
        None => {},
        Some((a, b)) => {
            lemma_scan_step_no_dups(s, st, a, b);
            lemma_scan_from_no_dups(s, b, scan_step(s, st, a, b));
        },
    }
}

/// First occurrence only: every harvested view lists each top-level field,
/// and each `(outer, inner)` relation hop, exactly once.
pub proof fn law_harvest_lists_fields_once(s: Seq<char>)
    ensures
        forall|i: int|
            0 <= i < harvest(s).len() ==> (#[trigger] harvest(s)[i]).fields.no_duplicates() && harvest(s)[i].hops.no_duplicates(),
{
    lemma_scan_from_no_dups(s, 0, ScanModel { out: Seq::empty(), cur: None });
}

/// The `name` attribute of a `<field>` tag, empty when it has none.
pub open spec fn field_name(tag: Seq<char>) -> Seq<char> {
    match attr_text(tag, "name"@) {
        Some(v) => v,
        None => Seq::empty(),
    }
}

/// `p` is a prefix of `q`.
pub open spec fn prefix_of<A>(p: Seq<A>, q: Seq<A>) -> bool {
    p.len() <= q.len() && q.take(p.len() as int) == p
}

/// Completeness of one arch tag: a `<field name="I">` opened directly inside
/// an open `<field name="O">` puts the pair `(O, I)` among the hops, and the
/// hops become exactly the old ones plus that pair, the old ones first; with
/// no field open it puts `I` among the top-level fields the same way. Every
/// other tag leaves both lists as they were.
pub proof fn law_arch_step_collects(rec: RecModel, tag: Seq<char>)
    ensures
        ({
            let r = arch_step(rec, tag);
            let name = field_name(tag);
            &&& prefix_of(rec.hops, r.hops)
            &&& prefix_of(rec.fields, r.fields)
            &&& (is_open(tag, "field"@) && rec.stack.len() > 0) ==> {
                &&& r.hops.contains((rec.stack.last(), name))
                &&& forall|x: (Seq<char>, Seq<char>)|
                    #[trigger] r.hops.contains(x) <==> rec.hops.contains(x) || x == (rec.stack.last(), name)
                &&& r.fields == rec.fields
            }
            &&& (is_open(tag, "field"@) && rec.stack.len() == 0) ==> {
                &&& r.fields.contains(name)
                &&& forall|x: Seq<char>| #[trigger] r.fields.contains(x) <==> rec.fields.contains(x) || x == name
                &&& r.hops == rec.hops
            }
            &&& !is_open(tag, "field"@) ==> r.hops == rec.hops && r.fields == rec.fields
        }),
{
    let r = arch_step(rec, tag);
    let name = field_name(tag);
    assert(rec.hops.take(rec.hops.len() as int) =~= rec.hops);
    assert(rec.fields.take(rec.fields.len() as int) =~= rec.fields);
    if is_open(tag, "field"@) {
        if rec.stack.len() > 0 {
            let hop = (rec.stack.last(), name);
            if !rec.hops.contains(hop) {
                assert(rec.hops.push(hop).take(rec.hops.len() as int) =~= rec.hops);
                assert(rec.hops.push(hop)[rec.hops.len() as int] == hop);
                assert forall|x: (Seq<char>, Seq<char>)| #[trigger] r.hops.contains(x) implies rec.hops.contains(x) || x == hop by {
                    let k = choose|k: int| 0 <= k < r.hops.len() && r.hops[k] == x;
                    if k < rec.hops.len() {
                        assert(rec.hops[k] == x);
                    }
                }
                assert forall|x: (Seq<char>, Seq<char>)| rec.hops.contains(x) implies #[trigger] r.hops.contains(x) by {
                    let k = choose|k: int| 0 <= k < rec.hops.len() && rec.hops[k] == x;
                    assert(r.hops[k] == x);
                }
            }
        } else {
            if !rec.fields.contains(name) {
                assert(rec.fields.push(name).take(rec.fields.len() as int) =~= rec.fields);
                assert(rec.fields.push(name)[rec.fields.len() as int] == name);
                assert forall|x: Seq<char>| #[trigger] r.fields.contains(x) implies rec.fields.contains(x) || x == name by {
                    let k = choose|k: int| 0 <= k < r.fields.len() && r.fields[k] == x;
                    if k < rec.fields.len() {
                        assert(rec.fields[k] == x);
                    }
                }
                assert forall|x: Seq<char>| rec.fields.contains(x) implies #[trigger] r.fields.contains(x) by {
                    let k = choose|k: int| 0 <= k < rec.fields.len() && rec.fields[k] == x;
                    assert(r.fields[k] == x);
                }
            }
        }
    }
}

/// Nothing collected is lost: through any tag, the record in flight keeps
/// its fields and hops as prefixes of what follows, and a closing
/// `</record>` hands exactly them to a new last view after the earlier ones.
pub proof fn law_scan_step_keeps_collected(s: Seq<char>, st: ScanModel, a: int, b: int)
    ensures
        ({
            let nx = scan_step(s, st, a, b);
            &&& prefix_of(st.out, nx.out)
            &&& st.cur matches Some(rec) ==> match nx.cur {
                Some(r2) => prefix_of(rec.hops, r2.hops) && prefix_of(rec.fields, r2.fields),
                None => nx.out == st.out.push(rec_result(rec)),
            }
        }),
{
    let nx = scan_step(s, st, a, b);
    assert(st.out.take(st.out.len() as int) =~= st.out);
    match st.cur {
        None => {},
        Some(rec) => {
            assert(rec.hops.take(rec.hops.len() as int) =~= rec.hops);
            assert(rec.fields.take(rec.fields.len() as int) =~= rec.fields);
            if rec.in_arch {
                law_arch_step_collects(rec, s.subrange(a, b));
            } else if !is_close(s.subrange(a, b), "field"@) && !is_open(s.subrange(a, b), "field"@) && is_close(
                s.subrange(a, b),
                "record"@,
            ) {
                assert(st.out.push(rec_result(rec)).take(st.out.len() as int) =~= st.out);
            }
        },
    }
}

/// The in-flight scan of one record.
struct RecordScan {
    view_name: String,
    model: String,
    fields: Vec<String>,
    hops: Vec<(String, String)>,
    stack: Vec<String>,
    in_arch: bool,
    pending: Option<(MetaSlot, usize)>,
}

impl RecordScan {
    spec fn view(&self) -> RecModel {
        RecModel {
            view_name: self.view_name@,
            model: self.model@,
            fields: view_strs(self.fields@),
            hops: pairs_view(self.hops@),
            stack: view_strs(self.stack@),
            in_arch: self.in_arch,
            pending: match self.pending {
                Some((slot, ts)) => Some((slot, ts as int)),
                None => None,
            },
        }
    }

    fn fresh() -> (r: RecordScan)
        ensures
            r.view() == fresh_rec(),
            r.pending is None,
    {
        let r = RecordScan {
            view_name: String::new(),
            model: String::new(),
            fields: Vec::new(),
            hops: Vec::new(),
            stack: Vec::new(),
            in_arch: false,
            pending: None,
        };
        proof {
            assert(view_strs(r.fields@) =~= Seq::<Seq<char>>::empty());
            assert(pairs_view(r.hops@) =~= Seq::<(Seq<char>, Seq<char>)>::empty());
            assert(view_strs(r.stack@) =~= Seq::<Seq<char>>::empty());
        }
        r
    }
}

spec fn cur_view(cur: Option<RecordScan>) -> Option<RecModel> {
    match cur {
        Some(r) => Some(r.view()),
        None => None,
    }
}

/// Whether `(a, b)` is among `pairs`.
fn contains_pair(pairs: &Vec<(String, String)>, a: &str, b: &str) -> (r: bool)
    ensures
        r == pairs_view(pairs@).contains((a@, b@)),
{
    let mut i: usize = 0;
    while i < pairs.len()
        invariant
            i <= pairs@.len(),
            forall|j: int| 0 <= j < i ==> pairs_view(pairs@)[j] != (a@, b@),
        decreases pairs@.len() - i,
    {
        if str_eq(pairs[i].0.as_str(), a) && str_eq(pairs[i].1.as_str(), b) {
            assert(pairs_view(pairs@)[i as int] == (a@, b@));
            return true;
        }
        i += 1;
    }
    false
}

/// One arch-payload tag through the record scan.
fn arch_tag(rec: &mut RecordScan, xml: &str, a: usize, tag: &Vec<char>)
    requires
        a + tag@.len() <= xml@.len(),
        xml@.len() <= usize::MAX,
        tag@ == xml@.subrange(a as int, a + tag@.len()),
    ensures
        final(rec).view() == arch_step(old(rec).view(), tag@),
        final(rec).pending == old(rec).pending,
{
    let ghost r0 = rec.view();
    if tag_is_open(tag, "field") {
        let name = match tag_attr_value(xml, a, tag, "name") {
            Some(v) => v,
            None => String::new(),
        };
        if rec.stack.len() > 0 {
            let outer = rec.stack[rec.stack.len() - 1].clone();
            proof {
                assert(view_strs(rec.stack@).last() == outer@);
            }
            if !contains_pair(&rec.hops, outer.as_str(), name.as_str()) {
                let ghost before = rec.hops@;
                rec.hops.push((outer, name.clone()));
                proof {
                    assert(pairs_view(rec.hops@) =~= pairs_view(before).push((r0.stack.last(), name@)));
                }
            }
        } else if !contains_str(rec.fields.as_slice(), name.as_str()) {
            let ghost before = rec.fields@;
            rec.fields.push(name.clone());
            proof {
                assert(view_strs(rec.fields@) =~= view_strs(before).push(name@));
            }
        }
        let ghost nm = name@;
        if !tag_is_self_closing(tag) {
            let ghost before = rec.stack@;
            rec.stack.push(name);
            proof {
                assert(view_strs(rec.stack@) =~= view_strs(before).push(nm));
            }
        }
    } else if tag_is_close(tag, "field") {
        if rec.stack.len() == 0 {
            rec.in_arch = false;
        } else {
            let ghost before = rec.stack@;
            rec.stack.pop();
            proof {
                assert(view_strs(rec.stack@) =~= view_strs(before).drop_last());
            }
        }
    }
}

/// A `</field>` outside arch: store the pending capture's trimmed text.
fn close_meta_tag(rec: &mut RecordScan, xml: &str, a: usize)
    requires
        a <= xml@.len(),
        old(rec).pending matches Some((_, ts)) ==> ts <= a,
    ensures
        final(rec).view() == close_meta(old(rec).view(), xml@, a as int),
        final(rec).pending is None || final(rec).pending == old(rec).pending,
{
    match rec.pending {
        Some((slot, ts)) => {
            let text = trim_str(substring(xml, ts, a));
            let owned = to_owned_string(text);
            match slot {
                MetaSlot::ViewName => {
                    rec.view_name = owned;
                },
                MetaSlot::Model => {
                    rec.model = owned;
                },
            }
            rec.pending = None;
        },
        None => {},
    }
}

/// A `<field>` outside arch, ending at `b`.
fn open_meta_tag(rec: &mut RecordScan, xml: &str, a: usize, b: usize, tag: &Vec<char>)
    requires
        a + tag@.len() == b,
        b <= xml@.len(),
        xml@.len() <= usize::MAX,
        tag@ == xml@.subrange(a as int, b as int),
    ensures
        final(rec).view() == open_meta(old(rec).view(), tag@, b as int),
        final(rec).pending matches Some((_, ts)) ==> ts == b,
{
    rec.pending = None;
    if !tag_is_self_closing(tag) {
        match tag_attr_value(xml, a, tag, "name") {
            Some(v) => {
                if str_eq(v.as_str(), "arch") {
                    rec.in_arch = true;
                } else if str_eq(v.as_str(), "name") {
                    rec.pending = Some((MetaSlot::ViewName, b));
                } else if str_eq(v.as_str(), "model") {
                    rec.pending = Some((MetaSlot::Model, b));
                }
            },
            None => {},
        }
    }
}

/// Harvest every `ir.ui.view` record of an XML document (or fragment), in
/// document order. Records of any other model are skipped wholesale.
pub fn extract_view_fields(xml: &str) -> (views: Vec<ViewFields>)
    ensures
        views_view(views@) == harvest(xml@),
{
    let cs = chars_of(xml);
    let n = cs.len();
    let ghost s = xml@;
    let mut out: Vec<ViewFields> = Vec::new();
    let mut cur: Option<RecordScan> = None;
    let mut pos: usize = 0;
    proof {
        assert(views_view(out@) =~= Seq::<ViewModel>::empty());
    }
    loop
        invariant
            cs@ == s,
            s == xml@,
            n == s.len(),
            pos <= n,
            harvest(s) == scan_from(s, pos as int, ScanModel { out: views_view(out@), cur: cur_view(cur) }).out,
            cur matches Some(r) ==> (r.pending matches Some((_, ts)) ==> ts <= pos),
        decreases n - pos,
    {
        let ghost st0 = ScanModel { out: views_view(out@), cur: cur_view(cur) };
        match scan_next_tag(&cs, pos) {
            None => {
                return out;
            },
            Some((a, b)) => {
                proof {
                    lemma_next_tag_range(s, pos as int);
                }
                let tag = slice_chars(&cs, a, b);
                let ghost st1 = scan_step(s, st0, a as int, b as int);
                match cur {
                    None => {
                        if tag_is_open(&tag, "record") && !tag_is_self_closing(&tag) {
                            if let Some(m) = tag_attr_value(xml, a, &tag, "model") {
                                if str_eq(m.as_str(), "ir.ui.view") {
                                    cur = Some(RecordScan::fresh());
                                }
                            }
                        }
                    },
                    Some(mut rec) => {
                        if rec.in_arch {
                            arch_tag(&mut rec, xml, a, &tag);
                            cur = Some(rec);
                        } else if tag_is_close(&tag, "field") {
                            close_meta_tag(&mut rec, xml, a);
                            cur = Some(rec);
                        } else if tag_is_open(&tag, "field") {
                            open_meta_tag(&mut rec, xml, a, b, &tag);
                            cur = Some(rec);
                        } else if tag_is_close(&tag, "record") {
                            let ghost before = out@;
                            let done = ViewFields {
                                view_name: rec.view_name,
                                model: rec.model,
                                fields: rec.fields,
                                relation_hops: rec.hops,
                            };
                            out.push(done);
                            proof {
                                assert(views_view(out@) =~= views_view(before).push(done.model_view()));
                            }
                            cur = None;
                        } else {
                            rec.pending = None;
                            cur = Some(rec);
                        }
                    },
                }
                proof {
                    assert(st1 == ScanModel { out: views_view(out@), cur: cur_view(cur) });
                }
                pos = b;
            },
        }
    }
}

/// The value of `attr="..."` inside a tag's text, requiring whitespace
/// before the attribute name so `name=` never matches `inverse_name=`.
pub fn attr_value<'a>(tag: &'a str, attr: &str) -> (r: Option<&'a str>)
    ensures
        match r {
            Some(v) => attr_text(tag@, attr@) == Some(v@),
            None => attr_text(tag@, attr@) is None,
        },
{
    let cs = chars_of(tag);
    match tag_attr(&cs, attr) {
        None => None,
        Some((a, b)) => {
            proof {
                lemma_attr_from_range(cs@, attr@ + seq!['=', '"'], 0);
            }
            Some(tag.substring_char(a, b))
        },
    }
}

} // verus!
