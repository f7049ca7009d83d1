//! The SPO triple corpus: the typed input every lowering pass reads.
//!
//! IRI shape: `odoo:<model>.<member>` where the first dot of the local part
//! separates model from member, and dotted dependency paths
//! (`account_move.line_ids.balance`) are kept verbatim.
//!
//! The NARS `(frequency, confidence)` truth values that ride along each row on
//! the wire are not read by any pass of this library; the wire form (and the
//! JSON decoding that yields it) lives with the I/O layer.
use vstd::prelude::*;
use crate::text::str_eq;
use crate::text::{
    all_ws, chars_of, contains_char, first_pos, is_blank, is_first, lemma_first_pos,
    lemma_first_pos_none, owned_sub, split_once, split_once_char, to_owned_string,
};

verus! {

/// One ontology triple: subject, predicate, object.
#[derive(Debug, Clone, PartialEq, Eq)]
pub struct Triple {
    /// Subject IRI (`odoo:account_move.amount_total`).
    pub s: String,
    /// Predicate (`depends_on`, `emitted_by`, `rdf:type`, ...).
    pub p: String,
    /// Object IRI (`odoo:account_move.line_ids.balance`, `ogit:Property`, ...).
    pub o: String,
}

impl Triple {
    /// A triple from its three parts.
    pub fn new(s: &str, p: &str, o: &str) -> (t: Triple)
        ensures
            t.s@ == s@,
            t.p@ == p@,
            t.o@ == o@,
    {
        Triple { s: to_owned_string(s), p: to_owned_string(p), o: to_owned_string(o) }
    }
}

/// The local part of an IRI: everything after the first `:`, or the whole
/// IRI when it carries no namespace.
pub open spec fn spec_strip_ns(iri: Seq<char>) -> Seq<char> {
    match split_once(iri, ':') {
        Some((_, rest)) => rest,
        None => iri,
    }
}

/// The model segment of an IRI: the local part up to its first `.`.
pub open spec fn spec_model_of(iri: Seq<char>) -> Seq<char> {
    let local = spec_strip_ns(iri);
    match split_once(local, '.') {
        Some((m, _)) => m,
        None => local,
    }
}

/// The member path of an IRI: the local part after its first `.`.
pub open spec fn spec_member_of(iri: Seq<char>) -> Option<Seq<char>> {
    match split_once(spec_strip_ns(iri), '.') {
        Some((_, m)) => Some(m),
        None => None,
    }
}

/// The closed predicate vocabulary of the corpus.
pub open spec fn known_predicate(p: Seq<char>) -> bool {
    ||| p == "rdf:type"@
    ||| p == "has_function"@
    ||| p == "emitted_by"@
    ||| p == "depends_on"@
    ||| p == "reads_field"@
    ||| p == "raises"@
    ||| p == "traverses_relation"@
    ||| p == "target"@
    ||| p == "inverse_name"@
    ||| p == "inherits_from"@
    ||| p == "validation_kind"@
    ||| p == "selection_value"@
}

/// Whether `p` is in the corpus's closed predicate vocabulary: `rdf:type`,
/// `has_function`, `emitted_by`, `depends_on`, `reads_field`, `raises`,
/// `traverses_relation`, `target`, `inverse_name`, `inherits_from`,
/// `validation_kind`, `selection_value`. A row with any other predicate (a
/// typo such as `depend_on`) is a corrupted corpus, not an expected case.
pub fn is_known_predicate(p: &str) -> (b: bool)
    ensures
        b == known_predicate(p@),
{
    str_eq(p, "rdf:type") || str_eq(p, "has_function") || str_eq(p, "emitted_by") || str_eq(p, "depends_on") || str_eq(p, "reads_field") || str_eq(p, "raises") || str_eq(p, "traverses_relation") || str_eq(p, "target") || str_eq(p, "inverse_name") || str_eq(p, "inherits_from") || str_eq(p, "validation_kind") || str_eq(p, "selection_value")
}

/// Strip a namespace prefix (`odoo:`, `ogit:`, `exc:`) from an IRI.
pub fn strip_ns(iri: &str) -> (res: &str)
    ensures
        res@ == spec_strip_ns(iri@),
{
    match split_once_char(iri, ':') {
        Some((_, rest)) => rest,
        None => iri,
    }
}

/// The model segment of an `odoo:<model>.<member...>` IRI:
/// `odoo:account_move.amount_total` gives `account_move`; the bare
/// `odoo:account_move` gives `account_move`.
pub fn model_of(iri: &str) -> (res: &str)
    ensures
        res@ == spec_model_of(iri@),
{
    let local = strip_ns(iri);
    match split_once_char(local, '.') {
        Some((m, _)) => m,
        None => local,
    }
}

/// The member path of an `odoo:<model>.<member...>` IRI:
/// `odoo:account_move.line_ids.balance` gives `line_ids.balance`; a bare
/// model IRI has no member.
pub fn member_of(iri: &str) -> (res: Option<&str>)
    ensures
        match res {
            Some(m) => spec_member_of(iri@) == Some(m@),
            None => spec_member_of(iri@) is None,
        },
{
    match split_once_char(strip_ns(iri), '.') {
        Some((_, m)) => Some(m),
        None => None,
    }
}

/// Whether a member path is cross-record: it walks a relation before
/// reaching the leaf (`line_ids.balance` has a dot; `amount_total` does not).
pub fn is_cross_record(member: &str) -> (res: bool)
    ensures
        res == member@.contains('.'),
{
    contains_char(member, '.')
}

/// The first relation hop of a cross-record path and the rest of it:
/// `line_ids.balance` gives `(line_ids, balance)`.
pub fn first_hop(path: &str) -> (res: Option<(&str, &str)>)
    ensures
        match res {
            Some((a, b)) => split_once(path@, '.') == Some((a@, b@)),
            None => split_once(path@, '.') is None,
        },
{
    split_once_char(path, '.')
}

// ── newline-delimited rows ──────────────────────────────────────────────────

/// A line ended by `\n` loses one trailing `\r`.
pub open spec fn strip_cr(l: Seq<char>) -> Seq<char> {
    if l.len() > 0 && l.last() == '\r' {
        l.drop_last()
    } else {
        l
    }
}

/// `str::lines`: split at `\n` (a `\r\n` ending loses its `\r`); a final line
/// ending is optional and an empty text has no lines.
pub open spec fn spec_lines(s: Seq<char>) -> Seq<Seq<char>>
    decreases s.len(),
{
    if s.len() == 0 {
        seq![]
    } else {
        match first_pos(s, '\n') {
            Some(i) => if 0 <= i < s.len() {
                seq![strip_cr(s.take(i))] + spec_lines(s.skip(i + 1))
            } else {
                seq![]
            },
            None => seq![s],
        }
    }
}

/// The non-blank lines of `ls`, each with its 1-based line number.
pub open spec fn numbered_rows(ls: Seq<Seq<char>>) -> Seq<(int, Seq<char>)>
    decreases ls.len(),
{
    if ls.len() == 0 {
        seq![]
    } else {
        let prev = numbered_rows(ls.drop_last());
        if all_ws(ls.last()) {
            prev
        } else {
            prev.push((ls.len() as int, ls.last()))
        }
    }
}

/// The view of a row list.
pub open spec fn rows_view(rows: Seq<(usize, String)>) -> Seq<(int, Seq<char>)> {
    rows.map_values(|r: (usize, String)| (r.0 as int, r.1@))
}

/// The rows of a newline-delimited document: every line that is not blank
/// (after trimming), with its 1-based line number. Blank lines are skipped.
pub fn ndjson_rows(text: &str) -> (res: Vec<(usize, String)>)
    ensures
        rows_view(res@) == numbered_rows(spec_lines(text@)),
{
    let cs = chars_of(text);
    let n = cs.len();
    let mut rows: Vec<(usize, String)> = Vec::new();
    let mut start: usize = 0;
    let mut lineno: usize = 0;
    let ghost mut done: Seq<Seq<char>> = seq![];
    proof {
        assert(text@.skip(0) =~= text@);
        assert(done + spec_lines(text@) =~= spec_lines(text@));
    }
    while start < n
        invariant
            cs@ == text@,
            n == cs.len(),
            start <= n,
            lineno == done.len(),
            lineno <= start,
            spec_lines(text@) == done + spec_lines(text@.skip(start as int)),
            rows_view(rows@) == numbered_rows(done),
        decreases n - start,
    {
        let ghost rest = text@.skip(start as int);
        let mut i = start;
        while i < n && cs[i] != '\n'
            invariant
                start <= i <= n,
                n == cs.len(),
                forall|j: int| start <= j < i ==> cs@[j] != '\n',
            decreases n - i,
        {
            i += 1;
        }
        let ghost line: Seq<char>;
        let next: usize;
        if i < n {
            proof {
                assert(is_first(rest, '\n', i - start));
                lemma_first_pos(rest, '\n', i - start);
                assert(rest.take(i - start) =~= text@.subrange(start as int, i as int));
                assert(rest.skip(i - start + 1) =~= text@.skip(i + 1));
            }
            let mut e = i;
            if e > start && cs[e - 1] == '\r' {
                e -= 1;
            }
            proof {
                line = strip_cr(text@.subrange(start as int, i as int));
                assert(line =~= text@.subrange(start as int, e as int));
            }
            let l = owned_sub(text, start, e);
            lineno += 1;
            let ghost before = done;
            proof {
                done = done.push(line);
                assert(done.drop_last() =~= before);
            }
            if !is_blank(l.as_str()) {
                rows.push((lineno, l));
            }
            next = i + 1;
        } else {
            proof {
                lemma_first_pos_none(rest, '\n');
                line = rest;
                assert(rest =~= text@.subrange(start as int, n as int));
                assert(text@.skip(n as int) =~= seq![]);
            }
            let l = owned_sub(text, start, n);
            lineno += 1;
            let ghost before = done;
            proof {
                done = done.push(line);
                assert(done.drop_last() =~= before);
            }
            if !is_blank(l.as_str()) {
                rows.push((lineno, l));
            }
            next = n;
        }
        proof {
            assert(rows_view(rows@) =~= numbered_rows(done));
            assert(spec_lines(text@) =~= done + spec_lines(text@.skip(next as int)));
        }
        start = next;
    }
    proof {
        assert(text@.skip(n as int) =~= seq![]);
        assert(done + seq![] =~= done);
    }
    rows
}

} // verus!
