//! The decisions of the `od-codegen` command line: argument parsing, the
//! table universe a run projects over, and the lines each mode prints.
//!
//! Reading the corpus, decoding it and printing stay with the program; this
//! module takes and returns plain values.
use vstd::prelude::*;
use crate::inheritance::view_strrefs;
use crate::strset::{contains_strref, sorted, sorted_insert, view_strs};
use crate::text::{
    chars_of, find_char, find_char_from, has_prefix, starts_with, str_eq, substring, to_owned_string,
    trim, trim_str,
};
use crate::ogar_actions::{corpus_action_rows, corpus_actions, row_of, rows_view, ActionModel};
use crate::triple::{model_of, spec_model_of, Triple};

verus! {

/// Where the corpus comes from.
#[derive(Debug, Clone, PartialEq, Eq)]
pub enum Input {
    /// Standard input (no path, or `-`).
    Stdin,
    /// A file path.
    Path(String),
}

/// The parsed command line.
#[derive(Debug, Clone, PartialEq, Eq)]
pub struct ParsedArgs {
    /// The corpus source.
    pub input: Input,
    /// The focus models; empty projects the whole corpus.
    pub focus: Vec<String>,
    /// Print triple / table counts.
    pub stats: bool,
    /// Print the behavioral-arm rows instead of the classid map.
    pub actions: bool,
    /// Print the usage text.
    pub help: bool,
}

/// The abstract corpus source.
pub enum InputModel {
    /// Standard input.
    Stdin,
    /// A file path.
    Path(Seq<char>),
}

/// The abstract command line, with the input still unset where no argument
/// named one.
pub struct ArgsModel {
    /// The corpus source named so far.
    pub input: Option<InputModel>,
    /// The focus models.
    pub focus: Seq<Seq<char>>,
    /// `--stats`.
    pub stats: bool,
    /// `--actions`.
    pub actions: bool,
    /// `-h` / `--help`.
    pub help: bool,
}

/// The pieces of `s` between the `c` separators, from position `start`
/// (`str::split` semantics: `k` separators give `k + 1` pieces).
pub open spec fn split_from(s: Seq<char>, c: char, start: int) -> Seq<Seq<char>>
    decreases s.len() + 1 - start,
{
    if start < 0 || start > s.len() {
        Seq::empty()
    } else {
        match find_char(s, c, start) {
            None => seq![s.subrange(start, s.len() as int)],
            Some(j) => {
                proof {
                    crate::text::lemma_find_char_range(s, c, start);
                }
                seq![s.subrange(start, j)] + split_from(s, c, j + 1)
            },
        }
    }
}

/// The trimmed non-empty pieces, in order.
pub open spec fn kept_pieces(ps: Seq<Seq<char>>) -> Seq<Seq<char>>
    decreases ps.len(),
{
    if ps.len() == 0 {
        Seq::empty()
    } else {
        (if trim(ps[0]).len() > 0 {
            seq![trim(ps[0])]
        } else {
            Seq::empty()
        }) + kept_pieces(ps.drop_first())
    }
}

/// A `--focus` value: its comma-separated entries, trimmed, empties dropped.
pub open spec fn focus_list(v: Seq<char>) -> Seq<Seq<char>> {
    kept_pieces(split_from(v, ',', 0))
}

/// The message for a `--focus` without a value.
pub open spec fn focus_missing_msg() -> Seq<char> {
    "-f/--focus requires a comma-separated model list"@
}

/// The message for an unknown `--` flag.
pub open spec fn unknown_flag_msg(flag: Seq<char>) -> Seq<char> {
    "unknown flag `"@ + flag + "`"@
}

/// The command line from argument `i` on, with `st` parsed so far.
pub open spec fn parse_from(args: Seq<Seq<char>>, i: int, st: ArgsModel) -> Result<ArgsModel, Seq<char>>
    decreases args.len() - i,
{
    if i < 0 || i >= args.len() {
        Ok(st)
    } else {
        let a = args[i];
        if a == "-h"@ || a == "--help"@ {
            parse_from(args, i + 1, ArgsModel { help: true, ..st })
        } else if a == "--stats"@ {
            parse_from(args, i + 1, ArgsModel { stats: true, ..st })
        } else if a == "--classids"@ {
            parse_from(args, i + 1, st)
        } else if a == "--actions"@ {
            parse_from(args, i + 1, ArgsModel { actions: true, ..st })
        } else if a == "-f"@ || a == "--focus"@ {
            if i + 1 >= args.len() {
                Err(focus_missing_msg())
            } else {
                parse_from(args, i + 2, ArgsModel { focus: focus_list(args[i + 1]), ..st })
            }
        } else if has_prefix(a, "--"@) {
            Err(unknown_flag_msg(a))
        } else if a == "-"@ {
            parse_from(args, i + 1, ArgsModel { input: Some(InputModel::Stdin), ..st })
        } else {
            parse_from(args, i + 1, ArgsModel { input: Some(InputModel::Path(a)), ..st })
        }
    }
}

/// The command line `args` denotes, or the message it is refused with.
pub open spec fn parse_spec(args: Seq<Seq<char>>) -> Result<ArgsModel, Seq<char>> {
    parse_from(
        args,
        0,
        ArgsModel { input: None, focus: Seq::empty(), stats: false, actions: false, help: false },
    )
}

impl ParsedArgs {
    /// Whether this parse is the one `m` describes, the input defaulting to
    /// standard input.
    pub open spec fn denotes(&self, m: ArgsModel) -> bool {
        &&& match (self.input, m.input) {
            (Input::Stdin, None) => true,
            (Input::Stdin, Some(InputModel::Stdin)) => true,
            (Input::Path(p), Some(InputModel::Path(q))) => p@ == q,
            _ => false,
        }
        &&& view_strs(self.focus@) == m.focus
        &&& self.stats == m.stats
        &&& self.actions == m.actions
        &&& self.help == m.help
    }
}

/// The entries of a `--focus` value.
fn split_focus(v: &str) -> (r: Vec<String>)
    ensures
        view_strs(r@) == focus_list(v@),
{
    let cs = chars_of(v);
    let mut out: Vec<String> = Vec::new();
    let mut start: usize = 0;
    proof {
        assert(view_strs(out@) + kept_pieces(split_from(v@, ',', 0)) =~= focus_list(v@));
    }
    loop
        invariant
            cs@ == v@,
            start <= cs@.len(),
            view_strs(out@) + kept_pieces(split_from(v@, ',', start as int)) == focus_list(v@),
        decreases cs@.len() + 1 - start,
    {
        let ghost before = view_strs(out@);
        let end = match find_char_from(&cs, ',', start) {
            Some(j) => j,
            None => cs.len(),
        };
        proof {
            crate::text::lemma_find_char_range(v@, ',', start as int);
        }
        let piece = trim_str(substring(v, start, end));
        let ghost ps = split_from(v@, ',', start as int);
        proof {
            assert(ps[0] == v@.subrange(start as int, end as int));
        }
        if piece.unicode_len() > 0 {
            out.push(to_owned_string(piece));
        }
        proof {
            assert(ps =~= seq![ps[0]] + ps.drop_first());
            if piece@.len() > 0 {
                assert(view_strs(out@) =~= before.push(piece@));
                assert(view_strs(out@) + kept_pieces(ps.drop_first()) =~= before + kept_pieces(ps));
            } else {
                assert(view_strs(out@) + kept_pieces(ps.drop_first()) =~= before + kept_pieces(ps));
            }
        }
        if end == cs.len() {
            proof {
                assert(ps.drop_first() =~= Seq::<Seq<char>>::empty());
                assert(view_strs(out@) + Seq::<Seq<char>>::empty() =~= view_strs(out@));
            }
            return out;
        }
        proof {
            assert(ps.drop_first() == split_from(v@, ',', end + 1));
        }
        start = end + 1;
    }
}

/// Parse the command line (without the program name). `-h`/`--help`,
/// `--stats`, `--classids` (the default mode, accepted for compatibility),
/// `--actions`, `-f`/`--focus MODELS` (comma-separated, trimmed, empties
/// dropped); any other `--` flag is refused; `-` or a path names the input,
/// the last one winning; standard input is the default.
pub fn parse_args(args: &[String]) -> (r: Result<ParsedArgs, String>)
    ensures
        match r {
            Ok(p) => parse_spec(view_strs(args@)) matches Ok(m) && p.denotes(m),
            Err(e) => parse_spec(view_strs(args@)) == Err::<ArgsModel, Seq<char>>(e@),
        },
{
    let ghost av = view_strs(args@);
    let mut input: Option<Input> = None;
    let mut focus: Vec<String> = Vec::new();
    let mut stats = false;
    let mut actions = false;
    let mut help = false;
    let mut i: usize = 0;
    proof {
        assert(view_strs(focus@) =~= Seq::<Seq<char>>::empty());
    }
    while i < args.len()
        invariant
            av == view_strs(args@),
            i <= args@.len(),
            parse_spec(av) == parse_from(
                av,
                i as int,
                ArgsModel {
                    input: match input {
                        None => None,
                        Some(Input::Stdin) => Some(InputModel::Stdin),
                        Some(Input::Path(p)) => Some(InputModel::Path(p@)),
                    },
                    focus: view_strs(focus@),
                    stats,
                    actions,
                    help,
                },
            ),
        decreases args@.len() - i,
    {
        let a = args[i].as_str();
        proof {
            assert(av[i as int] == a@);
        }
        if str_eq(a, "-h") || str_eq(a, "--help") {
            help = true;
        } else if str_eq(a, "--stats") {
            stats = true;
        } else if str_eq(a, "--classids") {
        } else if str_eq(a, "--actions") {
            actions = true;
        } else if str_eq(a, "-f") || str_eq(a, "--focus") {
            if i + 1 >= args.len() {
                return Err(String::from_str("-f/--focus requires a comma-separated model list"));
            }
            i += 1;
            proof {
                assert(av[i as int] == args@[i as int]@);
            }
            focus = split_focus(args[i].as_str());
        } else if starts_with(a, "--") {
            let mut msg = String::from_str("unknown flag `");
            msg.append(a);
            msg.append("`");
            return Err(msg);
        } else if str_eq(a, "-") {
            input = Some(Input::Stdin);
        } else {
            input = Some(Input::Path(to_owned_string(a)));
        }
        i += 1;
    }
    let input = match input {
        Some(x) => x,
        None => Input::Stdin,
    };
    Ok(ParsedArgs { input, focus, stats, actions, help })
}

// ── the table universe ───────────────────────────────────────────────────────

/// The model a triple declares as a table: the subject's model of a
/// `(*, rdf:type, ogit:ObjectType)` row.
pub open spec fn object_type_model(t: Triple) -> Option<Seq<char>> {
    if t.p@ == "rdf:type"@ && t.o@ == "ogit:ObjectType"@ {
        Some(spec_model_of(t.s@))
    } else {
        None
    }
}

/// The declared tables, restricted to `focus` unless it is empty.
pub open spec fn focused_tables(ts: Seq<Triple>, focus: Seq<Seq<char>>) -> Set<Seq<char>> {
    Set::new(
        |m: Seq<char>|
            (exists|i: int| 0 <= i < ts.len() && object_type_model(ts[i]) == Some(m)) && (focus.len() == 0
                || focus.contains(m)),
    )
}

/// The distinct models declared as `(*, rdf:type, ogit:ObjectType)`,
/// restricted to `focus` unless it is empty, ascending.
pub fn object_type_tables(triples: &[Triple], focus: &[&str]) -> (tables: Vec<String>)
    ensures
        sorted(view_strs(tables@)),
        view_strs(tables@).to_set() == focused_tables(triples@, view_strrefs(focus@)),
{
    let ghost ts = triples@;
    let ghost fv = view_strrefs(focus@);
    let mut out: Vec<String> = Vec::new();
    let mut i: usize = 0;
    proof {
        assert(view_strs(out@).to_set() =~= focused_tables(ts.take(0), fv));
    }
    while i < triples.len()
        invariant
            ts == triples@,
            fv == view_strrefs(focus@),
            i <= ts.len(),
            sorted(view_strs(out@)),
            view_strs(out@).to_set() == focused_tables(ts.take(i as int), fv),
        decreases ts.len() - i,
    {
        let t = &triples[i];
        let ghost before = view_strs(out@).to_set();
        if str_eq(t.p.as_str(), "rdf:type") && str_eq(t.o.as_str(), "ogit:ObjectType") {
            let m = model_of(t.s.as_str());
            if focus.len() == 0 || contains_strref(focus, m) {
                sorted_insert(&mut out, m);
            }
        }
        proof {
            let tk0 = ts.take(i as int);
            let tk1 = ts.take(i + 1);
            assert(tk1 =~= tk0.push(ts[i as int]));
            assert forall|m: Seq<char>| view_strs(out@).to_set().contains(m) <==> focused_tables(tk1, fv).contains(m) by {
                if focused_tables(tk1, fv).contains(m) {
                    let j = choose|j: int| 0 <= j < tk1.len() && object_type_model(tk1[j]) == Some(m);
                    if j < i {
                        assert(tk0[j] == tk1[j]);
                        assert(focused_tables(tk0, fv).contains(m));
                    }
                }
                if before.contains(m) {
                    let j = choose|j: int| 0 <= j < tk0.len() && object_type_model(tk0[j]) == Some(m);
                    assert(tk1[j] == tk0[j]);
                }
                if view_strs(out@).to_set().contains(m) && !before.contains(m) {
                    assert(tk1[i as int] == ts[i as int]);
                }
            }
            assert(view_strs(out@).to_set() =~= focused_tables(tk1, fv));
        }
        i += 1;
    }
    proof {
        assert(ts.take(ts.len() as int) =~= ts);
    }
    out
}

// ── output lines ─────────────────────────────────────────────────────────────

/// The views of a vector of string quadruples.
pub open spec fn quads_view(v: Seq<(String, String, String, String)>) -> Seq<(Seq<char>, Seq<char>, Seq<char>, Seq<char>)> {
    v.map_values(|r: (String, String, String, String)| (r.0@, r.1@, r.2@, r.3@))
}

/// The `--actions` lines of `rows`: `model.predicate<TAB>kind<TAB>detail`,
/// only for the focus models unless the focus is empty.
pub open spec fn action_lines_spec(
    rows: Seq<(Seq<char>, Seq<char>, Seq<char>, Seq<char>)>,
    focus: Seq<Seq<char>>,
) -> Seq<Seq<char>>
    decreases rows.len(),
{
    if rows.len() == 0 {
        Seq::empty()
    } else {
        let r = rows.last();
        action_lines_spec(rows.drop_last(), focus) + if focus.len() == 0 || focus.contains(r.0) {
            seq![r.0 + "."@ + r.1 + "\t"@ + r.2 + "\t"@ + r.3]
        } else {
            Seq::empty()
        }
    }
}

/// The `--actions` output lines for `rows` under `focus`.
pub fn action_lines(rows: &[(String, String, String, String)], focus: &[String]) -> (lines: Vec<String>)
    ensures
        view_strs(lines@) == action_lines_spec(quads_view(rows@), view_strs(focus@)),
{
    let ghost rv = quads_view(rows@);
    let mut out: Vec<String> = Vec::new();
    let mut k: usize = 0;
    proof {
        assert(view_strs(out@) =~= Seq::<Seq<char>>::empty());
    }
    while k < rows.len()
        invariant
            rv == quads_view(rows@),
            k <= rows@.len(),
            view_strs(out@) == action_lines_spec(rv.take(k as int), view_strs(focus@)),
        decreases rows@.len() - k,
    {
        let r = &rows[k];
        let ghost before = view_strs(out@);
        proof {
            assert(rv.take(k + 1).drop_last() =~= rv.take(k as int));
            assert(rv.take(k + 1).last() == (r.0@, r.1@, r.2@, r.3@));
        }
        if focus.len() == 0 || crate::strset::contains_str(focus, r.0.as_str()) {
            let mut line = r.0.clone();
            line.append(".");
            line.append(r.1.as_str());
            line.append("\t");
            line.append(r.2.as_str());
            line.append("\t");
            line.append(r.3.as_str());
            out.push(line);
            proof {
                assert(view_strs(out@) =~= before.push(line@));
            }
        } else {
            proof {
                assert(before + Seq::<Seq<char>>::empty() =~= before);
            }
        }
        k += 1;
    }
    proof {
        assert(rv.take(rows@.len() as int) =~= rv);
    }
    out
}

/// The uppercase hexadecimal digit of `d < 16`.
pub open spec fn hex_digit(d: int) -> char {
    "0123456789ABCDEF"@[d]
}

/// The eight uppercase hexadecimal digits of `x`, most significant first.
pub open spec fn hex8(x: u32) -> Seq<char> {
    Seq::new(8, |k: int| hex_digit(((x as int) / pow16(7 - k)) % 16))
}

/// `16^n`.
pub open spec fn pow16(n: int) -> int
    decreases n,
{
    if n <= 0 {
        1
    } else {
        16 * pow16(n - 1)
    }
}

proof fn lemma_pow16_pos(n: int)
    ensures
        pow16(n) >= 1,
    decreases n,
{
    if n > 0 {
        lemma_pow16_pos(n - 1);
    }
}

/// The `--classids` line of a table: `table<TAB>0xAABBCCDD`, or
/// `table<TAB>(uncodified)` for a model outside the codebook.
pub open spec fn classid_line_spec(table: Seq<char>, id: Option<u32>) -> Seq<char> {
    match id {
        Some(x) => table + "\t0x"@ + hex8(x),
        None => table + "\t(uncodified)"@,
    }
}

/// The `--classids` output line for `table` and its classid.
pub fn classid_line(table: &str, id: Option<u32>) -> (line: String)
    ensures
        line@ == classid_line_spec(table@, id),
{
    let mut line = to_owned_string(table);
    match id {
        None => {
            line.append("\t(uncodified)");
        },
        Some(x) => {
            line.append("\t0x");
            let digits = "0123456789ABCDEF";
            proof {
                reveal_strlit("0123456789ABCDEF");
            }
            let ghost start = line@;
            let mut k: u32 = 0;
            let mut div: u32 = 0x1000_0000;
            proof {
                reveal_with_fuel(pow16, 8);
                assert(line@ =~= start + hex8(x).take(0));
            }
            while k < 8
                invariant
                    k <= 8,
                    digits@ == "0123456789ABCDEF"@,
                    digits@.len() == 16,
                    div as int == pow16(7 - k),
                    div >= 1,
                    line@ == start + hex8(x).take(k as int),
                decreases 8 - k,
            {
                let d = ((x / div) % 16) as usize;
                let ghost before = line@;
                line.append(digits.substring_char(d, d + 1));
                proof {
                    assert(digits@.subrange(d as int, d + 1) =~= seq![hex_digit(d as int)]);
                    assert(hex8(x)[k as int] == hex_digit(d as int));
                    assert(hex8(x).take(k + 1) =~= hex8(x).take(k as int).push(hex8(x)[k as int]));
                }
                if k < 7 {
                    proof {
                        assert(pow16(7 - k) == 16 * pow16(7 - k - 1));
                        lemma_pow16_pos(7 - k - 1);
                    }
                    div = div / 16;
                }
                k += 1;
            }
            proof {
                assert(hex8(x).take(8) =~= hex8(x));
            }
        },
    }
    line
}

/// A table name in model form: every `_` becomes `.` (`account_move_line`
/// gives `account.move.line`), the inverse of Odoo's table naming.
pub open spec fn model_form_spec(t: Seq<char>) -> Seq<char> {
    t.map_values(|c: char| if c == '_' { '.' } else { c })
}

/// A table name in model form.
pub fn model_form(table: &str) -> (m: String)
    ensures
        m@ == model_form_spec(table@),
{
    let cs = chars_of(table);
    let mut out = String::new();
    let mut k: usize = 0;
    while k < cs.len()
        invariant
            cs@ == table@,
            k <= cs@.len(),
            out@ == model_form_spec(table@).take(k as int),
        decreases cs@.len() - k,
    {
        if cs[k] == '_' {
            out.append(".");
            proof {
                reveal_strlit(".");
            }
        } else {
            out.append(substring(table, k, k + 1));
        }
        proof {
            assert(model_form_spec(table@).take(k + 1) =~= model_form_spec(table@).take(k as int).push(
                model_form_spec(table@)[k as int],
            ));
        }
        k += 1;
    }
    proof {
        assert(model_form_spec(table@).take(cs@.len() as int) =~= model_form_spec(table@));
    }
    out
}

// ── the run ──────────────────────────────────────────────────────────────────

/// What a run does once its corpus is decoded.
#[derive(Debug, Clone, PartialEq, Eq)]
pub enum RunPlan {
    /// Degenerate input: the corpus holds no triple (exit status 2).
    ZeroTriples,
    /// Degenerate output: the focus matched no declared table (exit status 2).
    ZeroTables,
    /// `--actions`: the lines to print.
    Actions(Vec<String>),
    /// `--classids`: the tables to print, ascending, each with its classid.
    Classids(Vec<String>),
}

/// The `--actions` lines of a corpus under a focus.
pub open spec fn corpus_action_lines(ts: Seq<Triple>, focus: Seq<Seq<char>>) -> Seq<Seq<char>> {
    action_lines_spec(corpus_actions(ts).map_values(|a: ActionModel| row_of(a)), focus)
}

/// Decide a run: no triples and no focused table are degenerate; otherwise
/// `--actions` prints the behavioral-arm lines of the focused models and the
/// default mode the focused tables. Both modes check the focus against the
/// declared tables first, so a mistyped focus is degenerate in either.
pub fn plan_run(triples: &[Triple], focus: &[String], actions: bool) -> (p: RunPlan)
    ensures
        triples@.len() == 0 ==> p is ZeroTriples,
        triples@.len() > 0 && focused_tables(triples@, view_strs(focus@)) == Set::<Seq<char>>::empty() ==> p is ZeroTables,
        triples@.len() > 0 && focused_tables(triples@, view_strs(focus@)) != Set::<Seq<char>>::empty() && actions
            ==> (p matches RunPlan::Actions(lines) && view_strs(lines@) == corpus_action_lines(triples@, view_strs(focus@))),
        triples@.len() > 0 && focused_tables(triples@, view_strs(focus@)) != Set::<Seq<char>>::empty() && !actions
            ==> (p matches RunPlan::Classids(tables) && sorted(view_strs(tables@)) && view_strs(tables@).to_set()
                == focused_tables(triples@, view_strs(focus@))),
{
    if triples.len() == 0 {
        return RunPlan::ZeroTriples;
    }
    let mut refs: Vec<&str> = Vec::new();
    let mut k: usize = 0;
    while k < focus.len()
        invariant
            k <= focus@.len(),
            view_strrefs(refs@) == view_strs(focus@).take(k as int),
        decreases focus@.len() - k,
    {
        let ghost before = refs@;
        refs.push(focus[k].as_str());
        proof {
            assert(view_strrefs(refs@) =~= view_strrefs(before).push(focus@[k as int]@));
            assert(view_strs(focus@).take(k + 1) =~= view_strs(focus@).take(k as int).push(focus@[k as int]@));
        }
        k += 1;
    }
    proof {
        assert(view_strs(focus@).take(focus@.len() as int) =~= view_strs(focus@));
    }
    let tables = object_type_tables(triples, refs.as_slice());
    if tables.len() == 0 {
        proof {
            assert(view_strs(tables@).to_set() =~= Set::<Seq<char>>::empty());
        }
        return RunPlan::ZeroTables;
    }
    proof {
        assert(view_strs(tables@)[0] == tables@[0]@);
        assert(view_strs(tables@).to_set().contains(view_strs(tables@)[0]));
        assert(view_strs(tables@).to_set() != Set::<Seq<char>>::empty());
    }
    if actions {
        let rows = corpus_action_rows(triples);
        let lines = action_lines(rows.as_slice(), focus);
        proof {
            assert(quads_view(rows@) =~= rows_view(rows@));
        }
        RunPlan::Actions(lines)
    } else {
        RunPlan::Classids(tables)
    }
}

} // verus!
